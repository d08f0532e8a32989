//! Attribute values: plain data, or a handle to a listener.
use vstd::prelude::*;
use crate::model::{ValueView, AttribValueView};

verus! {

/// A plain attribute value.
#[derive(Debug, PartialEq, Eq)]
pub enum Value {
    Str(String),
    Int(i64),
    Bool(bool),
    Bytes(Vec<u8>),
}

impl View for Value {
    type V = ValueView;

    open spec fn view(&self) -> ValueView {
        match self {
            Value::Str(s) => ValueView::Str(s@),
            Value::Int(i) => ValueView::Int(*i as int),
            Value::Bool(b) => ValueView::Bool(*b),
            Value::Bytes(b) => ValueView::Bytes(b@),
        }
    }
}

/// Whether two byte strings hold the same bytes.
fn bytes_eq(a: &Vec<u8>, b: &Vec<u8>) -> (r: bool)
    ensures
        r == (a@ == b@),
{
    if a.len() != b.len() {
        return false;
    }
    let mut i: usize = 0;
    while i < a.len()
        invariant
            i <= a.len(),
            a.len() == b.len(),
            forall|k: int| 0 <= k < i ==> a@[k] == b@[k],
        decreases a.len() - i,
    {
        if a[i] != b[i] {
            return false;
        }
        i = i + 1;
    }
    assert(a@ =~= b@);
    true
}

impl Value {
    /// Content equality of two values.
    pub fn same_as(&self, other: &Value) -> (r: bool)
        ensures
            r == (self@ == other@),
    {
        match (self, other) {
            (Value::Str(a), Value::Str(b)) => *a == *b,
            (Value::Int(a), Value::Int(b)) => *a == *b,
            (Value::Bool(a), Value::Bool(b)) => *a == *b,
            (Value::Bytes(a), Value::Bytes(b)) => bytes_eq(a, b),
            _ => false,
        }
    }
}

impl Value {
    /// The truth value, if the value is one.
    pub fn as_bool(&self) -> (r: Option<bool>)
        ensures
            match r {
                Some(b) => self@ == ValueView::Bool(b),
                None => !(self@ is Bool),
            },
    {
        match self {
            Value::Bool(b) => Some(*b),
            _ => None,
        }
    }

    /// The bytes, if the value holds bytes.
    pub fn as_bytes(&self) -> (r: Option<&Vec<u8>>)
        ensures
            match r {
                Some(b) => self@ == ValueView::Bytes(b@),
                None => !(self@ is Bytes),
            },
    {
        match self {
            Value::Bytes(b) => Some(b),
            _ => None,
        }
    }
}

impl Clone for Value {
    fn clone(&self) -> (res: Self)
        ensures
            res@ == self@,
    {
        match self {
            Value::Str(s) => Value::Str(s.clone()),
            Value::Int(i) => Value::Int(*i),
            Value::Bool(b) => Value::Bool(*b),
            Value::Bytes(b) => Value::Bytes(b.clone()),
        }
    }
}

/// An opaque handle to a listener. The engine never looks behind it: two
/// listeners under one attribute name count as the same slot being occupied.
#[derive(Debug, PartialEq, Eq, Clone, Copy)]
pub struct Callback {
    pub id: u64,
}

/// What an attribute holds.
#[derive(Debug, PartialEq, Eq)]
pub enum AttribValue {
    Value(Value),
    Callback(Callback),
}

impl View for AttribValue {
    type V = AttribValueView;

    open spec fn view(&self) -> AttribValueView {
        match self {
            AttribValue::Value(v) => AttribValueView::Plain(v@),
            AttribValue::Callback(c) => AttribValueView::Listener(c.id as int),
        }
    }
}

impl AttribValue {
    /// The plain value, if the attribute holds one.
    pub fn get_plain(&self) -> (r: Option<&Value>)
        ensures
            match r {
                Some(v) => self@ == AttribValueView::Plain(v@),
                None => self@ is Listener,
            },
    {
        match self {
            AttribValue::Value(v) => Some(v),
            AttribValue::Callback(_) => None,
        }
    }
}

impl From<Value> for AttribValue {
    fn from(v: Value) -> (a: AttribValue) {
        AttribValue::Value(v)
    }
}

impl vstd::std_specs::convert::FromSpecImpl<Value> for AttribValue {
    open spec fn obeys_from_spec() -> bool {
        true
    }

    open spec fn from_spec(v: Value) -> AttribValue {
        AttribValue::Value(v)
    }
}

impl From<Callback> for AttribValue {
    fn from(c: Callback) -> (a: AttribValue) {
        AttribValue::Callback(c)
    }
}

impl vstd::std_specs::convert::FromSpecImpl<Callback> for AttribValue {
    open spec fn obeys_from_spec() -> bool {
        true
    }

    open spec fn from_spec(c: Callback) -> AttribValue {
        AttribValue::Callback(c)
    }
}

impl Clone for AttribValue {
    fn clone(&self) -> (res: Self)
        ensures
            res@ == self@,
    {
        match self {
            AttribValue::Value(v) => AttribValue::Value(v.clone()),
            AttribValue::Callback(c) => AttribValue::Callback(Callback { id: c.id }),
        }
    }
}

} // verus!
