//! The attribute keys of native widgets, and attributes built from them.
use vstd::prelude::*;
use crate::attr_diff::find_value;
use crate::builder::attr;
use crate::model::{lookup, AttribValueView, AttributeView, ValueView};
use crate::node::{attributes_view, Attribute};
use crate::value::{AttribValue, Callback, Value};

verus! {

/// The attribute keys that native widgets understand.
#[derive(Clone, Copy, Debug, PartialEq, Eq, PartialOrd, Ord)]
pub enum AttribKey {
    /// The text of a text input.
    Value,
    /// The caption of a button, label, checkbox or radio.
    Label,
    /// Whether a checkbox or radio is checked.
    Checked,
    /// How a box aligns its children.
    Alignment,
    /// The identity of a child among its siblings: where it differs between
    /// the old and the new tree, the whole subtree is replaced.
    Key,
    /// Whether a text view can be edited.
    Editable,
    /// The bytes of an image.
    Data,
    /// The image of a button, as SVG.
    SvgImage,
    /// The style of a widget.
    Style,
    /// A click.
    ClickEvent,
    /// A mouse button going down.
    MouseDown,
    /// A mouse button going up.
    MouseUp,
    /// A move of the mouse.
    MouseMove,
    /// A change of the text.
    InputEvent,
    /// Whether a widget scrolls.
    Scrollable,
}

/// The name under which an attribute key stands in an element.
pub open spec fn key_label(k: AttribKey) -> Seq<char> {
    match k {
        AttribKey::Value => "Value"@,
        AttribKey::Label => "Label"@,
        AttribKey::Checked => "Checked"@,
        AttribKey::Alignment => "Alignment"@,
        AttribKey::Key => "Key"@,
        AttribKey::Editable => "Editable"@,
        AttribKey::Data => "Data"@,
        AttribKey::SvgImage => "SvgImage"@,
        AttribKey::Style => "Style"@,
        AttribKey::ClickEvent => "ClickEvent"@,
        AttribKey::MouseDown => "MouseDown"@,
        AttribKey::MouseUp => "MouseUp"@,
        AttribKey::MouseMove => "MouseMove"@,
        AttribKey::InputEvent => "InputEvent"@,
        AttribKey::Scrollable => "Scrollable"@,
    }
}

impl AttribKey {
    /// The name under which the key stands in an element.
    pub fn as_str(&self) -> (s: &'static str)
        ensures
            s@ == key_label(*self),
    {
        match self {
            AttribKey::Value => "Value",
            AttribKey::Label => "Label",
            AttribKey::Checked => "Checked",
            AttribKey::Alignment => "Alignment",
            AttribKey::Key => "Key",
            AttribKey::Editable => "Editable",
            AttribKey::Data => "Data",
            AttribKey::SvgImage => "SvgImage",
            AttribKey::Style => "Style",
            AttribKey::ClickEvent => "ClickEvent",
            AttribKey::MouseDown => "MouseDown",
            AttribKey::MouseUp => "MouseUp",
            AttribKey::MouseMove => "MouseMove",
            AttribKey::InputEvent => "InputEvent",
            AttribKey::Scrollable => "Scrollable",
        }
    }

    /// The name of the key, as text.
    pub fn to_string(&self) -> (s: String)
        ensures
            s@ == key_label(*self),
    {
        self.as_str().to_owned()
    }
}

/// The key that stands under the given name in an element, if the name is
/// that of a key.
pub fn key_of_name(name: &str) -> (r: Option<AttribKey>)
    ensures
        match r {
            Some(k) => name@ == key_label(k),
            None => forall|k: AttribKey| name@ != key_label(k),
        },
{
    let keys = [
        AttribKey::Value,
        AttribKey::Label,
        AttribKey::Checked,
        AttribKey::Alignment,
        AttribKey::Key,
        AttribKey::Editable,
        AttribKey::Data,
        AttribKey::SvgImage,
        AttribKey::Style,
        AttribKey::ClickEvent,
        AttribKey::MouseDown,
        AttribKey::MouseUp,
        AttribKey::MouseMove,
        AttribKey::InputEvent,
        AttribKey::Scrollable,
    ];
    assert forall|k: AttribKey| #[trigger] keys@.contains(k) by {
        match k {
            AttribKey::Value => assert(keys@[0] == k),
            AttribKey::Label => assert(keys@[1] == k),
            AttribKey::Checked => assert(keys@[2] == k),
            AttribKey::Alignment => assert(keys@[3] == k),
            AttribKey::Key => assert(keys@[4] == k),
            AttribKey::Editable => assert(keys@[5] == k),
            AttribKey::Data => assert(keys@[6] == k),
            AttribKey::SvgImage => assert(keys@[7] == k),
            AttribKey::Style => assert(keys@[8] == k),
            AttribKey::ClickEvent => assert(keys@[9] == k),
            AttribKey::MouseDown => assert(keys@[10] == k),
            AttribKey::MouseUp => assert(keys@[11] == k),
            AttribKey::MouseMove => assert(keys@[12] == k),
            AttribKey::InputEvent => assert(keys@[13] == k),
            AttribKey::Scrollable => assert(keys@[14] == k),
        }
    }
    let owned = name.to_owned();
    let mut i: usize = 0;
    while i < 15
        invariant
            i <= 15,
            owned@ == name@,
            keys@.len() == 15,
            forall|k: AttribKey| #[trigger] keys@.contains(k),
            forall|m: int| 0 <= m < i ==> name@ != key_label(#[trigger] keys@[m]),
        decreases 15 - i,
    {
        let key = keys[i];
        if owned == key.to_string() {
            return Some(key);
        }
        i = i + 1;
    }
    assert forall|k: AttribKey| name@ != key_label(k) by {
        assert(keys@.contains(k));
        let m = choose|m: int| 0 <= m < 15 && keys@[m] == k;
        assert(name@ != key_label(keys@[m]));
    }
    None
}

/// An attribute under the given key.
pub fn keyed_attr(key: AttribKey, v: Value) -> (a: Attribute)
    ensures
        a@ == (AttributeView { name: key_label(key), value: AttribValueView::Plain(v@) }),
{
    attr(key.as_str(), v)
}

/// The text of a text input or text area.
pub fn value(v: Value) -> (a: Attribute)
    ensures
        a@ == (AttributeView { name: key_label(AttribKey::Value), value: AttribValueView::Plain(v@) }),
{
    keyed_attr(AttribKey::Value, v)
}

/// The bytes of an image.
pub fn data(v: Value) -> (a: Attribute)
    ensures
        a@ == (AttributeView { name: key_label(AttribKey::Data), value: AttribValueView::Plain(v@) }),
{
    keyed_attr(AttribKey::Data, v)
}

/// The caption of a button, checkbox or radio.
pub fn label(v: Value) -> (a: Attribute)
    ensures
        a@ == (AttributeView { name: key_label(AttribKey::Label), value: AttribValueView::Plain(v@) }),
{
    keyed_attr(AttribKey::Label, v)
}

/// The image of a button, as SVG.
pub fn svg_image(v: Value) -> (a: Attribute)
    ensures
        a@ == (AttributeView {
            name: key_label(AttribKey::SvgImage),
            value: AttribValueView::Plain(v@),
        }),
{
    keyed_attr(AttribKey::SvgImage, v)
}

/// Whether a text view can be edited.
pub fn editable(v: Value) -> (a: Attribute)
    ensures
        a@ == (AttributeView {
            name: key_label(AttribKey::Editable),
            value: AttribValueView::Plain(v@),
        }),
{
    keyed_attr(AttribKey::Editable, v)
}

/// Whether a widget scrolls.
pub fn scrollable(v: Value) -> (a: Attribute)
    ensures
        a@ == (AttributeView {
            name: key_label(AttribKey::Scrollable),
            value: AttribValueView::Plain(v@),
        }),
{
    keyed_attr(AttribKey::Scrollable, v)
}

/// The plain value that counts under the given key.
pub fn find_plain_value<'a>(key: AttribKey, attrs: &'a Vec<Attribute>) -> (r: Option<&'a Value>)
    ensures
        match r {
            Some(v) => lookup(attributes_view(attrs@), key_label(key)) == Some(
                AttribValueView::Plain(v@),
            ),
            None => !(lookup(attributes_view(attrs@), key_label(key)) matches Some(
                AttribValueView::Plain(_),
            )),
        },
{
    match find_value(attrs, key.as_str()) {
        Some(AttribValue::Value(v)) => Some(v),
        _ => None,
    }
}

/// The listener that counts under the given key.
pub fn find_callback(key: AttribKey, attrs: &Vec<Attribute>) -> (r: Option<Callback>)
    ensures
        match r {
            Some(c) => lookup(attributes_view(attrs@), key_label(key)) == Some(
                AttribValueView::Listener(c.id as int),
            ),
            None => !(lookup(attributes_view(attrs@), key_label(key)) matches Some(
                AttribValueView::Listener(_),
            )),
        },
{
    match find_value(attrs, key.as_str()) {
        Some(AttribValue::Callback(c)) => Some(*c),
        _ => None,
    }
}

/// Whether the attributes ask for a widget that scrolls.
pub fn is_scrollable(attrs: &Vec<Attribute>) -> (r: bool)
    ensures
        r == (lookup(attributes_view(attrs@), key_label(AttribKey::Scrollable)) == Some(
            AttribValueView::Plain(ValueView::Bool(true)),
        )),
{
    match find_plain_value(AttribKey::Scrollable, attrs) {
        Some(Value::Bool(b)) => *b,
        _ => false,
    }
}

} // verus!
