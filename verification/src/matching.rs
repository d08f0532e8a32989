//! Pairing the children of an old element with those of a new one.
//!
//! Two children are counterparts when they have the same key and the same
//! number of siblings with that key before them. Children without a key
//! share the key `None`, so that where no child has a key, children are
//! paired by position.
use vstd::prelude::*;
use crate::attr_diff::find_by_name;
use crate::model::{node_key, NodeView, ValueView};
use crate::node::Node;
use crate::value::{AttribValue, Value};

verus! {

/// The keys of a list of children.
pub open spec fn keys_of(children: Seq<NodeView>, key: Seq<char>) -> Seq<Option<ValueView>> {
    Seq::new(children.len(), |i: int| node_key(children[i], key))
}

/// How often `key` occurs among the first `n` of `keys`.
pub open spec fn count_before(keys: Seq<Option<ValueView>>, key: Option<ValueView>, n: int) -> nat
    decreases n,
{
    if n <= 0 {
        0
    } else if keys[n - 1] == key {
        count_before(keys, key, n - 1) + 1
    } else {
        count_before(keys, key, n - 1)
    }
}

/// How many earlier siblings have the key of the child at `p`.
pub open spec fn rank(keys: Seq<Option<ValueView>>, p: int) -> nat {
    count_before(keys, keys[p], p)
}

/// The child at `p` of one list and the child at `q` of the other are
/// counterparts: same key, same rank.
pub open spec fn paired(
    from: Seq<Option<ValueView>>,
    to: Seq<Option<ValueView>>,
    p: int,
    q: int,
) -> bool {
    &&& 0 <= p < from.len()
    &&& 0 <= q < to.len()
    &&& from[p] == to[q]
    &&& rank(from, p) == rank(to, q)
}

/// The place in `to` of the counterpart of the child at `p` of `from`, if it has one.
pub open spec fn counterpart(
    from: Seq<NodeView>,
    to: Seq<NodeView>,
    p: int,
    key: Seq<char>,
) -> Option<int> {
    if exists|q: int| paired(keys_of(from, key), keys_of(to, key), p, q) {
        Some(choose|q: int| paired(keys_of(from, key), keys_of(to, key), p, q))
    } else {
        None
    }
}

/// The counterparts of the children of `from` stand in `to` in the order of
/// those children: none has moved past another.
pub open spec fn keeps_order(from: Seq<NodeView>, to: Seq<NodeView>, key: Seq<char>) -> bool {
    forall|early: int, late: int|
        0 <= early < late < from.len() ==> match (
            #[trigger] counterpart(from, to, early, key),
            #[trigger] counterpart(from, to, late, key),
        ) {
            (Some(early_place), Some(late_place)) => early_place < late_place,
            _ => true,
        }
}

/// The places in `to` of the counterparts of the first `n` children of
/// `from`, in the order of those children.
pub open spec fn matched_places(from: Seq<NodeView>, to: Seq<NodeView>, n: int, key: Seq<char>) -> Seq<
    int,
>
    decreases n,
{
    if n <= 0 {
        Seq::empty()
    } else {
        match counterpart(from, to, n - 1, key) {
            Some(q) => matched_places(from, to, n - 1, key).push(q),
            None => matched_places(from, to, n - 1, key),
        }
    }
}

/// A counterpart is a place of the other list, and the two children are paired.
pub proof fn lemma_counterpart_paired(
    from: Seq<NodeView>,
    to: Seq<NodeView>,
    p: int,
    key: Seq<char>,
)
    ensures
        counterpart(from, to, p, key) matches Some(q) ==> paired(
            keys_of(from, key),
            keys_of(to, key),
            p,
            q,
        ) && 0 <= p < from.len() && 0 <= q < to.len() && counterpart(to, from, q, key) == Some(p),
{
    if counterpart(from, to, p, key) is Some {
        let q = counterpart(from, to, p, key).unwrap();
        lemma_counterpart_symmetric(from, to, p, q, key);
    }
}

/// Where the children of one list keep their order in the other, those of
/// the other keep theirs in the one.
pub proof fn lemma_keeps_order_symmetric(from: Seq<NodeView>, to: Seq<NodeView>, key: Seq<char>)
    requires
        keeps_order(from, to, key),
    ensures
        keeps_order(to, from, key),
{
    assert forall|early_place: int, late_place: int| 0 <= early_place < late_place < to.len() implies match (
        #[trigger] counterpart(to, from, early_place, key),
        #[trigger] counterpart(to, from, late_place, key),
    ) {
        (Some(early), Some(late)) => early < late,
        _ => true,
    } by {
        lemma_counterpart_paired(to, from, early_place, key);
        lemma_counterpart_paired(to, from, late_place, key);
        if counterpart(to, from, early_place, key) is Some && counterpart(to, from, late_place, key) is Some {
            let early = counterpart(to, from, early_place, key).unwrap();
            let late = counterpart(to, from, late_place, key).unwrap();
            if late < early {
                assert(counterpart(from, to, late, key) == Some(late_place));
                assert(counterpart(from, to, early, key) == Some(early_place));
            }
        }
    }
}

/// Where all of the first children have counterparts and keep their order,
/// the counterpart of a child stands no earlier than the child.
pub proof fn lemma_counterpart_not_before(
    from: Seq<NodeView>,
    to: Seq<NodeView>,
    p: int,
    key: Seq<char>,
)
    requires
        0 <= p < from.len(),
        keeps_order(from, to, key),
        forall|k: int| 0 <= k <= p ==> (#[trigger] counterpart(from, to, k, key)) is Some,
    ensures
        counterpart(from, to, p, key).unwrap() >= p,
    decreases p,
{
    lemma_counterpart_paired(from, to, p, key);
    if p > 0 {
        lemma_counterpart_not_before(from, to, p - 1, key);
        assert(counterpart(from, to, p - 1, key) is Some);
        assert(counterpart(from, to, p, key) is Some);
    }
}

/// Where every child of either list has a counterpart in the other, and
/// the children keep their order, the lists are equally long and each
/// child is paired with the one at its own position.
pub proof fn lemma_full_pairing_is_positional(from: Seq<NodeView>, to: Seq<NodeView>, key: Seq<char>)
    requires
        keeps_order(from, to, key),
        forall|p: int| 0 <= p < from.len() ==> (#[trigger] counterpart(from, to, p, key)) is Some,
        forall|q: int| 0 <= q < to.len() ==> (#[trigger] counterpart(to, from, q, key)) is Some,
    ensures
        from.len() == to.len(),
        forall|p: int| 0 <= p < from.len() ==> #[trigger] counterpart(from, to, p, key) == Some(p),
{
    lemma_keeps_order_symmetric(from, to, key);
    assert forall|p: int| 0 <= p < from.len() implies #[trigger] counterpart(from, to, p, key)
        == Some(p) by {
        lemma_counterpart_not_before(from, to, p, key);
        lemma_counterpart_paired(from, to, p, key);
        let q = counterpart(from, to, p, key).unwrap();
        lemma_counterpart_not_before(to, from, q, key);
    }
    if from.len() > 0 {
        let p = from.len() - 1;
        assert(counterpart(from, to, p, key) == Some(p));
        lemma_counterpart_paired(from, to, p, key);
    }
    if to.len() > 0 {
        let q = to.len() - 1;
        lemma_counterpart_not_before(to, from, q, key);
        lemma_counterpart_paired(to, from, q, key);
    }
}

/// Occurrences of a key are counted in order.
pub proof fn lemma_count_monotone(keys: Seq<Option<ValueView>>, key: Option<ValueView>, a: int, b: int)
    requires
        a <= b,
    ensures
        count_before(keys, key, a) <= count_before(keys, key, b),
        count_before(keys, key, b) <= count_before(keys, key, a) + (b - a),
    decreases b - a,
{
    if a < b {
        lemma_count_monotone(keys, key, a, b - 1);
    }
}

/// A child has at most one counterpart.
pub proof fn lemma_paired_unique(
    from: Seq<Option<ValueView>>,
    to: Seq<Option<ValueView>>,
    p: int,
    one: int,
    other: int,
)
    requires
        paired(from, to, p, one),
        paired(from, to, p, other),
    ensures
        one == other,
{
    if one < other {
        lemma_count_monotone(to, from[p], one + 1, other);
    } else if other < one {
        lemma_count_monotone(to, from[p], other + 1, one);
    }
}

/// The counterpart of a child is the one place it is paired with.
pub proof fn lemma_counterpart_is(
    from: Seq<NodeView>,
    to: Seq<NodeView>,
    p: int,
    q: int,
    key: Seq<char>,
)
    requires
        paired(keys_of(from, key), keys_of(to, key), p, q),
    ensures
        counterpart(from, to, p, key) == Some(q),
{
    let c = choose|q: int| paired(keys_of(from, key), keys_of(to, key), p, q);
    lemma_paired_unique(keys_of(from, key), keys_of(to, key), p, c, q);
}

/// Counterparts are counterparts of each other.
pub proof fn lemma_counterpart_symmetric(
    from: Seq<NodeView>,
    to: Seq<NodeView>,
    p: int,
    q: int,
    key: Seq<char>,
)
    ensures
        counterpart(from, to, p, key) == Some(q) <==> counterpart(to, from, q, key) == Some(p),
{
    if counterpart(from, to, p, key) == Some(q) {
        assert(paired(keys_of(to, key), keys_of(from, key), q, p));
        lemma_counterpart_is(to, from, q, p, key);
    }
    if counterpart(to, from, q, key) == Some(p) {
        assert(paired(keys_of(from, key), keys_of(to, key), p, q));
        lemma_counterpart_is(from, to, p, q, key);
    }
}

/// Where no child of either list has a key, children are paired by position.
pub proof fn lemma_unkeyed_is_positional(
    from: Seq<NodeView>,
    to: Seq<NodeView>,
    p: int,
    key: Seq<char>,
)
    requires
        0 <= p < from.len(),
        forall|i: int| 0 <= i < from.len() ==> node_key(#[trigger] from[i], key) is None,
        forall|i: int| 0 <= i < to.len() ==> node_key(#[trigger] to[i], key) is None,
    ensures
        counterpart(from, to, p, key) == if p < to.len() {
            Some(p)
        } else {
            None::<int>
        },
{
    let fk = keys_of(from, key);
    let tk = keys_of(to, key);
    lemma_all_none_rank(fk, p);
    if p < to.len() {
        lemma_all_none_rank(tk, p);
        assert(paired(fk, tk, p, p));
        lemma_counterpart_is(from, to, p, p, key);
    } else {
        assert forall|q: int| !paired(fk, tk, p, q) by {
            if 0 <= q < tk.len() {
                lemma_all_none_rank(tk, q);
            }
        }
    }
}

/// Among children without keys, the rank of a child is its position.
proof fn lemma_all_none_rank(keys: Seq<Option<ValueView>>, p: int)
    requires
        0 <= p <= keys.len(),
        forall|i: int| 0 <= i < keys.len() ==> (#[trigger] keys[i]) is None,
    ensures
        count_before(keys, None, p) == p,
    decreases p,
{
    if p > 0 {
        lemma_all_none_rank(keys, p - 1);
    }
}

/// The model of an optional key.
pub open spec fn key_view(key: Option<&Value>) -> Option<ValueView> {
    match key {
        Some(v) => Some(v@),
        None => None,
    }
}

/// The key of a node, where `key` names the attribute that holds it.
pub fn key_of<'a>(node: &'a Node, key: &String) -> (res: Option<&'a Value>)
    ensures
        key_view(res) == node_key(node@, key@),
{
    match node {
        Node::Element(e) => match find_by_name(&e.attributes, key) {
            Some(AttribValue::Value(v)) => Some(v),
            _ => None,
        },
        Node::Text(_) => None,
    }
}

/// Whether two optional keys are the same.
pub fn same_key(a: Option<&Value>, b: Option<&Value>) -> (r: bool)
    ensures
        r == (key_view(a) == key_view(b)),
{
    match (a, b) {
        (Some(x), Some(y)) => x.same_as(y),
        (None, None) => true,
        _ => false,
    }
}

/// Whether any node of the list has a key.
pub fn any_keyed(children: &Vec<Node>, key: &String) -> (r: bool)
    ensures
        r == exists|i: int|
            0 <= i < children.len() && node_key(#[trigger] children@[i]@, key@) is Some,
{
    let mut i: usize = 0;
    while i < children.len()
        invariant
            i <= children.len(),
            forall|k: int| 0 <= k < i ==> node_key(#[trigger] children@[k]@, key@) is None,
        decreases children.len() - i,
    {
        if key_of(&children[i], key).is_some() {
            return true;
        }
        i = i + 1;
    }
    false
}

} // verus!
