//! What holds of the differ on all trees.
use vstd::prelude::*;
use crate::content::{content_equal, lemma_no_attribute_change, same_attributes, slot_alike};
use crate::diff::{
    append_patches, appended, attribute_patches, diff_child, diff_children, diff_node, diff_trees,
    diff_trees_with_key, must_replace, order_preserved,
};
use crate::matching::{
    counterpart, keeps_order, keys_of, lemma_counterpart_is, lemma_full_pairing_is_positional,
    lemma_unkeyed_is_positional, paired,
};
use crate::model::{
    attributes_of, children_of, default_key, keyless, lookup, node_key, NodeView,
};
use crate::walk::child_start;
use crate::patch::PatchView;

verus! {

/// Trees with the same content have the same key.
pub proof fn lemma_content_equal_key(a: NodeView, b: NodeView, key: Seq<char>)
    requires
        content_equal(a, b),
    ensures
        node_key(a, key) == node_key(b, key),
{
    match (a, b) {
        (NodeView::Element { attributes: aa, .. }, NodeView::Element { attributes: ab, .. }) => {
            assert(slot_alike(lookup(aa, key), lookup(ab, key)));
        },
        _ => {},
    }
}

/// Every tree has the same content as itself.
pub proof fn lemma_content_equal_reflexive(a: NodeView)
    ensures
        content_equal(a, a),
    decreases a,
{
    match a {
        NodeView::Element { attributes, children, .. } => {
            assert forall|name: Seq<char>|
                slot_alike(#[trigger] lookup(attributes, name), lookup(attributes, name)) by {}
            assert forall|i: int| 0 <= i < children.len() implies content_equal(
                #[trigger] children[i],
                children[i],
            ) by {
                lemma_content_equal_reflexive(children[i]);
            }
        },
        NodeView::Text { .. } => {},
    }
}

/// Lists of children that agree child by child pair each child with the one
/// at its own position.
proof fn lemma_equal_children_pair_up(ca: Seq<NodeView>, cb: Seq<NodeView>, p: int, key: Seq<char>)
    requires
        ca.len() == cb.len(),
        forall|k: int| 0 <= k < ca.len() ==> content_equal(#[trigger] ca[k], cb[k]),
        0 <= p < ca.len(),
    ensures
        counterpart(ca, cb, p, key) == Some(p),
        counterpart(cb, ca, p, key) == Some(p),
{
    assert forall|k: int| 0 <= k < ca.len() implies keys_of(ca, key)[k] == keys_of(cb, key)[k] by {
        assert(content_equal(ca[k], cb[k]));
        lemma_content_equal_key(ca[k], cb[k], key);
    }
    assert(keys_of(ca, key) =~= keys_of(cb, key));
    assert(paired(keys_of(ca, key), keys_of(cb, key), p, p));
    lemma_counterpart_is(ca, cb, p, p, key);
    lemma_counterpart_is(cb, ca, p, p, key);
}

/// Where each of the first `n` new children has a counterpart, none is appended.
proof fn lemma_nothing_appended(ca: Seq<NodeView>, cb: Seq<NodeView>, n: int, key: Seq<char>)
    requires
        forall|q: int| 0 <= q < n ==> (#[trigger] counterpart(cb, ca, q, key)) is Some,
    ensures
        appended(ca, cb, n, key) == Seq::<(nat, NodeView)>::empty(),
    decreases n,
{
    if n > 0 {
        lemma_nothing_appended(ca, cb, n - 1, key);
        assert(counterpart(cb, ca, n - 1, key) is Some);
    }
}

/// Trees with the same content need no patch, wherever they stand.
pub proof fn lemma_content_equal_no_patches(
    a: NodeView,
    b: NodeView,
    i: nat,
    j: nat,
    key: Seq<char>,
)
    requires
        content_equal(a, b),
    ensures
        diff_node(a, b, i, j, key) == Seq::<PatchView>::empty(),
    decreases a, 0int,
{
    lemma_content_equal_key(a, b, key);
    match (a, b) {
        (
            NodeView::Element { attributes: aa, children: ca, .. },
            NodeView::Element { attributes: ab, children: cb, .. },
        ) => {
            assert(!must_replace(a, b, key));
            lemma_no_attribute_change(aa, ab);
            assert(attribute_patches(a, b, i) == Seq::<PatchView>::empty());
            assert forall|q: int| 0 <= q < cb.len() implies (#[trigger] counterpart(cb, ca, q, key)) is Some by {
                lemma_equal_children_pair_up(ca, cb, q, key);
            }
            lemma_nothing_appended(ca, cb, cb.len() as int, key);
            assert(append_patches(a, b, i, key) == Seq::<PatchView>::empty());
            lemma_equal_children_no_patches(ca, cb, i, j, ca.len() as int, key);
            assert(diff_node(a, b, i, j, key) =~= Seq::<PatchView>::empty());
        },
        _ => {},
    }
}

/// Lists of children that agree child by child need no patch.
proof fn lemma_equal_children_no_patches(
    ca: Seq<NodeView>,
    cb: Seq<NodeView>,
    i: nat,
    j: nat,
    n: int,
    key: Seq<char>,
)
    requires
        ca.len() == cb.len(),
        forall|k: int| 0 <= k < ca.len() ==> content_equal(#[trigger] ca[k], cb[k]),
        0 <= n <= ca.len(),
    ensures
        diff_children(ca, cb, i, j, n, key) == Seq::<PatchView>::empty(),
    decreases ca, n,
{
    if n > 0 {
        lemma_equal_children_no_patches(ca, cb, i, j, n - 1, key);
        lemma_equal_children_pair_up(ca, cb, n - 1, key);
        assert(content_equal(ca[n - 1], cb[n - 1]));
        lemma_content_equal_no_patches(
            ca[n - 1],
            cb[n - 1],
            child_start(ca, i, n - 1),
            child_start(cb, j, n - 1),
            key,
        );
        assert(diff_child(ca, cb, i, j, n - 1, key) == Seq::<PatchView>::empty());
        assert(diff_children(ca, cb, i, j, n, key) =~= Seq::<PatchView>::empty());
    }
}

/// Where nothing is appended among the first `n` new children, each of
/// them has a counterpart.
proof fn lemma_all_have_counterparts(ca: Seq<NodeView>, cb: Seq<NodeView>, n: int, key: Seq<char>)
    requires
        appended(ca, cb, n, key).len() == 0,
    ensures
        forall|q: int| 0 <= q < n ==> (#[trigger] counterpart(cb, ca, q, key)) is Some,
    decreases n,
{
    if n > 0 {
        if counterpart(cb, ca, n - 1, key) is Some {
            lemma_all_have_counterparts(ca, cb, n - 1, key);
        }
    }
}

/// Where the first `n` old children yield no patch, none of them does.
proof fn lemma_no_child_patches(
    ca: Seq<NodeView>,
    cb: Seq<NodeView>,
    i: nat,
    j: nat,
    n: int,
    key: Seq<char>,
)
    requires
        0 <= n <= ca.len(),
        diff_children(ca, cb, i, j, n, key).len() == 0,
    ensures
        forall|p: int| 0 <= p < n ==> (#[trigger] diff_child(ca, cb, i, j, p, key)).len() == 0,
    decreases n,
{
    if n > 0 {
        assert(diff_children(ca, cb, i, j, n, key) == diff_children(ca, cb, i, j, n - 1, key)
            + diff_child(ca, cb, i, j, n - 1, key));
        lemma_no_child_patches(ca, cb, i, j, n - 1, key);
    }
}

/// Where the walk from one tree to another finds the children in their
/// order and yields no patch, the two trees have the same content.
pub proof fn lemma_no_patches_content_equal(
    a: NodeView,
    b: NodeView,
    i: nat,
    j: nat,
    key: Seq<char>,
)
    requires
        order_preserved(a, b, key),
        diff_node(a, b, i, j, key).len() == 0,
    ensures
        content_equal(a, b),
    decreases a,
{
    match (a, b) {
        (
            NodeView::Element { attributes: aa, children: ca, .. },
            NodeView::Element { attributes: ab, children: cb, .. },
        ) => {
            assert(!must_replace(a, b, key));
            let whole = attribute_patches(a, b, i) + append_patches(a, b, i, key) + diff_children(
                ca,
                cb,
                i,
                j,
                ca.len() as int,
                key,
            );
            assert(diff_node(a, b, i, j, key) == whole);
            assert(attribute_patches(a, b, i).len() == 0);
            assert(append_patches(a, b, i, key).len() == 0);
            lemma_no_attribute_change(aa, ab);
            lemma_all_have_counterparts(ca, cb, cb.len() as int, key);
            lemma_no_child_patches(ca, cb, i, j, ca.len() as int, key);
            assert forall|p: int| 0 <= p < ca.len() implies (#[trigger] counterpart(
                ca,
                cb,
                p,
                key,
            )) is Some by {
                assert(diff_child(ca, cb, i, j, p, key).len() == 0);
            }
            lemma_full_pairing_is_positional(ca, cb, key);
            assert forall|p: int| 0 <= p < ca.len() implies content_equal(
                #[trigger] ca[p],
                cb[p],
            ) by {
                assert(counterpart(ca, cb, p, key) == Some(p));
                assert(diff_child(ca, cb, i, j, p, key).len() == 0);
                lemma_no_patches_content_equal(
                    ca[p],
                    cb[p],
                    child_start(ca, i, p),
                    child_start(cb, j, p),
                    key,
                );
            }
        },
        _ => {},
    }
}

/// Between two trees that the walk finds with their children in their
/// order, there is no patch exactly where they have the same content.
pub proof fn lemma_no_patches_iff_content_equal(a: NodeView, b: NodeView, key: Seq<char>)
    requires
        order_preserved(a, b, key),
    ensures
        diff_trees_with_key(a, b, key).len() == 0 <==> content_equal(a, b),
{
    if content_equal(a, b) {
        lemma_content_equal_no_patches(a, b, 0, 0, key);
    }
    if diff_trees_with_key(a, b, key).len() == 0 {
        lemma_no_patches_content_equal(a, b, 0, 0, key);
    }
}

/// Between trees in which no child has a key, the walk finds the children
/// in their order: they are paired by position.
pub proof fn lemma_keyless_order_preserved(a: NodeView, b: NodeView, key: Seq<char>)
    requires
        keyless(a, key),
        keyless(b, key),
    ensures
        order_preserved(a, b, key),
    decreases a,
{
    match a {
        NodeView::Element { children, .. } => {
            let others = children_of(b);
            assert forall|p: int| 0 <= p < others.len() implies node_key(
                #[trigger] others[p],
                key,
            ) is None && keyless(others[p], key) by {}
            assert forall|p: int| 0 <= p < children.len() implies #[trigger] counterpart(
                children,
                others,
                p,
                key,
            ) == if p < others.len() {
                Some(p)
            } else {
                None::<int>
            } by {
                lemma_unkeyed_is_positional(children, others, p, key);
            }
            assert(keeps_order(children, others, key));
            assert forall|p: int| 0 <= p < children.len() implies match #[trigger] counterpart(
                children,
                others,
                p,
                key,
            ) {
                Some(q) => 0 <= q < others.len() ==> order_preserved(children[p], others[q], key),
                None => true,
            } by {
                if p < others.len() {
                    lemma_keyless_order_preserved(children[p], others[p], key);
                }
            }
        },
        NodeView::Text { .. } => {},
    }
}

/// Where each of the first `n` old children has a counterpart with its own
/// content, wherever that stands, those children need no patch.
proof fn lemma_moved_children_no_patches(
    ca: Seq<NodeView>,
    cb: Seq<NodeView>,
    i: nat,
    j: nat,
    n: int,
    key: Seq<char>,
)
    requires
        0 <= n <= ca.len(),
        forall|p: int|
            0 <= p < ca.len() ==> (#[trigger] counterpart(ca, cb, p, key) matches Some(q) && 0 <= q
                < cb.len() && content_equal(ca[p], cb[q])),
    ensures
        diff_children(ca, cb, i, j, n, key) == Seq::<PatchView>::empty(),
    decreases n,
{
    if n > 0 {
        lemma_moved_children_no_patches(ca, cb, i, j, n - 1, key);
        let q = counterpart(ca, cb, n - 1, key).unwrap();
        lemma_content_equal_no_patches(
            ca[n - 1],
            cb[q],
            child_start(ca, i, n - 1),
            child_start(cb, j, q),
            key,
        );
        assert(diff_child(ca, cb, i, j, n - 1, key) == Seq::<PatchView>::empty());
        assert(diff_children(ca, cb, i, j, n, key) =~= Seq::<PatchView>::empty());
    }
}

/// A change of order alone yields no patch: between two elements with the
/// same tag and attributes, where every child of either has a counterpart
/// in the other and the counterparts have the same content, there is no
/// patch, in whatever order the children stand.
pub proof fn lemma_reorder_no_patches(a: NodeView, b: NodeView, i: nat, j: nat, key: Seq<char>)
    requires
        a is Element,
        b is Element,
        !must_replace(a, b, key),
        same_attributes(attributes_of(a), attributes_of(b)),
        forall|p: int|
            0 <= p < children_of(a).len() ==> (#[trigger] counterpart(
                children_of(a),
                children_of(b),
                p,
                key,
            ) matches Some(q) && 0 <= q < children_of(b).len() && content_equal(
                children_of(a)[p],
                children_of(b)[q],
            )),
        forall|q: int|
            0 <= q < children_of(b).len() ==> (#[trigger] counterpart(
                children_of(b),
                children_of(a),
                q,
                key,
            )) is Some,
    ensures
        diff_node(a, b, i, j, key) == Seq::<PatchView>::empty(),
{
    let ca = children_of(a);
    let cb = children_of(b);
    lemma_no_attribute_change(attributes_of(a), attributes_of(b));
    lemma_nothing_appended(ca, cb, cb.len() as int, key);
    lemma_moved_children_no_patches(ca, cb, i, j, ca.len() as int, key);
    assert(diff_node(a, b, i, j, key) =~= Seq::<PatchView>::empty());
}

/// Identity: the patches from a tree to itself are none.
pub proof fn lemma_diff_identity(t: NodeView)
    ensures
        diff_trees(t, t) == Seq::<PatchView>::empty(),
{
    lemma_content_equal_reflexive(t);
    lemma_content_equal_no_patches(t, t, 0, 0, default_key());
}

} // verus!
