//! The order and the addresses of the patches that the differ yields.
use vstd::prelude::*;
use crate::diff::{
    append_patches, attribute_patches, diff_child, diff_children, diff_node, diff_trees_with_key,
    must_replace,
};
use crate::matching::counterpart;
use crate::model::{children_of, tag_of, NodeView};
use crate::walk::{
    child_start, lemma_child_within, lemma_forest_count_monotone, lemma_node_at_child, node_at,
    node_count,
};
use crate::patch::{patch_tag, patch_target, PatchView};

verus! {

/// Each patch comes no earlier in the list than the patches with a smaller target.
pub open spec fn sorted_by_target(patches: Seq<PatchView>) -> bool {
    forall|a: int, b: int|
        0 <= a <= b < patches.len() ==> patch_target(#[trigger] patches[a]) <= patch_target(
            #[trigger] patches[b],
        )
}

/// The patch addresses a node of the tree `root`, whose root has the place
/// `base`, and carries the tag of that node.
pub open spec fn addresses(p: PatchView, root: NodeView, base: nat) -> bool {
    &&& base <= patch_target(p) < base + node_count(root)
    &&& node_at(root, (patch_target(p) - base) as nat) matches Some(n)
    &&& tag_of(n) == patch_tag(p)
}

/// All patches of the list address nodes of the tree.
pub open spec fn all_address(patches: Seq<PatchView>, root: NodeView, base: nat) -> bool {
    forall|k: int| 0 <= k < patches.len() ==> addresses(#[trigger] patches[k], root, base)
}

/// All patches of the list address nodes below the root of `parent`, at
/// places before `end`.
pub open spec fn all_address_below(
    patches: Seq<PatchView>,
    parent: NodeView,
    base: nat,
    end: nat,
) -> bool {
    forall|k: int|
        0 <= k < patches.len() ==> addresses(#[trigger] patches[k], parent, base) && base
            < patch_target(patches[k]) < end
}

/// The patches for a node are in the order of their targets, and each
/// addresses a node of the old subtree and carries its tag.
pub proof fn lemma_diff_node_addresses(old: NodeView, new: NodeView, i: nat, j: nat, key: Seq<char>)
    ensures
        sorted_by_target(diff_node(old, new, i, j, key)),
        all_address(diff_node(old, new, i, j, key), old, i),
    decreases old, children_of(old).len() + 1,
{
    if must_replace(old, new, key) {
    } else {
        match old {
            NodeView::Text { .. } => {},
            NodeView::Element { children, .. } => {
                let n = children.len() as int;
                let head = attribute_patches(old, new, i) + append_patches(old, new, i, key);
                let tail = diff_children(children, children_of(new), i, j, n, key);
                lemma_diff_children_addresses(old, children_of(new), i, j, n, key);
                assert(children.take(n) =~= children);
                assert forall|k: int| 0 <= k < head.len() implies patch_target(#[trigger] head[k])
                    == i && addresses(head[k], old, i) by {}
                assert(diff_node(old, new, i, j, key) =~= head + tail);
            },
        }
    }
}

/// The patches for the first `n` children of an old element are in the order
/// of their targets, and each addresses a node below the element, within
/// those children, and carries its tag.
pub proof fn lemma_diff_children_addresses(
    parent: NodeView,
    new_children: Seq<NodeView>,
    i: nat,
    j: nat,
    n: int,
    key: Seq<char>,
)
    requires
        parent is Element,
        0 <= n <= children_of(parent).len(),
    ensures
        sorted_by_target(diff_children(children_of(parent), new_children, i, j, n, key)),
        all_address_below(
            diff_children(children_of(parent), new_children, i, j, n, key),
            parent,
            i,
            child_start(children_of(parent), i, n),
        ),
    decreases parent, n,
{
    let children = children_of(parent);
    if n > 0 {
        let p = n - 1;
        let front = diff_children(children, new_children, i, j, p, key);
        let last = diff_child(children, new_children, i, j, p, key);
        let start = child_start(children, i, p);
        lemma_diff_children_addresses(parent, new_children, i, j, p, key);
        lemma_child_within(children, i, p);
        assert(children.take(children.len() as int) =~= children);
        lemma_forest_count_monotone(children, n, children.len() as int);
        match counterpart(children, new_children, p, key) {
            Some(q) => {
                lemma_diff_node_addresses(
                    children[p],
                    new_children[q],
                    start,
                    child_start(new_children, j, q),
                    key,
                );
            },
            None => {},
        }
        assert forall|k: int| 0 <= k < last.len() implies addresses(#[trigger] last[k], parent, i)
            && start <= patch_target(last[k]) < child_start(children, i, n) by {
            assert(addresses(last[k], children[p], start));
            let within = (patch_target(last[k]) - start) as nat;
            lemma_node_at_child(parent, p, within);
            assert(child_start(children, 0, p) + within == patch_target(last[k]) - i);
        }
        assert(diff_children(children, new_children, i, j, n, key) =~= front + last);
    }
}

/// Ordering: the patches from one tree to another are in the order in which
/// a pre-order walk of the old tree comes to their targets.
pub proof fn lemma_patches_in_walk_order(old: NodeView, new: NodeView, key: Seq<char>)
    ensures
        sorted_by_target(diff_trees_with_key(old, new, key)),
{
    lemma_diff_node_addresses(old, new, 0, 0, key);
}

/// Index stability: every patch from one tree to another is addressed at the
/// place that its target has in the pre-order walk of the old tree, whatever
/// became of the target's siblings, and carries the target's tag.
pub proof fn lemma_patches_address_old_tree(old: NodeView, new: NodeView, key: Seq<char>, k: int)
    requires
        0 <= k < diff_trees_with_key(old, new, key).len(),
    ensures
        patch_target(diff_trees_with_key(old, new, key)[k]) < node_count(old),
        node_at(old, patch_target(diff_trees_with_key(old, new, key)[k])) matches Some(n) && tag_of(n)
            == patch_tag(diff_trees_with_key(old, new, key)[k]),
{
    lemma_diff_node_addresses(old, new, 0, 0, key);
    assert(addresses(diff_trees_with_key(old, new, key)[k], old, 0));
}

} // verus!
