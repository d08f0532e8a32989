//! The tree differ: a walk of the old and the new tree in step, which yields
//! the patches that turn the old tree into the new one.
use vstd::prelude::*;
use crate::attr_diff::{attributes_to_remove, attributes_to_set, diff_attributes};
use crate::matching::{
    any_keyed, counterpart, keeps_order, key_of, lemma_unkeyed_is_positional, same_key,
};
use crate::model::{attributes_of, children_of, default_key, node_key, tag_of, NodeView};
use crate::walk::{
    child_start, forest_count, holds_sizes, lemma_child_within, lemma_children_sizes,
    lemma_size_at, node_count,
};
use crate::node::{count_within, fill_sizes, lemma_nodes_view, nodes_view, Node};
use crate::content::{content_equal, same_content};
use crate::laws::{lemma_content_equal_no_patches, lemma_content_equal_reflexive};
use crate::pairing::{pair_children, place_view};
use crate::patch::{patches_view, placed_view, tag_view, Patch, PatchView};

verus! {

/// The patch that puts `new` in the place of `old`.
pub open spec fn replace_patch(old: NodeView, new: NodeView, i: nat, j: nat) -> PatchView {
    PatchView::ReplaceNode { node_idx: i, new_node_idx: j, tag_of_old: tag_of(old), replacement: new }
}

/// Whether `new` supersedes `old` as a whole: one is text and the other an
/// element, they are texts that differ, elements with different tags, or
/// elements that both have a key and not the same one.
pub open spec fn must_replace(old: NodeView, new: NodeView, key: Seq<char>) -> bool {
    match (old, new) {
        (NodeView::Text { text: a }, NodeView::Text { text: b }) => a != b,
        (NodeView::Element { tag: a, .. }, NodeView::Element { tag: b, .. }) => {
            ||| a != b
            ||| (node_key(old, key) is Some && node_key(new, key) is Some && node_key(old, key) != node_key(new, key))
        },
        _ => true,
    }
}

/// The patch for the attributes of an element at `i`, if any of them changes.
pub open spec fn attribute_patches(old: NodeView, new: NodeView, i: nat) -> Seq<PatchView> {
    let set = attributes_to_set(attributes_of(old), attributes_of(new));
    let remove = attributes_to_remove(attributes_of(old), attributes_of(new));
    if set.len() == 0 && remove.len() == 0 {
        Seq::empty()
    } else {
        seq![PatchView::AddAttributes { node_idx: i, tag: tag_of(old).unwrap(), set, remove }]
    }
}

/// Those of the first `n` new children that have no counterpart among the
/// old ones, each with its place among the new children.
pub open spec fn appended(
    old_children: Seq<NodeView>,
    new_children: Seq<NodeView>,
    n: int,
    key: Seq<char>,
) -> Seq<(nat, NodeView)>
    decreases n,
{
    if n <= 0 {
        Seq::empty()
    } else if counterpart(new_children, old_children, n - 1, key) is None {
        appended(old_children, new_children, n - 1, key).push(((n - 1) as nat, new_children[n - 1]))
    } else {
        appended(old_children, new_children, n - 1, key)
    }
}

/// The patch that gives the element at `i` the new children without a
/// counterpart, if there are any.
pub open spec fn append_patches(old: NodeView, new: NodeView, i: nat, key: Seq<char>) -> Seq<
    PatchView,
> {
    let extra = appended(children_of(old), children_of(new), children_of(new).len() as int, key);
    if extra.len() == 0 {
        Seq::empty()
    } else {
        seq![PatchView::AppendChildren { node_idx: i, tag: tag_of(old).unwrap(), children: extra }]
    }
}

/// The patches for an old node at place `i` of the old tree and the new node
/// at place `j` of the new tree that takes its place.
pub open spec fn diff_node(old: NodeView, new: NodeView, i: nat, j: nat, key: Seq<char>) -> Seq<
    PatchView,
>
    decreases old, 0int,
{
    if must_replace(old, new, key) {
        seq![replace_patch(old, new, i, j)]
    } else {
        match old {
            NodeView::Text { .. } => Seq::empty(),
            NodeView::Element { children, .. } => attribute_patches(old, new, i) + append_patches(
                old,
                new,
                i,
                key,
            ) + diff_children(children, children_of(new), i, j, children.len() as int, key),
        }
    }
}

/// The patches for the first `n` old children of the element at `i`, whose
/// successor is at `j`: for each child in turn, the patches against its
/// counterpart, or its removal if it has none.
pub open spec fn diff_children(
    old_children: Seq<NodeView>,
    new_children: Seq<NodeView>,
    i: nat,
    j: nat,
    n: int,
    key: Seq<char>,
) -> Seq<PatchView>
    decreases old_children, n,
{
    if n <= 0 || n > old_children.len() {
        Seq::empty()
    } else {
        diff_children(old_children, new_children, i, j, n - 1, key) + diff_child(
            old_children,
            new_children,
            i,
            j,
            n - 1,
            key,
        )
    }
}

/// The patches for the old child at `p` of the element at `i`.
pub open spec fn diff_child(
    old_children: Seq<NodeView>,
    new_children: Seq<NodeView>,
    i: nat,
    j: nat,
    p: int,
    key: Seq<char>,
) -> Seq<PatchView>
    decreases old_children, p, 0int
    when 0 <= p < old_children.len()
{
    match counterpart(old_children, new_children, p, key) {
        Some(q) => diff_node(
            old_children[p],
            new_children[q],
            child_start(old_children, i, p),
            child_start(new_children, j, q),
            key,
        ),
        None => seq![
            PatchView::RemoveNode {
                node_idx: child_start(old_children, i, p),
                tag: tag_of(old_children[p]),
            },
        ],
    }
}

/// The patches that turn the tree `old` into the tree `new`, where `key`
/// names the attribute that holds a child's key.
pub open spec fn diff_trees_with_key(old: NodeView, new: NodeView, key: Seq<char>) -> Seq<
    PatchView,
> {
    diff_node(old, new, 0, 0, key)
}

/// The patches that turn the tree `old` into the tree `new`.
pub open spec fn diff_trees(old: NodeView, new: NodeView) -> Seq<PatchView> {
    diff_trees_with_key(old, new, default_key())
}

/// Whether the walk from `old` to `new` finds the children in their order:
/// at every element that the differ comes to, the counterparts of the old
/// children stand in the order of those children. Where no child has a
/// key this holds, and where children with keys come in another order it
/// does not.
pub open spec fn order_preserved(old: NodeView, new: NodeView, key: Seq<char>) -> bool
    decreases old,
{
    must_replace(old, new, key) || match old {
        NodeView::Text { .. } => true,
        NodeView::Element { children, .. } => {
            &&& keeps_order(children, children_of(new), key)
            &&& forall|p: int|
                0 <= p < children.len() ==> match #[trigger] counterpart(
                    children,
                    children_of(new),
                    p,
                    key,
                ) {
                    Some(q) => 0 <= q < children_of(new).len() ==> order_preserved(
                        children[p],
                        children_of(new)[q],
                        key,
                    ),
                    None => true,
                }
        },
    }
}

/// The model of a list of patches grows with the list.
proof fn lemma_patches_push(patches: Seq<Patch>, p: Patch)
    ensures
        patches_view(patches.push(p)) == patches_view(patches).push(p@),
{
    assert(patches_view(patches.push(p)) =~= patches_view(patches).push(p@));
}

/// The tag of a node, for a patch to carry.
fn tag_for_patch(node: &Node) -> (tag: Option<String>)
    ensures
        tag_view(tag) == tag_of(node@),
{
    match node {
        Node::Element(e) => Some(e.tag.clone()),
        Node::Text(_) => None,
    }
}

/// The number of nodes of a subtree that lies within the places a `usize` can hold.
fn subtree_size(node: &Node, start: usize) -> (n: usize)
    requires
        start + node_count(node@) <= usize::MAX,
    ensures
        n == node_count(node@),
{
    match count_within(node, usize::MAX - start) {
        Some(n) => n,
        // never taken: the subtree has no more nodes than that
        None => 0,
    }
}

/// Whether `new_node` supersedes `old_node` as a whole.
fn superseded(old_node: &Node, new_node: &Node, key: &String) -> (r: bool)
    ensures
        r == must_replace(old_node@, new_node@, key@),
{
    match (old_node, new_node) {
        (Node::Text(a), Node::Text(b)) => !(a.text == b.text),
        (Node::Element(a), Node::Element(b)) => {
            if !(a.tag == b.tag) {
                true
            } else {
                let old_key = key_of(old_node, key);
                let new_key = key_of(new_node, key);
                old_key.is_some() && new_key.is_some() && !same_key(old_key, new_key)
            }
        },
        _ => true,
    }
}

/// The place of each child in the pre-order walk of its tree, and after
/// them the place that follows the last child's subtree, from the table of
/// subtree sizes.
fn child_starts(children: &Vec<Node>, parent: usize, sizes: &Vec<usize>) -> (starts: Vec<usize>)
    requires
        parent + 1 + forest_count(nodes_view(children@)) <= usize::MAX,
        forall|q: int|
            0 <= q < children.len() ==> holds_sizes(
                sizes@,
                child_start(nodes_view(children@), parent as nat, q) as int,
                #[trigger] nodes_view(children@)[q],
            ),
    ensures
        starts.len() == children.len() + 1,
        forall|q: int|
            0 <= q <= children.len() ==> (#[trigger] starts[q]) == child_start(
                nodes_view(children@),
                parent as nat,
                q,
            ),
{
    let ghost cv = nodes_view(children@);
    proof {
        lemma_nodes_view(children@);
        assert(cv.take(0) =~= Seq::<NodeView>::empty());
    }
    let mut starts: Vec<usize> = Vec::new();
    let mut next: usize = parent + 1;
    let mut q: usize = 0;
    while q < children.len()
        invariant
            q <= children.len(),
            cv == nodes_view(children@),
            cv.len() == children.len(),
            forall|k: int| 0 <= k < cv.len() ==> (#[trigger] cv[k]) == children@[k]@,
            parent + 1 + forest_count(cv) <= usize::MAX,
            forall|k: int|
                0 <= k < cv.len() ==> holds_sizes(
                    sizes@,
                    child_start(cv, parent as nat, k) as int,
                    #[trigger] cv[k],
                ),
            starts.len() == q,
            next == child_start(cv, parent as nat, q as int),
            forall|k: int| 0 <= k < q ==> (#[trigger] starts[k]) == child_start(cv, parent as nat, k),
        decreases children.len() - q,
    {
        proof {
            lemma_child_within(cv, parent as nat, q as int);
            assert(holds_sizes(sizes@, next as int, cv[q as int]));
            lemma_size_at(sizes@, next as int, cv[q as int]);
        }
        starts.push(next);
        next = next + sizes[next];
        q = q + 1;
    }
    starts.push(next);
    starts
}

/// The new children that have no counterpart among the old ones, where
/// `matched` tells for each new child whether it has one.
fn unmatched_children(
    old_children: &Vec<Node>,
    new_children: &Vec<Node>,
    matched: &Vec<bool>,
    key: &String,
) -> (extra: Vec<(usize, Node)>)
    requires
        matched.len() == new_children.len(),
        forall|q: int|
            0 <= q < new_children.len() ==> (#[trigger] matched[q]) == counterpart(
                nodes_view(new_children@),
                nodes_view(old_children@),
                q,
                key@,
            ) is Some,
    ensures
        placed_view(extra@) == appended(
            nodes_view(old_children@),
            nodes_view(new_children@),
            new_children.len() as int,
            key@,
        ),
{
    let ghost ocv = nodes_view(old_children@);
    let ghost ncv = nodes_view(new_children@);
    proof {
        lemma_nodes_view(new_children@);
    }
    let mut extra: Vec<(usize, Node)> = Vec::new();
    let mut q: usize = 0;
    while q < new_children.len()
        invariant
            q <= new_children.len(),
            ocv == nodes_view(old_children@),
            ncv == nodes_view(new_children@),
            ncv.len() == new_children.len(),
            forall|k: int| 0 <= k < ncv.len() ==> (#[trigger] ncv[k]) == new_children@[k]@,
            matched.len() == new_children.len(),
            forall|k: int|
                0 <= k < new_children.len() ==> (#[trigger] matched[k]) == counterpart(
                    ncv,
                    ocv,
                    k,
                    key@,
                ) is Some,
            placed_view(extra@) == appended(ocv, ncv, q as int, key@),
        decreases new_children.len() - q,
    {
        if !matched[q] {
            let ghost before = placed_view(extra@);
            extra.push((q, new_children[q].clone()));
            assert(placed_view(extra@) =~= before.push((q as nat, ncv[q as int])));
        }
        q = q + 1;
    }
    extra
}

/// The new children beyond the number of the old ones, where no child has a key.
fn surplus_children(old_children: &Vec<Node>, new_children: &Vec<Node>, key: &String) -> (extra: Vec<
    (usize, Node),
>)
    requires
        forall|k: int|
            0 <= k < old_children.len() ==> node_key(#[trigger] old_children@[k]@, key@) is None,
        forall|k: int|
            0 <= k < new_children.len() ==> node_key(#[trigger] new_children@[k]@, key@) is None,
    ensures
        placed_view(extra@) == appended(
            nodes_view(old_children@),
            nodes_view(new_children@),
            new_children.len() as int,
            key@,
        ),
{
    let ghost ocv = nodes_view(old_children@);
    let ghost ncv = nodes_view(new_children@);
    proof {
        lemma_nodes_view(old_children@);
        lemma_nodes_view(new_children@);
        lemma_none_appended_before(ocv, ncv, old_children.len() as int, key@);
    }
    let mut extra: Vec<(usize, Node)> = Vec::new();
    let mut q: usize = old_children.len();
    assert(placed_view(extra@) =~= Seq::<(nat, NodeView)>::empty());
    while q < new_children.len()
        invariant
            old_children.len() <= q,
            ocv == nodes_view(old_children@),
            ncv == nodes_view(new_children@),
            ocv.len() == old_children.len(),
            ncv.len() == new_children.len(),
            forall|k: int| 0 <= k < ncv.len() ==> (#[trigger] ncv[k]) == new_children@[k]@,
            forall|k: int| 0 <= k < ocv.len() ==> node_key(#[trigger] ocv[k], key@) is None,
            forall|k: int| 0 <= k < ncv.len() ==> node_key(#[trigger] ncv[k], key@) is None,
            q <= ncv.len() ==> placed_view(extra@) == appended(ocv, ncv, q as int, key@),
            q > ncv.len() ==> placed_view(extra@) == appended(ocv, ncv, ncv.len() as int, key@),
        decreases new_children.len() - q,
    {
        proof {
            lemma_unkeyed_is_positional(ncv, ocv, q as int, key@);
        }
        let ghost before = placed_view(extra@);
        extra.push((q, new_children[q].clone()));
        assert(placed_view(extra@) =~= before.push((q as nat, ncv[q as int])));
        q = q + 1;
    }
    extra
}

/// Where no child has a key, none of the new children that stand where an
/// old child stands is appended.
proof fn lemma_none_appended_before(
    old_children: Seq<NodeView>,
    new_children: Seq<NodeView>,
    n: int,
    key: Seq<char>,
)
    requires
        0 <= n <= old_children.len(),
        forall|k: int| 0 <= k < old_children.len() ==> node_key(#[trigger] old_children[k], key) is None,
        forall|k: int| 0 <= k < new_children.len() ==> node_key(#[trigger] new_children[k], key) is None,
    ensures
        n <= new_children.len() ==> appended(old_children, new_children, n, key) == Seq::<
            (nat, NodeView),
        >::empty(),
        n > new_children.len() ==> appended(
            old_children,
            new_children,
            new_children.len() as int,
            key,
        ) == Seq::<(nat, NodeView)>::empty(),
    decreases n,
{
    if n > 0 {
        lemma_none_appended_before(old_children, new_children, n - 1, key);
        if n <= new_children.len() {
            lemma_unkeyed_is_positional(new_children, old_children, n - 1, key);
        }
    }
}

/// Walks an old node and the new node that takes its place, and adds their
/// patches to `patches`. The two counters hold the places of the two nodes
/// in the pre-order walks of their trees, and move past the two subtrees.
/// `sizes` holds the subtree size at each place of the new tree, so that no
/// new subtree is counted again.
#[verifier::rlimit(40)]
fn diff_recursive(
    old_node: &Node,
    new_node: &Node,
    cur_node_idx: &mut usize,
    new_node_idx: &mut usize,
    key: &String,
    sizes: &Vec<usize>,
    patches: &mut Vec<Patch>,
)
    requires
        *old(cur_node_idx) + node_count(old_node@) <= usize::MAX,
        *old(new_node_idx) + node_count(new_node@) <= usize::MAX,
        holds_sizes(sizes@, *old(new_node_idx) as int, new_node@),
    ensures
        *final(cur_node_idx) == *old(cur_node_idx) + node_count(old_node@),
        *final(new_node_idx) == *old(new_node_idx) + node_count(new_node@),
        patches_view(final(patches)@) == patches_view(old(patches)@) + diff_node(
            old_node@,
            new_node@,
            *old(cur_node_idx) as nat,
            *old(new_node_idx) as nat,
            key@,
        ),
    decreases old_node,
{
    let i = *cur_node_idx;
    let j = *new_node_idx;
    let ghost base = patches_view(patches@);
    proof {
        lemma_size_at(sizes@, j as int, new_node@);
    }
    if superseded(old_node, new_node, key) {
        let patch = Patch::ReplaceNode {
            node_idx: i,
            new_node_idx: j,
            tag_of_old: tag_for_patch(old_node),
            replacement: new_node.clone(),
        };
        proof {
            lemma_patches_push(patches@, patch);
            assert(base.push(patch@) =~= base + seq![patch@]);
        }
        patches.push(patch);
        *cur_node_idx = i + subtree_size(old_node, i);
        *new_node_idx = j + sizes[j];
        return ;
    }
    match (old_node, new_node) {
        (Node::Element(old_element), Node::Element(new_element)) => {
            let ghost ocv = nodes_view(old_element.children@);
            let ghost ncv = nodes_view(new_element.children@);
            let (set, remove) = diff_attributes(&old_element.attributes, &new_element.attributes);
            if set.len() > 0 || remove.len() > 0 {
                let patch = Patch::AddAttributes {
                    node_idx: i,
                    tag: old_element.tag.clone(),
                    set,
                    remove,
                };
                proof {
                    lemma_patches_push(patches@, patch);
                }
                patches.push(patch);
            }
            assert(patches_view(patches@) =~= base + attribute_patches(
                old_node@,
                new_node@,
                i as nat,
            ));
            let keyed = any_keyed(&old_element.children, key) || any_keyed(
                &new_element.children,
                key,
            );
            let (found, matched) = if keyed {
                pair_children(&old_element.children, &new_element.children, key)
            } else {
                (Vec::new(), Vec::new())
            };
            let extra = if keyed {
                unmatched_children(&old_element.children, &new_element.children, &matched, key)
            } else {
                surplus_children(&old_element.children, &new_element.children, key)
            };
            let ghost mid = patches_view(patches@);
            assert(children_of(old_node@) == ocv && children_of(new_node@) == ncv);
            assert(ncv.len() == new_element.children.len()) by {
                lemma_nodes_view(new_element.children@);
            }
            if extra.len() > 0 {
                let patch = Patch::AppendChildren {
                    node_idx: i,
                    tag: old_element.tag.clone(),
                    children: extra,
                };
                proof {
                    lemma_patches_push(patches@, patch);
                    assert(seq![patch@] == append_patches(old_node@, new_node@, i as nat, key@));
                    assert(mid.push(patch@) =~= mid + seq![patch@]);
                }
                patches.push(patch);
            } else {
                assert(append_patches(old_node@, new_node@, i as nat, key@) == Seq::<PatchView>::empty());
                assert(mid + Seq::<PatchView>::empty() =~= mid);
            }
            let ghost above = base + attribute_patches(old_node@, new_node@, i as nat)
                + append_patches(old_node@, new_node@, i as nat, key@);
            assert(patches_view(patches@) == above);
            *cur_node_idx = i + 1;
            *new_node_idx = j + 1;
            proof {
                lemma_children_sizes(sizes@, j as int, new_node@);
            }
            if keyed {
                diff_children_keyed(
                    &old_element.children,
                    &new_element.children,
                    &found,
                    i,
                    j,
                    cur_node_idx,
                    new_node_idx,
                    key,
                    sizes,
                    patches,
                );
            } else {
                diff_children_unkeyed(
                    &old_element.children,
                    &new_element.children,
                    i,
                    j,
                    cur_node_idx,
                    new_node_idx,
                    key,
                    sizes,
                    patches,
                );
            }
            proof {
                lemma_nodes_view(old_element.children@);
                assert(patches_view(patches@) =~= base + diff_node(
                    old_node@,
                    new_node@,
                    i as nat,
                    j as nat,
                    key@,
                ));
            }
        },
        _ => {
            proof {
                assert(base + Seq::<PatchView>::empty() =~= base);
            }
            *cur_node_idx = i + 1;
            *new_node_idx = j + 1;
        },
    }
}

/// Adds the patch that removes the old child at the counter's place, and
/// moves the counter past the child's subtree.
fn remove_child(child: &Node, cur_node_idx: &mut usize, patches: &mut Vec<Patch>)
    requires
        *old(cur_node_idx) + node_count(child@) <= usize::MAX,
    ensures
        *final(cur_node_idx) == *old(cur_node_idx) + node_count(child@),
        patches_view(final(patches)@) == patches_view(old(patches)@) + seq![
            PatchView::RemoveNode { node_idx: *old(cur_node_idx) as nat, tag: tag_of(child@) },
        ],
{
    let ghost base = patches_view(patches@);
    let patch = Patch::RemoveNode { node_idx: *cur_node_idx, tag: tag_for_patch(child) };
    proof {
        lemma_patches_push(patches@, patch);
        assert(base.push(patch@) =~= base + seq![patch@]);
    }
    patches.push(patch);
    *cur_node_idx = *cur_node_idx + subtree_size(child, *cur_node_idx);
}

/// Walks the children of an old element where a child has a key: each old
/// child against its counterpart, wherever that stands among the new children.
#[verifier::rlimit(40)]
fn diff_children_keyed(
    old_children: &Vec<Node>,
    new_children: &Vec<Node>,
    found: &Vec<Option<usize>>,
    i: usize,
    j: usize,
    cur_node_idx: &mut usize,
    new_node_idx: &mut usize,
    key: &String,
    sizes: &Vec<usize>,
    patches: &mut Vec<Patch>,
)
    requires
        *old(cur_node_idx) == i + 1,
        i + 1 + forest_count(nodes_view(old_children@)) <= usize::MAX,
        j + 1 + forest_count(nodes_view(new_children@)) <= usize::MAX,
        forall|q: int|
            0 <= q < new_children.len() ==> holds_sizes(
                sizes@,
                child_start(nodes_view(new_children@), j as nat, q) as int,
                #[trigger] nodes_view(new_children@)[q],
            ),
        found.len() == old_children.len(),
        forall|p: int|
            0 <= p < old_children.len() ==> place_view(#[trigger] found[p]) == counterpart(
                nodes_view(old_children@),
                nodes_view(new_children@),
                p,
                key@,
            ),
        forall|p: int|
            0 <= p < old_children.len() ==> ((#[trigger] found[p]) matches Some(q) ==> q
                < new_children.len()),
    ensures
        *final(cur_node_idx) == i + 1 + forest_count(nodes_view(old_children@)),
        *final(new_node_idx) == j + 1 + forest_count(nodes_view(new_children@)),
        patches_view(final(patches)@) == patches_view(old(patches)@) + diff_children(
            nodes_view(old_children@),
            nodes_view(new_children@),
            i as nat,
            j as nat,
            old_children.len() as int,
            key@,
        ),
    decreases old_children,
{
    let ghost ocv = nodes_view(old_children@);
    let ghost ncv = nodes_view(new_children@);
    let ghost base = patches_view(patches@);
    proof {
        lemma_nodes_view(old_children@);
        lemma_nodes_view(new_children@);
        assert(ocv.take(0) =~= Seq::<NodeView>::empty());
        assert(base + Seq::<PatchView>::empty() =~= base);
    }
    let starts = child_starts(new_children, j, sizes);
    let mut p: usize = 0;
    while p < old_children.len()
        invariant
            p <= old_children.len(),
                ocv == nodes_view(old_children@),
            ncv == nodes_view(new_children@),
            ocv.len() == old_children.len(),
            ncv.len() == new_children.len(),
            forall|k: int| 0 <= k < ocv.len() ==> (#[trigger] ocv[k]) == old_children@[k]@,
            forall|k: int| 0 <= k < ncv.len() ==> (#[trigger] ncv[k]) == new_children@[k]@,
            i + 1 + forest_count(ocv) <= usize::MAX,
            j + 1 + forest_count(ncv) <= usize::MAX,
            starts.len() == new_children.len() + 1,
            forall|q: int|
                0 <= q <= new_children.len() ==> (#[trigger] starts[q]) == child_start(
                    ncv,
                    j as nat,
                    q,
                ),
            forall|q: int|
                0 <= q < ncv.len() ==> holds_sizes(
                    sizes@,
                    child_start(ncv, j as nat, q) as int,
                    #[trigger] ncv[q],
                ),
            found.len() == old_children.len(),
            forall|k: int|
                0 <= k < old_children.len() ==> place_view(#[trigger] found[k]) == counterpart(
                    ocv,
                    ncv,
                    k,
                    key@,
                ),
            forall|k: int|
                0 <= k < old_children.len() ==> ((#[trigger] found[k]) matches Some(q) ==> q
                    < new_children.len()),
            *cur_node_idx == child_start(ocv, i as nat, p as int),
            patches_view(patches@) == base + diff_children(ocv, ncv, i as nat, j as nat, p as int, key@),
        decreases old_children.len() - p,
    {
        let ghost before = patches_view(patches@);
        proof {
            lemma_child_within(ocv, i as nat, p as int);
        }
        match found[p] {
            Some(q) => {
                proof {
                    lemma_child_within(ncv, j as nat, q as int);
                }
                let mut place: usize = starts[q];
                assert(decreases_to!(old_children => old_children[p as int]));
                assert(holds_sizes(sizes@, place as int, ncv[q as int]));
                diff_recursive(
                    &old_children[p],
                    &new_children[q],
                    cur_node_idx,
                    &mut place,
                    key,
                    sizes,
                    patches,
                );
            },
            None => {
                remove_child(&old_children[p], cur_node_idx, patches);
            },
        }
        proof {
            assert(patches_view(patches@) == before + diff_child(
                ocv,
                ncv,
                i as nat,
                j as nat,
                p as int,
                key@,
            ));
            assert(diff_children(ocv, ncv, i as nat, j as nat, p + 1, key@) == diff_children(
                ocv,
                ncv,
                i as nat,
                j as nat,
                p as int,
                key@,
            ) + diff_child(ocv, ncv, i as nat, j as nat, p as int, key@));
            assert(patches_view(patches@) =~= base + diff_children(
                ocv,
                ncv,
                i as nat,
                j as nat,
                p + 1,
                key@,
            ));
        }
        p = p + 1;
    }
    proof {
        assert(ocv.take(p as int) =~= ocv);
        assert(ncv.take(new_children.len() as int) =~= ncv);
    }
    *new_node_idx = starts[new_children.len()];
}

/// Walks the children of an old element where no child has a key: each old
/// child against the new child at the same position.
#[verifier::rlimit(40)]
fn diff_children_unkeyed(
    old_children: &Vec<Node>,
    new_children: &Vec<Node>,
    i: usize,
    j: usize,
    cur_node_idx: &mut usize,
    new_node_idx: &mut usize,
    key: &String,
    sizes: &Vec<usize>,
    patches: &mut Vec<Patch>,
)
    requires
        *old(cur_node_idx) == i + 1,
        *old(new_node_idx) == j + 1,
        i + 1 + forest_count(nodes_view(old_children@)) <= usize::MAX,
        j + 1 + forest_count(nodes_view(new_children@)) <= usize::MAX,
        forall|q: int|
            0 <= q < new_children.len() ==> holds_sizes(
                sizes@,
                child_start(nodes_view(new_children@), j as nat, q) as int,
                #[trigger] nodes_view(new_children@)[q],
            ),
        forall|k: int| 0 <= k < old_children.len() ==> node_key(#[trigger] old_children@[k]@, key@) is None,
        forall|k: int| 0 <= k < new_children.len() ==> node_key(#[trigger] new_children@[k]@, key@) is None,
    ensures
        *final(cur_node_idx) == i + 1 + forest_count(nodes_view(old_children@)),
        *final(new_node_idx) == j + 1 + forest_count(nodes_view(new_children@)),
        patches_view(final(patches)@) == patches_view(old(patches)@) + diff_children(
            nodes_view(old_children@),
            nodes_view(new_children@),
            i as nat,
            j as nat,
            old_children.len() as int,
            key@,
        ),
    decreases old_children,
{
    let ghost ocv = nodes_view(old_children@);
    let ghost ncv = nodes_view(new_children@);
    let ghost base = patches_view(patches@);
    proof {
        lemma_nodes_view(old_children@);
        lemma_nodes_view(new_children@);
        assert(ocv.take(0) =~= Seq::<NodeView>::empty());
        assert(ncv.take(0) =~= Seq::<NodeView>::empty());
        assert(base + Seq::<PatchView>::empty() =~= base);
    }
    let mut p: usize = 0;
    while p < old_children.len()
        invariant
            p <= old_children.len(),
                ocv == nodes_view(old_children@),
            ncv == nodes_view(new_children@),
            ocv.len() == old_children.len(),
            ncv.len() == new_children.len(),
            forall|k: int| 0 <= k < ocv.len() ==> (#[trigger] ocv[k]) == old_children@[k]@,
            forall|k: int| 0 <= k < ncv.len() ==> (#[trigger] ncv[k]) == new_children@[k]@,
            forall|k: int| 0 <= k < ocv.len() ==> node_key(#[trigger] ocv[k], key@) is None,
            forall|k: int| 0 <= k < ncv.len() ==> node_key(#[trigger] ncv[k], key@) is None,
            i + 1 + forest_count(ocv) <= usize::MAX,
            j + 1 + forest_count(ncv) <= usize::MAX,
            forall|q: int|
                0 <= q < ncv.len() ==> holds_sizes(
                    sizes@,
                    child_start(ncv, j as nat, q) as int,
                    #[trigger] ncv[q],
                ),
            *cur_node_idx == child_start(ocv, i as nat, p as int),
            p <= ncv.len() ==> *new_node_idx == child_start(ncv, j as nat, p as int),
            p > ncv.len() ==> *new_node_idx == child_start(ncv, j as nat, ncv.len() as int),
            patches_view(patches@) == base + diff_children(ocv, ncv, i as nat, j as nat, p as int, key@),
        decreases old_children.len() - p,
    {
        let ghost before = patches_view(patches@);
        proof {
            lemma_child_within(ocv, i as nat, p as int);
            lemma_unkeyed_is_positional(ocv, ncv, p as int, key@);
        }
        if p < new_children.len() {
            proof {
                lemma_child_within(ncv, j as nat, p as int);
            }
            assert(decreases_to!(old_children => old_children[p as int]));
            assert(holds_sizes(sizes@, *new_node_idx as int, ncv[p as int]));
            diff_recursive(
                &old_children[p],
                &new_children[p],
                cur_node_idx,
                new_node_idx,
                key,
                sizes,
                patches,
            );
        } else {
            remove_child(&old_children[p], cur_node_idx, patches);
        }
        proof {
            assert(patches_view(patches@) == before + diff_child(
                ocv,
                ncv,
                i as nat,
                j as nat,
                p as int,
                key@,
            ));
            assert(diff_children(ocv, ncv, i as nat, j as nat, p + 1, key@) == diff_children(
                ocv,
                ncv,
                i as nat,
                j as nat,
                p as int,
                key@,
            ) + diff_child(ocv, ncv, i as nat, j as nat, p as int, key@));
            assert(patches_view(patches@) =~= base + diff_children(
                ocv,
                ncv,
                i as nat,
                j as nat,
                p + 1,
                key@,
            ));
        }
        p = p + 1;
    }
    let mut q: usize = p;
    while q < new_children.len()
        invariant
            old_children.len() <= q,
            ncv == nodes_view(new_children@),
            ncv.len() == new_children.len(),
            forall|k: int| 0 <= k < ncv.len() ==> (#[trigger] ncv[k]) == new_children@[k]@,
            j + 1 + forest_count(ncv) <= usize::MAX,
            forall|k: int|
                0 <= k < ncv.len() ==> holds_sizes(
                    sizes@,
                    child_start(ncv, j as nat, k) as int,
                    #[trigger] ncv[k],
                ),
            q <= ncv.len() ==> *new_node_idx == child_start(ncv, j as nat, q as int),
            q > ncv.len() ==> *new_node_idx == child_start(ncv, j as nat, ncv.len() as int),
        decreases new_children.len() - q,
    {
        proof {
            lemma_child_within(ncv, j as nat, q as int);
            assert(holds_sizes(sizes@, *new_node_idx as int, ncv[q as int]));
            lemma_size_at(sizes@, *new_node_idx as int, ncv[q as int]);
        }
        *new_node_idx = *new_node_idx + sizes[*new_node_idx];
        q = q + 1;
    }
    proof {
        assert(ocv.take(old_children.len() as int) =~= ocv);
        assert(ncv.take(new_children.len() as int) =~= ncv);
    }
}

/// What the differ yields for two trees. Where both have no more nodes
/// than a `usize` can number, the patches of the walk. Beyond that no
/// place can be numbered: trees with the same content still have no patch,
/// and others the one patch that replaces the root.
pub open spec fn diff_outcome(old: NodeView, new: NodeView, key: Seq<char>) -> Seq<PatchView> {
    if node_count(old) <= usize::MAX && node_count(new) <= usize::MAX {
        diff_trees_with_key(old, new, key)
    } else if content_equal(old, new) {
        Seq::empty()
    } else {
        seq![replace_patch(old, new, 0, 0)]
    }
}

/// The patches that turn the tree `old` into the tree `new`, in the order of
/// their targets in the pre-order walk of `old`. Between a tree and itself,
/// and between any two trees with the same content, there is none.
pub fn diff(old: &Node, new: &Node) -> (patches: Vec<Patch>)
    ensures
        patches_view(patches@) == diff_outcome(old@, new@, default_key()),
        old@ == new@ ==> patches@.len() == 0,
        content_equal(old@, new@) ==> patches@.len() == 0,
{
    diff_with_key(old, new, "key")
}

/// The patches that turn the tree `old` into the tree `new`, where `key`
/// names the attribute that holds a child's key. Between a tree and itself,
/// and between any two trees with the same content, there is none.
pub fn diff_with_key(old: &Node, new: &Node, key: &str) -> (patches: Vec<Patch>)
    ensures
        patches_view(patches@) == diff_outcome(old@, new@, key@),
        old@ == new@ ==> patches@.len() == 0,
        content_equal(old@, new@) ==> patches@.len() == 0,
{
    let mut patches: Vec<Patch> = Vec::new();
    assert(patches_view(patches@) =~= Seq::<PatchView>::empty());
    proof {
        lemma_content_equal_reflexive(old@);
        if content_equal(old@, new@) {
            lemma_content_equal_no_patches(old@, new@, 0, 0, key@);
        }
    }
    if count_within(old, usize::MAX).is_some() && count_within(new, usize::MAX).is_some() {
        let key = key.to_owned();
        let mut sizes: Vec<usize> = Vec::new();
        fill_sizes(new, &mut sizes);
        let mut cur_node_idx: usize = 0;
        let mut new_node_idx: usize = 0;
        diff_recursive(old, new, &mut cur_node_idx, &mut new_node_idx, &key, &sizes, &mut patches);
        assert(Seq::<PatchView>::empty() + diff_trees_with_key(old@, new@, key@)
            =~= diff_trees_with_key(old@, new@, key@));
    } else if !same_content(old, new) {
        let patch = Patch::ReplaceNode {
            node_idx: 0,
            new_node_idx: 0,
            tag_of_old: tag_for_patch(old),
            replacement: new.clone(),
        };
        proof {
            lemma_patches_push(patches@, patch);
        }
        patches.push(patch);
        assert(patches_view(patches@) =~= seq![replace_patch(old@, new@, 0, 0)]);
    }
    assert(patches_view(patches@).len() == patches@.len());
    patches
}

} // verus!
