//! The pre-order walk of a tree: the numbering of its nodes, by which
//! patches address their targets, and the way from the root to a place.
use vstd::prelude::*;
use crate::model::{children_of, NodeView};

verus! {

/// Number of nodes of a tree.
pub open spec fn node_count(n: NodeView) -> nat
    decreases n,
{
    match n {
        NodeView::Text { .. } => 1,
        NodeView::Element { children, .. } => 1 + forest_count(children),
    }
}

/// Number of nodes of a sequence of trees.
pub open spec fn forest_count(s: Seq<NodeView>) -> nat
    decreases s,
{
    if s.len() == 0 {
        0
    } else {
        forest_count(s.drop_last()) + node_count(s.last())
    }
}

/// The place, in the pre-order walk of a tree, of child `p` of an element
/// that has the place `parent`: after the parent and all that is below the
/// children before it.
pub open spec fn child_start(children: Seq<NodeView>, parent: nat, p: int) -> nat {
    parent + 1 + forest_count(children.take(p))
}

/// The node at place `idx` of the pre-order walk of a tree: the root at 0,
/// then each child with all below it, in turn.
pub open spec fn node_at(root: NodeView, idx: nat) -> Option<NodeView>
    decreases root, 0int,
{
    if idx == 0 {
        Some(root)
    } else {
        match root {
            NodeView::Element { children, .. } => node_among(
                children,
                (idx - 1) as nat,
                children.len() as int,
            ),
            NodeView::Text { .. } => None,
        }
    }
}

/// The node at place `idx` of the walk of the first `n` children, one
/// after the other, counted from the place of the first child.
pub open spec fn node_among(children: Seq<NodeView>, idx: nat, n: int) -> Option<NodeView>
    decreases children, n,
{
    if n <= 0 || n > children.len() {
        None
    } else if idx >= forest_count(children.take(n - 1)) {
        node_at(children[n - 1], (idx - forest_count(children.take(n - 1))) as nat)
    } else {
        node_among(children, idx, n - 1)
    }
}

/// The way from the root of a tree to the node at place `idx` of its
/// pre-order walk: at each element on the way, the position of the child to
/// go to. `None` where the tree has no such place.
pub open spec fn path_to(root: NodeView, idx: nat) -> Option<Seq<nat>>
    decreases root, 0int,
{
    if idx == 0 {
        Some(Seq::empty())
    } else {
        match root {
            NodeView::Element { children, .. } => path_among(
                children,
                (idx - 1) as nat,
                children.len() as int,
            ),
            NodeView::Text { .. } => None,
        }
    }
}

/// The way to the node at place `idx` of the walk of the first `n`
/// children, counted from the place of the first child.
pub open spec fn path_among(children: Seq<NodeView>, idx: nat, n: int) -> Option<Seq<nat>>
    decreases children, n,
{
    if n <= 0 || n > children.len() {
        None
    } else if idx >= forest_count(children.take(n - 1)) {
        match path_to(children[n - 1], (idx - forest_count(children.take(n - 1))) as nat) {
            Some(rest) => Some(seq![(n - 1) as nat] + rest),
            None => None,
        }
    } else {
        path_among(children, idx, n - 1)
    }
}

/// The node at the end of a way from the root.
pub open spec fn node_along(root: NodeView, path: Seq<nat>) -> Option<NodeView>
    decreases path.len(),
{
    if path.len() == 0 {
        Some(root)
    } else if path[0] < children_of(root).len() {
        node_along(children_of(root)[path[0] as int], path.drop_first())
    } else {
        None
    }
}

/// Every tree has a node.
pub proof fn lemma_node_count_positive(n: NodeView)
    ensures
        node_count(n) >= 1,
{
}

/// Counting one more child adds the nodes of that child.
pub proof fn lemma_forest_count_step(children: Seq<NodeView>, p: int)
    requires
        0 <= p < children.len(),
    ensures
        forest_count(children.take(p + 1)) == forest_count(children.take(p)) + node_count(
            children[p],
        ),
{
    assert(children.take(p + 1).drop_last() =~= children.take(p));
    assert(children.take(p + 1).last() == children[p]);
}

/// The first children hold no more nodes than all of them.
pub proof fn lemma_forest_count_prefix(children: Seq<NodeView>, p: int)
    requires
        0 <= p <= children.len(),
    ensures
        forest_count(children.take(p)) <= forest_count(children),
    decreases children.len() - p,
{
    if p < children.len() {
        lemma_forest_count_step(children, p);
        lemma_forest_count_prefix(children, p + 1);
    } else {
        assert(children.take(p) =~= children);
    }
}

/// A child with all below it lies within the places of its parent's subtree.
pub proof fn lemma_child_within(children: Seq<NodeView>, parent: nat, p: int)
    requires
        0 <= p < children.len(),
    ensures
        child_start(children, parent, p) + node_count(children[p]) == child_start(
            children,
            parent,
            p + 1,
        ),
        child_start(children, parent, p + 1) <= parent + 1 + forest_count(children),
{
    lemma_forest_count_step(children, p);
    lemma_forest_count_prefix(children, p + 1);
}

/// A place within a child's subtree holds the node that the child has there.
pub proof fn lemma_node_among_child(children: Seq<NodeView>, p: int, k: nat, n: int)
    requires
        0 <= p < n <= children.len(),
        k < node_count(children[p]),
    ensures
        node_among(children, forest_count(children.take(p)) + k, n) == node_at(children[p], k),
    decreases n,
{
    lemma_forest_count_step(children, p);
    if n - 1 > p {
        lemma_forest_count_monotone(children, p + 1, n - 1);
        lemma_node_among_child(children, p, k, n - 1);
    }
}

/// More children hold no fewer nodes.
pub proof fn lemma_forest_count_monotone(children: Seq<NodeView>, a: int, b: int)
    requires
        0 <= a <= b <= children.len(),
    ensures
        forest_count(children.take(a)) <= forest_count(children.take(b)),
    decreases b - a,
{
    if a < b {
        lemma_forest_count_step(children, b - 1);
        lemma_forest_count_monotone(children, a, b - 1);
    }
}

/// A place within the subtree of child `p` of a tree holds the node that the
/// child has there.
pub proof fn lemma_node_at_child(root: NodeView, p: int, k: nat)
    requires
        0 <= p < children_of(root).len(),
        k < node_count(children_of(root)[p]),
    ensures
        node_at(root, (child_start(children_of(root), 0, p) + k) as nat) == node_at(
            children_of(root)[p],
            k,
        ),
{
    let children = children_of(root);
    lemma_node_among_child(children, p, k, children.len() as int);
}

/// Address resolution: a place of the tree has a way to it, and the way
/// leads to the node at that place; where the tree has no such place there
/// is no way.
pub proof fn lemma_path_leads_to_node(root: NodeView, idx: nat)
    ensures
        path_to(root, idx) is Some <==> node_at(root, idx) is Some,
        path_to(root, idx) matches Some(path) ==> node_along(root, path) == node_at(root, idx),
    decreases root, children_of(root).len() + 1,
{
    if idx > 0 {
        match root {
            NodeView::Element { children, .. } => {
                lemma_path_among_leads_to_node(root, (idx - 1) as nat, children.len() as int);
            },
            NodeView::Text { .. } => {},
        }
    }
}

/// The same among the first `n` children of an element.
pub proof fn lemma_path_among_leads_to_node(root: NodeView, idx: nat, n: int)
    requires
        root is Element,
    ensures
        path_among(children_of(root), idx, n) is Some <==> node_among(children_of(root), idx, n)
            is Some,
        path_among(children_of(root), idx, n) matches Some(path) ==> node_along(root, path)
            == node_among(children_of(root), idx, n),
    decreases root, n,
{
    let children = children_of(root);
    if 0 < n <= children.len() {
        if idx >= forest_count(children.take(n - 1)) {
            let within = (idx - forest_count(children.take(n - 1))) as nat;
            lemma_path_leads_to_node(children[n - 1], within);
            if path_to(children[n - 1], within) is Some {
                let rest = path_to(children[n - 1], within).unwrap();
                let path = seq![(n - 1) as nat] + rest;
                assert(path.drop_first() =~= rest);
            }
        } else {
            lemma_path_among_leads_to_node(root, idx, n - 1);
        }
    }
}

/// A place within a child's subtree has the way of that child, then the
/// way within the child.
pub proof fn lemma_path_among_child(children: Seq<NodeView>, p: int, k: nat, n: int)
    requires
        0 <= p < n <= children.len(),
        k < node_count(children[p]),
    ensures
        path_among(children, forest_count(children.take(p)) + k, n) == match path_to(
            children[p],
            k,
        ) {
            Some(rest) => Some(seq![p as nat] + rest),
            None => None,
        },
    decreases n,
{
    lemma_forest_count_step(children, p);
    if n - 1 > p {
        lemma_forest_count_monotone(children, p + 1, n - 1);
        lemma_path_among_child(children, p, k, n - 1);
    }
}

/// Past the last node of a tree there is no way.
pub proof fn lemma_path_to_beyond(root: NodeView, idx: nat)
    requires
        idx >= node_count(root),
    ensures
        path_to(root, idx) is None,
    decreases root, 0int,
{
    match root {
        NodeView::Element { children, .. } => {
            assert(children.take(children.len() as int) =~= children);
            lemma_path_among_beyond(children, (idx - 1) as nat, children.len() as int);
        },
        NodeView::Text { .. } => {},
    }
}

/// Past the last node of the first `n` children there is no way among them.
pub proof fn lemma_path_among_beyond(children: Seq<NodeView>, idx: nat, n: int)
    requires
        0 <= n <= children.len(),
        idx >= forest_count(children.take(n)),
    ensures
        path_among(children, idx, n) is None,
    decreases children, n,
{
    if n > 0 {
        lemma_forest_count_step(children, n - 1);
        lemma_path_to_beyond(children[n - 1], (idx - forest_count(children.take(n - 1))) as nat);
    }
}

/// Past the last node of a tree there is no node.
pub proof fn lemma_node_at_beyond(root: NodeView, idx: nat)
    requires
        idx >= node_count(root),
    ensures
        node_at(root, idx) is None,
    decreases root, 0int,
{
    match root {
        NodeView::Element { children, .. } => {
            assert(children.take(children.len() as int) =~= children);
            lemma_node_among_beyond(children, (idx - 1) as nat, children.len() as int);
        },
        NodeView::Text { .. } => {},
    }
}

/// Past the last node of the first `n` children there is no node among them.
pub proof fn lemma_node_among_beyond(children: Seq<NodeView>, idx: nat, n: int)
    requires
        0 <= n <= children.len(),
        idx >= forest_count(children.take(n)),
    ensures
        node_among(children, idx, n) is None,
    decreases children, n,
{
    if n > 0 {
        lemma_forest_count_step(children, n - 1);
        lemma_node_at_beyond(children[n - 1], (idx - forest_count(children.take(n - 1))) as nat);
    }
}

/// For each place of a tree, in the order of the pre-order walk, the number
/// of nodes of the subtree at that place.
pub open spec fn subtree_sizes(n: NodeView) -> Seq<nat>
    decreases n, 0int,
{
    match n {
        NodeView::Text { .. } => seq![1nat],
        NodeView::Element { children, .. } => seq![node_count(n)] + forest_sizes(
            children,
            children.len() as int,
        ),
    }
}

/// The same for the first `n` children, one after the other.
pub open spec fn forest_sizes(children: Seq<NodeView>, n: int) -> Seq<nat>
    decreases children, n,
{
    if n <= 0 || n > children.len() {
        Seq::empty()
    } else {
        forest_sizes(children, n - 1) + subtree_sizes(children[n - 1])
    }
}

/// Whether the table holds, from `at` on, the subtree sizes of the tree.
#[verifier::opaque]
pub open spec fn holds_sizes(table: Seq<usize>, at: int, n: NodeView) -> bool {
    &&& 0 <= at
    &&& at + node_count(n) <= table.len()
    &&& forall|k: int|
        0 <= k < node_count(n) ==> (#[trigger] table[at + k]) as nat == subtree_sizes(n)[k]
}

/// A tree has a subtree size for each of its places, and the first is its own.
pub proof fn lemma_subtree_sizes_len(n: NodeView)
    ensures
        subtree_sizes(n).len() == node_count(n),
        subtree_sizes(n)[0] == node_count(n),
    decreases n, children_of(n).len() + 1,
{
    match n {
        NodeView::Text { .. } => {},
        NodeView::Element { children, .. } => {
            lemma_forest_sizes_len(n, children.len() as int);
            assert(children.take(children.len() as int) =~= children);
        },
    }
}

/// The first `n` children have a subtree size for each of their places.
pub proof fn lemma_forest_sizes_len(parent: NodeView, n: int)
    requires
        parent is Element,
        0 <= n <= children_of(parent).len(),
    ensures
        forest_sizes(children_of(parent), n).len() == forest_count(children_of(parent).take(n)),
    decreases parent, n,
{
    let children = children_of(parent);
    if n > 0 {
        lemma_forest_sizes_len(parent, n - 1);
        lemma_subtree_sizes_len(children[n - 1]);
        lemma_forest_count_step(children, n - 1);
    } else {
        assert(children.take(0) =~= Seq::<NodeView>::empty());
    }
}

/// Among the subtree sizes of the first `n` children, those of child `q`
/// stand at the places of that child.
pub proof fn lemma_forest_sizes_child(parent: NodeView, q: int, n: int, k: int)
    requires
        parent is Element,
        0 <= q < n <= children_of(parent).len(),
        0 <= k < node_count(children_of(parent)[q]),
    ensures
        forest_count(children_of(parent).take(q)) + k < forest_sizes(children_of(parent), n).len(),
        forest_sizes(children_of(parent), n)[forest_count(children_of(parent).take(q)) + k]
            == subtree_sizes(children_of(parent)[q])[k],
    decreases n,
{
    let children = children_of(parent);
    lemma_forest_sizes_len(parent, n - 1);
    lemma_forest_sizes_len(parent, n);
    lemma_forest_count_step(children, n - 1);
    lemma_subtree_sizes_len(children[n - 1]);
    if q < n - 1 {
        lemma_forest_sizes_child(parent, q, n - 1, k);
        lemma_forest_count_step(children, q);
        lemma_forest_count_monotone(children, q + 1, n - 1);
    }
}

/// A table that holds the subtree sizes of an element holds those of each
/// child at the child's place.
pub proof fn lemma_child_sizes(table: Seq<usize>, at: int, parent: NodeView, q: int)
    requires
        parent is Element,
        holds_sizes(table, at, parent),
        0 <= q < children_of(parent).len(),
    ensures
        holds_sizes(table, child_start(children_of(parent), at as nat, q) as int, children_of(parent)[q]),
{
    reveal(holds_sizes);
    let children = children_of(parent);
    let child = children[q];
    let start = child_start(children, at as nat, q) as int;
    lemma_child_within(children, at as nat, q);
    assert(children.take(children.len() as int) =~= children);
    assert forall|k: int| 0 <= k < node_count(child) implies (#[trigger] table[start + k]) as nat
        == subtree_sizes(child)[k] by {
        lemma_forest_sizes_child(parent, q, children.len() as int, k);
        let inner = forest_count(children.take(q)) + k;
        assert(table[at + (1 + inner)] as nat == subtree_sizes(parent)[1 + inner]);
        assert(at + (1 + inner) == start + k);
    }
}

/// A table that holds the subtree sizes of a tree holds, at the place of
/// the tree, its number of nodes.
pub proof fn lemma_size_at(table: Seq<usize>, at: int, n: NodeView)
    requires
        holds_sizes(table, at, n),
    ensures
        0 <= at < table.len(),
        table[at] as nat == node_count(n),
{
    reveal(holds_sizes);
    lemma_subtree_sizes_len(n);
    assert(table[at + 0] as nat == subtree_sizes(n)[0]);
}

/// A table that holds the subtree sizes of an element holds those of every
/// child at the child's place.
pub proof fn lemma_children_sizes(table: Seq<usize>, at: int, parent: NodeView)
    requires
        parent is Element,
        holds_sizes(table, at, parent),
    ensures
        forall|q: int|
            0 <= q < children_of(parent).len() ==> holds_sizes(
                table,
                child_start(children_of(parent), at as nat, q) as int,
                #[trigger] children_of(parent)[q],
            ),
{
    assert forall|q: int| 0 <= q < children_of(parent).len() implies holds_sizes(
        table,
        child_start(children_of(parent), at as nat, q) as int,
        #[trigger] children_of(parent)[q],
    ) by {
        lemma_child_sizes(table, at, parent, q);
    }
}

} // verus!
