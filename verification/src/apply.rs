//! Applying patches to a tree: one forward pass over the tree in pre-order
//! and over the patches in their order.
use vstd::prelude::*;
use crate::attr_diff::names_view;
use crate::model::{children_of, AttributeView, NodeView};
use crate::walk::{child_start, lemma_child_within, node_count};
use crate::node::{
    attributes_view, clone_attributes, count_within, lemma_nodes_view, nodes_view, Attribute,
    Element, Node,
};
use crate::patch::{patch_target, patches_view, placed_view, Patch, PatchView};

verus! {

/// What the patches at a node make of it.
pub enum Fate {
    /// The node stays, with what the patches change of it.
    Keep,
    /// Another subtree takes its place.
    Replace(NodeView),
    /// The node leaves, with all below it.
    Remove,
}

/// Where the run of patches addressed at place `i` ends that begins at `pos`.
pub open spec fn run_end(patches: Seq<PatchView>, pos: int, i: nat) -> int
    decreases patches.len() - pos,
{
    if 0 <= pos < patches.len() && patch_target(patches[pos]) == i {
        run_end(patches, pos + 1, i)
    } else {
        pos
    }
}

/// What the patches from `pos` up to `end` make of their node: the first
/// of them that replaces or removes it decides.
pub open spec fn fate(patches: Seq<PatchView>, pos: int, end: int) -> Fate
    decreases end - pos,
{
    if pos >= end {
        Fate::Keep
    } else {
        match patches[pos] {
            PatchView::ReplaceNode { replacement, .. } => Fate::Replace(replacement),
            PatchView::RemoveNode { .. } => Fate::Remove,
            _ => fate(patches, pos + 1, end),
        }
    }
}

/// The attributes without those that have one of the given names.
pub open spec fn without_names(attrs: Seq<AttributeView>, names: Seq<Seq<char>>) -> Seq<
    AttributeView,
>
    decreases attrs.len(),
{
    if attrs.len() == 0 {
        attrs
    } else if names.contains(attrs.last().name) {
        without_names(attrs.drop_last(), names)
    } else {
        without_names(attrs.drop_last(), names).push(attrs.last())
    }
}

/// The names of the attributes of a list, in their order.
pub open spec fn attribute_names(attrs: Seq<AttributeView>) -> Seq<Seq<char>> {
    Seq::new(attrs.len(), |i: int| attrs[i].name)
}

/// The attributes after one patch: those named in `remove` leave, and so
/// do those with the name of an attribute of `set`; those of `set` come
/// after the ones that stay.
pub open spec fn patch_attributes(
    attrs: Seq<AttributeView>,
    set: Seq<AttributeView>,
    remove: Seq<Seq<char>>,
) -> Seq<AttributeView> {
    without_names(attrs, remove + attribute_names(set)) + set
}

/// The attributes after the attribute patches from `pos` up to `end`, in their order.
pub open spec fn patched_attributes(
    attrs: Seq<AttributeView>,
    patches: Seq<PatchView>,
    pos: int,
    end: int,
) -> Seq<AttributeView>
    decreases end - pos,
{
    if pos >= end {
        attrs
    } else {
        match patches[pos] {
            PatchView::AddAttributes { set, remove, .. } => patched_attributes(
                patch_attributes(attrs, set, remove),
                patches,
                pos + 1,
                end,
            ),
            _ => patched_attributes(attrs, patches, pos + 1, end),
        }
    }
}

/// The children that the patches from `pos` up to `end` append, in their order.
pub open spec fn extra_children(patches: Seq<PatchView>, pos: int, end: int) -> Seq<
    (nat, NodeView),
>
    decreases end - pos,
{
    if pos >= end {
        Seq::empty()
    } else {
        match patches[pos] {
            PatchView::AppendChildren { children, .. } => children + extra_children(
                patches,
                pos + 1,
                end,
            ),
            _ => extra_children(patches, pos + 1, end),
        }
    }
}

/// The children of a patched element, from the kept children after the
/// first `a` and the appended ones after the first `b`: an appended child
/// goes to the position it names, as soon as that is reached; the kept
/// children fill the other positions in their order; appended children
/// that name a position beyond the end come last.
pub open spec fn place_children(
    kept: Seq<NodeView>,
    extra: Seq<(nat, NodeView)>,
    a: int,
    b: int,
) -> Seq<NodeView>
    decreases kept.len() - a + extra.len() - b,
{
    if a < 0 || a > kept.len() || b < 0 || b > extra.len() || (a == kept.len() && b
        == extra.len()) {
        Seq::empty()
    } else if b < extra.len() && (a == kept.len() || extra[b].0 <= a + b) {
        seq![extra[b].1] + place_children(kept, extra, a, b + 1)
    } else {
        seq![kept[a]] + place_children(kept, extra, a + 1, b)
    }
}

/// What the patches make of the node at place `i`, and how far the patches
/// are used up. The patches for the node are those addressed at `i` that
/// come next, from `pos` on.
pub open spec fn apply_node(node: NodeView, i: nat, patches: Seq<PatchView>, pos: int) -> (
    Option<NodeView>,
    int,
)
    decreases node, 0int,
{
    let end = run_end(patches, pos, i);
    match fate(patches, pos, end) {
        Fate::Replace(replacement) => (Some(replacement), end),
        Fate::Remove => (None, end),
        Fate::Keep => match node {
            NodeView::Text { .. } => (Some(node), end),
            NodeView::Element { tag, attributes, children } => {
                let below = apply_children(children, i, patches, end, children.len() as int);
                (
                    Some(
                        NodeView::Element {
                            tag,
                            attributes: patched_attributes(attributes, patches, pos, end),
                            children: place_children(
                                below.0,
                                extra_children(patches, pos, end),
                                0,
                                0,
                            ),
                        },
                    ),
                    below.1,
                )
            },
        },
    }
}

/// What the patches make of the first `n` children of the element at `i`:
/// those that stay, and how far the patches are used up.
pub open spec fn apply_children(
    children: Seq<NodeView>,
    i: nat,
    patches: Seq<PatchView>,
    pos: int,
    n: int,
) -> (Seq<NodeView>, int)
    decreases children, n,
{
    if n <= 0 || n > children.len() {
        (Seq::empty(), pos)
    } else {
        let front = apply_children(children, i, patches, pos, n - 1);
        let last = apply_node(children[n - 1], child_start(children, i, n - 1), patches, front.1);
        (
            match last.0 {
                Some(node) => front.0.push(node),
                None => front.0,
            },
            last.1,
        )
    }
}

/// Why a list of patches cannot be applied to a tree.
pub enum PatchErrorView {
    /// A patch removes the root, which has no parent to leave.
    RootRemoved,
    /// The patch with this address was not reached in the walk of the tree:
    /// it is out of order, or its target is not there.
    Unresolved { node_idx: nat },
}

/// The tree that the patches make of `root`. All patches must find their
/// targets in one pre-order walk of the tree.
pub open spec fn apply_trees(root: NodeView, patches: Seq<PatchView>) -> Result<
    NodeView,
    PatchErrorView,
> {
    let done = apply_node(root, 0, patches, 0);
    match done.0 {
        None => Err(PatchErrorView::RootRemoved),
        Some(tree) => if 0 <= done.1 < patches.len() {
            Err(PatchErrorView::Unresolved { node_idx: patch_target(patches[done.1]) })
        } else {
            Ok(tree)
        },
    }
}

/// Why a list of patches cannot be applied to a tree.
#[derive(Debug, Clone, Copy, PartialEq, Eq)]
pub enum PatchError {
    /// A patch removes the root, which has no parent to leave.
    RootRemoved,
    /// The patch with this address was not reached in the walk of the tree:
    /// it is out of order, or its target is not there.
    Unresolved { node_idx: usize },
}

impl View for PatchError {
    type V = PatchErrorView;

    open spec fn view(&self) -> PatchErrorView {
        match self {
            PatchError::RootRemoved => PatchErrorView::RootRemoved,
            PatchError::Unresolved { node_idx } => PatchErrorView::Unresolved {
                node_idx: *node_idx as nat,
            },
        }
    }
}

/// The model of the outcome of applying patches.
pub open spec fn outcome_view(res: Result<Node, PatchError>) -> Result<NodeView, PatchErrorView> {
    match res {
        Ok(tree) => Ok(tree@),
        Err(e) => Err(e@),
    }
}

/// Where the run of patches addressed at place `i` ends that begins at `start`.
fn find_run_end(patches: &Vec<Patch>, start: usize, i: usize) -> (end: usize)
    requires
        start <= patches.len(),
    ensures
        start <= end <= patches.len(),
        end == run_end(patches_view(patches@), start as int, i as nat),
{
    let ghost pv = patches_view(patches@);
    let mut end: usize = start;
    while end < patches.len() && patches[end].node_idx() == i
        invariant
            start <= end <= patches.len(),
            pv == patches_view(patches@),
            run_end(pv, start as int, i as nat) == run_end(pv, end as int, i as nat),
        decreases patches.len() - end,
    {
        end = end + 1;
    }
    end
}

/// What the patches at a node make of it, in the executable tree.
pub enum NodeFate<'a> {
    Keep,
    Replace(&'a Node),
    Remove,
}

/// The model of what patches make of a node.
pub open spec fn fate_view(f: NodeFate) -> Fate {
    match f {
        NodeFate::Keep => Fate::Keep,
        NodeFate::Replace(node) => Fate::Replace(node@),
        NodeFate::Remove => Fate::Remove,
    }
}

/// What the patches from `start` up to `end` make of their node.
fn find_fate<'a>(patches: &'a Vec<Patch>, start: usize, end: usize) -> (f: NodeFate<'a>)
    requires
        start <= end <= patches.len(),
    ensures
        fate_view(f) == fate(patches_view(patches@), start as int, end as int),
{
    let ghost pv = patches_view(patches@);
    let mut k: usize = start;
    while k < end
        invariant
            start <= k <= end <= patches.len(),
            pv == patches_view(patches@),
            fate(pv, start as int, end as int) == fate(pv, k as int, end as int),
        decreases end - k,
    {
        match &patches[k] {
            Patch::ReplaceNode { replacement, .. } => {
                return NodeFate::Replace(replacement);
            },
            Patch::RemoveNode { .. } => {
                return NodeFate::Remove;
            },
            _ => {},
        }
        k = k + 1;
    }
    NodeFate::Keep
}

/// A name is in one list after another exactly where it is in one of them.
pub proof fn lemma_contains_either(a: Seq<Seq<char>>, b: Seq<Seq<char>>, name: Seq<char>)
    ensures
        (a + b).contains(name) <==> a.contains(name) || b.contains(name),
{
    if a.contains(name) {
        let i = choose|i: int| 0 <= i < a.len() && a[i] == name;
        assert((a + b)[i] == name);
    }
    if b.contains(name) {
        let i = choose|i: int| 0 <= i < b.len() && b[i] == name;
        assert((a + b)[a.len() + i] == name);
    }
    if (a + b).contains(name) {
        let i = choose|i: int| 0 <= i < (a + b).len() && (a + b)[i] == name;
        if i < a.len() {
            assert(a[i] == name);
        } else {
            assert(b[i - a.len()] == name);
        }
    }
}

/// Whether the list holds the name.
fn holds_name(names: &Vec<String>, name: &String) -> (r: bool)
    ensures
        r == names_view(names@).contains(name@),
{
    let mut k: usize = 0;
    while k < names.len()
        invariant
            k <= names.len(),
            forall|m: int| 0 <= m < k ==> names_view(names@)[m] != name@,
        decreases names.len() - k,
    {
        if names[k] == *name {
            assert(names_view(names@)[k as int] == name@);
            return true;
        }
        k = k + 1;
    }
    false
}

/// Whether an attribute of the list has the name.
fn holds_attribute_name(attrs: &Vec<Attribute>, name: &String) -> (r: bool)
    ensures
        r == attribute_names(attributes_view(attrs@)).contains(name@),
{
    let ghost names = attribute_names(attributes_view(attrs@));
    let mut k: usize = 0;
    while k < attrs.len()
        invariant
            k <= attrs.len(),
            names == attribute_names(attributes_view(attrs@)),
            forall|m: int| 0 <= m < k ==> names[m] != name@,
        decreases attrs.len() - k,
    {
        if attrs[k].name == *name {
            assert(names[k as int] == name@);
            return true;
        }
        k = k + 1;
    }
    false
}

/// The attributes after one patch: those named in `remove` leave, and so
/// do those with the name of an attribute of `set`; those of `set` come
/// after the ones that stay.
fn apply_attribute_patch(attrs: &Vec<Attribute>, set: &Vec<Attribute>, remove: &Vec<String>) -> (res:
    Vec<Attribute>)
    ensures
        attributes_view(res@) == patch_attributes(
            attributes_view(attrs@),
            attributes_view(set@),
            names_view(remove@),
        ),
{
    let ghost av = attributes_view(attrs@);
    let ghost names = names_view(remove@) + attribute_names(attributes_view(set@));
    let mut res: Vec<Attribute> = Vec::new();
    let mut k: usize = 0;
    assert(attributes_view(res@) =~= without_names(av.take(0), names));
    while k < attrs.len()
        invariant
            k <= attrs.len(),
            av == attributes_view(attrs@),
            names == names_view(remove@) + attribute_names(attributes_view(set@)),
            attributes_view(res@) == without_names(av.take(k as int), names),
        decreases attrs.len() - k,
    {
        proof {
            assert(av.take(k + 1).drop_last() =~= av.take(k as int));
            assert(av.take(k + 1).last() == attrs@[k as int]@);
            lemma_contains_either(
                names_view(remove@),
                attribute_names(attributes_view(set@)),
                attrs@[k as int]@.name,
            );
        }
        if !holds_name(remove, &attrs[k].name) && !holds_attribute_name(set, &attrs[k].name) {
            let ghost before = attributes_view(res@);
            res.push(attrs[k].clone());
            assert(attributes_view(res@) =~= before.push(attrs@[k as int]@));
        }
        k = k + 1;
    }
    assert(av.take(attrs.len() as int) =~= av);
    let ghost kept = attributes_view(res@);
    let mut m: usize = 0;
    assert(kept + attributes_view(set@).take(0) =~= kept);
    while m < set.len()
        invariant
            m <= set.len(),
            attributes_view(res@) == kept + attributes_view(set@).take(m as int),
        decreases set.len() - m,
    {
        let ghost before = attributes_view(res@);
        res.push(set[m].clone());
        assert(attributes_view(res@) =~= before.push(set@[m as int]@));
        assert(kept + attributes_view(set@).take(m + 1) =~= (kept + attributes_view(set@).take(
            m as int,
        )).push(set@[m as int]@));
        m = m + 1;
    }
    assert(attributes_view(set@).take(set.len() as int) =~= attributes_view(set@));
    res
}

/// The attributes after the attribute patches from `start` up to `end`.
fn apply_attribute_patches(attrs: &Vec<Attribute>, patches: &Vec<Patch>, start: usize, end: usize) -> (res:
    Vec<Attribute>)
    requires
        start <= end <= patches.len(),
    ensures
        attributes_view(res@) == patched_attributes(
            attributes_view(attrs@),
            patches_view(patches@),
            start as int,
            end as int,
        ),
{
    let ghost pv = patches_view(patches@);
    let ghost av = attributes_view(attrs@);
    let mut res: Vec<Attribute> = clone_attributes(attrs);
    let mut k: usize = start;
    while k < end
        invariant
            start <= k <= end <= patches.len(),
            pv == patches_view(patches@),
            patched_attributes(av, pv, start as int, end as int) == patched_attributes(
                attributes_view(res@),
                pv,
                k as int,
                end as int,
            ),
        decreases end - k,
    {
        match &patches[k] {
            Patch::AddAttributes { set, remove, .. } => {
                res = apply_attribute_patch(&res, set, remove);
            },
            _ => {},
        }
        k = k + 1;
    }
    res
}

/// The model of a list of appended children that stand in patches.
pub open spec fn borrowed_view(children: Seq<&(usize, Node)>) -> Seq<(nat, NodeView)> {
    Seq::new(children.len(), |k: int| (children[k].0 as nat, children[k].1@))
}

/// The children that the patches from `start` up to `end` append.
fn find_extra_children<'a>(patches: &'a Vec<Patch>, start: usize, end: usize) -> (res: Vec<
    &'a (usize, Node),
>)
    requires
        start <= end <= patches.len(),
    ensures
        borrowed_view(res@) == extra_children(patches_view(patches@), start as int, end as int),
{
    let ghost pv = patches_view(patches@);
    let mut res: Vec<&'a (usize, Node)> = Vec::new();
    let mut k: usize = start;
    assert(borrowed_view(res@) + extra_children(pv, start as int, end as int) =~= extra_children(
        pv,
        start as int,
        end as int,
    ));
    while k < end
        invariant
            start <= k <= end <= patches.len(),
            pv == patches_view(patches@),
            extra_children(pv, start as int, end as int) == borrowed_view(res@) + extra_children(
                pv,
                k as int,
                end as int,
            ),
        decreases end - k,
    {
        match &patches[k] {
            Patch::AppendChildren { children, .. } => {
                let ghost before = borrowed_view(res@);
                let ghost rest = extra_children(pv, k + 1, end as int);
                let mut m: usize = 0;
                assert(before + placed_view(children@).take(0) =~= before);
                while m < children.len()
                    invariant
                        m <= children.len(),
                        borrowed_view(res@) == before + placed_view(children@).take(m as int),
                    decreases children.len() - m,
                {
                    let ghost so_far = borrowed_view(res@);
                    res.push(&children[m]);
                    assert(borrowed_view(res@) =~= so_far.push(placed_view(children@)[m as int]));
                    assert(before + placed_view(children@).take(m + 1) =~= (before + placed_view(
                        children@,
                    ).take(m as int)).push(placed_view(children@)[m as int]));
                    m = m + 1;
                }
                assert(placed_view(children@).take(children.len() as int) =~= placed_view(
                    children@,
                ));
                assert(before + (placed_view(children@) + rest) =~= (before + placed_view(
                    children@,
                )) + rest);
            },
            _ => {},
        }
        k = k + 1;
    }
    assert(borrowed_view(res@) + Seq::<(nat, NodeView)>::empty() =~= borrowed_view(res@));
    res
}

/// The children that stay among the first are the first of those that stay
/// among more.
proof fn lemma_kept_prefix(
    children: Seq<NodeView>,
    i: nat,
    patches: Seq<PatchView>,
    pos: int,
    p: int,
    n: int,
)
    requires
        0 <= p <= n <= children.len(),
    ensures
        apply_children(children, i, patches, pos, p).0.len() <= apply_children(
            children,
            i,
            patches,
            pos,
            n,
        ).0.len(),
        forall|k: int|
            0 <= k < apply_children(children, i, patches, pos, p).0.len()
                ==> #[trigger] apply_children(children, i, patches, pos, n).0[k]
                == apply_children(children, i, patches, pos, p).0[k],
    decreases n - p,
{
    if p < n {
        lemma_kept_prefix(children, i, patches, pos, p, n - 1);
    }
}

/// Without appended children, the kept children are the children.
proof fn lemma_place_kept_only(kept: Seq<NodeView>, a: int)
    requires
        0 <= a <= kept.len(),
    ensures
        place_children(kept, Seq::<(nat, NodeView)>::empty(), a, 0) == kept.skip(a),
    decreases kept.len() - a,
{
    let none = Seq::<(nat, NodeView)>::empty();
    if a < kept.len() {
        lemma_place_kept_only(kept, a + 1);
        assert(seq![kept[a]] + kept.skip(a + 1) =~= kept.skip(a));
    } else {
        assert(kept.skip(a) =~= Seq::<NodeView>::empty());
    }
}

/// Every patch of the list is addressed at a place that a `usize` can hold.
pub open spec fn targets_bounded(patches: Seq<PatchView>) -> bool {
    forall|k: int| 0 <= k < patches.len() ==> patch_target(#[trigger] patches[k]) <= usize::MAX
}

/// No patch from `pos` on is addressed at the place `i` or a later one.
pub open spec fn none_from(patches: Seq<PatchView>, pos: int, i: nat) -> bool {
    forall|k: int| pos <= k < patches.len() ==> patch_target(#[trigger] patches[k]) < i
}

/// A node that no remaining patch addresses, nor any node after it, stays as it is.
pub proof fn lemma_untouched(node: NodeView, i: nat, patches: Seq<PatchView>, pos: int)
    requires
        0 <= pos <= patches.len(),
        none_from(patches, pos, i),
    ensures
        apply_node(node, i, patches, pos) == (Some(node), pos),
    decreases node, children_of(node).len() + 1,
{
    if pos < patches.len() {
        assert(patch_target(patches[pos]) < i);
    }
    match node {
        NodeView::Text { .. } => {},
        NodeView::Element { tag, attributes, children } => {
            lemma_children_untouched(node, i, patches, pos, children.len() as int);
            assert(children.take(children.len() as int) =~= children);
            lemma_place_kept_only(children, 0);
            assert(children.skip(0) =~= children);
        },
    }
}

/// The children of such a node stay as they are.
pub proof fn lemma_children_untouched(
    parent: NodeView,
    i: nat,
    patches: Seq<PatchView>,
    pos: int,
    n: int,
)
    requires
        parent is Element,
        0 <= pos <= patches.len(),
        none_from(patches, pos, i),
        0 <= n <= parent->children.len(),
    ensures
        apply_children(parent->children, i, patches, pos, n) == (parent->children.take(n), pos),
    decreases parent, n,
{
    let children = parent->children;
    if n > 0 {
        lemma_children_untouched(parent, i, patches, pos, n - 1);
        assert(none_from(patches, pos, child_start(children, i, n - 1)));
        lemma_untouched(children[n - 1], child_start(children, i, n - 1), patches, pos);
        assert(children.take(n - 1).push(children[n - 1]) =~= children.take(n));
    } else {
        assert(children.take(0) =~= Seq::<NodeView>::empty());
    }
}

/// Without patches a tree stays as it is.
pub proof fn lemma_no_patches_no_change(root: NodeView, patches: Seq<PatchView>)
    requires
        patches.len() == 0,
    ensures
        apply_trees(root, patches) == Ok::<NodeView, PatchErrorView>(root),
{
    lemma_untouched(root, 0, patches, 0);
}

/// Whether an optional place stands for the place `n`: `None` stands for
/// every place beyond what a `usize` can hold.
pub open spec fn stands_for(place: Option<usize>, n: nat) -> bool {
    match place {
        Some(x) => x == n,
        None => n > usize::MAX,
    }
}

/// The place after the subtree of a node at place `idx`.
fn place_after(node: &Node, idx: usize) -> (next: Option<usize>)
    ensures
        stands_for(next, idx as nat + node_count(node@)),
{
    match count_within(node, usize::MAX - idx) {
        Some(count) => Some(idx + count),
        None => None,
    }
}

/// The model of an optional node.
pub open spec fn node_option_view(node: Option<Node>) -> Option<NodeView> {
    match node {
        Some(n) => Some(n@),
        None => None,
    }
}

/// The model of a list of nodes grows with the list.
proof fn lemma_nodes_push(nodes: Seq<Node>, node: Node)
    ensures
        nodes_view(nodes.push(node)) == nodes_view(nodes).push(node@),
{
    assert(nodes.push(node).drop_last() =~= nodes);
}

/// Applies to the node at place `idx` the patches that come next for it,
/// from `*pos` on, and to all below it theirs; gives the node that comes of
/// it, if it stays, and the place after its subtree.
fn apply_recursive(
    node: &Node,
    idx: Option<usize>,
    Ghost(i): Ghost<nat>,
    patches: &Vec<Patch>,
    pos: &mut usize,
) -> (res: (Option<Node>, Option<usize>))
    requires
        stands_for(idx, i),
        *old(pos) <= patches.len(),
    ensures
        *old(pos) <= *final(pos) <= patches.len(),
        (node_option_view(res.0), *final(pos) as int) == apply_node(
            node@,
            i,
            patches_view(patches@),
            *old(pos) as int,
        ),
        stands_for(res.1, i + node_count(node@)),
    decreases node,
{
    let ghost pv = patches_view(patches@);
    assert(targets_bounded(pv));
    let start = *pos;
    let ix = match idx {
        Some(ix) => ix,
        None => {
            proof {
                lemma_untouched(node@, i, pv, start as int);
            }
            return (Some(node.clone()), None);
        },
    };
    let end = find_run_end(patches, start, ix);
    *pos = end;
    match find_fate(patches, start, end) {
        NodeFate::Replace(replacement) => {
            return (Some(replacement.clone()), place_after(node, ix));
        },
        NodeFate::Remove => {
            return (None, place_after(node, ix));
        },
        NodeFate::Keep => {},
    }
    match node {
        Node::Text(_) => (Some(node.clone()), if ix < usize::MAX {
            Some(ix + 1)
        } else {
            None
        }),
        Node::Element(e) => {
            let ghost cv = nodes_view(e.children@);
            let ghost len = e.children.len() as int;
            let ghost kept_all = apply_children(cv, i, pv, end as int, len).0;
            let attributes = apply_attribute_patches(&e.attributes, patches, start, end);
            let extra = find_extra_children(patches, start, end);
            let ghost ex = borrowed_view(extra@);
            let mut placed: Vec<Node> = Vec::new();
            let mut b: usize = 0;
            let ghost mut a: int = 0;
            let mut child_idx: Option<usize> = if ix < usize::MAX {
                Some(ix + 1)
            } else {
                None
            };
            let mut p: usize = 0;
            proof {
                lemma_nodes_view(e.children@);
                lemma_nodes_view(placed@);
                assert(cv.take(0) =~= Seq::<NodeView>::empty());
                assert(nodes_view(placed@) + place_children(kept_all, ex, 0, 0)
                    =~= place_children(kept_all, ex, 0, 0));
            }
            while p < e.children.len()
                invariant
                    node is Element,
                    node->Element_0 == *e,
                    pv == patches_view(patches@),
                    cv == nodes_view(e.children@),
                    cv.len() == e.children.len(),
                    len == e.children.len(),
                    forall|k: int| 0 <= k < cv.len() ==> (#[trigger] cv[k]) == e.children@[k]@,
                    ex == borrowed_view(extra@),
                    kept_all == apply_children(cv, i, pv, end as int, len).0,
                    p <= e.children.len(),
                    end <= *pos <= patches.len(),
                    *pos == apply_children(cv, i, pv, end as int, p as int).1,
                    a == apply_children(cv, i, pv, end as int, p as int).0.len(),
                    0 <= a,
                    b <= extra.len(),
                    placed.len() == a + b,
                    place_children(kept_all, ex, 0, 0) == nodes_view(placed@) + place_children(
                        kept_all,
                        ex,
                        a,
                        b as int,
                    ),
                    stands_for(child_idx, child_start(cv, i, p as int)),
                decreases e.children.len() - p,
            {
                assert(decreases_to!(e.children => e.children[p as int]));
                proof {
                    lemma_child_within(cv, i, p as int);
                    lemma_kept_prefix(cv, i, pv, end as int, p + 1, len);
                }
                let (done, next) = apply_recursive(
                    &e.children[p],
                    child_idx,
                    Ghost(child_start(cv, i, p as int)),
                    patches,
                    pos,
                );
                match done {
                    Some(kept_child) => {
                        assert(kept_all[a] == kept_child@);
                        while b < extra.len() && extra[b].0 <= placed.len()
                            invariant
                                ex == borrowed_view(extra@),
                                0 <= a < kept_all.len(),
                                b <= extra.len(),
                                placed.len() == a + b,
                                place_children(kept_all, ex, 0, 0) == nodes_view(placed@)
                                    + place_children(kept_all, ex, a, b as int),
                            decreases extra.len() - b,
                        {
                            let ghost so_far = nodes_view(placed@);
                            let ghost rest = place_children(kept_all, ex, a, b + 1);
                            let child = extra[b].1.clone();
                            proof {
                                lemma_nodes_push(placed@, child);
                                assert(so_far + (seq![ex[b as int].1] + rest) =~= so_far.push(
                                    ex[b as int].1,
                                ) + rest);
                            }
                            placed.push(child);
                            b = b + 1;
                        }
                        proof {
                            let so_far = nodes_view(placed@);
                            let rest = place_children(kept_all, ex, a + 1, b as int);
                            lemma_nodes_push(placed@, kept_child);
                            assert(so_far + (seq![kept_all[a]] + rest) =~= so_far.push(kept_all[a])
                                + rest);
                            a = a + 1;
                        }
                        placed.push(kept_child);
                    },
                    None => {},
                }
                child_idx = next;
                p = p + 1;
            }
            assert(a == kept_all.len());
            while b < extra.len()
                invariant
                    ex == borrowed_view(extra@),
                    a == kept_all.len(),
                    b <= extra.len(),
                    placed.len() == a + b,
                    place_children(kept_all, ex, 0, 0) == nodes_view(placed@) + place_children(
                        kept_all,
                        ex,
                        a,
                        b as int,
                    ),
                decreases extra.len() - b,
            {
                let ghost so_far = nodes_view(placed@);
                let ghost rest = place_children(kept_all, ex, a, b + 1);
                let child = extra[b].1.clone();
                proof {
                    lemma_nodes_push(placed@, child);
                    assert(so_far + (seq![ex[b as int].1] + rest) =~= so_far.push(ex[b as int].1)
                        + rest);
                }
                placed.push(child);
                b = b + 1;
            }
            proof {
                assert(nodes_view(placed@) + Seq::<NodeView>::empty() =~= nodes_view(placed@));
                assert(cv.take(len) =~= cv);
            }
            (
                Some(Node::Element(Element { tag: e.tag.clone(), attributes, children: placed })),
                child_idx,
            )
        },
    }
}

/// The tree that the patches make of `root`, in one walk of the tree in
/// pre-order and of the patches in their order. The patches that the differ
/// yields for `root` are in that order. Without patches the tree stays as
/// it is.
pub fn apply_patches(root: &Node, patches: &Vec<Patch>) -> (res: Result<Node, PatchError>)
    ensures
        outcome_view(res) == apply_trees(root@, patches_view(patches@)),
        patches@.len() == 0 ==> outcome_view(res) == Ok::<NodeView, PatchErrorView>(root@),
{
    proof {
        if patches@.len() == 0 {
            lemma_no_patches_no_change(root@, patches_view(patches@));
        }
    }
    let mut pos: usize = 0;
    let (done, _) = apply_recursive(root, Some(0), Ghost(0), patches, &mut pos);
    match done {
        None => Err(PatchError::RootRemoved),
        Some(tree) => if pos < patches.len() {
            Err(PatchError::Unresolved { node_idx: patches[pos].node_idx() })
        } else {
            Ok(tree)
        },
    }
}

} // verus!
