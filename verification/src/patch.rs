//! Patches: the addressed mutations that turn an old tree into a new one.
use vstd::prelude::*;
use crate::attr_diff::names_view;
use crate::model::{AttributeView, NodeView};
use crate::node::{attributes_view, Attribute, Node};

verus! {

/// What a patch is. `node_idx` is the place of its target in the pre-order
/// walk of the old tree.
#[allow(inconsistent_fields)]
pub enum PatchView {
    AddAttributes { node_idx: nat, tag: Seq<char>, set: Seq<AttributeView>, remove: Seq<Seq<char>> },
    AppendChildren { node_idx: nat, tag: Seq<char>, children: Seq<(nat, NodeView)> },
    RemoveNode { node_idx: nat, tag: Option<Seq<char>> },
    ReplaceNode {
        node_idx: nat,
        new_node_idx: nat,
        tag_of_old: Option<Seq<char>>,
        replacement: NodeView,
    },
}

/// The old-tree address of a patch.
pub open spec fn patch_target(p: PatchView) -> nat {
    match p {
        PatchView::AddAttributes { node_idx, .. } => node_idx,
        PatchView::AppendChildren { node_idx, .. } => node_idx,
        PatchView::RemoveNode { node_idx, .. } => node_idx,
        PatchView::ReplaceNode { node_idx, .. } => node_idx,
    }
}

/// The tag that a patch carries for its target. A patch on a text node has none.
pub open spec fn patch_tag(p: PatchView) -> Option<Seq<char>> {
    match p {
        PatchView::AddAttributes { tag, .. } => Some(tag),
        PatchView::AppendChildren { tag, .. } => Some(tag),
        PatchView::RemoveNode { tag, .. } => tag,
        PatchView::ReplaceNode { tag_of_old, .. } => tag_of_old,
    }
}

/// One mutation of the old tree.
#[allow(inconsistent_fields)]
#[derive(Debug, PartialEq, Eq)]
pub enum Patch {
    /// Set the attributes of `set`, and remove those named in `remove`, on the
    /// element at `node_idx`.
    AddAttributes { node_idx: usize, tag: String, set: Vec<Attribute>, remove: Vec<String> },
    /// Give the element at `node_idx` more children, each with the place it
    /// has among the children of the new element.
    AppendChildren { node_idx: usize, tag: String, children: Vec<(usize, Node)> },
    /// Remove the node at `node_idx`, with all below it.
    RemoveNode { node_idx: usize, tag: Option<String> },
    /// Put `replacement` in the place of the node at `node_idx`.
    /// `new_node_idx` is the place of the replacement in the new tree.
    ReplaceNode { node_idx: usize, new_node_idx: usize, tag_of_old: Option<String>, replacement: Node },
}

/// The model of an optional tag.
pub open spec fn tag_view(tag: Option<String>) -> Option<Seq<char>> {
    match tag {
        Some(t) => Some(t@),
        None => None,
    }
}

/// The model of a list of children with their places.
pub open spec fn placed_view(children: Seq<(usize, Node)>) -> Seq<(nat, NodeView)> {
    Seq::new(children.len(), |i: int| (children[i].0 as nat, children[i].1@))
}

impl View for Patch {
    type V = PatchView;

    open spec fn view(&self) -> PatchView {
        match self {
            Patch::AddAttributes { node_idx, tag, set, remove } => PatchView::AddAttributes {
                node_idx: *node_idx as nat,
                tag: tag@,
                set: attributes_view(set@),
                remove: names_view(remove@),
            },
            Patch::AppendChildren { node_idx, tag, children } => PatchView::AppendChildren {
                node_idx: *node_idx as nat,
                tag: tag@,
                children: placed_view(children@),
            },
            Patch::RemoveNode { node_idx, tag } => PatchView::RemoveNode {
                node_idx: *node_idx as nat,
                tag: tag_view(*tag),
            },
            Patch::ReplaceNode {
                node_idx,
                new_node_idx,
                tag_of_old,
                replacement,
            } => PatchView::ReplaceNode {
                node_idx: *node_idx as nat,
                new_node_idx: *new_node_idx as nat,
                tag_of_old: tag_view(*tag_of_old),
                replacement: replacement@,
            },
        }
    }
}

/// The model of a list of patches.
pub open spec fn patches_view(patches: Seq<Patch>) -> Seq<PatchView> {
    Seq::new(patches.len(), |i: int| patches[i]@)
}

impl Patch {
    /// The place of the patch's target in the pre-order walk of the old tree.
    pub fn node_idx(&self) -> (idx: usize)
        ensures
            idx == patch_target(self@),
    {
        match self {
            Patch::AddAttributes { node_idx, .. } => *node_idx,
            Patch::AppendChildren { node_idx, .. } => *node_idx,
            Patch::RemoveNode { node_idx, .. } => *node_idx,
            Patch::ReplaceNode { node_idx, .. } => *node_idx,
        }
    }

    /// The tag of the patch's target, carried so that a backend can dispatch
    /// on it without walking the old tree. `None` for a text node.
    pub fn tag(&self) -> (tag: Option<&String>)
        ensures
            match tag {
                Some(t) => patch_tag(self@) == Some(t@),
                None => patch_tag(self@) is None,
            },
    {
        match self {
            Patch::AddAttributes { tag, .. } => Some(tag),
            Patch::AppendChildren { tag, .. } => Some(tag),
            Patch::RemoveNode { tag, .. } => tag.as_ref(),
            Patch::ReplaceNode { tag_of_old, .. } => tag_of_old.as_ref(),
        }
    }
}

} // verus!
