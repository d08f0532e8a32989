//! The mathematical model of trees and patches that all contracts speak of.
use vstd::prelude::*;

verus! {

/// What a plain attribute value is.
pub enum ValueView {
    Str(Seq<char>),
    Int(int),
    Bool(bool),
    Bytes(Seq<u8>),
}

/// What an attribute holds: a plain value, or a listener known by its handle.
pub enum AttribValueView {
    Plain(ValueView),
    Listener(int),
}

/// What an attribute is: a name and what it holds.
pub struct AttributeView {
    pub name: Seq<char>,
    pub value: AttribValueView,
}

/// What a tree is: an element with a tag, attributes in the order in which
/// they were given and children in their order, or a text.
pub enum NodeView {
    Element { tag: Seq<char>, attributes: Seq<AttributeView>, children: Seq<NodeView> },
    Text { text: Seq<char> },
}

/// The tag of an element. A text node has none.
pub open spec fn tag_of(n: NodeView) -> Option<Seq<char>> {
    match n {
        NodeView::Element { tag, .. } => Some(tag),
        NodeView::Text { .. } => None,
    }
}

/// The children of an element. A text node has none.
pub open spec fn children_of(n: NodeView) -> Seq<NodeView> {
    match n {
        NodeView::Element { children, .. } => children,
        NodeView::Text { .. } => Seq::empty(),
    }
}

/// The attributes of an element. A text node has none.
pub open spec fn attributes_of(n: NodeView) -> Seq<AttributeView> {
    match n {
        NodeView::Element { attributes, .. } => attributes,
        NodeView::Text { .. } => Seq::empty(),
    }
}

/// The value that counts for `name` in a list of attributes: attributes that
/// share a name form one slot, and the last one written fills it.
pub open spec fn lookup(attrs: Seq<AttributeView>, name: Seq<char>) -> Option<AttribValueView>
    decreases attrs.len(),
{
    if attrs.len() == 0 {
        None
    } else if attrs.last().name == name {
        Some(attrs.last().value)
    } else {
        lookup(attrs.drop_last(), name)
    }
}

/// Whether two attribute values fill a slot alike. Plain values are compared
/// by content. Listeners are never compared: a listener on both sides counts
/// as no change, a listener on one side only as a change.
pub open spec fn same_slot(a: AttribValueView, b: AttribValueView) -> bool {
    match (a, b) {
        (AttribValueView::Plain(x), AttribValueView::Plain(y)) => x == y,
        (AttribValueView::Listener(_), AttribValueView::Listener(_)) => true,
        _ => false,
    }
}

/// The usual name of the attribute that gives a child its identity among
/// its siblings.
pub open spec fn default_key() -> Seq<char> {
    "key"@
}

/// The key of a node, where `key` names the attribute that holds it: the
/// plain value in that slot, if the node has one.
pub open spec fn node_key(n: NodeView, key: Seq<char>) -> Option<ValueView> {
    match lookup(attributes_of(n), key) {
        Some(AttribValueView::Plain(v)) => Some(v),
        _ => None,
    }
}

/// Whether no child anywhere in the tree has a key.
pub open spec fn keyless(n: NodeView, key: Seq<char>) -> bool
    decreases n,
{
    match n {
        NodeView::Text { .. } => true,
        NodeView::Element { children, .. } => forall|p: int|
            0 <= p < children.len() ==> node_key(#[trigger] children[p], key) is None && keyless(
                children[p],
                key,
            ),
    }
}

} // verus!
