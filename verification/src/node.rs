//! The tree: elements with attributes and children, and text.
use vstd::prelude::*;
use crate::model::{attributes_of, children_of, tag_of, AttributeView, NodeView};
use crate::walk::{
    forest_sizes, holds_sizes, lemma_subtree_sizes_len, subtree_sizes, forest_count, lemma_forest_count_prefix, lemma_forest_count_step, lemma_node_among_beyond,
    lemma_node_among_child, lemma_path_among_beyond, lemma_path_among_child, node_at,
    node_count, path_to,
};
use crate::value::AttribValue;

verus! {

/// A named attribute of an element.
#[derive(Debug, PartialEq, Eq)]
pub struct Attribute {
    pub name: String,
    pub value: AttribValue,
}

impl View for Attribute {
    type V = AttributeView;

    open spec fn view(&self) -> AttributeView {
        AttributeView { name: self.name@, value: self.value@ }
    }
}

impl Clone for Attribute {
    fn clone(&self) -> (res: Self)
        ensures
            res@ == self@,
    {
        Attribute { name: self.name.clone(), value: self.value.clone() }
    }
}

/// The model of a list of attributes.
pub open spec fn attributes_view(attrs: Seq<Attribute>) -> Seq<AttributeView> {
    Seq::new(attrs.len(), |i: int| attrs[i]@)
}

/// A text node.
#[derive(Debug, PartialEq, Eq)]
pub struct Text {
    pub text: String,
}

/// An element: a tag, attributes in the order in which they were given,
/// and children in their order.
#[derive(Debug, PartialEq, Eq)]
pub struct Element {
    pub tag: String,
    pub attributes: Vec<Attribute>,
    pub children: Vec<Node>,
}

/// A tree. It is built once and never changed: the differ compares two
/// trees that share nothing.
#[derive(Debug, PartialEq, Eq)]
pub enum Node {
    Element(Element),
    Text(Text),
}

impl View for Text {
    type V = NodeView;

    open spec fn view(&self) -> NodeView {
        NodeView::Text { text: self.text@ }
    }
}

impl View for Element {
    type V = NodeView;

    open spec fn view(&self) -> NodeView {
        NodeView::Element {
            tag: self.tag@,
            attributes: attributes_view(self.attributes@),
            children: nodes_view(self.children@),
        }
    }
}

/// The model of a list of nodes.
pub open spec fn nodes_view(nodes: Seq<Node>) -> Seq<NodeView>
    decreases nodes,
{
    if nodes.len() == 0 {
        Seq::empty()
    } else {
        nodes_view(nodes.drop_last()).push(nodes.last().view())
    }
}

impl View for Node {
    type V = NodeView;

    open spec fn view(&self) -> NodeView
        decreases self,
    {
        match self {
            Node::Element(e) => NodeView::Element {
                tag: e.tag@,
                attributes: attributes_view(e.attributes@),
                children: nodes_view(e.children@),
            },
            Node::Text(t) => NodeView::Text { text: t.text@ },
        }
    }
}

impl Node {
    /// Whether the node is an element.
    pub fn is_element(&self) -> (r: bool)
        ensures
            r == (self@ is Element),
    {
        match self {
            Node::Element(_) => true,
            Node::Text(_) => false,
        }
    }

    /// Whether the node is text.
    pub fn is_text(&self) -> (r: bool)
        ensures
            r == (self@ is Text),
    {
        match self {
            Node::Element(_) => false,
            Node::Text(_) => true,
        }
    }

    /// The node as an element, if it is one.
    pub fn as_element_ref(&self) -> (r: Option<&Element>)
        ensures
            match r {
                Some(e) => e@ == self@,
                None => self@ is Text,
            },
    {
        match self {
            Node::Element(e) => Some(e),
            Node::Text(_) => None,
        }
    }

    /// The tag of an element. A text node has none.
    pub fn tag(&self) -> (r: Option<&String>)
        ensures
            match r {
                Some(t) => tag_of(self@) == Some(t@),
                None => tag_of(self@) is None,
            },
    {
        match self {
            Node::Element(e) => Some(&e.tag),
            Node::Text(_) => None,
        }
    }

    /// The string of a text node. An element has none.
    pub fn text(&self) -> (r: Option<&String>)
        ensures
            match r {
                Some(t) => self@ == (NodeView::Text { text: t@ }),
                None => self@ is Element,
            },
    {
        match self {
            Node::Element(_) => None,
            Node::Text(t) => Some(&t.text),
        }
    }

    /// The attributes of an element, in the order in which they were given.
    pub fn get_attributes(&self) -> (r: Option<&Vec<Attribute>>)
        ensures
            match r {
                Some(a) => self@ is Element && attributes_view(a@) == attributes_of(self@),
                None => self@ is Text,
            },
    {
        match self {
            Node::Element(e) => Some(&e.attributes),
            Node::Text(_) => None,
        }
    }

    /// The children of an element, in their order.
    pub fn get_children(&self) -> (r: Option<&Vec<Node>>)
        ensures
            match r {
                Some(c) => self@ is Element && nodes_view(c@) == children_of(self@),
                None => self@ is Text,
            },
    {
        match self {
            Node::Element(e) => Some(&e.children),
            Node::Text(_) => None,
        }
    }
}

/// Each node of a list has its model at the same place of the list's model.
pub proof fn lemma_nodes_view(nodes: Seq<Node>)
    ensures
        nodes_view(nodes).len() == nodes.len(),
        forall|i: int| 0 <= i < nodes.len() ==> (#[trigger] nodes_view(nodes)[i]) == nodes[i]@,
    decreases nodes.len(),
{
    if nodes.len() > 0 {
        let front = nodes.drop_last();
        lemma_nodes_view(front);
        assert(nodes_view(nodes) == nodes_view(front).push(nodes.last().view()));
        assert forall|i: int| 0 <= i < nodes.len() implies (#[trigger] nodes_view(nodes)[i])
            == nodes[i]@ by {
            if i < front.len() {
                assert(nodes_view(front)[i] == front[i]@);
            }
        }
    }
}

/// A copy of a list of attributes.
pub fn clone_attributes(attrs: &Vec<Attribute>) -> (res: Vec<Attribute>)
    ensures
        attributes_view(res@) == attributes_view(attrs@),
{
    let mut res: Vec<Attribute> = Vec::new();
    let mut i: usize = 0;
    while i < attrs.len()
        invariant
            i <= attrs.len(),
            res.len() == i,
            forall|k: int| 0 <= k < i ==> res@[k]@ == attrs@[k]@,
        decreases attrs.len() - i,
    {
        res.push(attrs[i].clone());
        i = i + 1;
    }
    assert(attributes_view(res@) =~= attributes_view(attrs@));
    res
}

/// The number of nodes of a tree, if it is at most `budget`.
pub fn count_within(node: &Node, budget: usize) -> (r: Option<usize>)
    ensures
        match r {
            Some(n) => n == node_count(node@) && n <= budget,
            None => node_count(node@) > budget,
        },
    decreases node,
{
    if budget == 0 {
        return None;
    }
    match node {
        Node::Text(_) => Some(1),
        Node::Element(e) => {
            let ghost cv = nodes_view(e.children@);
            proof {
                lemma_nodes_view(e.children@);
                assert(cv.take(0) =~= Seq::<NodeView>::empty());
            }
            let mut used: usize = 1;
            let mut k: usize = 0;
            while k < e.children.len()
                invariant
                    node is Element,
                    node->Element_0 == *e,
                    cv == nodes_view(e.children@),
                    cv.len() == e.children.len(),
                    forall|i: int| 0 <= i < cv.len() ==> (#[trigger] cv[i]) == e.children@[i]@,
                    k <= e.children.len(),
                    used == 1 + forest_count(cv.take(k as int)),
                    used <= budget,
                decreases e.children.len() - k,
            {
                assert(decreases_to!(e.children => e.children[k as int]));
                proof {
                    lemma_forest_count_step(cv, k as int);
                    lemma_forest_count_prefix(cv, k + 1);
                }
                match count_within(&e.children[k], budget - used) {
                    Some(c) => {
                        used = used + c;
                    },
                    None => {
                        return None;
                    },
                }
                k = k + 1;
            }
            proof {
                assert(cv.take(k as int) =~= cv);
            }
            Some(used)
        },
    }
}

/// The model of an optional borrowed node.
pub open spec fn found_view(node: Option<&Node>) -> Option<NodeView> {
    match node {
        Some(n) => Some(n@),
        None => None,
    }
}

/// The node at place `idx` of the pre-order walk of the tree, where a patch
/// with that address finds its target.
pub fn find_node(root: &Node, idx: usize) -> (found: Option<&Node>)
    ensures
        found_view(found) == node_at(root@, idx as nat),
    decreases root,
{
    if idx == 0 {
        return Some(root);
    }
    match root {
        Node::Text(_) => None,
        Node::Element(e) => {
            let ghost cv = nodes_view(e.children@);
            proof {
                lemma_nodes_view(e.children@);
                assert(cv.take(0) =~= Seq::<NodeView>::empty());
            }
            let mut rest: usize = idx - 1;
            let mut k: usize = 0;
            while k < e.children.len()
                invariant
                    root is Element,
                    root->Element_0 == *e,
                    cv == nodes_view(e.children@),
                    cv.len() == e.children.len(),
                    forall|m: int| 0 <= m < cv.len() ==> (#[trigger] cv[m]) == e.children@[m]@,
                    k <= e.children.len(),
                    rest + forest_count(cv.take(k as int)) == idx - 1,
                decreases e.children.len() - k,
            {
                assert(decreases_to!(e.children => e.children[k as int]));
                proof {
                    lemma_forest_count_step(cv, k as int);
                }
                match count_within(&e.children[k], rest) {
                    Some(count) => {
                        rest = rest - count;
                    },
                    None => {
                        proof {
                            lemma_node_among_child(cv, k as int, rest as nat, cv.len() as int);
                        }
                        return find_node(&e.children[k], rest);
                    },
                }
                k = k + 1;
            }
            proof {
                lemma_node_among_beyond(cv, (idx - 1) as nat, cv.len() as int);
            }
            None
        },
    }
}

/// The model of an optional way through a tree.
pub open spec fn path_view(path: Option<Vec<usize>>) -> Option<Seq<nat>> {
    match path {
        Some(p) => Some(Seq::new(p.len() as nat, |k: int| p[k] as nat)),
        None => None,
    }
}

/// The way from the root to the node at place `idx` of the pre-order walk
/// of the tree: the position of the child to go to at each element on the
/// way. A backend whose live structure mirrors the tree follows it to the
/// target of a patch.
pub fn find_node_path(root: &Node, idx: usize) -> (path: Option<Vec<usize>>)
    ensures
        path_view(path) == path_to(root@, idx as nat),
{
    let mut path: Vec<usize> = Vec::new();
    let mut node = root;
    let mut rest: usize = idx;
    let ghost mut done: Seq<nat> = Seq::empty();
    loop
        invariant
            done == Seq::new(path.len() as nat, |k: int| path[k] as nat),
            path_to(root@, idx as nat) == match path_to(node@, rest as nat) {
                Some(tail) => Some(done + tail),
                None => None,
            },
        decreases node,
    {
        if rest == 0 {
            proof {
                assert(done + Seq::<nat>::empty() =~= done);
            }
            return Some(path);
        }
        match node {
            Node::Text(_) => {
                return None;
            },
            Node::Element(e) => {
                let ghost cv = nodes_view(e.children@);
                proof {
                    lemma_nodes_view(e.children@);
                    assert(cv.take(0) =~= Seq::<NodeView>::empty());
                }
                let mut within: usize = rest - 1;
                let mut k: usize = 0;
                let mut found: bool = false;
                while k < e.children.len() && !found
                    invariant
                        cv == nodes_view(e.children@),
                        cv.len() == e.children.len(),
                        forall|m: int| 0 <= m < cv.len() ==> (#[trigger] cv[m]) == e.children@[m]@,
                        k <= e.children.len(),
                        within + forest_count(cv.take(k as int)) == rest - 1,
                        found ==> k < e.children.len() && within < node_count(cv[k as int]),
                    decreases e.children.len() - k + if found { 0int } else { 1int },
                {
                    proof {
                        lemma_forest_count_step(cv, k as int);
                    }
                    match count_within(&e.children[k], within) {
                        Some(count) => {
                            within = within - count;
                            k = k + 1;
                        },
                        None => {
                            found = true;
                        },
                    }
                }
                if !found {
                    proof {
                        lemma_path_among_beyond(cv, (rest - 1) as nat, cv.len() as int);
                    }
                    return None;
                }
                proof {
                    lemma_path_among_child(cv, k as int, within as nat, cv.len() as int);
                    let tail = path_to(cv[k as int], within as nat);
                    if tail is Some {
                        assert(done + (seq![k as nat] + tail.unwrap()) =~= done.push(k as nat)
                            + tail.unwrap());
                    }
                    done = done.push(k as nat);
                }
                path.push(k);
                assert(done =~= Seq::new(path.len() as nat, |m: int| path[m] as nat));
                assert(decreases_to!(e.children => e.children[k as int]));
                node = &e.children[k];
                rest = within;
            },
        }
    }
}

/// Adds to the table, for each place of the tree in the order of the
/// pre-order walk, the number of nodes of the subtree at that place; gives
/// the number of nodes of the tree.
pub(crate) fn fill_sizes(node: &Node, sizes: &mut Vec<usize>) -> (count: usize)
    requires
        node_count(node@) <= usize::MAX,
    ensures
        count == node_count(node@),
        final(sizes)@.len() == old(sizes)@.len() + node_count(node@),
        forall|k: int| 0 <= k < old(sizes)@.len() ==> final(sizes)@[k] == old(sizes)@[k],
        holds_sizes(final(sizes)@, old(sizes)@.len() as int, node@),
    decreases node,
{
    let at = sizes.len();
    let ghost before = sizes@;
    proof {
        reveal(holds_sizes);
    }
    match node {
        Node::Text(_) => {
            sizes.push(1);
            1
        },
        Node::Element(e) => {
            let ghost cv = nodes_view(e.children@);
            proof {
                lemma_nodes_view(e.children@);
                assert(cv.take(0) =~= Seq::<NodeView>::empty());
                lemma_forest_count_prefix(cv, 0);
            }
            sizes.push(0);
            let mut total: usize = 1;
            let mut k: usize = 0;
            while k < e.children.len()
                invariant
                    node is Element,
                    node->Element_0 == *e,
                    node_count(node@) <= usize::MAX,
                    cv == nodes_view(e.children@),
                    cv.len() == e.children.len(),
                    forall|i: int| 0 <= i < cv.len() ==> (#[trigger] cv[i]) == e.children@[i]@,
                    k <= e.children.len(),
                    total == 1 + forest_count(cv.take(k as int)),
                    sizes@.len() == at + total,
                    at == before.len(),
                    forall|i: int| 0 <= i < at ==> sizes@[i] == before[i],
                    forest_sizes(cv, k as int).len() == forest_count(cv.take(k as int)),
                    forall|i: int|
                        0 <= i < forest_count(cv.take(k as int)) ==> (#[trigger] sizes@[at + 1
                            + i]) as nat == forest_sizes(cv, k as int)[i],
                decreases e.children.len() - k,
            {
                assert(decreases_to!(e.children => e.children[k as int]));
                let ghost so_far = sizes@;
                proof {
                    lemma_forest_count_step(cv, k as int);
                    lemma_forest_count_prefix(cv, k + 1);
                    lemma_subtree_sizes_len(cv[k as int]);
                }
                let c = fill_sizes(&e.children[k], sizes);
                proof {
                    reveal(holds_sizes);
                    let done = forest_count(cv.take(k as int)) as int;
                    assert forall|i: int| 0 <= i < done + c implies (#[trigger] sizes@[at + 1 + i]) as nat
                        == forest_sizes(cv, k + 1)[i] by {
                        if i < done {
                            assert(sizes@[at + 1 + i] == so_far[at + 1 + i]);
                        } else {
                            assert(sizes@[so_far.len() + (i - done)] as nat == subtree_sizes(
                                cv[k as int],
                            )[i - done]);
                            assert(so_far.len() + (i - done) == at + 1 + i);
                        }
                    }
                }
                total = total + c;
                k = k + 1;
            }
            proof {
                assert(cv.take(k as int) =~= cv);
            }
            let ghost filled = sizes@;
            sizes.set(at, total);
            proof {
                reveal(holds_sizes);
                assert forall|i: int| 0 <= i < node_count(node@) implies (#[trigger] sizes@[at + i]) as nat
                    == subtree_sizes(node@)[i] by {
                    if i > 0 {
                        assert(sizes@[at + i] == filled[at + 1 + (i - 1)]);
                    }
                }
            }
            total
        },
    }
}

/// The number of nodes of a tree, if a `usize` can hold it.
pub fn count_nodes(node: &Node) -> (r: Option<usize>)
    ensures
        match r {
            Some(n) => n == node_count(node@),
            None => node_count(node@) > usize::MAX,
        },
{
    count_within(node, usize::MAX)
}

impl Clone for Node {
    fn clone(&self) -> (res: Self)
        ensures
            res@ == self@,
        decreases self,
    {
        match self {
            Node::Text(t) => Node::Text(Text { text: t.text.clone() }),
            Node::Element(e) => {
                let mut children: Vec<Node> = Vec::new();
                let mut i: usize = 0;
                while i < e.children.len()
                    invariant
                        self is Element,
                        self->Element_0 == *e,
                        i <= e.children.len(),
                        children.len() == i,
                        forall|k: int| 0 <= k < i ==> children@[k]@ == e.children@[k]@,
                    decreases e.children.len() - i,
                {
                    assert(decreases_to!(e.children => e.children[i as int]));
                    children.push(e.children[i].clone());
                    i = i + 1;
                }
                proof {
                    lemma_nodes_view(children@);
                    lemma_nodes_view(e.children@);
                    assert(nodes_view(children@) =~= nodes_view(e.children@));
                }
                Node::Element(
                    Element {
                        tag: e.tag.clone(),
                        attributes: clone_attributes(&e.attributes),
                        children,
                    },
                )
            },
        }
    }
}

} // verus!
