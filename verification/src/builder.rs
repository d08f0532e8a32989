//! Building trees: elements from a tag, attributes and children; text;
//! attributes from a name and a value or a listener.
use vstd::prelude::*;
use crate::model::{attributes_of, AttribValueView, AttributeView, NodeView};
use crate::node::{attributes_view, lemma_nodes_view, nodes_view, Attribute, Element, Node, Text};
use crate::slots::{
    alike, holds, is_last_given, lemma_holds_last_given, lemma_holds_what_it_is_given,
    lemma_members, lemma_others_stay, lemma_with_attribute_keeps_one_per_slot,
    lemma_with_attributes_keeps_one_per_slot, one_per_slot, with_attribute, with_attributes,
};
use crate::value::{AttribValue, Callback, Value};

verus! {

/// Puts a copy of `a` among the attributes: in the place of the first
/// attribute of its name and kind, or after all where there is none.
fn put_attribute(attrs: &mut Vec<Attribute>, a: &Attribute)
    ensures
        attributes_view(final(attrs)@) == with_attribute(attributes_view(old(attrs)@), a@),
{
    let ghost av = attributes_view(attrs@);
    let plain = a.value.get_plain().is_some();
    let mut k: usize = 0;
    proof {
        assert(av.take(0) + with_attribute(av.skip(0), a@) =~= with_attribute(av, a@)) by {
            assert(av.skip(0) =~= av);
        }
    }
    while k < attrs.len()
        invariant
            k <= attrs.len(),
            attrs@ == old(attrs)@,
            av == attributes_view(attrs@),
            plain == (a@.value is Plain),
            with_attribute(av, a@) == av.take(k as int) + with_attribute(av.skip(k as int), a@),
        decreases attrs.len() - k,
    {
        let here = &attrs[k];
        let ghost rest = av.skip(k as int);
        proof {
            assert(rest[0] == attrs@[k as int]@);
            assert(rest.drop_first() =~= av.skip(k + 1));
        }
        if here.name == a.name && here.value.get_plain().is_some() == plain {
            proof {
                assert(alike(rest[0], a@));
                assert(with_attribute(rest, a@) == seq![a@] + rest.drop_first());
                assert(av.take(k as int) + (seq![a@] + av.skip(k + 1)) =~= av.update(k as int, a@));
                assert(with_attribute(av, a@) == av.update(k as int, a@));
            }
            attrs.set(k, a.clone());
            assert(attributes_view(attrs@) =~= av.update(k as int, a@));
            return ;
        }
        proof {
            assert(!alike(rest[0], a@));
            assert(with_attribute(rest, a@) == seq![rest[0]] + with_attribute(
                rest.drop_first(),
                a@,
            ));
            assert(av.take(k as int) + (seq![rest[0]] + with_attribute(av.skip(k + 1), a@))
                =~= av.take(k + 1) + with_attribute(av.skip(k + 1), a@));
        }
        k = k + 1;
    }
    proof {
        assert(av.skip(k as int) =~= Seq::<AttributeView>::empty());
        assert(av.take(k as int) + seq![a@] =~= av.push(a@));
    }
    attrs.push(a.clone());
    assert(attributes_view(attrs@) =~= av.push(a@));
}

impl Element {
    /// An element with the given tag, without attributes or children.
    pub fn new(tag: &str) -> (e: Element)
        ensures
            e@ == (NodeView::Element {
                tag: tag@,
                attributes: Seq::<AttributeView>::empty(),
                children: Seq::<NodeView>::empty(),
            }),
    {
        let e = Element { tag: tag.to_owned(), attributes: Vec::new(), children: Vec::new() };
        proof {
            assert(attributes_view(e.attributes@) =~= Seq::<AttributeView>::empty());
            lemma_nodes_view(e.children@);
            assert(nodes_view(e.children@) =~= Seq::<NodeView>::empty());
        }
        e
    }

    /// The element with the given attributes, values and listeners alike,
    /// one after the other: each takes the place of the attribute of its
    /// name and kind that the element has, or comes after all where it has
    /// none. An element with one attribute of each name and kind stays so.
    pub fn add_attributes(self, attrs: &[Attribute]) -> (e: Element)
        ensures
            e@ == (NodeView::Element {
                tag: self.tag@,
                attributes: with_attributes(
                    attributes_view(self.attributes@),
                    attributes_view(attrs@),
                ),
                children: nodes_view(self.children@),
            }),
            one_per_slot(attributes_view(self.attributes@)) ==> one_per_slot(
                attributes_view(e.attributes@),
            ),
            forall|i: int|
                #[trigger] is_last_given(attributes_view(attrs@), i) ==> holds(
                    attributes_view(e.attributes@),
                    attributes_view(attrs@)[i],
                ),
            forall|m: int|
                0 <= m < e.attributes@.len() ==> attributes_view(self.attributes@).contains(
                    #[trigger] attributes_view(e.attributes@)[m],
                ) || attributes_view(attrs@).contains(attributes_view(e.attributes@)[m]),
    {
        let ghost before = attributes_view(self.attributes@);
        let ghost more = attributes_view(attrs@);
        let ghost kids = nodes_view(self.children@);
        let ghost tag = self.tag@;
        let mut e = self;
        let mut i: usize = 0;
        proof {
            assert(more.skip(0) =~= more);
            if one_per_slot(before) {
                lemma_with_attributes_keeps_one_per_slot(before, more);
            }
            lemma_members(before, more);
            assert forall|k: int| #[trigger] is_last_given(more, k) implies holds(
                with_attributes(before, more),
                more[k],
            ) by {
                lemma_holds_last_given(before, more, k);
            }
        }
        while i < attrs.len()
            invariant
                i <= attrs.len(),
                e.tag@ == tag,
                nodes_view(e.children@) == kids,
                more == attributes_view(attrs@),
                with_attributes(before, more) == with_attributes(
                    attributes_view(e.attributes@),
                    more.skip(i as int),
                ),
            decreases attrs.len() - i,
        {
            proof {
                assert(more.skip(i as int)[0] == attrs@[i as int]@);
                assert(more.skip(i as int).drop_first() =~= more.skip(i + 1));
            }
            put_attribute(&mut e.attributes, &attrs[i]);
            i = i + 1;
        }
        assert(more.skip(attrs.len() as int) =~= Seq::<AttributeView>::empty());
        e
    }

    /// The element with copies of the given nodes as children, after those it has.
    pub fn add_children(self, children: &[Node]) -> (e: Element)
        ensures
            e@ == (NodeView::Element {
                tag: self.tag@,
                attributes: attributes_view(self.attributes@),
                children: nodes_view(self.children@) + nodes_view(children@),
            }),
    {
        let ghost before = nodes_view(self.children@);
        let ghost attributes = attributes_view(self.attributes@);
        let ghost tag = self.tag@;
        let mut e = self;
        let mut i: usize = 0;
        proof {
            lemma_nodes_view(children@.take(0));
            assert(before + nodes_view(children@.take(0)) =~= before);
        }
        while i < children.len()
            invariant
                i <= children.len(),
                e.tag@ == tag,
                attributes_view(e.attributes@) == attributes,
                nodes_view(e.children@) == before + nodes_view(children@.take(i as int)),
            decreases children.len() - i,
        {
            let ghost so_far = e.children@;
            e.children.push(children[i].clone());
            proof {
                let added = e.children@;
                let chunk = children@.take(i + 1);
                assert(added.drop_last() =~= so_far);
                assert(chunk.drop_last() =~= children@.take(i as int));
                assert(nodes_view(added) == nodes_view(so_far).push(added.last()@));
                assert(nodes_view(chunk) == nodes_view(children@.take(i as int)).push(
                    chunk.last()@,
                ));
                assert(nodes_view(added) =~= before + nodes_view(chunk));
            }
            i = i + 1;
        }
        assert(children@.take(children.len() as int) =~= children@);
        e
    }

    /// The element with a listener for the given event: in the place of the
    /// listener that it has for the event, or after all its attributes where
    /// it has none.
    pub fn add_event_listener(self, event: &str, cb: Callback) -> (e: Element)
        ensures
            e@ == (NodeView::Element {
                tag: self.tag@,
                attributes: with_attribute(
                    attributes_view(self.attributes@),
                    AttributeView { name: event@, value: AttribValueView::Listener(cb.id as int) },
                ),
                children: nodes_view(self.children@),
            }),
            one_per_slot(attributes_view(self.attributes@)) ==> one_per_slot(
                attributes_view(e.attributes@),
            ),
            holds(
                attributes_view(e.attributes@),
                AttributeView { name: event@, value: AttribValueView::Listener(cb.id as int) },
            ),
            self.attributes@.len() <= e.attributes@.len() <= self.attributes@.len() + 1,
            forall|m: int|
                0 <= m < self.attributes@.len() && !alike(
                    #[trigger] attributes_view(self.attributes@)[m],
                    AttributeView { name: event@, value: AttribValueView::Listener(cb.id as int) },
                ) ==> attributes_view(e.attributes@)[m] == attributes_view(self.attributes@)[m],
    {
        let ghost before = attributes_view(self.attributes@);
        let listener = on(event, cb);
        proof {
            if one_per_slot(before) {
                lemma_with_attribute_keeps_one_per_slot(before, listener@);
            }
            lemma_holds_what_it_is_given(before, listener@);
            lemma_others_stay(before, listener@);
        }
        let mut e = self;
        put_attribute(&mut e.attributes, &listener);
        e
    }
}

/// An element with the given tag and children, and with the given
/// attributes, where a later one of a name and kind takes the place of the
/// earlier: the element has one attribute of each name and kind.
pub fn element(tag: &str, attrs: &[Attribute], children: &[Node]) -> (node: Node)
    ensures
        node@ == (NodeView::Element {
            tag: tag@,
            attributes: with_attributes(Seq::<AttributeView>::empty(), attributes_view(attrs@)),
            children: nodes_view(children@),
        }),
        one_per_slot(attributes_of(node@)),
        forall|i: int|
            #[trigger] is_last_given(attributes_view(attrs@), i) ==> holds(
                attributes_of(node@),
                attributes_view(attrs@)[i],
            ),
        forall|m: int|
            0 <= m < attributes_of(node@).len() ==> attributes_view(attrs@).contains(
                #[trigger] attributes_of(node@)[m],
            ),
{
    let e = Element::new(tag).add_children(children).add_attributes(attrs);
    proof {
        assert(Seq::<NodeView>::empty() + nodes_view(children@) =~= nodes_view(children@));
    }
    Node::Element(e)
}

/// A text node.
pub fn text(v: &str) -> (node: Node)
    ensures
        node@ == (NodeView::Text { text: v@ }),
{
    Node::Text(Text { text: v.to_owned() })
}

/// An attribute with a plain value.
pub fn attr(name: &str, v: Value) -> (a: Attribute)
    ensures
        a@ == (AttributeView { name: name@, value: AttribValueView::Plain(v@) }),
{
    Attribute { name: name.to_owned(), value: AttribValue::Value(v) }
}

/// An attribute that attaches a listener to the event `name`.
pub fn on(name: &str, c: Callback) -> (a: Attribute)
    ensures
        a@ == (AttributeView { name: name@, value: AttribValueView::Listener(c.id as int) }),
{
    Attribute { name: name.to_owned(), value: AttribValue::Callback(c) }
}

} // verus!
