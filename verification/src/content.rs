//! Content equality of trees: same tags, the same attribute slots filled
//! alike, the same children in the same order.
use vstd::prelude::*;
use crate::attr_diff::{
    attributes_to_remove, attributes_to_set, is_first_occurrence, is_last_occurrence, needs_remove,
    needs_set, remove_list, set_list,
};
use crate::attr_diff::diff_attributes;
use crate::model::{lookup, same_slot, AttribValueView, AttributeView, NodeView};
use crate::node::{attributes_view, lemma_nodes_view, nodes_view, Attribute, Node};

verus! {

/// Whether a slot is filled alike on both sides, or empty on both.
pub open spec fn slot_alike(a: Option<AttribValueView>, b: Option<AttribValueView>) -> bool {
    match (a, b) {
        (Some(x), Some(y)) => same_slot(x, y),
        (None, None) => true,
        _ => false,
    }
}

/// Whether two lists of attributes fill the same slots alike, whatever their order.
pub open spec fn same_attributes(a: Seq<AttributeView>, b: Seq<AttributeView>) -> bool {
    forall|name: Seq<char>| slot_alike(#[trigger] lookup(a, name), lookup(b, name))
}

/// Whether two trees have the same content.
pub open spec fn content_equal(a: NodeView, b: NodeView) -> bool
    decreases a,
{
    match (a, b) {
        (NodeView::Text { text: x }, NodeView::Text { text: y }) => x == y,
        (
            NodeView::Element { tag: ta, attributes: aa, children: ca },
            NodeView::Element { tag: tb, attributes: ab, children: cb },
        ) => {
            &&& ta == tb
            &&& same_attributes(aa, ab)
            &&& ca.len() == cb.len()
            &&& forall|i: int| 0 <= i < ca.len() ==> content_equal(#[trigger] ca[i], cb[i])
        },
        _ => false,
    }
}

/// A slot is empty exactly where no attribute has its name.
pub proof fn lemma_lookup_none(attrs: Seq<AttributeView>, name: Seq<char>)
    ensures
        lookup(attrs, name) is None <==> forall|k: int|
            0 <= k < attrs.len() ==> (#[trigger] attrs[k]).name != name,
    decreases attrs.len(),
{
    if attrs.len() > 0 {
        lemma_lookup_none(attrs.drop_last(), name);
        if attrs.last().name != name {
            if lookup(attrs, name) is None {
                assert forall|k: int| 0 <= k < attrs.len() implies (#[trigger] attrs[k]).name
                    != name by {
                    if k < attrs.len() - 1 {
                        assert(attrs.drop_last()[k].name != name);
                    }
                }
            } else {
                let k = choose|k: int|
                    0 <= k < attrs.drop_last().len() && (#[trigger] attrs.drop_last()[k]).name
                        == name;
                assert(attrs[k].name == name);
            }
        }
    }
}

/// A slot holds the value of the last attribute with its name.
pub proof fn lemma_lookup_last(attrs: Seq<AttributeView>, k: int)
    requires
        0 <= k < attrs.len(),
        is_last_occurrence(attrs, k),
    ensures
        lookup(attrs, attrs[k].name) == Some(attrs[k].value),
    decreases attrs.len(),
{
    if k < attrs.len() - 1 {
        let front = attrs.drop_last();
        assert(attrs.last().name != attrs[k].name);
        assert(front[k] == attrs[k]);
        assert forall|j: int| k < j < front.len() implies (#[trigger] front[j]).name
            != front[k].name by {
            assert(attrs[j].name != attrs[k].name);
        }
        lemma_lookup_last(front, k);
    }
}

/// A name that occurs in a list has a last occurrence there.
pub proof fn lemma_last_occurrence_exists(attrs: Seq<AttributeView>, name: Seq<char>) -> (k: int)
    requires
        lookup(attrs, name) is Some,
    ensures
        0 <= k < attrs.len(),
        attrs[k].name == name,
        is_last_occurrence(attrs, k),
        lookup(attrs, name) == Some(attrs[k].value),
    decreases attrs.len(),
{
    if attrs.last().name == name {
        attrs.len() - 1
    } else {
        let front = attrs.drop_last();
        let k = lemma_last_occurrence_exists(front, name);
        assert forall|j: int| k < j < attrs.len() implies (#[trigger] attrs[j]).name
            != attrs[k].name by {
            if j < front.len() {
                assert(front[j].name != front[k].name);
            }
        }
        k
    }
}

/// A name that occurs in a list has a first occurrence there.
pub proof fn lemma_first_occurrence_exists(attrs: Seq<AttributeView>, name: Seq<char>, n: int) -> (k: int)
    requires
        0 <= n < attrs.len(),
        attrs[n].name == name,
    ensures
        0 <= k <= n,
        attrs[k].name == name,
        is_first_occurrence(attrs, k),
    decreases n,
{
    if exists|j: int| 0 <= j < n && (#[trigger] attrs[j]).name == name {
        let j = choose|j: int| 0 <= j < n && (#[trigger] attrs[j]).name == name;
        lemma_first_occurrence_exists(attrs, name, j)
    } else {
        n
    }
}

/// Whether `x` is one of the first `n` new attributes, and one that is to be set.
pub open spec fn set_among(old: Seq<AttributeView>, new: Seq<AttributeView>, n: int, x: AttributeView) -> bool {
    exists|k: int| 0 <= k < n && needs_set(old, new, k) && #[trigger] new[k] == x
}

/// Whether `name` is that of one of the first `n` old attributes, and one
/// that is to be removed.
pub open spec fn removed_among(
    old: Seq<AttributeView>,
    new: Seq<AttributeView>,
    n: int,
    name: Seq<char>,
) -> bool {
    exists|k: int| 0 <= k < n && needs_remove(old, new, k) && (#[trigger] old[k]).name == name
}

/// What is set among the first `n` new attributes: each attribute that
/// needs it, and nothing else.
pub proof fn lemma_set_list_holds(old: Seq<AttributeView>, new: Seq<AttributeView>, n: int)
    requires
        0 <= n <= new.len(),
    ensures
        forall|a: int|
            0 <= a < set_list(old, new, n).len() ==> set_among(
                old,
                new,
                n,
                #[trigger] set_list(old, new, n)[a],
            ),
        forall|x: AttributeView|
            set_among(old, new, n, x) ==> #[trigger] set_list(old, new, n).contains(x),
    decreases n,
{
    if n > 0 {
        lemma_set_list_holds(old, new, n - 1);
        let front = set_list(old, new, n - 1);
        let all = set_list(old, new, n);
        assert forall|a: int| 0 <= a < all.len() implies set_among(old, new, n, #[trigger] all[a]) by {
            if a < front.len() {
                assert(set_among(old, new, n - 1, front[a]));
                let k = choose|k: int|
                    0 <= k < n - 1 && needs_set(old, new, k) && #[trigger] new[k] == front[a];
                assert(new[k] == all[a]);
            } else {
                assert(new[n - 1] == all[a]);
            }
        }
        assert forall|x: AttributeView| set_among(old, new, n, x) implies #[trigger] all.contains(
            x,
        ) by {
            let k = choose|k: int| 0 <= k < n && needs_set(old, new, k) && #[trigger] new[k] == x;
            if k < n - 1 {
                assert(set_among(old, new, n - 1, x));
                assert(front.contains(x));
                let a = choose|a: int| 0 <= a < front.len() && front[a] == x;
                assert(all[a] == x);
            } else {
                assert(all[all.len() - 1] == x);
            }
        }
    }
}

/// What is removed among the first `n` old attributes: the name of each
/// attribute that needs it, and nothing else.
pub proof fn lemma_remove_list_holds(old: Seq<AttributeView>, new: Seq<AttributeView>, n: int)
    requires
        0 <= n <= old.len(),
    ensures
        forall|a: int|
            0 <= a < remove_list(old, new, n).len() ==> removed_among(
                old,
                new,
                n,
                #[trigger] remove_list(old, new, n)[a],
            ),
        forall|name: Seq<char>|
            removed_among(old, new, n, name) ==> #[trigger] remove_list(old, new, n).contains(name),
    decreases n,
{
    if n > 0 {
        lemma_remove_list_holds(old, new, n - 1);
        let front = remove_list(old, new, n - 1);
        let all = remove_list(old, new, n);
        assert forall|a: int| 0 <= a < all.len() implies removed_among(
            old,
            new,
            n,
            #[trigger] all[a],
        ) by {
            if a < front.len() {
                assert(removed_among(old, new, n - 1, front[a]));
                let k = choose|k: int|
                    0 <= k < n - 1 && needs_remove(old, new, k) && (#[trigger] old[k]).name
                        == front[a];
                assert(old[k].name == all[a]);
            } else {
                assert(old[n - 1].name == all[a]);
            }
        }
        assert forall|name: Seq<char>| removed_among(old, new, n, name) implies #[trigger] all.contains(
            name,
        ) by {
            let k = choose|k: int|
                0 <= k < n && needs_remove(old, new, k) && (#[trigger] old[k]).name == name;
            if k < n - 1 {
                assert(removed_among(old, new, n - 1, name));
                assert(front.contains(name));
                let a = choose|a: int| 0 <= a < front.len() && front[a] == name;
                assert(all[a] == name);
            } else {
                assert(all[all.len() - 1] == name);
            }
        }
    }
}

/// The two results of the attribute differ are disjoint: no attribute that
/// is set has a name that is removed.
pub proof fn lemma_set_remove_disjoint(
    old: Seq<AttributeView>,
    new: Seq<AttributeView>,
    a: int,
    b: int,
)
    requires
        0 <= a < attributes_to_set(old, new).len(),
        0 <= b < attributes_to_remove(old, new).len(),
    ensures
        attributes_to_set(old, new)[a].name != attributes_to_remove(old, new)[b],
{
    lemma_set_list_holds(old, new, new.len() as int);
    lemma_remove_list_holds(old, new, old.len() as int);
    let set = attributes_to_set(old, new);
    let remove = attributes_to_remove(old, new);
    assert(set_among(old, new, new.len() as int, set[a]));
    assert(removed_among(old, new, old.len() as int, remove[b]));
    let k = choose|k: int|
        0 <= k < new.len() && needs_set(old, new, k) && #[trigger] new[k] == set[a];
    let m = choose|m: int|
        0 <= m < old.len() && needs_remove(old, new, m) && (#[trigger] old[m]).name == remove[b];
    lemma_lookup_none(new, old[m].name);
}

/// No two attributes that are set have the same name.
pub proof fn lemma_set_names_distinct(
    old: Seq<AttributeView>,
    new: Seq<AttributeView>,
    n: int,
    a: int,
    b: int,
)
    requires
        0 <= n <= new.len(),
        0 <= a < b < set_list(old, new, n).len(),
    ensures
        set_list(old, new, n)[a].name != set_list(old, new, n)[b].name,
    decreases n,
{
    let front = set_list(old, new, n - 1);
    if b < front.len() {
        lemma_set_names_distinct(old, new, n - 1, a, b);
    } else {
        lemma_set_list_holds(old, new, n - 1);
        assert(set_among(old, new, n - 1, front[a]));
        let k = choose|k: int|
            0 <= k < n - 1 && needs_set(old, new, k) && #[trigger] new[k] == front[a];
        assert(new[n - 1].name != new[k].name);
    }
}

/// Nothing is set among the first `n` new attributes exactly where none of them needs it.
pub proof fn lemma_set_list_empty(old: Seq<AttributeView>, new: Seq<AttributeView>, n: int)
    ensures
        set_list(old, new, n).len() == 0 <==> forall|k: int| 0 <= k < n ==> !needs_set(old, new, k),
    decreases n,
{
    if n > 0 {
        lemma_set_list_empty(old, new, n - 1);
        if needs_set(old, new, n - 1) {
        } else {
            if set_list(old, new, n).len() == 0 {
                assert forall|k: int| 0 <= k < n implies !needs_set(old, new, k) by {}
            }
        }
    }
}

/// Nothing is removed among the first `n` old attributes exactly where none of them needs it.
pub proof fn lemma_remove_list_empty(old: Seq<AttributeView>, new: Seq<AttributeView>, n: int)
    ensures
        remove_list(old, new, n).len() == 0 <==> forall|k: int|
            0 <= k < n ==> !needs_remove(old, new, k),
    decreases n,
{
    if n > 0 {
        lemma_remove_list_empty(old, new, n - 1);
        if needs_remove(old, new, n - 1) {
        } else {
            if remove_list(old, new, n).len() == 0 {
                assert forall|k: int| 0 <= k < n implies !needs_remove(old, new, k) by {}
            }
        }
    }
}

/// The attribute differ reports no change exactly where the two lists fill
/// the same slots alike.
pub proof fn lemma_no_attribute_change(old: Seq<AttributeView>, new: Seq<AttributeView>)
    ensures
        (attributes_to_set(old, new).len() == 0 && attributes_to_remove(old, new).len() == 0)
            <==> same_attributes(old, new),
{
    lemma_set_list_empty(old, new, new.len() as int);
    lemma_remove_list_empty(old, new, old.len() as int);
    if same_attributes(old, new) {
        assert forall|k: int| 0 <= k < new.len() implies !needs_set(old, new, k) by {
            if is_last_occurrence(new, k) {
                lemma_lookup_last(new, k);
                assert(slot_alike(lookup(old, new[k].name), lookup(new, new[k].name)));
            }
        }
        assert forall|k: int| 0 <= k < old.len() implies !needs_remove(old, new, k) by {
            lemma_lookup_none(old, old[k].name);
            assert(slot_alike(lookup(old, old[k].name), lookup(new, old[k].name)));
        }
    }
    if attributes_to_set(old, new).len() == 0 && attributes_to_remove(old, new).len() == 0 {
        assert forall|name: Seq<char>| slot_alike(#[trigger] lookup(old, name), lookup(new, name)) by {
            if lookup(new, name) is Some {
                let k = lemma_last_occurrence_exists(new, name);
                assert(!needs_set(old, new, k));
            } else if lookup(old, name) is Some {
                let n = lemma_last_occurrence_exists(old, name);
                let k = lemma_first_occurrence_exists(old, name, n);
                assert(!needs_remove(old, new, k));
            }
        }
    }
}

/// Whether two lists of attributes fill the same slots alike, whatever their order.
pub fn same_attribute_slots(a: &Vec<Attribute>, b: &Vec<Attribute>) -> (r: bool)
    ensures
        r == same_attributes(attributes_view(a@), attributes_view(b@)),
{
    let (set, remove) = diff_attributes(a, b);
    proof {
        lemma_no_attribute_change(attributes_view(a@), attributes_view(b@));
    }
    set.len() == 0 && remove.len() == 0
}

/// Whether two trees have the same content: the same text; or the same tag,
/// the same attribute slots filled alike, and children with the same
/// content in the same order.
pub fn same_content(a: &Node, b: &Node) -> (r: bool)
    ensures
        r == content_equal(a@, b@),
    decreases a,
{
    match (a, b) {
        (Node::Text(x), Node::Text(y)) => x.text == y.text,
        (Node::Element(x), Node::Element(y)) => {
            if !(x.tag == y.tag) || !same_attribute_slots(&x.attributes, &y.attributes)
                || x.children.len() != y.children.len() {
                proof {
                    lemma_nodes_view(x.children@);
                    lemma_nodes_view(y.children@);
                }
                return false;
            }
            let ghost ca = nodes_view(x.children@);
            let ghost cb = nodes_view(y.children@);
            proof {
                lemma_nodes_view(x.children@);
                lemma_nodes_view(y.children@);
            }
            let mut k: usize = 0;
            while k < x.children.len()
                invariant
                    a is Element,
                    a->Element_0 == *x,
                    b is Element,
                    b->Element_0 == *y,
                    k <= x.children.len(),
                    x.children.len() == y.children.len(),
                    ca == nodes_view(x.children@),
                    cb == nodes_view(y.children@),
                    ca.len() == x.children.len(),
                    cb.len() == y.children.len(),
                    forall|m: int| 0 <= m < ca.len() ==> (#[trigger] ca[m]) == x.children@[m]@,
                    forall|m: int| 0 <= m < cb.len() ==> (#[trigger] cb[m]) == y.children@[m]@,
                    forall|m: int| 0 <= m < k ==> content_equal(#[trigger] ca[m], cb[m]),
                decreases x.children.len() - k,
            {
                assert(decreases_to!(x.children => x.children[k as int]));
                if !same_content(&x.children[k], &y.children[k]) {
                    assert(!content_equal(ca[k as int], cb[k as int]));
                    return false;
                }
                k = k + 1;
            }
            true
        },
        _ => false,
    }
}

} // verus!
