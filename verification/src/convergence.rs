//! Convergence: the patches from one tree to another, applied to the first,
//! give a tree with the content of the second.
use vstd::prelude::*;
use crate::apply::{attribute_names, lemma_contains_either, patch_attributes, without_names};
use crate::attr_diff::{attributes_to_remove, attributes_to_set, needs_remove, needs_set};
use crate::content::{
    lemma_first_occurrence_exists, lemma_last_occurrence_exists, lemma_lookup_last,
    lemma_lookup_none, lemma_remove_list_holds, lemma_set_list_holds, lemma_set_names_distinct,
    removed_among,
    same_attributes, set_among, slot_alike,
};
use crate::apply::{
    apply_children, apply_node, apply_trees, extra_children, fate, patched_attributes,
    place_children, run_end, Fate,
};
use crate::content::{content_equal, lemma_no_attribute_change};
use crate::diff::{
    append_patches, appended, attribute_patches, diff_child, diff_children, diff_node,
    diff_trees_with_key, must_replace, order_preserved,
};
use crate::laws::{lemma_content_equal_no_patches, lemma_content_equal_reflexive};
use crate::matching::{counterpart, keeps_order, lemma_counterpart_paired, matched_places};
use crate::slots::{alike, one_per_slot};
use crate::model::{
    attributes_of, children_of, lookup, same_slot, AttribValueView, AttributeView, NodeView,
};
use crate::walk::{
    child_start, lemma_child_within, lemma_forest_count_monotone, lemma_node_count_positive,
    node_count,
};
use crate::order::{lemma_diff_children_addresses, lemma_diff_node_addresses};
use crate::patch::{patch_target, PatchView};

verus! {

/// Removing names empties their slots and leaves the others as they are.
pub proof fn lemma_lookup_without(attrs: Seq<AttributeView>, names: Seq<Seq<char>>, name: Seq<char>)
    ensures
        lookup(without_names(attrs, names), name) == if names.contains(name) {
            None
        } else {
            lookup(attrs, name)
        },
    decreases attrs.len(),
{
    if attrs.len() > 0 {
        lemma_lookup_without(attrs.drop_last(), names, name);
        if !names.contains(attrs.last().name) {
            let rest = without_names(attrs.drop_last(), names);
            assert(rest.push(attrs.last()).drop_last() =~= rest);
        }
    }
}

/// Attributes that come later fill their slots; the earlier ones fill the rest.
pub proof fn lemma_lookup_concat(a: Seq<AttributeView>, b: Seq<AttributeView>, name: Seq<char>)
    ensures
        lookup(a + b, name) == match lookup(b, name) {
            Some(v) => Some(v),
            None => lookup(a, name),
        },
    decreases b.len(),
{
    if b.len() == 0 {
        assert(a + b =~= a);
    } else {
        assert((a + b).drop_last() =~= a + b.drop_last());
        assert((a + b).last() == b.last());
        lemma_lookup_concat(a, b.drop_last(), name);
    }
}

/// A slot of the attributes to set holds what the slot holds in the new element.
proof fn lemma_lookup_set(old: Seq<AttributeView>, new: Seq<AttributeView>, name: Seq<char>)
    ensures
        lookup(attributes_to_set(old, new), name) matches Some(v) ==> lookup(new, name) == Some(v),
        lookup(attributes_to_set(old, new), name) is None ==> forall|k: int|
            0 <= k < new.len() && needs_set(old, new, k) ==> (#[trigger] new[k]).name != name,
{
    let set = attributes_to_set(old, new);
    lemma_set_list_holds(old, new, new.len() as int);
    if lookup(set, name) is Some {
        let a = lemma_last_occurrence_exists(set, name);
        assert(set_among(old, new, new.len() as int, set[a]));
        let k = choose|k: int|
            0 <= k < new.len() && needs_set(old, new, k) && #[trigger] new[k] == set[a];
        lemma_lookup_last(new, k);
    } else {
        lemma_lookup_none(set, name);
        assert forall|k: int| 0 <= k < new.len() && needs_set(old, new, k) implies (
        #[trigger] new[k]).name != name by {
            assert(set_among(old, new, new.len() as int, new[k]));
            assert(set.contains(new[k]));
            let a = choose|a: int| 0 <= a < set.len() && set[a] == new[k];
            assert(set[a].name != name);
        }
    }
}

/// Every value fills a slot like itself.
proof fn lemma_same_slot_reflexive(v: AttribValueView)
    ensures
        same_slot(v, v),
{
}

/// An element that is given what the attribute differ says, and loses what
/// it says, fills the same slots as the new element, and fills them alike.
pub proof fn lemma_attributes_converge(old: Seq<AttributeView>, new: Seq<AttributeView>)
    ensures
        same_attributes(
            patch_attributes(old, attributes_to_set(old, new), attributes_to_remove(old, new)),
            new,
        ),
{
    let set = attributes_to_set(old, new);
    let remove = attributes_to_remove(old, new);
    let result = patch_attributes(old, set, remove);
    lemma_remove_list_holds(old, new, old.len() as int);
    assert forall|name: Seq<char>| slot_alike(#[trigger] lookup(result, name), lookup(new, name)) by {
        let gone = remove + attribute_names(set);
        lemma_lookup_concat(without_names(old, gone), set, name);
        lemma_lookup_without(old, gone, name);
        lemma_lookup_set(old, new, name);
        lemma_contains_either(remove, attribute_names(set), name);
        if lookup(set, name) is Some {
            lemma_same_slot_reflexive(lookup(set, name).unwrap());
        } else if attribute_names(set).contains(name) {
            lemma_lookup_none(set, name);
            let k = choose|k: int|
                0 <= k < attribute_names(set).len() && attribute_names(set)[k] == name;
            assert(set[k].name == name);
        } else if remove.contains(name) {
            let a = choose|a: int| 0 <= a < remove.len() && remove[a] == name;
            assert(removed_among(old, new, old.len() as int, remove[a]));
        } else if lookup(new, name) is Some {
            let k = lemma_last_occurrence_exists(new, name);
            assert(!needs_set(old, new, k));
        } else if lookup(old, name) is Some {
            let n = lemma_last_occurrence_exists(old, name);
            let m = lemma_first_occurrence_exists(old, name, n);
            assert(needs_remove(old, new, m));
            assert(removed_among(old, new, old.len() as int, name));
        }
    }
}

/// What stays of a list of attributes when names leave: attributes of the
/// list with none of the names; and where the list had one attribute of
/// each name and kind, so has what stays.
pub proof fn lemma_without_names(attrs: Seq<AttributeView>, names: Seq<Seq<char>>)
    ensures
        forall|m: int|
            0 <= m < without_names(attrs, names).len() ==> attrs.contains(
                #[trigger] without_names(attrs, names)[m],
            ) && !names.contains(without_names(attrs, names)[m].name),
        one_per_slot(attrs) ==> one_per_slot(without_names(attrs, names)),
    decreases attrs.len(),
{
    if attrs.len() > 0 {
        let front = attrs.drop_last();
        let kept = without_names(front, names);
        let all = without_names(attrs, names);
        lemma_without_names(front, names);
        assert forall|m: int| 0 <= m < all.len() implies attrs.contains(#[trigger] all[m])
            && !names.contains(all[m].name) by {
            if m < kept.len() {
                assert(front.contains(kept[m]));
                let k = choose|k: int| 0 <= k < front.len() && front[k] == kept[m];
                assert(attrs[k] == all[m]);
            } else {
                assert(attrs[attrs.len() - 1] == all[m]);
            }
        }
        if one_per_slot(attrs) {
            assert(one_per_slot(front)) by {
                assert forall|i: int, j: int| 0 <= i < j < front.len() implies !alike(
                    #[trigger] front[i],
                    #[trigger] front[j],
                ) by {
                    assert(!alike(attrs[i], attrs[j]));
                }
            }
            assert forall|i: int, j: int| 0 <= i < j < all.len() implies !alike(
                #[trigger] all[i],
                #[trigger] all[j],
            ) by {
                if j < kept.len() {
                    assert(!alike(kept[i], kept[j]));
                } else {
                    assert(front.contains(kept[i]));
                    let k = choose|k: int| 0 <= k < front.len() && front[k] == kept[i];
                    assert(!alike(attrs[k], attrs[attrs.len() - 1]));
                }
            }
        }
    }
}

/// An element with one attribute of each name and kind still has one of
/// each after the patch of the attribute differ, and then one of each name
/// that is set.
pub proof fn lemma_patch_keeps_one_per_slot(old: Seq<AttributeView>, new: Seq<AttributeView>)
    requires
        one_per_slot(old),
    ensures
        one_per_slot(
            patch_attributes(old, attributes_to_set(old, new), attributes_to_remove(old, new)),
        ),
{
    let set = attributes_to_set(old, new);
    let gone = attributes_to_remove(old, new) + attribute_names(set);
    let kept = without_names(old, gone);
    let result = kept + set;
    lemma_without_names(old, gone);
    assert forall|i: int, j: int| 0 <= i < j < result.len() implies !alike(
        #[trigger] result[i],
        #[trigger] result[j],
    ) by {
        if j < kept.len() {
            assert(!alike(kept[i], kept[j]));
        } else if i < kept.len() {
            lemma_contains_either(
                attributes_to_remove(old, new),
                attribute_names(set),
                kept[i].name,
            );
            assert(attribute_names(set)[j - kept.len()] == set[j - kept.len()].name);
        } else {
            lemma_set_names_distinct(old, new, new.len() as int, i - kept.len(), j - kept.len());
        }
    }
}

/// The places of the counterparts of the first `n` old children: each is
/// the counterpart of one of those children, and where the children keep
/// their order, the places rise.
proof fn lemma_matched_places(
    old_children: Seq<NodeView>,
    new_children: Seq<NodeView>,
    n: int,
    key: Seq<char>,
)
    requires
        0 <= n <= old_children.len(),
        keeps_order(old_children, new_children, key),
    ensures
        forall|a: int|
            0 <= a < matched_places(old_children, new_children, n, key).len() ==> exists|p: int|
                0 <= p < n && #[trigger] counterpart(old_children, new_children, p, key) == Some(
                    #[trigger] matched_places(old_children, new_children, n, key)[a],
                ),
        forall|a: int, b: int|
            0 <= a < b < matched_places(old_children, new_children, n, key).len()
                ==> #[trigger] matched_places(old_children, new_children, n, key)[a]
                < #[trigger] matched_places(old_children, new_children, n, key)[b],
        forall|p: int|
            0 <= p < n && counterpart(old_children, new_children, p, key) is Some
                ==> #[trigger] matched_places(old_children, new_children, n, key).contains(
                counterpart(old_children, new_children, p, key).unwrap(),
            ),
    decreases n,
{
    if n > 0 {
        lemma_matched_places(old_children, new_children, n - 1, key);
        let front = matched_places(old_children, new_children, n - 1, key);
        let all = matched_places(old_children, new_children, n, key);
        let last = counterpart(old_children, new_children, n - 1, key);
        assert forall|a: int| 0 <= a < all.len() implies exists|p: int|
            0 <= p < n && #[trigger] counterpart(old_children, new_children, p, key) == Some(
                #[trigger] all[a],
            ) by {
            if a < front.len() {
                let p = choose|p: int|
                    0 <= p < n - 1 && #[trigger] counterpart(old_children, new_children, p, key)
                        == Some(#[trigger] front[a]);
                assert(counterpart(old_children, new_children, p, key) == Some(all[a]));
            } else {
                assert(counterpart(old_children, new_children, n - 1, key) == Some(all[a]));
            }
        }
        assert forall|a: int, b: int| 0 <= a < b < all.len() implies #[trigger] all[a]
            < #[trigger] all[b] by {
            if b >= front.len() {
                let p = choose|p: int|
                    0 <= p < n - 1 && #[trigger] counterpart(old_children, new_children, p, key)
                        == Some(#[trigger] front[a]);
                assert(counterpart(old_children, new_children, n - 1, key) == Some(all[b]));
            }
        }
        assert forall|p: int|
            0 <= p < n && counterpart(old_children, new_children, p, key) is Some implies #[trigger] all.contains(
            counterpart(old_children, new_children, p, key).unwrap(),
        ) by {
            let q = counterpart(old_children, new_children, p, key).unwrap();
            if p < n - 1 {
                assert(front.contains(q));
                let a = choose|a: int| 0 <= a < front.len() && front[a] == q;
                assert(all[a] == q);
            } else {
                assert(all[all.len() - 1] == q);
            }
        }
    }
}

/// The new children that are appended among the first `n`: each is a new
/// child without a counterpart, with its place; the places rise; and every
/// new child without a counterpart is among them.
proof fn lemma_appended(
    old_children: Seq<NodeView>,
    new_children: Seq<NodeView>,
    n: int,
    key: Seq<char>,
)
    requires
        0 <= n <= new_children.len(),
    ensures
        forall|b: int|
            0 <= b < appended(old_children, new_children, n, key).len() ==> {
                let e = #[trigger] appended(old_children, new_children, n, key)[b];
                &&& e.0 < n
                &&& e.1 == new_children[e.0 as int]
                &&& counterpart(new_children, old_children, e.0 as int, key) is None
            },
        forall|a: int, b: int|
            0 <= a < b < appended(old_children, new_children, n, key).len() ==> (#[trigger] appended(
                old_children,
                new_children,
                n,
                key,
            )[a]).0 < (#[trigger] appended(old_children, new_children, n, key)[b]).0,
        forall|q: int|
            0 <= q < n && counterpart(new_children, old_children, q, key) is None ==> exists|b: int|
                0 <= b < appended(old_children, new_children, n, key).len() && (#[trigger] appended(
                    old_children,
                    new_children,
                    n,
                    key,
                )[b]).0 == q,
    decreases n,
{
    if n > 0 {
        lemma_appended(old_children, new_children, n - 1, key);
        let front = appended(old_children, new_children, n - 1, key);
        let all = appended(old_children, new_children, n, key);
        assert forall|q: int|
            0 <= q < n && counterpart(new_children, old_children, q, key) is None implies exists|
            b: int,
        | 0 <= b < all.len() && (#[trigger] all[b]).0 == q by {
            if q < n - 1 {
                let b = choose|b: int| 0 <= b < front.len() && (#[trigger] front[b]).0 == q;
                assert(all[b].0 == q);
            } else {
                assert(all[all.len() - 1].0 == q);
            }
        }
    }
}

/// Kept children and appended children that between them stand for every
/// place of the new children, both in rising order, are put in the order of
/// the new children.
proof fn lemma_place_children(
    kept: Seq<NodeView>,
    places: Seq<int>,
    extra: Seq<(nat, NodeView)>,
    new_children: Seq<NodeView>,
    a: int,
    b: int,
)
    requires
        kept.len() == places.len(),
        forall|k: int| 0 <= k < kept.len() ==> 0 <= #[trigger] places[k] < new_children.len(),
        forall|k: int|
            0 <= k < kept.len() ==> content_equal(#[trigger] kept[k], new_children[places[k]]),
        forall|k: int, m: int| 0 <= k < m < places.len() ==> #[trigger] places[k] < #[trigger] places[m],
        forall|k: int|
            0 <= k < extra.len() ==> (#[trigger] extra[k]).0 < new_children.len() && extra[k].1
                == new_children[extra[k].0 as int],
        forall|k: int, m: int|
            0 <= k < m < extra.len() ==> (#[trigger] extra[k]).0 < (#[trigger] extra[m]).0,
        forall|k: int, m: int|
            0 <= k < places.len() && 0 <= m < extra.len() ==> #[trigger] places[k] != (
            #[trigger] extra[m]).0,
        forall|q: int|
            0 <= q < new_children.len() ==> places.contains(q) || exists|m: int|
                0 <= m < extra.len() && (#[trigger] extra[m]).0 == q,
        0 <= a <= kept.len(),
        0 <= b <= extra.len(),
        a + b <= new_children.len(),
        forall|k: int| 0 <= k < a ==> #[trigger] places[k] < a + b,
        forall|k: int| a <= k < places.len() ==> #[trigger] places[k] >= a + b,
        forall|k: int| 0 <= k < b ==> (#[trigger] extra[k]).0 < a + b,
        forall|k: int| b <= k < extra.len() ==> (#[trigger] extra[k]).0 >= a + b,
    ensures
        place_children(kept, extra, a, b).len() == new_children.len() - (a + b),
        forall|k: int|
            0 <= k < new_children.len() - (a + b) ==> content_equal(
                #[trigger] place_children(kept, extra, a, b)[k],
                new_children[a + b + k],
            ),
    decreases new_children.len() - (a + b),
{
    let at = a + b;
    let out = place_children(kept, extra, a, b);
    if at == new_children.len() {
        if a < kept.len() {
            assert(places[a] >= at);
        }
        if b < extra.len() {
            assert(extra[b].0 >= at);
        }
    } else {
        if places.contains(at) {
            let k = choose|k: int| 0 <= k < places.len() && places[k] == at;
            if k > a {
                assert(places[a] < places[k]);
            }
            assert(k == a);
            if b < extra.len() {
                assert(places[a] != extra[b].0);
            }
            lemma_place_children(kept, places, extra, new_children, a + 1, b);
            let rest = place_children(kept, extra, a + 1, b);
            assert(out == seq![kept[a]] + rest);
            assert forall|k: int| 0 <= k < new_children.len() - at implies content_equal(
                #[trigger] out[k],
                new_children[at + k],
            ) by {
                if k > 0 {
                    assert(out[k] == rest[k - 1]);
                }
            }
        } else {
            let m = choose|m: int| 0 <= m < extra.len() && (#[trigger] extra[m]).0 == at;
            if m > b {
                assert(extra[b].0 < extra[m].0);
            }
            assert(m == b);
            assert forall|k: int| a <= k < places.len() implies #[trigger] places[k] >= at + 1 by {
                assert(places[k] != extra[b].0);
            }
            lemma_place_children(kept, places, extra, new_children, a, b + 1);
            let rest = place_children(kept, extra, a, b + 1);
            assert(out == seq![extra[b].1] + rest);
            lemma_content_equal_reflexive(extra[b].1);
            assert forall|k: int| 0 <= k < new_children.len() - at implies content_equal(
                #[trigger] out[k],
                new_children[at + k],
            ) by {
                if k > 0 {
                    assert(out[k] == rest[k - 1]);
                }
            }
        }
    }
}

/// The list `patches` holds the list `part` from `pos` on.
pub open spec fn holds_at(patches: Seq<PatchView>, pos: int, part: Seq<PatchView>) -> bool {
    &&& 0 <= pos
    &&& pos + part.len() <= patches.len()
    &&& forall|k: int| 0 <= k < part.len() ==> #[trigger] patches[pos + k] == part[k]
}

/// The patch at `at`, if there is one, is addressed at `bound` or later.
pub open spec fn ends_before(patches: Seq<PatchView>, at: int, bound: nat) -> bool {
    0 <= at < patches.len() ==> patch_target(patches[at]) >= bound
}

/// A run of `r` patches addressed at `i`, with none such after it, ends after them.
proof fn lemma_run_end(patches: Seq<PatchView>, pos: int, i: nat, r: int)
    requires
        0 <= pos,
        0 <= r,
        pos + r <= patches.len(),
        forall|k: int| 0 <= k < r ==> patch_target(#[trigger] patches[pos + k]) == i,
        pos + r < patches.len() ==> patch_target(patches[pos + r]) != i,
    ensures
        run_end(patches, pos, i) == pos + r,
    decreases r,
{
    if r > 0 {
        assert(patch_target(patches[pos + 0]) == i);
        assert forall|k: int| 0 <= k < r - 1 implies patch_target(
            #[trigger] patches[pos + 1 + k],
        ) == i by {
            assert(patches[pos + (k + 1)] == patches[pos + 1 + k]);
        }
        lemma_run_end(patches, pos + 1, i, r - 1);
    }
}

/// Patches that neither replace nor remove keep their node.
proof fn lemma_fate_keep(patches: Seq<PatchView>, pos: int, end: int)
    requires
        0 <= pos <= end <= patches.len(),
        forall|k: int|
            pos <= k < end ==> (#[trigger] patches[k]) is AddAttributes || patches[k] is AppendChildren,
    ensures
        fate(patches, pos, end) == Fate::Keep,
    decreases end - pos,
{
    if pos < end {
        assert(patches[pos] is AddAttributes || patches[pos] is AppendChildren);
        lemma_fate_keep(patches, pos + 1, end);
    }
}

/// Patches that set no attributes leave the attributes as they are.
proof fn lemma_attributes_untouched(
    attrs: Seq<AttributeView>,
    patches: Seq<PatchView>,
    pos: int,
    end: int,
)
    requires
        0 <= pos <= end <= patches.len(),
        forall|k: int| pos <= k < end ==> !((#[trigger] patches[k]) is AddAttributes),
    ensures
        patched_attributes(attrs, patches, pos, end) == attrs,
    decreases end - pos,
{
    if pos < end {
        assert(!(patches[pos] is AddAttributes));
        lemma_attributes_untouched(attrs, patches, pos + 1, end);
    }
}

/// Patches that append no children yield no appended children.
proof fn lemma_nothing_extra(patches: Seq<PatchView>, pos: int, end: int)
    requires
        0 <= pos <= end <= patches.len(),
        forall|k: int| pos <= k < end ==> !((#[trigger] patches[k]) is AppendChildren),
    ensures
        extra_children(patches, pos, end) == Seq::<(nat, NodeView)>::empty(),
    decreases end - pos,
{
    if pos < end {
        assert(!(patches[pos] is AppendChildren));
        lemma_nothing_extra(patches, pos + 1, end);
    }
}

/// The patches for the first children come first among those for all children.
proof fn lemma_children_prefix(
    old_children: Seq<NodeView>,
    new_children: Seq<NodeView>,
    i: nat,
    j: nat,
    n: int,
    m: int,
    key: Seq<char>,
)
    requires
        0 <= n <= m <= old_children.len(),
    ensures
        diff_children(old_children, new_children, i, j, n, key).len() <= diff_children(
            old_children,
            new_children,
            i,
            j,
            m,
            key,
        ).len(),
        forall|k: int|
            0 <= k < diff_children(old_children, new_children, i, j, n, key).len()
                ==> #[trigger] diff_children(old_children, new_children, i, j, m, key)[k]
                == diff_children(old_children, new_children, i, j, n, key)[k],
    decreases m - n,
{
    if n < m {
        lemma_children_prefix(old_children, new_children, i, j, n, m - 1, key);
    }
}

/// A patch for a child is addressed at the child's place or later.
proof fn lemma_child_patches_start(
    parent: NodeView,
    new_children: Seq<NodeView>,
    i: nat,
    j: nat,
    p: int,
    key: Seq<char>,
)
    requires
        parent is Element,
        0 <= p < children_of(parent).len(),
    ensures
        forall|k: int|
            0 <= k < diff_child(children_of(parent), new_children, i, j, p, key).len()
                ==> patch_target(
                #[trigger] diff_child(children_of(parent), new_children, i, j, p, key)[k],
            ) >= child_start(children_of(parent), i, p),
{
    let children = children_of(parent);
    match counterpart(children, new_children, p, key) {
        Some(q) => {
            lemma_diff_node_addresses(
                children[p],
                new_children[q],
                child_start(children, i, p),
                child_start(new_children, j, q),
                key,
            );
        },
        None => {},
    }
}

/// Among the patches for the first `m` children, those that come after the
/// patches for the first `n` are addressed at the place of child `n` or later.
proof fn lemma_later_patches(
    parent: NodeView,
    new_children: Seq<NodeView>,
    i: nat,
    j: nat,
    n: int,
    m: int,
    key: Seq<char>,
)
    requires
        parent is Element,
        0 <= n <= m <= children_of(parent).len(),
    ensures
        forall|k: int|
            diff_children(children_of(parent), new_children, i, j, n, key).len() <= k
                < diff_children(children_of(parent), new_children, i, j, m, key).len()
                ==> patch_target(
                #[trigger] diff_children(children_of(parent), new_children, i, j, m, key)[k],
            ) >= child_start(children_of(parent), i, n),
    decreases m - n,
{
    let children = children_of(parent);
    if n < m {
        lemma_later_patches(parent, new_children, i, j, n, m - 1, key);
        lemma_child_patches_start(parent, new_children, i, j, m - 1, key);
        lemma_forest_count_monotone(children, n, m - 1);
        lemma_children_prefix(children, new_children, i, j, n, m - 1, key);
        let front = diff_children(children, new_children, i, j, m - 1, key);
        let last = diff_child(children, new_children, i, j, m - 1, key);
        let all = diff_children(children, new_children, i, j, m, key);
        assert(all == front + last);
        assert forall|k: int|
            diff_children(children, new_children, i, j, n, key).len() <= k
                < all.len() implies patch_target(#[trigger] all[k]) >= child_start(
            children,
            i,
            n,
        ) by {
            if k < front.len() {
                assert(all[k] == front[k]);
            } else {
                assert(all[k] == last[k - front.len()]);
            }
        }
    }
}

/// Where a list of patches holds the patches for a node, with nothing for
/// the node's subtree after them, applying the list from there uses up
/// those patches and leaves a tree in the node's place; and where the walk
/// finds the children in their order, that tree has the content of the
/// node's successor.
#[verifier::rlimit(50)]
#[verifier::spinoff_prover]
proof fn lemma_apply_diff_node(
    old: NodeView,
    new: NodeView,
    i: nat,
    j: nat,
    key: Seq<char>,
    patches: Seq<PatchView>,
    pos: int,
)
    requires
        holds_at(patches, pos, diff_node(old, new, i, j, key)),
        ends_before(patches, pos + diff_node(old, new, i, j, key).len(), i + node_count(old)),
    ensures
        apply_node(old, i, patches, pos).1 == pos + diff_node(old, new, i, j, key).len(),
        apply_node(old, i, patches, pos).0 matches Some(r) && (order_preserved(old, new, key)
            ==> content_equal(r, new)),
    decreases old, children_of(old).len() + 1,
{
    let d = diff_node(old, new, i, j, key);
    if must_replace(old, new, key) {
        assert(patches[pos + 0] == d[0]);
        lemma_run_end(patches, pos, i, 1);
        lemma_content_equal_reflexive(new);
    } else {
        match old {
            NodeView::Text { .. } => {
                lemma_run_end(patches, pos, i, 0);
            },
            NodeView::Element { tag, attributes, children } => {
                let new_children = children_of(new);
                let head = attribute_patches(old, new, i) + append_patches(old, new, i, key);
                let tail = diff_children(children, new_children, i, j, children.len() as int, key);
                let end = pos + head.len();
                assert(d == head + tail);
                lemma_diff_children_addresses(old, new_children, i, j, children.len() as int, key);
                assert(children.take(children.len() as int) =~= children);
                assert forall|k: int| 0 <= k < head.len() implies patch_target(
                    #[trigger] patches[pos + k],
                ) == i && (patches[pos + k] is AddAttributes || patches[pos + k] is AppendChildren) by {
                    assert(patches[pos + k] == d[k]);
                    assert(d[k] == head[k]);
                }
                if tail.len() > 0 {
                    assert(patches[pos + head.len()] == d[head.len() as int]);
                    assert(d[head.len() as int] == tail[0]);
                }
                lemma_run_end(patches, pos, i, head.len() as int);
                assert forall|k: int| pos <= k < end implies (#[trigger] patches[k]) is AddAttributes
                    || patches[k] is AppendChildren by {
                    assert(patches[pos + (k - pos)] == patches[k]);
                }
                lemma_fate_keep(patches, pos, end);
                // the attributes
                let set = attributes_to_set(attributes, attributes_of(new));
                let remove = attributes_to_remove(attributes, attributes_of(new));
                let attrs_after = patched_attributes(attributes, patches, pos, end);
                if attribute_patches(old, new, i).len() > 0 {
                    assert(patches[pos + 0] == d[0]);
                    assert forall|k: int| pos + 1 <= k < end implies !((
                    #[trigger] patches[k]) is AddAttributes) by {
                        assert(patches[pos + 1] == d[1]);
                    }
                    lemma_attributes_untouched(
                        patch_attributes(attributes, set, remove),
                        patches,
                        pos + 1,
                        end,
                    );
                    assert(attrs_after == patch_attributes(attributes, set, remove));
                    lemma_attributes_converge(attributes, attributes_of(new));
                } else {
                    assert forall|k: int| pos <= k < end implies !((
                    #[trigger] patches[k]) is AddAttributes) by {
                        assert(patches[pos + 0] == d[0]);
                    }
                    lemma_attributes_untouched(attributes, patches, pos, end);
                    assert(attrs_after == attributes);
                    lemma_no_attribute_change(attributes, attributes_of(new));
                }
                assert(same_attributes(attrs_after, attributes_of(new)));
                // the appended children
                let extra = appended(children, new_children, new_children.len() as int, key);
                let found = extra_children(patches, pos, end);
                if append_patches(old, new, i, key).len() > 0 {
                    let at = pos + attribute_patches(old, new, i).len();
                    assert(patches[pos + (at - pos)] == d[at - pos]);
                    assert(patches[at] == append_patches(old, new, i, key)[0]);
                    lemma_nothing_extra(patches, at + 1, end);
                    assert(extra_children(patches, at, end) == extra + Seq::<
                        (nat, NodeView),
                    >::empty());
                    assert(extra + Seq::<(nat, NodeView)>::empty() =~= extra);
                    if at > pos {
                        assert(patches[pos + 0] == d[0]);
                        assert(extra_children(patches, pos, end) == extra_children(
                            patches,
                            pos + 1,
                            end,
                        ));
                    }
                    assert(found == extra);
                } else {
                    assert forall|k: int| pos <= k < end implies !((
                    #[trigger] patches[k]) is AppendChildren) by {
                        assert(patches[pos + 0] == d[0]);
                    }
                    lemma_nothing_extra(patches, pos, end);
                    assert(extra.len() == 0);
                    assert(found =~= extra);
                }
                // the children
                assert forall|k: int| 0 <= k < tail.len() implies #[trigger] patches[end + k]
                    == tail[k] by {
                    assert(patches[pos + (head.len() + k)] == d[head.len() + k]);
                    assert(patches[pos + (head.len() + k)] == patches[end + k]);
                }
                lemma_apply_diff_children(
                    old,
                    new,
                    i,
                    j,
                    key,
                    patches,
                    end,
                    children.len() as int,
                );
                let below = apply_children(children, i, patches, end, children.len() as int);
                let places = matched_places(children, new_children, children.len() as int, key);
                if order_preserved(old, new, key) {
                    lemma_matched_places(children, new_children, children.len() as int, key);
                    lemma_appended(children, new_children, new_children.len() as int, key);
                    assert forall|k: int| 0 <= k < below.0.len() implies 0 <= #[trigger] places[k]
                        < new_children.len() by {
                        let p = choose|p: int|
                            0 <= p < children.len() && #[trigger] counterpart(
                                children,
                                new_children,
                                p,
                                key,
                            ) == Some(#[trigger] places[k]);
                        lemma_counterpart_paired(children, new_children, p, key);
                    }
                    assert forall|k: int, m: int|
                        0 <= k < places.len() && 0 <= m < extra.len() implies #[trigger] places[k] != (
                    #[trigger] extra[m]).0 by {
                        let p = choose|p: int|
                            0 <= p < children.len() && #[trigger] counterpart(
                                children,
                                new_children,
                                p,
                                key,
                            ) == Some(#[trigger] places[k]);
                        lemma_counterpart_paired(children, new_children, p, key);
                    }
                    assert forall|q: int| 0 <= q < new_children.len() implies places.contains(q)
                        || exists|m: int| 0 <= m < extra.len() && (#[trigger] extra[m]).0 == q by {
                        if counterpart(new_children, children, q, key) is Some {
                            let p = counterpart(new_children, children, q, key).unwrap();
                            lemma_counterpart_paired(new_children, children, q, key);
                            assert(counterpart(children, new_children, p, key) == Some(q));
                        }
                    }
                    lemma_place_children(below.0, places, extra, new_children, 0, 0);
                    let placed = place_children(below.0, extra, 0, 0);
                    assert forall|k: int| 0 <= k < placed.len() implies content_equal(
                        #[trigger] placed[k],
                        new_children[k],
                    ) by {
                        assert(new_children[0 + 0 + k] == new_children[k]);
                    }
                }
            },
        }
    }
}

/// Where a list of patches holds the patches for all children of an
/// element, it holds the patches for child `p` after those for the children
/// before it, and what follows them is addressed past that child's subtree.
proof fn lemma_child_slot(
    old: NodeView,
    new: NodeView,
    i: nat,
    j: nat,
    key: Seq<char>,
    patches: Seq<PatchView>,
    pos: int,
    p: int,
)
    requires
        old is Element,
        0 <= p < children_of(old).len(),
        holds_at(
            patches,
            pos,
            diff_children(
                children_of(old),
                children_of(new),
                i,
                j,
                children_of(old).len() as int,
                key,
            ),
        ),
        ends_before(
            patches,
            pos + diff_children(
                children_of(old),
                children_of(new),
                i,
                j,
                children_of(old).len() as int,
                key,
            ).len(),
            i + node_count(old),
        ),
    ensures
        holds_at(
            patches,
            pos + diff_children(children_of(old), children_of(new), i, j, p, key).len(),
            diff_child(children_of(old), children_of(new), i, j, p, key),
        ),
        ends_before(
            patches,
            pos + diff_children(children_of(old), children_of(new), i, j, p, key).len()
                + diff_child(children_of(old), children_of(new), i, j, p, key).len(),
            child_start(children_of(old), i, p) + node_count(children_of(old)[p]),
        ),
        diff_children(children_of(old), children_of(new), i, j, p + 1, key).len()
            == diff_children(children_of(old), children_of(new), i, j, p, key).len() + diff_child(
            children_of(old),
            children_of(new),
            i,
            j,
            p,
            key,
        ).len(),
{
    let children = children_of(old);
    let new_children = children_of(new);
    let len = children.len() as int;
    let n = p + 1;
    let all = diff_children(children, new_children, i, j, len, key);
    let upto = diff_children(children, new_children, i, j, n, key);
    let front = diff_children(children, new_children, i, j, p, key);
    let last = diff_child(children, new_children, i, j, p, key);
    let mid = pos + front.len();
    assert(upto == front + last);
    lemma_children_prefix(children, new_children, i, j, n, len, key);
    lemma_later_patches(old, new_children, i, j, n, len, key);
    lemma_child_within(children, i, p);
    lemma_forest_count_monotone(children, n, len);
    assert(children.take(len) =~= children);
    assert forall|k: int| 0 <= k < last.len() implies #[trigger] patches[mid + k] == last[k] by {
        assert(patches[pos + (front.len() + k)] == all[front.len() + k]);
        assert(all[front.len() + k] == upto[front.len() + k]);
        assert(patches[pos + (front.len() + k)] == patches[mid + k]);
    }
    let at = mid + last.len();
    if 0 <= at < patches.len() {
        if upto.len() < all.len() {
            assert(patches[pos + upto.len()] == all[upto.len() as int]);
        }
    }
}

/// Where a list of patches holds the patches for the children of an
/// element, with nothing for its subtree after them, applying the list
/// from there uses up the patches for the first `n` children, keeps those
/// of them that have a counterpart and drops the others; and where the walk
/// finds the children in their order, each kept child comes to have the
/// content of its counterpart.
#[verifier::rlimit(50)]
#[verifier::spinoff_prover]
proof fn lemma_apply_diff_children(
    old: NodeView,
    new: NodeView,
    i: nat,
    j: nat,
    key: Seq<char>,
    patches: Seq<PatchView>,
    pos: int,
    n: int,
)
    requires
        old is Element,
        !must_replace(old, new, key),
        0 <= n <= children_of(old).len(),
        holds_at(
            patches,
            pos,
            diff_children(
                children_of(old),
                children_of(new),
                i,
                j,
                children_of(old).len() as int,
                key,
            ),
        ),
        ends_before(
            patches,
            pos + diff_children(
                children_of(old),
                children_of(new),
                i,
                j,
                children_of(old).len() as int,
                key,
            ).len(),
            i + node_count(old),
        ),
    ensures
        apply_children(children_of(old), i, patches, pos, n).1 == pos + diff_children(
            children_of(old),
            children_of(new),
            i,
            j,
            n,
            key,
        ).len(),
        apply_children(children_of(old), i, patches, pos, n).0.len() == matched_places(
            children_of(old),
            children_of(new),
            n,
            key,
        ).len(),
        order_preserved(old, new, key) ==> forall|k: int|
            0 <= k < matched_places(children_of(old), children_of(new), n, key).len()
                ==> content_equal(
                #[trigger] apply_children(children_of(old), i, patches, pos, n).0[k],
                children_of(new)[matched_places(children_of(old), children_of(new), n, key)[k]],
            ),
    decreases old, n,
{
    let children = children_of(old);
    let new_children = children_of(new);
    if n > 0 {
        let p = n - 1;
        lemma_apply_diff_children(old, new, i, j, key, patches, pos, p);
        lemma_child_slot(old, new, i, j, key, patches, pos, p);
        let front = diff_children(children, new_children, i, j, p, key);
        let last = diff_child(children, new_children, i, j, p, key);
        let mid = pos + front.len();
        let start = child_start(children, i, p);
        let before = apply_children(children, i, patches, pos, p);
        let after = apply_children(children, i, patches, pos, n);
        let done = apply_node(children[p], start, patches, mid);
        assert(after.1 == done.1);
        match counterpart(children, new_children, p, key) {
            Some(q) => {
                lemma_counterpart_paired(children, new_children, p, key);
                lemma_apply_diff_node(
                    children[p],
                    new_children[q],
                    start,
                    child_start(new_children, j, q),
                    key,
                    patches,
                    mid,
                );
                let places = matched_places(children, new_children, n, key);
                assert(after.0 == before.0.push(done.0.unwrap()));
                assert(places == matched_places(children, new_children, p, key).push(q));
                if order_preserved(old, new, key) {
                    assert forall|k: int| 0 <= k < places.len() implies content_equal(
                        #[trigger] after.0[k],
                        new_children[places[k]],
                    ) by {
                        if k < before.0.len() {
                            assert(after.0[k] == before.0[k]);
                        }
                    }
                }
            },
            None => {
                assert(patches[mid + 0] == last[0]);
                lemma_node_count_positive(children[p]);
                lemma_run_end(patches, mid, start, 1);
                assert(fate(patches, mid, mid + 1) == Fate::Remove);
                assert(done == (None::<NodeView>, mid + 1));
                assert(after.0 == before.0);
            },
        }
    }
}

/// The patches from one tree to another can always be applied to the first:
/// each finds its target in the walk.
pub proof fn lemma_patches_apply(old: NodeView, new: NodeView, key: Seq<char>)
    ensures
        apply_trees(old, diff_trees_with_key(old, new, key)) is Ok,
{
    let patches = diff_trees_with_key(old, new, key);
    lemma_apply_diff_node(old, new, 0, 0, key, patches, 0);
}

/// Convergence: where the walk from `old` to `new` finds the children in
/// their order, the patches from `old` to `new` can be applied to `old`, the
/// tree they make of it has the content of `new`, and from that tree to
/// `new` there is no patch left.
pub proof fn lemma_convergence(old: NodeView, new: NodeView, key: Seq<char>)
    requires
        order_preserved(old, new, key),
    ensures
        apply_trees(old, diff_trees_with_key(old, new, key)) matches Ok(tree) && content_equal(
            tree,
            new,
        ) && diff_trees_with_key(tree, new, key) == Seq::<PatchView>::empty(),
{
    let patches = diff_trees_with_key(old, new, key);
    lemma_apply_diff_node(old, new, 0, 0, key, patches, 0);
    let tree = apply_node(old, 0, patches, 0).0.unwrap();
    lemma_content_equal_no_patches(tree, new, 0, 0, key);
}

} // verus!
