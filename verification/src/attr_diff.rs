//! The attribute differ: which attributes of an element to set, and which to
//! remove, so that it carries the attributes of its successor.
use vstd::prelude::*;
use crate::model::{lookup, same_slot, AttributeView};
use crate::node::{attributes_view, Attribute};
use crate::value::AttribValue;

verus! {

/// No later attribute of the list has the name of the one at `k`.
pub open spec fn is_last_occurrence(attrs: Seq<AttributeView>, k: int) -> bool {
    forall|j: int| k < j < attrs.len() ==> (#[trigger] attrs[j]).name != attrs[k].name
}

/// No earlier attribute of the list has the name of the one at `k`.
pub open spec fn is_first_occurrence(attrs: Seq<AttributeView>, k: int) -> bool {
    forall|j: int| 0 <= j < k ==> (#[trigger] attrs[j]).name != attrs[k].name
}

/// The new attribute at `k` fills its slot, and the old element has nothing
/// in that slot or something else.
pub open spec fn needs_set(old: Seq<AttributeView>, new: Seq<AttributeView>, k: int) -> bool {
    &&& is_last_occurrence(new, k)
    &&& match lookup(old, new[k].name) {
        Some(v) => !same_slot(v, new[k].value),
        None => true,
    }
}

/// The old attribute at `k` is the first of its slot, and the new element
/// has nothing in that slot.
pub open spec fn needs_remove(old: Seq<AttributeView>, new: Seq<AttributeView>, k: int) -> bool {
    &&& is_first_occurrence(old, k)
    &&& lookup(new, old[k].name) is None
}

/// The attributes to set among the first `n` new ones, in their order.
pub open spec fn set_list(old: Seq<AttributeView>, new: Seq<AttributeView>, n: int) -> Seq<
    AttributeView,
>
    decreases n,
{
    if n <= 0 {
        Seq::empty()
    } else if needs_set(old, new, n - 1) {
        set_list(old, new, n - 1).push(new[n - 1])
    } else {
        set_list(old, new, n - 1)
    }
}

/// The names to remove among the first `n` old attributes, in their order.
pub open spec fn remove_list(old: Seq<AttributeView>, new: Seq<AttributeView>, n: int) -> Seq<
    Seq<char>,
>
    decreases n,
{
    if n <= 0 {
        Seq::empty()
    } else if needs_remove(old, new, n - 1) {
        remove_list(old, new, n - 1).push(old[n - 1].name)
    } else {
        remove_list(old, new, n - 1)
    }
}

/// The attributes to set or replace: one for each slot of `new` that `old`
/// lacks or fills otherwise, with the value that counts in `new`.
pub open spec fn attributes_to_set(old: Seq<AttributeView>, new: Seq<AttributeView>) -> Seq<
    AttributeView,
> {
    set_list(old, new, new.len() as int)
}

/// The names to remove: one for each slot of `old` that `new` lacks.
pub open spec fn attributes_to_remove(old: Seq<AttributeView>, new: Seq<AttributeView>) -> Seq<
    Seq<char>,
> {
    remove_list(old, new, old.len() as int)
}

/// The model of a list of names.
pub open spec fn names_view(names: Seq<String>) -> Seq<Seq<char>> {
    Seq::new(names.len(), |i: int| names[i]@)
}

/// The value that counts for `name` among the first `n` attributes.
fn find_in_prefix<'a>(attrs: &'a Vec<Attribute>, n: usize, name: &String) -> (res: Option<
    &'a AttribValue,
>)
    requires
        n <= attrs.len(),
    ensures
        match res {
            Some(v) => lookup(attributes_view(attrs@).take(n as int), name@) == Some(v@),
            None => lookup(attributes_view(attrs@).take(n as int), name@) is None,
        },
{
    let ghost model = attributes_view(attrs@);
    let mut i: usize = n;
    while i > 0
        invariant
            i <= n <= attrs.len(),
            model == attributes_view(attrs@),
            lookup(model.take(n as int), name@) == lookup(model.take(i as int), name@),
        decreases i,
    {
        proof {
            assert(model.take(i as int).drop_last() =~= model.take(i - 1));
            assert(model.take(i as int).last() == attrs@[i - 1]@);
        }
        if attrs[i - 1].name == *name {
            return Some(&attrs[i - 1].value);
        }
        i = i - 1;
    }
    None
}

/// The value that counts for `name` in a list of attributes.
pub fn find_by_name<'a>(attrs: &'a Vec<Attribute>, name: &String) -> (res: Option<&'a AttribValue>)
    ensures
        match res {
            Some(v) => lookup(attributes_view(attrs@), name@) == Some(v@),
            None => lookup(attributes_view(attrs@), name@) is None,
        },
{
    proof {
        assert(attributes_view(attrs@).take(attrs.len() as int) =~= attributes_view(attrs@));
    }
    find_in_prefix(attrs, attrs.len(), name)
}

/// The value that counts for `name` in a list of attributes.
pub fn find_value<'a>(attrs: &'a Vec<Attribute>, name: &str) -> (res: Option<&'a AttribValue>)
    ensures
        match res {
            Some(v) => lookup(attributes_view(attrs@), name@) == Some(v@),
            None => lookup(attributes_view(attrs@), name@) is None,
        },
{
    let owned = name.to_owned();
    find_by_name(attrs, &owned)
}

/// Whether two attribute values fill a slot alike.
pub fn same_slot_values(a: &AttribValue, b: &AttribValue) -> (r: bool)
    ensures
        r == same_slot(a@, b@),
{
    match (a, b) {
        (AttribValue::Value(x), AttribValue::Value(y)) => x.same_as(y),
        (AttribValue::Callback(_), AttribValue::Callback(_)) => true,
        _ => false,
    }
}

/// Whether an attribute at a place from `lo` up to `hi` has the given name.
fn has_name_between(attrs: &Vec<Attribute>, lo: usize, hi: usize, name: &String) -> (r: bool)
    requires
        lo <= hi <= attrs.len(),
    ensures
        r == exists|j: int| lo <= j < hi && (#[trigger] attrs@[j]).name@ == name@,
{
    let mut j: usize = lo;
    while j < hi
        invariant
            lo <= j <= hi <= attrs.len(),
            forall|i: int| lo <= i < j ==> (#[trigger] attrs@[i]).name@ != name@,
        decreases hi - j,
    {
        if attrs[j].name == *name {
            return true;
        }
        j = j + 1;
    }
    false
}

/// The attributes to set on an element and the names to remove from it, so
/// that an element with the attributes `old` comes to carry those of `new`.
pub fn diff_attributes(old: &Vec<Attribute>, new: &Vec<Attribute>) -> (res: (
    Vec<Attribute>,
    Vec<String>,
))
    ensures
        attributes_view(res.0@) == attributes_to_set(
            attributes_view(old@),
            attributes_view(new@),
        ),
        names_view(res.1@) == attributes_to_remove(attributes_view(old@), attributes_view(new@)),
{
    let ghost ov = attributes_view(old@);
    let ghost nv = attributes_view(new@);
    proof {
        assert(ov.take(old.len() as int) =~= ov);
        assert(nv.take(new.len() as int) =~= nv);
    }
    let mut set: Vec<Attribute> = Vec::new();
    let mut k: usize = 0;
    while k < new.len()
        invariant
            k <= new.len(),
            ov == attributes_view(old@),
            nv == attributes_view(new@),
            ov.take(old.len() as int) == ov,
            attributes_view(set@) == set_list(ov, nv, k as int),
        decreases new.len() - k,
    {
        let a = &new[k];
        let later = has_name_between(new, k + 1, new.len(), &a.name);
        proof {
            if later {
                let j = choose|j: int| k + 1 <= j < new.len() && (#[trigger] new@[j]).name@ == a.name@;
                assert(nv[j].name == nv[k as int].name);
            } else {
                assert forall|j: int| k < j < nv.len() implies (#[trigger] nv[j]).name != nv[k as int].name by {
                    assert(new@[j].name@ != a.name@);
                }
            }
            assert(later == !is_last_occurrence(nv, k as int));
        }
        if !later {
            let changed = match find_in_prefix(old, old.len(), &a.name) {
                Some(v) => !same_slot_values(v, &a.value),
                None => true,
            };
            assert(changed == needs_set(ov, nv, k as int));
            if changed {
                let ghost before = attributes_view(set@);
                set.push(a.clone());
                assert(attributes_view(set@) =~= before.push(nv[k as int]));
            }
        }
        k = k + 1;
    }
    let mut remove: Vec<String> = Vec::new();
    let mut k: usize = 0;
    while k < old.len()
        invariant
            k <= old.len(),
            ov == attributes_view(old@),
            nv == attributes_view(new@),
            nv.take(new.len() as int) == nv,
            names_view(remove@) == remove_list(ov, nv, k as int),
        decreases old.len() - k,
    {
        let a = &old[k];
        let earlier = has_name_between(old, 0, k, &a.name);
        proof {
            if earlier {
                let j = choose|j: int| 0 <= j < k && (#[trigger] old@[j]).name@ == a.name@;
                assert(ov[j].name == ov[k as int].name);
            } else {
                assert forall|j: int| 0 <= j < k implies (#[trigger] ov[j]).name != ov[k as int].name by {
                    assert(old@[j].name@ != a.name@);
                }
            }
            assert(earlier == !is_first_occurrence(ov, k as int));
        }
        if !earlier {
            let gone = find_in_prefix(new, new.len(), &a.name).is_none();
            assert(gone == needs_remove(ov, nv, k as int));
            if gone {
                let ghost before = names_view(remove@);
                remove.push(a.name.clone());
                assert(names_view(remove@) =~= before.push(ov[k as int].name));
            }
        }
        k = k + 1;
    }
    (set, remove)
}

} // verus!
