//! One attribute of each name and kind: what it means to give an element an
//! attribute, and what holds of it.
use vstd::prelude::*;
use crate::model::AttributeView;

verus! {

/// Whether two attributes are of one name and one kind: both plain values,
/// or both listeners. An element holds at most one attribute of a name and
/// kind: a later one takes the place of the earlier.
pub open spec fn alike(a: AttributeView, b: AttributeView) -> bool {
    a.name == b.name && (a.value is Plain) == (b.value is Plain)
}

/// The attributes with `a` among them: in the place of the first attribute
/// of its name and kind, or after all where there is none.
pub open spec fn with_attribute(attrs: Seq<AttributeView>, a: AttributeView) -> Seq<AttributeView>
    decreases attrs.len(),
{
    if attrs.len() == 0 {
        seq![a]
    } else if alike(attrs[0], a) {
        seq![a] + attrs.drop_first()
    } else {
        seq![attrs[0]] + with_attribute(attrs.drop_first(), a)
    }
}

/// The attributes with those of `more` among them, one after the other.
pub open spec fn with_attributes(attrs: Seq<AttributeView>, more: Seq<AttributeView>) -> Seq<
    AttributeView,
>
    decreases more.len(),
{
    if more.len() == 0 {
        attrs
    } else {
        with_attributes(with_attribute(attrs, more[0]), more.drop_first())
    }
}

/// Whether no two attributes of the list are of one name and kind.
pub open spec fn one_per_slot(attrs: Seq<AttributeView>) -> bool {
    forall|i: int, j: int|
        0 <= i < j < attrs.len() ==> !alike(#[trigger] attrs[i], #[trigger] attrs[j])
}

/// What `with_attribute` does, place by place: where an attribute of the
/// name and kind of `a` is there, `a` stands in the place of the first such
/// and all else is as it was; where none is, `a` comes last.
pub proof fn lemma_with_attribute(attrs: Seq<AttributeView>, a: AttributeView)
    ensures
        forall|k: int|
            0 <= k < attrs.len() && alike(#[trigger] attrs[k], a) && (forall|j: int|
                0 <= j < k ==> !alike(#[trigger] attrs[j], a)) ==> with_attribute(attrs, a)
                == attrs.update(k, a),
        (forall|k: int| 0 <= k < attrs.len() ==> !alike(#[trigger] attrs[k], a))
            ==> with_attribute(attrs, a) == attrs.push(a),
    decreases attrs.len(),
{
    if attrs.len() > 0 {
        let rest = attrs.drop_first();
        lemma_with_attribute(rest, a);
        if alike(attrs[0], a) {
            assert(seq![a] + rest =~= attrs.update(0, a));
            assert forall|k: int|
                0 <= k < attrs.len() && alike(#[trigger] attrs[k], a) && (forall|j: int|
                    0 <= j < k ==> !alike(#[trigger] attrs[j], a)) implies with_attribute(attrs, a)
                == attrs.update(k, a) by {
                if k > 0 {
                    assert(alike(attrs[0], a));
                }
            }
        } else {
            assert forall|k: int|
                0 <= k < attrs.len() && alike(#[trigger] attrs[k], a) && (forall|j: int|
                    0 <= j < k ==> !alike(#[trigger] attrs[j], a)) implies with_attribute(attrs, a)
                == attrs.update(k, a) by {
                assert(rest[k - 1] == attrs[k]);
                assert forall|j: int| 0 <= j < k - 1 implies !alike(#[trigger] rest[j], a) by {
                    assert(rest[j] == attrs[j + 1]);
                }
                assert(seq![attrs[0]] + rest.update(k - 1, a) =~= attrs.update(k, a));
            }
            if forall|k: int| 0 <= k < attrs.len() ==> !alike(#[trigger] attrs[k], a) {
                assert forall|k: int| 0 <= k < rest.len() implies !alike(#[trigger] rest[k], a) by {
                    assert(rest[k] == attrs[k + 1]);
                }
                assert(seq![attrs[0]] + rest.push(a) =~= attrs.push(a));
            }
        }
    } else {
        assert(seq![a] =~= attrs.push(a));
    }
}

/// Among the attributes that are of the name and kind of `a`, one is the first.
pub proof fn lemma_first_alike(attrs: Seq<AttributeView>, a: AttributeView, n: int) -> (k: int)
    requires
        0 <= n < attrs.len(),
        alike(attrs[n], a),
    ensures
        0 <= k <= n,
        alike(attrs[k], a),
        forall|j: int| 0 <= j < k ==> !alike(#[trigger] attrs[j], a),
    decreases n,
{
    if exists|j: int| 0 <= j < n && alike(#[trigger] attrs[j], a) {
        let j = choose|j: int| 0 <= j < n && alike(#[trigger] attrs[j], a);
        lemma_first_alike(attrs, a, j)
    } else {
        n
    }
}

/// An element that holds one attribute of each name and kind still does
/// when it is given another.
pub proof fn lemma_with_attribute_keeps_one_per_slot(attrs: Seq<AttributeView>, a: AttributeView)
    requires
        one_per_slot(attrs),
    ensures
        one_per_slot(with_attribute(attrs, a)),
{
    lemma_with_attribute(attrs, a);
    if exists|n: int| 0 <= n < attrs.len() && alike(#[trigger] attrs[n], a) {
        let n = choose|n: int| 0 <= n < attrs.len() && alike(#[trigger] attrs[n], a);
        let k = lemma_first_alike(attrs, a, n);
        let after = attrs.update(k, a);
        assert(with_attribute(attrs, a) == after);
        assert forall|i: int, j: int| 0 <= i < j < after.len() implies !alike(
            #[trigger] after[i],
            #[trigger] after[j],
        ) by {
            assert(!alike(attrs[i], attrs[j]));
        }
    } else {
        let after = attrs.push(a);
        assert(with_attribute(attrs, a) == after);
        assert forall|i: int, j: int| 0 <= i < j < after.len() implies !alike(
            #[trigger] after[i],
            #[trigger] after[j],
        ) by {
            if j < attrs.len() {
                assert(!alike(attrs[i], attrs[j]));
            } else {
                assert(!alike(attrs[i], a));
            }
        }
    }
}

/// An element that holds one attribute of each name and kind still does
/// when it is given a list of others.
pub proof fn lemma_with_attributes_keeps_one_per_slot(
    attrs: Seq<AttributeView>,
    more: Seq<AttributeView>,
)
    requires
        one_per_slot(attrs),
    ensures
        one_per_slot(with_attributes(attrs, more)),
    decreases more.len(),
{
    if more.len() > 0 {
        lemma_with_attribute_keeps_one_per_slot(attrs, more[0]);
        lemma_with_attributes_keeps_one_per_slot(with_attribute(attrs, more[0]), more.drop_first());
    }
}

/// Whether an attribute of the list is of the name and kind of `a`.
pub open spec fn has_alike(attrs: Seq<AttributeView>, a: AttributeView) -> bool {
    exists|k: int| 0 <= k < attrs.len() && alike(#[trigger] attrs[k], a)
}

/// Whether the attribute at `k` is the first of the name and kind of `a`.
pub open spec fn is_first_alike(attrs: Seq<AttributeView>, a: AttributeView, k: int) -> bool {
    &&& 0 <= k < attrs.len()
    &&& alike(attrs[k], a)
    &&& forall|j: int| 0 <= j < k ==> !alike(#[trigger] attrs[j], a)
}

/// Whether the list holds `a` itself as the first attribute of its name and kind.
pub open spec fn holds(attrs: Seq<AttributeView>, a: AttributeView) -> bool {
    exists|k: int| #[trigger] is_first_alike(attrs, a, k) && attrs[k] == a
}

/// Whether an attribute of `more` is of the name and kind of `a`.
pub open spec fn named_in(more: Seq<AttributeView>, a: AttributeView) -> bool {
    exists|i: int| 0 <= i < more.len() && alike(#[trigger] more[i], a)
}

/// Where an attribute of the name and kind is there, the new one stands in
/// the place of the first.
pub proof fn lemma_replaces(attrs: Seq<AttributeView>, a: AttributeView, k: int)
    requires
        is_first_alike(attrs, a, k),
    ensures
        with_attribute(attrs, a) == attrs.update(k, a),
{
    lemma_with_attribute(attrs, a);
}

/// Where no attribute of the name and kind is there, the new one comes last.
pub proof fn lemma_pushes(attrs: Seq<AttributeView>, a: AttributeView)
    requires
        !has_alike(attrs, a),
    ensures
        with_attribute(attrs, a) == attrs.push(a),
{
    lemma_with_attribute(attrs, a);
}

/// Where an attribute of the name and kind is there, one is the first.
pub proof fn lemma_first_of(attrs: Seq<AttributeView>, a: AttributeView) -> (k: int)
    requires
        has_alike(attrs, a),
    ensures
        is_first_alike(attrs, a, k),
{
    let n = choose|n: int| 0 <= n < attrs.len() && alike(#[trigger] attrs[n], a);
    lemma_first_alike(attrs, a, n)
}

/// Last writer wins: an element that is given an attribute holds it, as
/// the first of its name and kind; and where the element had one attribute
/// of each name and kind, it is the only one of its name and kind.
pub proof fn lemma_holds_what_it_is_given(attrs: Seq<AttributeView>, a: AttributeView)
    ensures
        holds(with_attribute(attrs, a), a),
        one_per_slot(attrs) ==> forall|m: int|
            0 <= m < with_attribute(attrs, a).len() && alike(
                #[trigger] with_attribute(attrs, a)[m],
                a,
            ) ==> with_attribute(attrs, a)[m] == a,
{
    let after = with_attribute(attrs, a);
    if has_alike(attrs, a) {
        let k = lemma_first_of(attrs, a);
        lemma_replaces(attrs, a, k);
        assert(is_first_alike(after, a, k)) by {
            assert forall|j: int| 0 <= j < k implies !alike(#[trigger] after[j], a) by {
                assert(after[j] == attrs[j]);
            }
        }
        if one_per_slot(attrs) {
            assert forall|m: int| 0 <= m < after.len() && alike(#[trigger] after[m], a) implies after[m]
                == a by {
                if m != k {
                    assert(after[m] == attrs[m]);
                    assert(alike(attrs[m], attrs[k]));
                    if m < k {
                        assert(!alike(attrs[m], attrs[k]));
                    } else {
                        assert(!alike(attrs[k], attrs[m]));
                    }
                }
            }
        }
    } else {
        lemma_pushes(attrs, a);
        let k = attrs.len() as int;
        assert(is_first_alike(after, a, k)) by {
            assert forall|j: int| 0 <= j < k implies !alike(#[trigger] after[j], a) by {
                assert(after[j] == attrs[j]);
            }
        }
        assert forall|m: int| 0 <= m < after.len() && alike(#[trigger] after[m], a) implies after[m]
            == a by {
            if m < k {
                assert(after[m] == attrs[m]);
            }
        }
    }
}

/// An element that holds an attribute stays as it is when it is given that attribute.
pub proof fn lemma_given_what_it_holds(attrs: Seq<AttributeView>, a: AttributeView)
    requires
        holds(attrs, a),
    ensures
        with_attribute(attrs, a) == attrs,
{
    let k = choose|k: int| #[trigger] is_first_alike(attrs, a, k) && attrs[k] == a;
    lemma_replaces(attrs, a, k);
    assert(attrs.update(k, a) =~= attrs);
}

/// Of two attributes of one name and kind given one after the other, the
/// second alone counts.
pub proof fn lemma_later_takes_the_place(
    attrs: Seq<AttributeView>,
    a: AttributeView,
    b: AttributeView,
)
    requires
        alike(a, b),
    ensures
        with_attribute(with_attribute(attrs, a), b) == with_attribute(attrs, b),
{
    let mid = with_attribute(attrs, a);
    if has_alike(attrs, a) {
        let k = lemma_first_of(attrs, a);
        lemma_replaces(attrs, a, k);
        assert(is_first_alike(attrs, b, k));
        lemma_replaces(attrs, b, k);
        assert(is_first_alike(mid, b, k)) by {
            assert forall|j: int| 0 <= j < k implies !alike(#[trigger] mid[j], b) by {
                assert(mid[j] == attrs[j]);
            }
        }
        lemma_replaces(mid, b, k);
        assert(mid.update(k, b) =~= attrs.update(k, b));
    } else {
        lemma_pushes(attrs, a);
        assert(!has_alike(attrs, b)) by {
            if has_alike(attrs, b) {
                let n = choose|n: int| 0 <= n < attrs.len() && alike(#[trigger] attrs[n], b);
                assert(alike(attrs[n], a));
            }
        }
        lemma_pushes(attrs, b);
        let k = attrs.len() as int;
        assert(is_first_alike(mid, b, k)) by {
            assert forall|j: int| 0 <= j < k implies !alike(#[trigger] mid[j], b) by {
                assert(mid[j] == attrs[j]);
                assert(!alike(attrs[j], a));
            }
        }
        lemma_replaces(mid, b, k);
        assert(mid.update(k, b) =~= attrs.push(b));
    }
}

/// Two attributes of different names or kinds can be given in either order,
/// where the element has one of the name and kind of the first.
pub proof fn lemma_either_order(attrs: Seq<AttributeView>, a: AttributeView, y: AttributeView)
    requires
        has_alike(attrs, a),
        !alike(a, y),
    ensures
        with_attribute(with_attribute(attrs, a), y) == with_attribute(with_attribute(attrs, y), a),
{
    let k = lemma_first_of(attrs, a);
    lemma_replaces(attrs, a, k);
    let with_a = attrs.update(k, a);
    if has_alike(attrs, y) {
        let m = lemma_first_of(attrs, y);
        lemma_replaces(attrs, y, m);
        let with_y = attrs.update(m, y);
        assert(m != k);
        assert(is_first_alike(with_a, y, m)) by {
            assert forall|j: int| 0 <= j < m implies !alike(#[trigger] with_a[j], y) by {
                if j != k {
                    assert(with_a[j] == attrs[j]);
                }
            }
        }
        lemma_replaces(with_a, y, m);
        assert(is_first_alike(with_y, a, k)) by {
            assert forall|j: int| 0 <= j < k implies !alike(#[trigger] with_y[j], a) by {
                if j != m {
                    assert(with_y[j] == attrs[j]);
                }
            }
        }
        lemma_replaces(with_y, a, k);
        assert(with_a.update(m, y) =~= with_y.update(k, a));
    } else {
        lemma_pushes(attrs, y);
        let with_y = attrs.push(y);
        assert(!has_alike(with_a, y)) by {
            if has_alike(with_a, y) {
                let n = choose|n: int| 0 <= n < with_a.len() && alike(#[trigger] with_a[n], y);
                if n != k {
                    assert(with_a[n] == attrs[n]);
                    assert(alike(attrs[n], y));
                }
            }
        }
        lemma_pushes(with_a, y);
        assert(is_first_alike(with_y, a, k)) by {
            assert forall|j: int| 0 <= j < k implies !alike(#[trigger] with_y[j], a) by {
                assert(with_y[j] == attrs[j]);
            }
        }
        lemma_replaces(with_y, a, k);
        assert(with_a.push(y) =~= with_y.update(k, a));
    }
}

/// An element that has an attribute of a name and kind still has one when
/// it is given another attribute.
pub proof fn lemma_stays_alike(attrs: Seq<AttributeView>, y: AttributeView, a: AttributeView)
    requires
        has_alike(attrs, a) || alike(y, a),
    ensures
        has_alike(with_attribute(attrs, y), a),
{
    let after = with_attribute(attrs, y);
    if has_alike(attrs, y) {
        let m = lemma_first_of(attrs, y);
        lemma_replaces(attrs, y, m);
        if alike(y, a) {
            assert(alike(after[m], a));
        } else {
            let n = choose|n: int| 0 <= n < attrs.len() && alike(#[trigger] attrs[n], a);
            assert(n != m);
            assert(alike(after[n], a));
        }
    } else {
        lemma_pushes(attrs, y);
        if alike(y, a) {
            assert(alike(after[attrs.len() as int], a));
        } else {
            let n = choose|n: int| 0 <= n < attrs.len() && alike(#[trigger] attrs[n], a);
            assert(alike(after[n], a));
        }
    }
}

/// An element that holds an attribute still holds it when it is given an
/// attribute of another name or kind.
pub proof fn lemma_still_holds(attrs: Seq<AttributeView>, y: AttributeView, a: AttributeView)
    requires
        holds(attrs, a),
        !alike(y, a),
    ensures
        holds(with_attribute(attrs, y), a),
{
    let k = choose|k: int| #[trigger] is_first_alike(attrs, a, k) && attrs[k] == a;
    let after = with_attribute(attrs, y);
    if has_alike(attrs, y) {
        let m = lemma_first_of(attrs, y);
        lemma_replaces(attrs, y, m);
        assert(m != k);
        assert(is_first_alike(after, a, k)) by {
            assert forall|j: int| 0 <= j < k implies !alike(#[trigger] after[j], a) by {
                if j != m {
                    assert(after[j] == attrs[j]);
                }
            }
        }
    } else {
        lemma_pushes(attrs, y);
        assert(is_first_alike(after, a, k)) by {
            assert forall|j: int| 0 <= j < k implies !alike(#[trigger] after[j], a) by {
                assert(after[j] == attrs[j]);
            }
        }
    }
    assert(after[k] == a);
}

/// An attribute of `more` that is not its first is an attribute of the rest.
proof fn lemma_named_in_rest(more: Seq<AttributeView>, a: AttributeView)
    requires
        more.len() > 0,
    ensures
        named_in(more, a) <==> alike(more[0], a) || named_in(more.drop_first(), a),
{
    let rest = more.drop_first();
    if named_in(more, a) {
        let i = choose|i: int| 0 <= i < more.len() && alike(#[trigger] more[i], a);
        if i > 0 {
            assert(alike(rest[i - 1], a));
        }
    }
    if named_in(rest, a) {
        let i = choose|i: int| 0 <= i < rest.len() && alike(#[trigger] rest[i], a);
        assert(alike(more[i + 1], a));
    }
}

/// An element that has an attribute of a name and kind still has one when
/// it is given a list of attributes.
pub proof fn lemma_stays_alike_through(
    attrs: Seq<AttributeView>,
    more: Seq<AttributeView>,
    a: AttributeView,
)
    requires
        has_alike(attrs, a),
    ensures
        has_alike(with_attributes(attrs, more), a),
    decreases more.len(),
{
    if more.len() > 0 {
        lemma_stays_alike(attrs, more[0], a);
        lemma_stays_alike_through(with_attribute(attrs, more[0]), more.drop_first(), a);
    }
}

/// An element that holds an attribute still holds it when it is given a
/// list of attributes of other names or kinds.
pub proof fn lemma_still_holds_through(
    attrs: Seq<AttributeView>,
    more: Seq<AttributeView>,
    a: AttributeView,
)
    requires
        holds(attrs, a),
        !named_in(more, a),
    ensures
        holds(with_attributes(attrs, more), a),
    decreases more.len(),
{
    if more.len() > 0 {
        lemma_named_in_rest(more, a);
        lemma_still_holds(attrs, more[0], a);
        lemma_still_holds_through(with_attribute(attrs, more[0]), more.drop_first(), a);
    }
}

/// An attribute that a later one of the list takes the place of need not
/// be given at all, where the element has one of its name and kind.
pub proof fn lemma_overridden(attrs: Seq<AttributeView>, a: AttributeView, more: Seq<AttributeView>)
    requires
        has_alike(attrs, a),
        named_in(more, a),
    ensures
        with_attributes(with_attribute(attrs, a), more) == with_attributes(attrs, more),
    decreases more.len(),
{
    let y = more[0];
    let rest = more.drop_first();
    lemma_named_in_rest(more, a);
    if alike(y, a) {
        lemma_later_takes_the_place(attrs, a, y);
    } else {
        lemma_either_order(attrs, a, y);
        lemma_stays_alike(attrs, y, a);
        lemma_overridden(with_attribute(attrs, y), a, rest);
    }
}

/// Giving an element the same attributes a second time changes nothing.
pub proof fn lemma_given_twice(attrs: Seq<AttributeView>, more: Seq<AttributeView>)
    ensures
        with_attributes(with_attributes(attrs, more), more) == with_attributes(attrs, more),
    decreases more.len(),
{
    if more.len() > 0 {
        let a = more[0];
        let rest = more.drop_first();
        let first = with_attribute(attrs, a);
        let once = with_attributes(first, rest);
        assert(once == with_attributes(attrs, more));
        lemma_given_twice(first, rest);
        lemma_holds_what_it_is_given(attrs, a);
        if named_in(rest, a) {
            lemma_stays_alike(attrs, a, a);
            lemma_stays_alike_through(first, rest, a);
            lemma_overridden(once, a, rest);
        } else {
            lemma_still_holds_through(first, rest, a);
            lemma_given_what_it_holds(once, a);
        }
    }
}

/// Giving an element no attributes changes nothing.
pub proof fn lemma_given_none(attrs: Seq<AttributeView>)
    ensures
        with_attributes(attrs, Seq::<AttributeView>::empty()) == attrs,
{
}

/// An element that is given an attribute keeps its other attributes in
/// their places, and has as many attributes as before or one more.
pub proof fn lemma_others_stay(attrs: Seq<AttributeView>, a: AttributeView)
    ensures
        attrs.len() <= with_attribute(attrs, a).len() <= attrs.len() + 1,
        forall|m: int|
            0 <= m < attrs.len() && !alike(#[trigger] attrs[m], a) ==> with_attribute(attrs, a)[m]
                == attrs[m],
        forall|m: int|
            0 <= m < with_attribute(attrs, a).len() ==> attrs.contains(
                #[trigger] with_attribute(attrs, a)[m],
            ) || with_attribute(attrs, a)[m] == a,
{
    let after = with_attribute(attrs, a);
    if has_alike(attrs, a) {
        let k = lemma_first_of(attrs, a);
        lemma_replaces(attrs, a, k);
        assert forall|m: int| 0 <= m < after.len() implies attrs.contains(#[trigger] after[m])
            || after[m] == a by {
            if m != k {
                assert(attrs[m] == after[m]);
            }
        }
    } else {
        lemma_pushes(attrs, a);
        assert forall|m: int| 0 <= m < after.len() implies attrs.contains(#[trigger] after[m])
            || after[m] == a by {
            if m < attrs.len() {
                assert(attrs[m] == after[m]);
            }
        }
    }
}

/// Giving attributes up to a place and then the rest is giving them all.
pub proof fn lemma_given_in_two(attrs: Seq<AttributeView>, more: Seq<AttributeView>, i: int)
    requires
        0 <= i <= more.len(),
    ensures
        with_attributes(attrs, more) == with_attributes(
            with_attributes(attrs, more.take(i)),
            more.skip(i),
        ),
    decreases i,
{
    if i == 0 {
        assert(more.take(0) =~= Seq::<AttributeView>::empty());
        assert(more.skip(0) =~= more);
    } else {
        let rest = more.drop_first();
        lemma_given_in_two(with_attribute(attrs, more[0]), rest, i - 1);
        assert(more.take(i)[0] == more[0]);
        assert(more.take(i).drop_first() =~= rest.take(i - 1));
        assert(rest.skip(i - 1) =~= more.skip(i));
    }
}

/// Whether no later attribute of the list is of the name and kind of the one at `i`.
pub open spec fn is_last_given(more: Seq<AttributeView>, i: int) -> bool {
    &&& 0 <= i < more.len()
    &&& forall|j: int| i < j < more.len() ==> !alike(#[trigger] more[j], more[i])
}

/// Last writer wins among many: an element that is given a list of
/// attributes holds each of them that no later one of the list takes the
/// place of.
pub proof fn lemma_holds_last_given(attrs: Seq<AttributeView>, more: Seq<AttributeView>, i: int)
    requires
        is_last_given(more, i),
    ensures
        holds(with_attributes(attrs, more), more[i]),
{
    let upto = more.take(i + 1);
    let rest = more.skip(i + 1);
    lemma_given_in_two(attrs, more, i + 1);
    lemma_given_in_two(attrs, upto, i);
    assert(upto.skip(i) =~= seq![more[i]]);
    let before = with_attributes(attrs, upto.take(i));
    assert(with_attributes(before, seq![more[i]]) == with_attribute(before, more[i])) by {
        assert(seq![more[i]].drop_first() =~= Seq::<AttributeView>::empty());
        reveal_with_fuel(with_attributes, 2);
    }
    lemma_holds_what_it_is_given(before, more[i]);
    assert(!named_in(rest, more[i])) by {
        if named_in(rest, more[i]) {
            let j = choose|j: int| 0 <= j < rest.len() && alike(#[trigger] rest[j], more[i]);
            assert(rest[j] == more[i + 1 + j]);
        }
    }
    lemma_still_holds_through(with_attribute(before, more[i]), rest, more[i]);
}

/// An element that is given a list of attributes has no attribute but
/// those it had and those of the list, and no fewer than it had.
pub proof fn lemma_members(attrs: Seq<AttributeView>, more: Seq<AttributeView>)
    ensures
        attrs.len() <= with_attributes(attrs, more).len() <= attrs.len() + more.len(),
        forall|m: int|
            0 <= m < with_attributes(attrs, more).len() ==> attrs.contains(
                #[trigger] with_attributes(attrs, more)[m],
            ) || more.contains(with_attributes(attrs, more)[m]),
    decreases more.len(),
{
    if more.len() > 0 {
        let first = with_attribute(attrs, more[0]);
        let rest = more.drop_first();
        let all = with_attributes(attrs, more);
        lemma_others_stay(attrs, more[0]);
        lemma_members(first, rest);
        assert forall|m: int| 0 <= m < all.len() implies attrs.contains(#[trigger] all[m])
            || more.contains(all[m]) by {
            if first.contains(all[m]) {
                let k = choose|k: int| 0 <= k < first.len() && first[k] == all[m];
                if !attrs.contains(first[k]) {
                    assert(more[0] == all[m]);
                }
            } else {
                let k = choose|k: int| 0 <= k < rest.len() && rest[k] == all[m];
                assert(more[k + 1] == all[m]);
            }
        }
    }
}

} // verus!
