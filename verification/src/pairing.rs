//! Pairing all children of two lists at once, where children have keys:
//! the new children are sorted into buckets by a hash of their keys, so
//! that the counterpart of an old child is looked for among few.
use std::collections::HashMap;
use vstd::prelude::*;
use vstd::utf8::encode_utf8;
use crate::matching::{
    count_before, counterpart, key_of, key_view, keys_of, lemma_count_monotone,
    lemma_counterpart_is, paired, rank, same_key,
};
use crate::model::{NodeView, ValueView};
use crate::node::{lemma_nodes_view, nodes_view, Node};
use crate::value::Value;

verus! {

/// A number for a string of bytes. Equal strings have the same number.
pub open spec fn bytes_hash(bytes: Seq<u8>) -> u64
    decreases bytes.len(),
{
    if bytes.len() == 0 {
        0
    } else {
        ((bytes_hash(bytes.drop_last()) * 31 + bytes.last()) % 0x1_0000_0000_0000_0000) as u64
    }
}

/// A number for a key. Equal keys have the same number.
pub open spec fn key_hash(key: Option<ValueView>) -> u64 {
    match key {
        None => 0,
        Some(ValueView::Str(s)) => bytes_hash(encode_utf8(s)),
        Some(ValueView::Int(i)) => if i >= 0 {
            i as u64
        } else {
            (-(i + 1)) as u64
        },
        Some(ValueView::Bool(b)) => if b {
            1
        } else {
            2
        },
        Some(ValueView::Bytes(b)) => bytes_hash(b),
    }
}

/// The places among the first `n` keys of those with the number `h`, in their order.
pub open spec fn bucket(keys: Seq<Option<ValueView>>, h: u64, n: int) -> Seq<int>
    decreases n,
{
    if n <= 0 {
        Seq::empty()
    } else if key_hash(keys[n - 1]) == h {
        bucket(keys, h, n - 1).push(n - 1)
    } else {
        bucket(keys, h, n - 1)
    }
}

/// A bucket holds, in rising order, the places of the keys with its number, and no others.
proof fn lemma_bucket(keys: Seq<Option<ValueView>>, h: u64, n: int)
    requires
        0 <= n <= keys.len(),
    ensures
        forall|i: int|
            0 <= i < bucket(keys, h, n).len() ==> 0 <= #[trigger] bucket(keys, h, n)[i] < n
                && key_hash(keys[bucket(keys, h, n)[i]]) == h,
        forall|i: int, j: int|
            0 <= i < j < bucket(keys, h, n).len() ==> #[trigger] bucket(keys, h, n)[i]
                < #[trigger] bucket(keys, h, n)[j],
        forall|q: int|
            0 <= q < n && key_hash(#[trigger] keys[q]) == h ==> bucket(keys, h, n).contains(q),
    decreases n,
{
    if n > 0 {
        lemma_bucket(keys, h, n - 1);
        let front = bucket(keys, h, n - 1);
        let all = bucket(keys, h, n);
        assert forall|q: int| 0 <= q < n && key_hash(#[trigger] keys[q]) == h implies all.contains(
            q,
        ) by {
            if q < n - 1 {
                assert(front.contains(q));
                let i = choose|i: int| 0 <= i < front.len() && front[i] == q;
                assert(all[i] == q);
            } else {
                assert(all[all.len() - 1] == q);
            }
        }
    }
}

/// Where each earlier occurrence of a key has a rank below `r`, the key
/// occurs at most `r` times among the first `n`.
proof fn lemma_rank_bound(keys: Seq<Option<ValueView>>, key: Option<ValueView>, n: int, r: nat)
    requires
        0 <= n <= keys.len(),
        forall|q: int| 0 <= q < n && #[trigger] keys[q] == key ==> rank(keys, q) < r,
    ensures
        count_before(keys, key, n) <= r,
    decreases n,
{
    if n > 0 {
        lemma_rank_bound(keys, key, n - 1, r);
        if keys[n - 1] == key {
            assert(rank(keys, n - 1) < r);
        }
    }
}

/// A key that occurs more than `r` times among the first `n` has an
/// occurrence of rank `r` there.
proof fn lemma_occurrence_exists(
    keys: Seq<Option<ValueView>>,
    key: Option<ValueView>,
    n: int,
    r: nat,
) -> (p: int)
    requires
        0 <= n <= keys.len(),
        r < count_before(keys, key, n),
    ensures
        0 <= p < n,
        keys[p] == key,
        rank(keys, p) == r,
    decreases n,
{
    if keys[n - 1] == key && count_before(keys, key, n - 1) == r {
        n - 1
    } else {
        lemma_occurrence_exists(keys, key, n - 1, r)
    }
}

/// A child has a counterpart exactly where its key occurs in the other
/// list more often than before the child in its own.
proof fn lemma_has_counterpart(from: Seq<NodeView>, to: Seq<NodeView>, p: int, key: Seq<char>)
    requires
        0 <= p < from.len(),
    ensures
        counterpart(from, to, p, key) is Some <==> rank(keys_of(from, key), p) < count_before(
            keys_of(to, key),
            keys_of(from, key)[p],
            to.len() as int,
        ),
{
    let fk = keys_of(from, key);
    let tk = keys_of(to, key);
    let r = rank(fk, p);
    if r < count_before(tk, fk[p], to.len() as int) {
        let q = lemma_occurrence_exists(tk, fk[p], to.len() as int, r);
        assert(paired(fk, tk, p, q));
        lemma_counterpart_is(from, to, p, q, key);
    }
    if counterpart(from, to, p, key) is Some {
        let q = counterpart(from, to, p, key).unwrap();
        assert(paired(fk, tk, p, q));
        lemma_count_monotone(tk, fk[p], q + 1, to.len() as int);
    }
}

/// The number of a string of bytes.
fn hash_bytes(bytes: &[u8]) -> (h: u64)
    ensures
        h == bytes_hash(bytes@),
{
    let mut h: u64 = 0;
    let mut i: usize = 0;
    assert(bytes@.take(0) =~= Seq::<u8>::empty());
    while i < bytes.len()
        invariant
            i <= bytes.len(),
            h == bytes_hash(bytes@.take(i as int)),
        decreases bytes.len() - i,
    {
        proof {
            assert(bytes@.take(i + 1).drop_last() =~= bytes@.take(i as int));
            assert(bytes@.take(i + 1).last() == bytes@[i as int]);
        }
        let wide: u128 = (h as u128) * 31 + (bytes[i] as u128);
        h = (wide % 0x1_0000_0000_0000_0000) as u64;
        i = i + 1;
    }
    assert(bytes@.take(bytes.len() as int) =~= bytes@);
    h
}

/// The number of a key.
fn hash_key(key: Option<&Value>) -> (h: u64)
    ensures
        h == key_hash(key_view(key)),
{
    match key {
        None => 0,
        Some(Value::Str(s)) => hash_bytes(s.as_str().as_bytes()),
        Some(Value::Int(i)) => if *i >= 0 {
            *i as u64
        } else {
            (-(*i + 1)) as u64
        },
        Some(Value::Bool(b)) => if *b {
            1
        } else {
            2
        },
        Some(Value::Bytes(b)) => hash_bytes(b.as_slice()),
    }
}

/// The model of a list of places.
pub open spec fn places_view(places: Seq<usize>) -> Seq<int> {
    Seq::new(places.len(), |i: int| places[i] as int)
}

/// Whether the map holds the bucket of the first `n` keys for the number `h`.
pub open spec fn holds_bucket(
    buckets: Map<u64, Vec<usize>>,
    keys: Seq<Option<ValueView>>,
    n: int,
    h: u64,
) -> bool {
    if buckets.contains_key(h) {
        places_view(buckets[h]@) == bucket(keys, h, n)
    } else {
        bucket(keys, h, n).len() == 0
    }
}

/// Whether the map holds, for every number, the bucket of the first `n` keys.
pub open spec fn holds_buckets(
    buckets: Map<u64, Vec<usize>>,
    keys: Seq<Option<ValueView>>,
    n: int,
) -> bool {
    forall|h: u64| #[trigger] holds_bucket(buckets, keys, n, h)
}

/// The children sorted into buckets by the numbers of their keys.
fn build_buckets(children: &Vec<Node>, key: &String) -> (buckets: HashMap<u64, Vec<usize>>)
    ensures
        holds_buckets(buckets@, keys_of(nodes_view(children@), key@), children.len() as int),
{
    let ghost keys = keys_of(nodes_view(children@), key@);
    proof {
        lemma_nodes_view(children@);
    }
    let mut buckets: HashMap<u64, Vec<usize>> = HashMap::new();
    let mut q: usize = 0;
    while q < children.len()
        invariant
            q <= children.len(),
            keys == keys_of(nodes_view(children@), key@),
            keys.len() == children.len(),
            forall|k: int| 0 <= k < children.len() ==> (#[trigger] nodes_view(children@)[k])
                == children@[k]@,
            holds_buckets(buckets@, keys, q as int),
        decreases children.len() - q,
    {
        let h = hash_key(key_of(&children[q], key));
        let ghost before = buckets@;
        let mut places = match buckets.remove(&h) {
            Some(places) => places,
            None => Vec::new(),
        };
        assert(holds_bucket(before, keys, q as int, h));
        assert(places_view(places@) =~= bucket(keys, h, q as int));
        places.push(q);
        assert(places_view(places@) =~= bucket(keys, h, q + 1));
        buckets.insert(h, places);
        proof {
            assert forall|g: u64| #[trigger] holds_bucket(buckets@, keys, q + 1, g) by {
                assert(holds_bucket(before, keys, q as int, g));
            }
        }
        q = q + 1;
    }
    buckets
}

/// Whether exactly those new children are marked that are the counterparts
/// of the first `p` old children.
pub open spec fn marks_taken(
    taken: Seq<bool>,
    old_keys: Seq<Option<ValueView>>,
    new_keys: Seq<Option<ValueView>>,
    p: int,
) -> bool {
    &&& taken.len() == new_keys.len()
    &&& forall|q: int|
        0 <= q < new_keys.len() ==> (#[trigger] taken[q]) == (rank(new_keys, q) < count_before(
            old_keys,
            new_keys[q],
            p,
        ))
}

/// The model of an optional place.
pub open spec fn place_view(place: Option<usize>) -> Option<int> {
    match place {
        Some(q) => Some(q as int),
        None => None,
    }
}

/// The counterpart of each old child among the new children, and for each
/// new child whether it is the counterpart of an old one.
pub fn pair_children(old_children: &Vec<Node>, new_children: &Vec<Node>, key: &String) -> (res: (
    Vec<Option<usize>>,
    Vec<bool>,
))
    ensures
        res.0.len() == old_children.len(),
        forall|p: int|
            0 <= p < old_children.len() ==> place_view(#[trigger] res.0[p]) == counterpart(
                nodes_view(old_children@),
                nodes_view(new_children@),
                p,
                key@,
            ),
        forall|p: int|
            0 <= p < old_children.len() ==> ((#[trigger] res.0[p]) matches Some(q) ==> q
                < new_children.len()),
        res.1.len() == new_children.len(),
        forall|q: int|
            0 <= q < new_children.len() ==> (#[trigger] res.1[q]) == counterpart(
                nodes_view(new_children@),
                nodes_view(old_children@),
                q,
                key@,
            ) is Some,
{
    let ghost ocv = nodes_view(old_children@);
    let ghost ncv = nodes_view(new_children@);
    let ghost fk = keys_of(ocv, key@);
    let ghost tk = keys_of(ncv, key@);
    proof {
        lemma_nodes_view(old_children@);
        lemma_nodes_view(new_children@);
    }
    let buckets = build_buckets(new_children, key);
    let mut taken: Vec<bool> = Vec::new();
    let mut q: usize = 0;
    while q < new_children.len()
        invariant
            q <= new_children.len(),
            taken.len() == q,
            forall|k: int| 0 <= k < q ==> !(#[trigger] taken[k]),
        decreases new_children.len() - q,
    {
        taken.push(false);
        q = q + 1;
    }
    let mut found: Vec<Option<usize>> = Vec::new();
    let mut p: usize = 0;
    while p < old_children.len()
        invariant
            p <= old_children.len(),
            ocv == nodes_view(old_children@),
            ncv == nodes_view(new_children@),
            fk == keys_of(ocv, key@),
            tk == keys_of(ncv, key@),
            fk.len() == old_children.len(),
            tk.len() == new_children.len(),
            forall|k: int| 0 <= k < old_children.len() ==> (#[trigger] ocv[k]) == old_children@[k]@,
            forall|k: int| 0 <= k < new_children.len() ==> (#[trigger] ncv[k]) == new_children@[k]@,
            holds_buckets(buckets@, tk, new_children.len() as int),
            marks_taken(taken@, fk, tk, p as int),
            found.len() == p,
            forall|k: int|
                0 <= k < p ==> place_view(#[trigger] found[k]) == counterpart(ocv, ncv, k, key@),
            forall|k: int|
                0 <= k < p ==> ((#[trigger] found[k]) matches Some(q) ==> q < new_children.len()),
        decreases old_children.len() - p,
    {
        let id = key_of(&old_children[p], key);
        let h = hash_key(id);
        let ghost r = rank(fk, p as int);
        let ghost all = bucket(tk, h, tk.len() as int);
        let mut place: Option<usize> = None;
        proof {
            lemma_bucket(tk, h, tk.len() as int);
            assert(holds_bucket(buckets@, tk, tk.len() as int, h));
        }
        match buckets.get(&h) {
            Some(places) => {
                let mut i: usize = 0;
                while i < places.len() && place.is_none()
                    invariant
                        p < old_children.len(),
                        ncv == nodes_view(new_children@),
                        tk == keys_of(ncv, key@),
                        tk.len() == new_children.len(),
                        forall|k: int|
                            0 <= k < new_children.len() ==> (#[trigger] ncv[k])
                                == new_children@[k]@,
                        key_view(id) == fk[p as int],
                        taken.len() == new_children.len(),
                        all == places_view(places@),
                        forall|k: int| 0 <= k < all.len() ==> 0 <= #[trigger] all[k] < tk.len(),
                        i <= places.len(),
                        place is None ==> forall|k: int|
                            0 <= k < i ==> taken[all[k]] || tk[#[trigger] all[k]] != fk[p as int],
                        place matches Some(q) ==> 0 < i && q == all[i - 1] && !taken[q as int]
                            && tk[q as int] == fk[p as int] && forall|k: int|
                            0 <= k < i - 1 ==> taken[all[k]] || tk[#[trigger] all[k]]
                                != fk[p as int],
                    decreases places.len() - i + if place is None { 1int } else { 0int },
                {
                    let candidate = places[i];
                    assert(candidate == all[i as int]);
                    if !taken[candidate] && same_key(key_of(&new_children[candidate], key), id) {
                        place = Some(candidate);
                    }
                    i = i + 1;
                }
                proof {
                    // every new child with the key that stands before the one found, or
                    // anywhere where none was found, is in the bucket before it, and so taken
                    assert forall|k: int|
                        0 <= k < tk.len() && #[trigger] tk[k] == fk[p as int] && (place matches Some(
                            q,
                        ) ==> k < q) implies taken[k] by {
                        assert(all.contains(k));
                        let at = choose|at: int| 0 <= at < all.len() && all[at] == k;
                        if place is Some && at > i - 1 {
                            assert(all[i - 1] < all[at]);
                        }
                    }
                }
            },
            None => {
                assert forall|k: int| 0 <= k < tk.len() && #[trigger] tk[k] == fk[p as int] implies taken[k] by {
                    assert(all.contains(k));
                }
            },
        }
        proof {
            assert(forall|k: int|
                0 <= k < tk.len() && #[trigger] tk[k] == fk[p as int] && (place matches Some(q)
                    ==> k < q) ==> taken[k]);
            match place {
                Some(q) => {
                    assert forall|k: int| 0 <= k < q && #[trigger] tk[k] == fk[p as int] implies rank(
                        tk,
                        k,
                    ) < r by {
                        assert(taken[k]);
                    }
                    lemma_rank_bound(tk, fk[p as int], q as int, r);
                    assert(taken[q as int] == (rank(tk, q as int) < r));
                    assert(paired(fk, tk, p as int, q as int));
                    lemma_counterpart_is(ocv, ncv, p as int, q as int, key@);
                },
                None => {
                    assert forall|q: int| !paired(fk, tk, p as int, q) by {
                        if 0 <= q < tk.len() && tk[q] == fk[p as int] {
                            assert(taken[q]);
                        }
                    }
                },
            }
        }
        let ghost before = taken@;
        match place {
            Some(q) => {
                taken.set(q, true);
            },
            None => {},
        }
        proof {
            assert forall|q: int| 0 <= q < tk.len() implies (#[trigger] taken[q]) == (rank(tk, q)
                < count_before(fk, tk[q], p + 1)) by {
                assert(before[q] == (rank(tk, q) < count_before(fk, tk[q], p as int)));
                if tk[q] == fk[p as int] {
                    if rank(tk, q) == r {
                        assert(paired(fk, tk, p as int, q));
                        lemma_counterpart_is(ocv, ncv, p as int, q, key@);
                    }
                    if place == Some(q as usize) {
                        assert(paired(fk, tk, p as int, q));
                    }
                }
            }
        }
        found.push(place);
        p = p + 1;
    }
    proof {
        assert forall|q: int| 0 <= q < new_children.len() implies (#[trigger] taken[q])
            == counterpart(ncv, ocv, q, key@) is Some by {
            lemma_has_counterpart(ncv, ocv, q, key@);
        }
    }
    (found, taken)
}

} // verus!
