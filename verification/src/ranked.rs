//! Candidates ranked by key.
//!
//! A candidate is one integer: the place of its key in the total order of numbers, then its
//! id. So candidates with smaller keys come first, and of those with one key the one with
//! the smaller id.

use vstd::prelude::*;
use vstd::relations::{sorted_by, total_ordering};
use vstd::seq_lib::{group_to_multiset_ensures, lemma_sorted_unique};
use crate::binary32::{
    at_total_place, from_total_place, to_total_place, total_place, total_place_is_exact,
};

verus! {

/// How many ids there are.
pub const IDS: u128 = 0x1_0000_0000_0000_0000;

/// The candidate with a key and an id.
pub open spec fn rank(key: u32, id: u64) -> u128 {
    (total_place(key) * IDS + id) as u128
}

/// The key of a candidate.
pub open spec fn key_in(c: u128) -> u32 {
    at_total_place((c / IDS) as u32)
}

/// The id of a candidate.
pub open spec fn id_in(c: u128) -> u64 {
    (c % IDS) as u64
}

/// A candidate is what it was made of, and orders by key, then id.
pub proof fn rank_is_exact(key: u32, id: u64)
    ensures
        key_in(rank(key, id)) == key,
        id_in(rank(key, id)) == id,
        rank(key, id) == total_place(key) * IDS + id,
{
    let p = total_place(key) as int;
    assert(p * IDS + id < 0x1_0000_0000 * IDS);
    assert((p * IDS + id) / (IDS as int) == p) by (nonlinear_arith)
        requires
            0 <= id < IDS,
            IDS == 0x1_0000_0000_0000_0000u128,
    ;
    assert((p * IDS + id) % (IDS as int) == id) by (nonlinear_arith)
        requires
            0 <= id < IDS,
            IDS == 0x1_0000_0000_0000_0000u128,
    ;
    total_place_is_exact(key);
}

/// The order of candidates.
pub proof fn rank_order(k1: u32, i1: u64, k2: u32, i2: u64)
    ensures
        rank(k1, i1) < rank(k2, i2) <==> total_place(k1) < total_place(k2) || (k1 == k2 && i1
            < i2),
        rank(k1, i1) == rank(k2, i2) <==> k1 == k2 && i1 == i2,
{
    rank_is_exact(k1, i1);
    rank_is_exact(k2, i2);
    total_place_is_exact(k1);
    total_place_is_exact(k2);
    let p = total_place(k1) as int;
    let q = total_place(k2) as int;
    if p < q {
        assert((p + 1) * IDS <= q * IDS);
    } else if q < p {
        assert((q + 1) * IDS <= p * IDS);
    }
}

/// The candidate with a key and an id.
#[inline]
pub fn to_rank(key: u32, id: u64) -> (r: u128)
    ensures
        r == rank(key, id),
{
    to_total_place(key) as u128 * IDS + id as u128
}

/// The key of a candidate below `IDS * 2^32`.
#[inline]
pub fn to_key(c: u128) -> (r: u32)
    ensures
        r == key_in(c),
{
    from_total_place((c / IDS) as u32)
}

/// The id of a candidate.
#[inline]
pub fn to_id(c: u128) -> (r: u64)
    ensures
        r == id_in(c),
{
    (c % IDS) as u64
}

/// In ascending order.
pub open spec fn ascending(s: Seq<u128>) -> bool {
    forall|i: int, j: int| 0 <= i <= j < s.len() ==> s[i] <= s[j]
}

/// `x` put in its place.
pub open spec fn inserted(s: Seq<u128>, x: u128) -> Seq<u128>
    decreases s.len(),
{
    if s.len() == 0 || s.last() <= x {
        s.push(x)
    } else {
        inserted(s.drop_last(), x).push(s.last())
    }
}

/// At most the first `n` of a sequence.
pub open spec fn first(s: Seq<u128>, n: int) -> Seq<u128> {
    if s.len() <= n {
        s
    } else {
        s.take(n)
    }
}

pub open spec fn le() -> spec_fn(u128, u128) -> bool {
    |a: u128, b: u128| a <= b
}

pub proof fn le_is_total()
    ensures
        total_ordering(le()),
{
}

/// There is one way to sort.
pub proof fn ascending_is_unique(s: Seq<u128>, t: Seq<u128>)
    requires
        ascending(s),
        ascending(t),
        s.to_multiset() == t.to_multiset(),
    ensures
        s == t,
{
    le_is_total();
    assert(sorted_by(s, le()));
    assert(sorted_by(t, le()));
    lemma_sorted_unique(s, t, le());
}

/// The same candidates in ascending order.
pub open spec fn sorted(s: Seq<u128>) -> Seq<u128> {
    s.sort_by(le())
}

/// Sorting orders the candidates, keeps them all, and adds none.
pub proof fn sorted_is_ascending(s: Seq<u128>)
    ensures
        ascending(sorted(s)),
        sorted(s).to_multiset() == s.to_multiset(),
        sorted(s).len() == s.len(),
        forall|c: u128| #[trigger] sorted(s).contains(c) <==> s.contains(c),
{
    broadcast use group_to_multiset_ensures;

    let t = sorted(s);
    le_is_total();
    s.lemma_sort_by_ensures(le());
    assert(t.to_multiset().len() == s.to_multiset().len());
    assert forall|i: int, j: int| 0 <= i <= j < t.len() implies t[i] <= t[j] by {
        if i < j {
            assert(le()(t[i], t[j]));
        }
    }
    assert forall|c: u128| #[trigger] t.contains(c) <==> s.contains(c) by {
        assert(t.to_multiset().count(c) == s.to_multiset().count(c));
    }
}

/// Candidates in order that are the same as others are those, sorted.
pub proof fn sorted_is(s: Seq<u128>, t: Seq<u128>)
    requires
        ascending(t),
        t.to_multiset() == s.to_multiset(),
    ensures
        sorted(s) == t,
{
    sorted_is_ascending(s);
    ascending_is_unique(sorted(s), t);
}

/// Putting a candidate in its place keeps the order and adds that candidate.
pub proof fn inserted_is_ascending(s: Seq<u128>, x: u128)
    requires
        ascending(s),
    ensures
        ascending(inserted(s, x)),
        inserted(s, x).len() == s.len() + 1,
        inserted(s, x).to_multiset() == s.to_multiset().insert(x),
    decreases s.len(),
{
    broadcast use group_to_multiset_ensures;

    if s.len() == 0 || s.last() <= x {
    } else {
        let t = s.drop_last();
        inserted_is_ascending(t, x);
        let u = inserted(t, x);
        assert(s =~= t.push(s.last()));
        assert(s.to_multiset() == t.to_multiset().insert(s.last()));
        assert(u.push(s.last()).to_multiset() == u.to_multiset().insert(s.last()));
        assert(inserted(s, x).to_multiset() =~= s.to_multiset().insert(x));
        assert forall|i: int| 0 <= i < u.len() implies u[i] <= s.last() by {
            assert(u.to_multiset().count(u[i]) > 0);
            assert(t.to_multiset().insert(x).count(u[i]) > 0);
            if u[i] != x {
                assert(t.to_multiset().count(u[i]) > 0);
                assert(t.contains(u[i]));
            }
        }
    }
}

/// What is in a sequence after putting a candidate in its place.
pub proof fn inserted_contains(s: Seq<u128>, x: u128, y: u128)
    ensures
        inserted(s, x).contains(y) <==> s.contains(y) || x == y,
        inserted(s, x).len() == s.len() + 1,
    decreases s.len(),
{
    if s.len() == 0 || s.last() <= x {
        if s.contains(y) {
            let i = choose|i: int| 0 <= i < s.len() && s[i] == y;
            assert(s.push(x)[i] == y);
        }
        assert(s.push(x)[s.len() as int] == x);
    } else {
        let t = s.drop_last();
        inserted_contains(t, x, y);
        let u = inserted(t, x);
        let v = u.push(s.last());
        if s.contains(y) {
            let i = choose|i: int| 0 <= i < s.len() && s[i] == y;
            if i < t.len() {
                assert(t[i] == y);
            } else {
                assert(v[u.len() as int] == y);
            }
        }
        if u.contains(y) {
            let i = choose|i: int| 0 <= i < u.len() && u[i] == y;
            assert(v[i] == y);
        }
        if v.contains(y) {
            let i = choose|i: int| 0 <= i < v.len() && v[i] == y;
            if i < u.len() {
                assert(u[i] == y);
            } else {
                assert(s[s.len() - 1] == y);
            }
        }
        if t.contains(y) {
            let i = choose|i: int| 0 <= i < t.len() && t[i] == y;
            assert(s[i] == y);
        }
    }
}

/// Putting a new candidate in its place repeats none.
pub proof fn inserted_is_distinct(s: Seq<u128>, x: u128)
    requires
        s.no_duplicates(),
        !s.contains(x),
    ensures
        inserted(s, x).no_duplicates(),
    decreases s.len(),
{
    if s.len() == 0 || s.last() <= x {
    } else {
        let t = s.drop_last();
        assert(!t.contains(x)) by {
            if t.contains(x) {
                let i = choose|i: int| 0 <= i < t.len() && t[i] == x;
                assert(s[i] == x);
            }
        }
        inserted_is_distinct(t, x);
        inserted_contains(t, x, s.last());
        assert(!inserted(t, x).contains(s.last())) by {
            if t.contains(s.last()) {
                let i = choose|i: int| 0 <= i < t.len() && t[i] == s.last();
                assert(s[i] == s[s.len() - 1]);
            }
            assert(s[s.len() - 1] == s.last());
        }
    }
}

/// Putting a candidate in its place moves no place up.
pub proof fn inserted_is_below(s: Seq<u128>, x: u128)
    requires
        ascending(s),
    ensures
        inserted(s, x).len() == s.len() + 1,
        forall|i: int| 0 <= i < s.len() ==> inserted(s, x)[i] <= #[trigger] s[i],
    decreases s.len(),
{
    inserted_is_ascending(s, x);
    if s.len() == 0 || s.last() <= x {
    } else {
        let t = s.drop_last();
        inserted_is_below(t, x);
        let u = inserted(t, x);
        assert forall|i: int| 0 <= i < s.len() implies inserted(s, x)[i] <= #[trigger] s[i] by {
            if i < t.len() {
                assert(u[i] <= t[i]);
            } else {
                inserted_contains(t, x, u[i]);
                assert(u.contains(u[i]));
                if t.contains(u[i]) {
                    let j = choose|j: int| 0 <= j < t.len() && t[j] == u[i];
                    assert(s[j] <= s[i]);
                }
            }
        }
    }
}

/// Two sequences in order, without repetition and of the same candidates, are the same.
pub proof fn ascending_of_same(s: Seq<u128>, t: Seq<u128>)
    requires
        ascending(s),
        ascending(t),
        s.no_duplicates(),
        t.no_duplicates(),
        forall|c: u128| #[trigger] s.contains(c) <==> t.contains(c),
    ensures
        s == t,
{
    broadcast use group_to_multiset_ensures;

    s.lemma_multiset_has_no_duplicates();
    t.lemma_multiset_has_no_duplicates();
    assert forall|c: u128| s.to_multiset().count(c) == t.to_multiset().count(c) by {
        assert(s.contains(c) <==> t.contains(c));
        if s.contains(c) {
            assert(s.to_multiset().contains(c));
            assert(t.to_multiset().contains(c));
        }
    }
    assert(s.to_multiset() =~= t.to_multiset());
    ascending_is_unique(s, t);
}

/// The first `k` after a candidate was put in its place: it is among them if it is less than
/// the last of them before.
pub proof fn first_of_inserted(s: Seq<u128>, x: u128, k: int)
    requires
        ascending(s),
        1 <= k <= s.len(),
    ensures
        inserted(s, x).take(k) == if x < s[k - 1] {
            inserted(s.take(k - 1), x)
        } else {
            s.take(k)
        },
    decreases s.len(),
{
    inserted_is_ascending(s, x);
    inserted_is_ascending(s.take(k - 1), x);
    if s.last() <= x {
        assert(s[k - 1] <= s.last());
        assert(inserted(s, x).take(k) =~= s.take(k));
    } else {
        let t = s.drop_last();
        inserted_is_ascending(t, x);
        assert(inserted(s, x).take(k) =~= inserted(t, x).take(k));
        if s.len() == k {
            assert(t =~= s.take(k - 1));
            assert(inserted(t, x).take(k) =~= inserted(t, x));
        } else {
            first_of_inserted(t, x, k);
            assert(t.take(k - 1) =~= s.take(k - 1));
            assert(t.take(k) =~= s.take(k));
        }
    }
}

} // verus!
