//! Which neighbors a node keeps.
//!
//! Candidates are looked at nearest first. One is kept if it is no nearer to any that was
//! kept before than to the node itself, so that neighbors lie in different directions.

use vstd::prelude::*;
use vstd::seq_lib::to_multiset_build;
use crate::arith::Arithmetic;
use crate::binary32::{ge, is_ge};
use crate::flat::{FlatIndex, FlatView};
use crate::graph::node_key;
use crate::heap::MaxHeap;
use crate::ranked::{
    ascending, id_in, inserted_is_ascending, key_in, rank, rank_is_exact, sorted, sorted_is,
    sorted_is_ascending, to_id, to_key, to_rank,
};
use crate::rows::row;

verus! {

/// The key of one node for another, as if the first were a query.
pub open spec fn apart(store: FlatView, a: u64, b: u64) -> u32 {
    store.keys(row(store.data, store.dim, a as int))(b as int)
}

/// A candidate is no nearer to any kept one than to the node.
pub open spec fn is_diverse(store: FlatView, kept: Seq<u128>, c: u128) -> bool {
    forall|i: int|
        0 <= i < kept.len() ==> ge(apart(store, id_in(c), id_in(#[trigger] kept[i])), key_in(c))
}

/// The candidates kept of the first `n`, when at most `m` are.
pub open spec fn kept(store: FlatView, candidates: Seq<u128>, m: int, n: int) -> Seq<u128>
    decreases n,
{
    if n <= 0 {
        Seq::empty()
    } else {
        let p = kept(store, candidates, m, n - 1);
        if p.len() < m && is_diverse(store, p, candidates[n - 1]) {
            p.push(candidates[n - 1])
        } else {
            p
        }
    }
}

/// The ids of candidates.
pub open spec fn ids(candidates: Seq<u128>) -> Seq<u32> {
    Seq::new(candidates.len(), |i: int| id_in(candidates[i]) as u32)
}

/// The neighbors selected from candidates in order.
pub open spec fn selected(store: FlatView, candidates: Seq<u128>, m: int) -> Seq<u32> {
    ids(kept(store, candidates, m, candidates.len() as int))
}

/// The nodes of a list as candidates.
pub open spec fn ranks(key: spec_fn(u32) -> u32, list: Seq<u32>) -> Seq<u128> {
    Seq::new(list.len(), |i: int| rank(key(list[i]), list[i] as u64))
}

/// The neighbors of a node after it was connected to one more: all of them, or a selection
/// if they are more than `cap`.
pub open spec fn connected(
    store: FlatView,
    node: u32,
    list: Seq<u32>,
    neighbor: u32,
    cap: int,
) -> Seq<u32> {
    let all = list.push(neighbor);
    if all.len() > cap {
        let key = node_key(store, row(store.data, store.dim, node as int));
        selected(store, sorted(ranks(key, all)), cap)
    } else {
        all
    }
}

/// Kept candidates are candidates, at most `m`, in order, and diverse; the nearest is kept.
pub proof fn kept_is_diverse(store: FlatView, candidates: Seq<u128>, m: int, n: int)
    requires
        0 <= n <= candidates.len(),
        m >= 0,
    ensures
        ({
            let k = kept(store, candidates, m, n);
            &&& k.len() <= m
            &&& k.len() <= n
            &&& forall|i: int| 0 <= i < k.len() ==> candidates.take(n).contains(#[trigger] k[i])
            &&& forall|i: int, j: int|
                0 <= i < j < k.len() ==> ge(
                    apart(store, id_in(#[trigger] k[j]), id_in(#[trigger] k[i])),
                    key_in(k[j]),
                )
            &&& ascending(candidates) ==> ascending(k)
            &&& n > 0 && m > 0 ==> k.len() > 0 && k[0] == candidates[0]
        }),
    decreases n,
{
    if n > 0 {
        kept_is_diverse(store, candidates, m, n - 1);
        let p = kept(store, candidates, m, n - 1);
        let k = kept(store, candidates, m, n);
        assert forall|i: int| 0 <= i < k.len() implies candidates.take(n).contains(
            #[trigger] k[i],
        ) by {
            if i < p.len() {
                assert(candidates.take(n - 1).contains(p[i]));
                let t = candidates.take(n - 1);
                let j = choose|j: int| 0 <= j < t.len() && t[j] == p[i];
                assert(candidates.take(n)[j] == k[i]);
            } else {
                assert(candidates.take(n)[n - 1] == k[i]);
            }
        }
        if ascending(candidates) {
            assert forall|i: int, j: int| 0 <= i <= j < k.len() implies k[i] <= k[j] by {
                if j == p.len() && i < j {
                    assert(candidates.take(n - 1).contains(p[i]));
                    let t = candidates.take(n - 1);
                    let l = choose|l: int| 0 <= l < t.len() && t[l] == p[i];
                    assert(candidates[l] <= candidates[n - 1]);
                }
            }
        }
    }
}

/// Of candidates in order, one is passed over for one of two reasons: as many as there may be
/// were kept before it, or one kept before it is nearer to it than the node is.
pub proof fn passed_over_for_a_reason(store: FlatView, candidates: Seq<u128>, m: int, i: int)
    requires
        ascending(candidates),
        0 <= i < candidates.len(),
        m >= 0,
        !kept(store, candidates, m, candidates.len() as int).contains(candidates[i]),
    ensures
        ({
            let k = kept(store, candidates, m, candidates.len() as int);
            ||| k.len() == m && forall|j: int|
                0 <= j < k.len() ==> #[trigger] k[j] <= candidates[i]
            ||| exists|j: int|
                0 <= j < k.len() && k[j] <= candidates[i] && !ge(
                    apart(store, id_in(candidates[i]), id_in(#[trigger] k[j])),
                    key_in(candidates[i]),
                )
        }),
{
    let n = candidates.len() as int;
    kept_grows(store, candidates, m, i, n);
    kept_grows(store, candidates, m, i + 1, n);
    kept_is_diverse(store, candidates, m, i);
    kept_is_diverse(store, candidates, m, n);
    let p = kept(store, candidates, m, i);
    let k = kept(store, candidates, m, n);
    assert forall|j: int| 0 <= j < p.len() implies #[trigger] k[j] <= candidates[i] by {
        assert(k[j] == p[j]);
        assert(candidates.take(i).contains(p[j]));
        let t = candidates.take(i);
        let l = choose|l: int| 0 <= l < t.len() && t[l] == p[j];
        assert(candidates[l] <= candidates[i]);
    }
    if p.len() < m {
        if is_diverse(store, p, candidates[i]) {
            let q = kept(store, candidates, m, i + 1);
            assert(q[p.len() as int] == candidates[i]);
            assert(k[p.len() as int] == candidates[i]);
        } else {
            let j = choose|j: int|
                0 <= j < p.len() && !ge(
                    apart(store, id_in(candidates[i]), id_in(#[trigger] p[j])),
                    key_in(candidates[i]),
                );
            assert(k[j] == p[j]);
        }
    } else {
        kept_is_full(store, candidates, m, i, n);
    }
}

/// What was kept stays kept.
proof fn kept_grows(store: FlatView, candidates: Seq<u128>, m: int, i: int, n: int)
    requires
        0 <= i <= n,
    ensures
        kept(store, candidates, m, i).len() <= kept(store, candidates, m, n).len(),
        forall|j: int|
            0 <= j < kept(store, candidates, m, i).len() ==> kept(store, candidates, m, n)[j]
                == #[trigger] kept(store, candidates, m, i)[j],
    decreases n,
{
    if i < n {
        kept_grows(store, candidates, m, i, n - 1);
    }
}

/// Selected neighbors are ids of candidates.
pub proof fn selected_are_candidates(store: FlatView, candidates: Seq<u128>, m: int)
    requires
        m >= 0,
    ensures
        selected(store, candidates, m).len() <= m,
        forall|i: int| #![trigger selected(store, candidates, m)[i]]
            0 <= i < selected(store, candidates, m).len() ==> ids(candidates).contains(
                selected(store, candidates, m)[i],
            ),
{
    let n = candidates.len() as int;
    kept_is_diverse(store, candidates, m, n);
    let k = kept(store, candidates, m, n);
    assert(candidates.take(n) =~= candidates);
    assert forall|i: int| #![trigger selected(store, candidates, m)[i]] 0 <= i < selected(
        store,
        candidates,
        m,
    ).len() implies ids(candidates).contains(selected(store, candidates, m)[i]) by {
        assert(candidates.contains(k[i]));
        let j = choose|j: int| 0 <= j < candidates.len() && candidates[j] == k[i];
        assert(ids(candidates)[j] == selected(store, candidates, m)[i]);
    }
}

/// Of different nodes each is selected once.
pub proof fn selected_are_distinct(store: FlatView, candidates: Seq<u128>, m: int)
    requires
        ids(candidates).no_duplicates(),
        m >= 0,
    ensures
        selected(store, candidates, m).no_duplicates(),
{
    kept_is_distinct(store, candidates, m, candidates.len() as int);
}

proof fn kept_is_distinct(store: FlatView, candidates: Seq<u128>, m: int, n: int)
    requires
        ids(candidates).no_duplicates(),
        m >= 0,
        0 <= n <= candidates.len(),
    ensures
        ids(kept(store, candidates, m, n)).no_duplicates(),
    decreases n,
{
    if n > 0 {
        kept_is_distinct(store, candidates, m, n - 1);
        kept_is_diverse(store, candidates, m, n - 1);
        let p = kept(store, candidates, m, n - 1);
        let k = ids(kept(store, candidates, m, n));
        let t = candidates.take(n - 1);
        assert forall|i: int, j: int| 0 <= i < k.len() && 0 <= j < k.len() && i != j implies k[i]
            != k[j] by {
            if i < p.len() && j < p.len() {
                assert(ids(p)[i] != ids(p)[j]);
            } else {
                let a = if i < p.len() {
                    i
                } else {
                    j
                };
                assert(t.contains(p[a]));
                let l = choose|l: int| 0 <= l < t.len() && t[l] == p[a];
                assert(ids(candidates)[l] != ids(candidates)[n - 1]);
            }
        }
    }
}

/// A node connected to one more has only its old neighbors and that one, and no more than
/// its share.
pub proof fn connected_is_bounded(
    store: FlatView,
    node: u32,
    list: Seq<u32>,
    neighbor: u32,
    cap: int,
)
    requires
        cap >= 0,
        list.len() <= cap,
    ensures
        connected(store, node, list, neighbor, cap).len() <= cap,
        forall|i: int| #![trigger connected(store, node, list, neighbor, cap)[i]]
            0 <= i < connected(store, node, list, neighbor, cap).len() ==> list.contains(
                connected(store, node, list, neighbor, cap)[i],
            ) || connected(store, node, list, neighbor, cap)[i] == neighbor,
        cap > 0 ==> connected(store, node, list, neighbor, cap).len() > 0,
{
    let all = list.push(neighbor);
    let r = connected(store, node, list, neighbor, cap);
    if all.len() > cap {
        let key = node_key(store, row(store.data, store.dim, node as int));
        let s = sorted(ranks(key, all));
        sorted_is_ascending(ranks(key, all));
        selected_are_candidates(store, s, cap);
        kept_is_diverse(store, s, cap, s.len() as int);
        assert forall|i: int| #![trigger r[i]] 0 <= i < r.len() implies list.contains(r[i]) || r[i]
            == neighbor by {
            assert(ids(s).contains(r[i]));
            let j = choose|j: int| 0 <= j < ids(s).len() && ids(s)[j] == r[i];
            assert(s.contains(s[j]));
            let l = choose|l: int| 0 <= l < all.len() && ranks(key, all)[l] == s[j];
            rank_is_exact(key(all[l]), all[l] as u64);
            assert(r[i] == all[l]);
            if l < list.len() {
                assert(list[l] == r[i]);
            }
        }
    } else {
        assert forall|i: int| #![trigger r[i]] 0 <= i < r.len() implies list.contains(r[i]) || r[i]
            == neighbor by {
            if i < list.len() {
                assert(list[i] == r[i]);
            }
        }
    }
}

/// Whether candidates are in order.
fn is_ascending(candidates: &[u128]) -> (r: bool)
    ensures
        r ==> ascending(candidates@),
{
    let mut i: usize = 1;
    while i < candidates.len()
        invariant
            1 <= i,
            forall|a: int, b: int|
                0 <= a <= b < i && b < candidates@.len() ==> candidates@[a] <= candidates@[b],
        decreases candidates@.len() - i,
    {
        if candidates[i - 1] > candidates[i] {
            return false;
        }
        i += 1;
    }
    true
}

/// Selects at most `m` neighbors from candidates, nearest first.
pub fn select_neighbors<A: Arithmetic>(store: &FlatIndex, candidates: &[u128], m: usize) -> (r: Vec<
    u32,
>)
    requires
        forall|i: int|
            0 <= i < candidates@.len() ==> id_in(#[trigger] candidates@[i]) < store@.len()
                && id_in(candidates@[i]) <= u32::MAX,
    ensures
        r@ == selected(store@, sorted(candidates@), m as int),
{
    if is_ascending(candidates) {
        proof {
            sorted_is(candidates@, candidates@);
        }
        return select_in_order::<A>(store, candidates, m);
    }
    let mut heap: MaxHeap = MaxHeap::new();
    let mut i: usize = 0;
    assert(candidates@.take(0) =~= heap@);
    while i < candidates.len()
        invariant
            i <= candidates@.len(),
            ascending(heap@),
            heap@.to_multiset() == candidates@.take(i as int).to_multiset(),
        decreases candidates@.len() - i,
    {
        let c: u128 = candidates[i];
        proof {
            inserted_is_ascending(heap@, c);
            to_multiset_build(candidates@.take(i as int), c);
            assert(candidates@.take(i + 1) =~= candidates@.take(i as int).push(c));
        }
        heap.push(c);
        i += 1;
    }
    let ordered: Vec<u128> = heap.into_sorted_vec();
    proof {
        assert(candidates@.take(i as int) =~= candidates@);
        sorted_is(candidates@, ordered@);
        sorted_is_ascending(candidates@);
        assert forall|j: int| 0 <= j < ordered@.len() implies id_in(#[trigger] ordered@[j])
            < store@.len() && id_in(ordered@[j]) <= u32::MAX by {
            assert(ordered@.contains(ordered@[j]));
            let l = choose|l: int| 0 <= l < candidates@.len() && candidates@[l] == ordered@[j];
            assert(id_in(candidates@[l]) < store@.len());
        }
    }
    select_in_order::<A>(store, ordered.as_slice(), m)
}

/// Selects at most `m` neighbors from candidates in the order they are in.
fn select_in_order<A: Arithmetic>(store: &FlatIndex, candidates: &[u128], m: usize) -> (r: Vec<u32>)
    requires
        forall|i: int|
            0 <= i < candidates@.len() ==> id_in(#[trigger] candidates@[i]) < store@.len()
                && id_in(candidates@[i]) <= u32::MAX,
    ensures
        r@ == selected(store@, candidates@, m as int),
{
    let mut result: Vec<u32> = Vec::new();
    let ghost n = candidates@.len() as int;
    let ghost mut s: Seq<u128> = Seq::empty();
    let mut i: usize = 0;
    while i < candidates.len() && result.len() < m
        invariant
            i <= n,
            n == candidates@.len(),
            forall|i: int|
                0 <= i < candidates@.len() ==> id_in(#[trigger] candidates@[i]) < store@.len()
                    && id_in(candidates@[i]) <= u32::MAX,
            s == kept(store@, candidates@, m as int, i as int),
            result@ == ids(s),
            forall|j: int| 0 <= j < s.len() ==> id_in(#[trigger] s[j]) < store@.len(),
            forall|j: int| 0 <= j < s.len() ==> id_in(#[trigger] s[j]) <= u32::MAX,
        decreases n - i,
    {
        let c: u128 = candidates[i];
        let key: u32 = to_key(c);
        assert(id_in(candidates@[i as int]) < store@.len());
        let v: &[u32] = store.vector(to_id(c) as usize);
        let mut diverse: bool = true;
        let mut j: usize = 0;
        while diverse && j < result.len()
            invariant
                j <= result@.len(),
                result@ == ids(s),
                key == key_in(c),
                id_in(c) < store@.len(),
                v@ == row(store@.data, store@.dim, id_in(c) as int),
                v@.len() == store@.dim,
                forall|j: int| 0 <= j < s.len() ==> id_in(#[trigger] s[j]) < store@.len(),
                forall|j: int| 0 <= j < s.len() ==> id_in(#[trigger] s[j]) <= u32::MAX,
                diverse ==> forall|l: int|
                    0 <= l < j ==> ge(apart(store@, id_in(c), id_in(#[trigger] s[l])), key),
                !diverse ==> !is_diverse(store@, s, c),
            decreases result@.len() - j + if diverse { 1int } else { 0 },
        {
            assert(id_in(s[j as int]) < store@.len());
            assert(result@[j as int] == id_in(s[j as int]));
            let d: u32 = store.key_to::<A>(v, result[j] as usize);
            assert(d == apart(store@, id_in(c), id_in(s[j as int])));
            if is_ge(d, key) {
                j += 1;
            } else {
                diverse = false;
            }
        }
        if diverse {
            result.push(to_id(c) as u32);
            proof {
                s = s.push(c);
                assert(result@ =~= ids(s));
            }
        }
        i += 1;
    }
    proof {
        if i < n {
            kept_grows(store@, candidates@, m as int, i as int, n);
            kept_is_full(store@, candidates@, m as int, i as int, n);
        }
    }
    result
}

/// Once there are enough no more are kept.
proof fn kept_is_full(store: FlatView, candidates: Seq<u128>, m: int, i: int, n: int)
    requires
        0 <= i <= n,
        kept(store, candidates, m, i).len() >= m,
    ensures
        kept(store, candidates, m, n) == kept(store, candidates, m, i),
    decreases n,
{
    if i < n {
        kept_is_full(store, candidates, m, i, n - 1);
    }
}

/// Connects a node to one more neighbor.
pub(crate) fn connect<A: Arithmetic>(
    store: &FlatIndex,
    node: u32,
    list: &mut Vec<u32>,
    neighbor: u32,
    cap: usize,
)
    requires
        node < store@.len(),
        neighbor < store@.len(),
        forall|i: int| 0 <= i < old(list)@.len() ==> (#[trigger] old(list)@[i]) < store@.len(),
    ensures
        final(list)@ == connected(store@, node, old(list)@, neighbor, cap as int),
{
    list.push(neighbor);
    if list.len() > cap {
        let v: &[u32] = store.vector(node as usize);
        let ghost key = node_key(store@, row(store@.data, store@.dim, node as int));
        let ghost all = list@;
        let mut keys: Vec<u32> = Vec::new();
        store.keys_to::<A>(v, list.as_slice(), &mut keys);
        let mut candidates: Vec<u128> = Vec::with_capacity(list.len());
        let mut i: usize = 0;
        assert(candidates@ =~= ranks(key, all.take(0)));
        while i < list.len()
            invariant
                i <= list@.len(),
                list@ == all,
                v@ == row(store@.data, store@.dim, node as int),
                key == node_key(store@, v@),
                keys@.len() == all.len(),
                forall|j: int|
                    0 <= j < all.len() ==> #[trigger] keys@[j] == store@.keys(v@)(all[j] as int),
                candidates@ == ranks(key, all.take(i as int)),
            decreases list@.len() - i,
        {
            let nb: u32 = list[i];
            let d: u32 = keys[i];
            assert(d == key(nb));
            candidates.push(to_rank(d, nb as u64));
            i += 1;
            assert(candidates@ =~= ranks(key, all.take(i as int)));
        }
        proof {
            assert(all.take(i as int) =~= all);
            assert forall|i: int| 0 <= i < candidates@.len() implies id_in(
                #[trigger] candidates@[i],
            ) < store@.len() && id_in(candidates@[i]) <= u32::MAX by {
                assert(all[i] < store@.len());
                rank_is_exact(key(all[i]), all[i] as u64);
            }
        }
        *list = select_neighbors::<A>(store, candidates.as_slice(), cap);
    }
}

} // verus!
