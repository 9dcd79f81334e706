//! Which neighbors are kept, said of nothing but keys.

use vstd::prelude::*;
use crate::binary32::ge;
use crate::flat::FlatView;
use crate::graph::node_key;
use crate::ranked::{
    ascending, id_in, key_in, rank, rank_is_exact, rank_order, sorted, sorted_is_ascending,
};
use crate::rows::row;
use crate::searching::{flat_key, precedes};
use crate::select::{
    apart, connected, ids, kept, kept_is_diverse, passed_over_for_a_reason, ranks, selected,
};

verus! {

/// How near each stored vector is to stored vector `node`.
pub open spec fn nearness(store: FlatView, node: u32) -> spec_fn(int) -> u32 {
    flat_key(
        store,
        store.data.subrange(node as int * store.dim, node as int * store.dim + store.dim),
    )
}

/// `r` is a selection of at most `cap` from `all`, by how near they are to a node. They are in
/// order; the one that comes first of all is among them; none is nearer to one before it than to
/// the node; and of those left out each comes after `cap` that were kept, or after one that was
/// kept and is nearer to it than the node is.
pub open spec fn is_selection(
    store: FlatView,
    key: spec_fn(int) -> u32,
    all: Seq<u32>,
    cap: int,
    r: Seq<u32>,
) -> bool {
    &&& r.len() <= cap
    &&& forall|i: int| 0 <= i < r.len() ==> all.contains(#[trigger] r[i])
    &&& forall|i: int, j: int|
        0 <= i < j < r.len() ==> !precedes(key, #[trigger] r[j] as int, #[trigger] r[i] as int)
    &&& all.len() > 0 && cap > 0 ==> r.len() > 0 && forall|x: u32| #[trigger]
        all.contains(x) ==> !precedes(key, x as int, r[0] as int)
    &&& forall|i: int, j: int|
        0 <= i < j < r.len() ==> ge(
            nearness(store, #[trigger] r[j])(#[trigger] r[i] as int),
            key(r[j] as int),
        )
    &&& forall|x: u32| #[trigger]
        all.contains(x) && !r.contains(x) ==> {
            ||| r.len() == cap && forall|i: int|
                0 <= i < r.len() ==> precedes(key, #[trigger] r[i] as int, x as int)
            ||| exists|i: int|
                0 <= i < r.len() && precedes(key, #[trigger] r[i] as int, x as int) && !ge(
                    nearness(store, x)(r[i] as int),
                    key(x as int),
                )
        }
}

/// The candidates of nodes by how near they are.
pub open spec fn are_of(key: spec_fn(int) -> u32, s: Seq<u128>) -> bool {
    forall|i: int|
        0 <= i < s.len() ==> #[trigger] s[i] == rank(key(id_in(s[i]) as int), id_in(s[i]))
            && id_in(s[i]) <= u32::MAX
}

/// The order of candidates is that of their nodes.
proof fn order_of(key: spec_fn(int) -> u32, a: u128, b: u128)
    requires
        a == rank(key(id_in(a) as int), id_in(a)),
        b == rank(key(id_in(b) as int), id_in(b)),
    ensures
        a < b <==> precedes(key, id_in(a) as int, id_in(b) as int),
        key_in(a) == key(id_in(a) as int),
        a == b <==> id_in(a) == id_in(b),
{
    rank_order(key(id_in(a) as int), id_in(a), key(id_in(b) as int), id_in(b));
    rank_is_exact(key(id_in(a) as int), id_in(a));
}

/// Selecting from candidates in order, each with its key, is such a selection.
#[verifier::rlimit(40)]
pub proof fn selected_is_selection(
    store: FlatView,
    key: spec_fn(int) -> u32,
    s: Seq<u128>,
    cap: int,
)
    requires
        ascending(s),
        are_of(key, s),
        cap >= 0,
    ensures
        is_selection(store, key, ids(s), cap, selected(store, s, cap)),
{
    let n = s.len() as int;
    let k = kept(store, s, cap, n);
    let r = selected(store, s, cap);
    let all = ids(s);
    kept_is_diverse(store, s, cap, n);
    assert(s.take(n) =~= s);
    assert forall|i: int| 0 <= i < k.len() implies s.contains(#[trigger] k[i]) && k[i] == rank(
        key(id_in(k[i]) as int),
        id_in(k[i]),
    ) && id_in(k[i]) == r[i] && all.contains(r[i]) by {
        assert(s.take(n).contains(k[i]));
        let j = choose|j: int| 0 <= j < s.len() && s[j] == k[i];
        assert(all[j] == r[i]);
    }
    assert forall|i: int, j: int| 0 <= i < j < r.len() implies !precedes(
        key,
        #[trigger] r[j] as int,
        #[trigger] r[i] as int,
    ) && ge(nearness(store, r[j])(r[i] as int), key(r[j] as int)) by {
        assert(s.contains(k[i]) && s.contains(k[j]));
        assert(k[i] <= k[j]);
        order_of(key, k[j], k[i]);
        assert(ge(apart(store, id_in(k[j]), id_in(k[i])), key_in(k[j])));
    }
    if all.len() > 0 && cap > 0 {
        assert forall|x: u32| #[trigger] all.contains(x) implies !precedes(
            key,
            x as int,
            r[0] as int,
        ) by {
            let j = choose|j: int| 0 <= j < all.len() && all[j] == x;
            assert(k[0] == s[0]);
            assert(s[0] <= s[j]);
            assert(s[j] == rank(key(id_in(s[j]) as int), id_in(s[j])));
            assert(s[0] == rank(key(id_in(s[0]) as int), id_in(s[0])));
            order_of(key, s[j], s[0]);
        }
    }
    assert forall|x: u32| #[trigger] all.contains(x) && !r.contains(x) implies {
        ||| r.len() == cap && forall|i: int|
            0 <= i < r.len() ==> precedes(key, #[trigger] r[i] as int, x as int)
        ||| exists|i: int|
            0 <= i < r.len() && precedes(key, #[trigger] r[i] as int, x as int) && !ge(
                nearness(store, x)(r[i] as int),
                key(x as int),
            )
    } by {
        let j = choose|j: int| 0 <= j < all.len() && all[j] == x;
        assert(s[j] == rank(key(id_in(s[j]) as int), id_in(s[j])));
        if k.contains(s[j]) {
            let i = choose|i: int| 0 <= i < k.len() && k[i] == s[j];
            assert(r[i] == x);
        }
        passed_over_for_a_reason(store, s, cap, j);
        assert forall|i: int| 0 <= i < r.len() && k[i] <= s[j] implies precedes(
            key,
            #[trigger] r[i] as int,
            x as int,
        ) by {
            assert(s.contains(k[i]));
            assert(k.contains(k[i]));
            order_of(key, k[i], s[j]);
        }
        if !(k.len() == cap && forall|i: int| 0 <= i < k.len() ==> #[trigger] k[i] <= s[j]) {
            let i = choose|i: int|
                0 <= i < k.len() && k[i] <= s[j] && !ge(
                    apart(store, id_in(s[j]), id_in(#[trigger] k[i])),
                    key_in(s[j]),
                );
            order_of(key, s[j], s[j]);
            assert(precedes(key, r[i] as int, x as int));
            assert(s.contains(k[i]));
        } else {
            assert forall|i: int| 0 <= i < r.len() implies precedes(
                key,
                #[trigger] r[i] as int,
                x as int,
            ) by {
                assert(k[i] <= s[j]);
            }
        }
    }
}

/// Selecting neighbors from candidates, in whatever order they are, is such a selection.
pub proof fn neighbors_are_a_selection(
    store: FlatView,
    key: spec_fn(int) -> u32,
    candidates: Seq<u128>,
    m: int,
)
    requires
        are_of(key, candidates),
        m >= 0,
    ensures
        is_selection(
            store,
            key,
            ids(sorted(candidates)),
            m,
            selected(store, sorted(candidates), m),
        ),
        forall|x: u32| ids(sorted(candidates)).contains(x) <==> #[trigger] ids(
            candidates,
        ).contains(x),
{
    let s = sorted(candidates);
    sorted_is_ascending(candidates);
    assert forall|i: int| 0 <= i < s.len() implies #[trigger] s[i] == rank(
        key(id_in(s[i]) as int),
        id_in(s[i]),
    ) && id_in(s[i]) <= u32::MAX by {
        assert(s.contains(s[i]));
        let j = choose|j: int| 0 <= j < candidates.len() && candidates[j] == s[i];
        assert(candidates[j] == rank(key(id_in(candidates[j]) as int), id_in(candidates[j])));
    }
    assert forall|x: u32| ids(s).contains(x) <==> #[trigger] ids(candidates).contains(x) by {
        if ids(s).contains(x) {
            let i = choose|i: int| 0 <= i < s.len() && ids(s)[i] == x;
            assert(s.contains(s[i]));
            let j = choose|j: int| 0 <= j < candidates.len() && candidates[j] == s[i];
            assert(ids(candidates)[j] == x);
        }
        if ids(candidates).contains(x) {
            let i = choose|i: int| 0 <= i < candidates.len() && ids(candidates)[i] == x;
            assert(candidates.contains(candidates[i]));
            assert(s.contains(candidates[i]));
            let j = choose|j: int| 0 <= j < s.len() && s[j] == candidates[i];
            assert(ids(s)[j] == x);
        }
    }
    selected_is_selection(store, key, s, m);
}

/// A node that is connected to one more neighbor has all that it had and the new one, in their
/// order, as long as these are no more than its share. If they are more, it has a selection from
/// all of them.
pub proof fn connecting_selects_from_all(
    store: FlatView,
    node: u32,
    list: Seq<u32>,
    neighbor: u32,
    cap: int,
)
    requires
        cap >= 0,
    ensures
        list.len() < cap ==> connected(store, node, list, neighbor, cap) == list.push(neighbor),
        list.len() >= cap ==> is_selection(
            store,
            nearness(store, node),
            list.push(neighbor),
            cap,
            connected(store, node, list, neighbor, cap),
        ),
{
    let all = list.push(neighbor);
    let r = connected(store, node, list, neighbor, cap);
    if list.len() >= cap {
        let key = nearness(store, node);
        let nk = node_key(store, row(store.data, store.dim, node as int));
        let c = ranks(nk, all);
        assert forall|i: int| 0 <= i < c.len() implies #[trigger] c[i] == rank(
            key(id_in(c[i]) as int),
            id_in(c[i]),
        ) && id_in(c[i]) <= u32::MAX && id_in(c[i]) == all[i] by {
            rank_is_exact(nk(all[i]), all[i] as u64);
        }
        neighbors_are_a_selection(store, key, c, cap);
        assert(ids(c) =~= all);
        let s = ids(sorted(c));
        assert forall|x: u32| s.contains(x) <==> #[trigger] all.contains(x) by {
            assert(ids(c).contains(x) <==> s.contains(x));
        }
        assert(is_selection(store, key, s, cap, r));
        assert forall|i: int| 0 <= i < r.len() implies all.contains(#[trigger] r[i]) by {
            assert(s.contains(r[i]));
        }
        assert(s.len() > 0) by {
            assert(all[all.len() - 1] == neighbor);
            assert(all.contains(neighbor));
            assert(s.contains(neighbor));
        }
    }
}

} // verus!
