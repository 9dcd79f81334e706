//! What adding vectors to a graph index brings about, whichever way they are added.

use vstd::prelude::*;
use crate::binary32::nan;
use crate::graph::node_key;
use crate::growth::{connections_bring_no_others, lists_with_room_keep_all, Ground};
use crate::hnsw::{added, are_drawn, bare, growing_fits, level_sample, HnswView};
use crate::joining::{is_joined_at, is_same_at, is_search, linking_joins, started_from};
use crate::pruning::nearness;
use crate::rng::{draw, draws_go_on, state_after};
use crate::rows::{row, row_count, row_fits, rows_counted};
use crate::wiring::{landing, list_fits, node_fits, share};

verus! {

/// Parts one after the other.
pub open spec fn together(parts: Seq<Seq<u32>>) -> Seq<u32>
    decreases parts.len(),
{
    if parts.len() == 0 {
        Seq::empty()
    } else {
        together(parts.drop_last()) + parts.last()
    }
}

/// `f` may become of an index `o` to which vectors are added in parts, each of whole vectors.
pub open spec fn added_in_turn<L: Fn(u64, u64) -> u16>(
    o: HnswView,
    parts: Seq<Seq<u32>>,
    level_of: L,
    f: HnswView,
) -> bool
    decreases parts.len(),
{
    if parts.len() == 0 {
        f == o
    } else {
        parts.last().len() as int % o.store.dim == 0 && exists|p: HnswView|
            added_in_turn(o, parts.drop_last(), level_of, p) && #[trigger] added(
                p,
                parts.last(),
                level_of,
                f,
            )
    }
}

/// A level function has one result for each draw.
pub open spec fn is_definite<L: Fn(u64, u64) -> u16>(level_of: L) -> bool {
    forall|sample: u64, ml: u64, x: u16, y: u16|
        #[trigger] call_ensures(level_of, (sample, ml), x) && #[trigger] call_ensures(
            level_of,
            (sample, ml),
            y,
        ) ==> x == y
}

/// Draws can be made in two parts.
pub proof fn draws_in_parts(state: u64, a: nat, b: nat)
    ensures
        state_after(state_after(state, a), b) == state_after(state, a + b),
{
    draws_go_on(state, a, b);
}

/// What adding in turn does to all but the links.
#[verifier::rlimit(40)]
proof fn adding_appends<L: Fn(u64, u64) -> u16>(
    o: HnswView,
    parts: Seq<Seq<u32>>,
    level_of: L,
    f: HnswView,
)
    requires
        o.fits(),
        added_in_turn(o, parts, level_of, f),
    ensures
        f.fits(),
        f.params == o.params,
        f.ml == o.ml,
        f.store.metric == o.store.metric,
        f.store.dim == o.store.dim,
        f.store.data == o.store.data + together(parts),
        f.len() >= o.len(),
        f.levels == o.levels + f.levels.skip(o.len()),
        are_drawn(f.levels.skip(o.len()), level_of, o.rng_state, o.ml),
        f.rng_state == state_after(o.rng_state, (f.len() - o.len()) as nat),
    decreases parts.len(),
{
    if parts.len() == 0 {
        assert(o.store.data + together(parts) =~= o.store.data);
        assert(o.levels =~= o.levels + o.levels.skip(o.len()));
    } else {
        let v = parts.last();
        let p = choose|p: HnswView|
            added_in_turn(o, parts.drop_last(), level_of, p) && #[trigger] added(p, v, level_of, f);
        adding_appends(o, parts.drop_last(), level_of, p);
        row_count(v.len() as int, o.store.dim);
        let count = v.len() as int / p.store.dim;
        let before = (p.len() - o.len()) as nat;
        if count == 0 {
            assert(v.len() == 0) by (nonlinear_arith)
                requires
                    count * o.store.dim == v.len(),
                    count == 0,
            ;
            assert(f.store.data =~= o.store.data + together(parts));
        } else {
            let new = f.levels.skip(p.len());
            let all = f.levels.skip(o.len());
            let old = p.levels.skip(o.len());
            assert(f.store == p.grown(v, new).store);
            assert(f.store.data =~= o.store.data + together(parts));
            assert(all =~= old + new);
            assert(f.levels =~= o.levels + all);
            draws_in_parts(o.rng_state, before, count as nat);
            assert forall|i: nat| i < all.len() implies all[i as int] <= u16::MAX && call_ensures(
                level_of,
                (#[trigger] level_sample(o.rng_state, i), o.ml),
                all[i as int] as u16,
            ) by {
                if i < before {
                    assert(old[i as int] == all[i as int]);
                } else {
                    let j = (i - before) as nat;
                    draws_in_parts(o.rng_state, before, j + 1);
                    assert(draw(p.rng_state, j) == draw(o.rng_state, i));
                    assert(level_sample(p.rng_state, j) == level_sample(o.rng_state, i));
                    assert(new[j as int] == all[i as int]);
                }
            }
        }
    }
}

/// Whichever threads link the nodes, a neighbor of a node after vectors were added is one that it
/// had before, or one of the two is new and selected the other from what it found in the layer.
pub proof fn neighbors_are_old_or_selected<L: Fn(u64, u64) -> u16>(
    o: HnswView,
    vectors: Seq<u32>,
    level_of: L,
    f: HnswView,
    i: int,
    l: int,
    x: u32,
)
    requires
        o.fits(),
        added(o, vectors, level_of, f),
        0 <= i < f.len(),
        0 <= l < f.links[i].len(),
        f.links[i][l].contains(x),
    ensures
        ({
            let ground = o.ground(o.grown(vectors, f.levels.skip(o.len())));
            ||| i < o.len() && o.links[i][l].contains(x)
            ||| ground.allows(i, l, x)
        }),
{
    let count = vectors.len() as int / o.store.dim;
    if count > 0 {
        let new = f.levels.skip(o.len());
        let g = o.grown(vectors, new);
        let ground = o.ground(g);
        let list = f.links[i][l];
        growing_fits(o.levels, new, o.params.m as int, o.links);
        let history = choose|history: Seq<Seq<Seq<u32>>>| #[trigger]
            ground.made(history, f.links) && forall|i: int|
                ground.first <= i < ground.levels.len() ==> #[trigger] ground.was_linked(
                    history,
                    i as u32,
                );
        let more = history[i][l];
        assert(ground.made_node(i, history[i], f.links[i]));
        assert(ground.makes(i, l, more, list));
        assert(node_fits(g.levels, ground.m, i, g.links[i]));
        assert(list_fits(g.levels, ground.m, i, l, g.links[i][l]));
        connections_bring_no_others(
            ground.store,
            i as u32,
            g.links[i][l],
            more,
            share(ground.m, l),
        );
        if more.contains(x) {
            let j = choose|j: int| 0 <= j < more.len() && more[j] == x;
            assert(ground.allows(i, l, more[j]));
        } else {
            assert(g.links[i][l].contains(x));
            if i >= o.len() {
                assert(g.links[i] == bare(new[i - o.len()]));
            }
        }
    }
}

/// The list of a node in a layer has room for all its connections.
pub open spec fn has_room(
    ground: Ground,
    history: Seq<Seq<Seq<u32>>>,
    node: int,
    layer: int,
) -> bool {
    ground.before[node][layer].len() + history[node][layer].len() <= share(ground.m, layer)
}

/// Whichever threads link the nodes, where there is room for all the connections of a node that a
/// new one selects, it has the new one as a neighbor. There is a way that the connections were
/// made for which this holds of all new nodes, of all that they selected.
pub proof fn selected_nodes_link_back<L: Fn(u64, u64) -> u16>(
    o: HnswView,
    vectors: Seq<u32>,
    level_of: L,
    f: HnswView,
) -> (history: Seq<Seq<Seq<u32>>>)
    requires
        o.fits(),
        added(o, vectors, level_of, f),
        vectors.len() as int / o.store.dim > 0,
    ensures
        ({
            let g = o.grown(vectors, f.levels.skip(o.len()));
            let ground = o.ground(g);
            &&& ground.made(history, f.links)
            &&& forall|i: int|
                ground.first <= i < f.len() ==> #[trigger] ground.was_linked(history, i as u32)
            &&& forall|x: int, l: int, id: u32|
                0 <= x < f.len() && 0 <= l < f.links[x].len() && has_room(ground, history, x, l)
                    && #[trigger] history[x][l].contains(id) ==> f.links[x][l].contains(id)
        }),
{
    let g = o.grown(vectors, f.levels.skip(o.len()));
    let ground = o.ground(g);
    let history = choose|history: Seq<Seq<Seq<u32>>>| #[trigger]
        ground.made(history, f.links) && forall|i: int|
            ground.first <= i < ground.levels.len() ==> #[trigger] ground.was_linked(
                history,
                i as u32,
            );
    assert forall|x: int, l: int, id: u32|
        0 <= x < f.len() && 0 <= l < f.links[x].len() && has_room(ground, history, x, l)
            && #[trigger] history[x][l].contains(id) implies f.links[x][l].contains(id) by {
        let (list, more) = (g.links[x][l], history[x][l]);
        assert(ground.made_node(x, history[x], f.links[x]));
        assert(ground.makes(x, l, more, f.links[x][l]));
        lists_with_room_keep_all(ground.store, x as u32, list, more, share(ground.m, l));
        let j = choose|j: int| 0 <= j < more.len() && more[j] == id;
        assert((list + more)[list.len() + j] == id);
    }
    history
}

/// Vectors, levels and the highest level do not depend on how vectors are cut into parts that
/// are added in turn, nor on which threads link the nodes. Links may differ.
pub proof fn levels_do_not_depend_on_parts<L: Fn(u64, u64) -> u16>(
    o: HnswView,
    parts: Seq<Seq<u32>>,
    others: Seq<Seq<u32>>,
    level_of: L,
    f: HnswView,
    g: HnswView,
)
    requires
        o.fits(),
        is_definite(level_of),
        together(parts) == together(others),
        added_in_turn(o, parts, level_of, f),
        added_in_turn(o, others, level_of, g),
    ensures
        f.len() == g.len(),
        f.store == g.store,
        f.levels == g.levels,
        f.max_level == g.max_level,
        f.rng_state == g.rng_state,
        f.params == g.params,
        f.ml == g.ml,
{
    adding_appends(o, parts, level_of, f);
    adding_appends(o, others, level_of, g);
    assert(f.store == g.store);
    let a = f.levels.skip(o.len());
    let b = g.levels.skip(o.len());
    assert(a.len() == b.len());
    assert forall|i: int| 0 <= i < a.len() implies a[i] == b[i] by {
        let s = level_sample(o.rng_state, i as nat);
        assert(a[i] <= u16::MAX && call_ensures(level_of, (s, o.ml), a[i] as u16));
        assert(b[i] <= u16::MAX && call_ensures(level_of, (s, o.ml), b[i] as u16));
    }
    assert(a =~= b);
    if f.entry is Some {
        assert(f.levels[f.entry->0 as int] <= g.max_level);
        assert(g.levels[g.entry->0 as int] <= f.max_level);
    }
}

/// Each new node has a draw of its own: node `i` of those that are added has the level that
/// `level_of` makes of the upper 53 bits of draw `i`. The vectors, whatever else happens, are
/// those before and then the new ones.
pub proof fn levels_are_drawn_in_turn<L: Fn(u64, u64) -> u16>(
    o: HnswView,
    vectors: Seq<u32>,
    level_of: L,
    f: HnswView,
    i: int,
)
    requires
        o.fits(),
        added(o, vectors, level_of, f),
        0 <= i < vectors.len() as int / o.store.dim,
    ensures
        f.levels.len() == o.levels.len() + vectors.len() as int / o.store.dim,
        call_ensures(
            level_of,
            (draw(o.rng_state, i as nat) >> 11, o.ml),
            f.levels[o.levels.len() + i] as u16,
        ),
        f.levels[o.levels.len() + i] <= u16::MAX,
        forall|j: int| 0 <= j < o.levels.len() ==> #[trigger] f.levels[j] == o.levels[j],
        f.store.data == o.store.data + vectors,
        f.rng_state == state_after(o.rng_state, (vectors.len() as int / o.store.dim) as nat),
        f.params == o.params,
        f.store.dim == o.store.dim,
        f.store.metric == o.store.metric,
{
    let new = f.levels.skip(o.len());
    assert(new[i] == f.levels[o.levels.len() + i]);
    let s = level_sample(o.rng_state, i as nat);
    assert(new[i] <= u16::MAX && call_ensures(level_of, (s, o.ml), new[i] as u16));
    assert forall|j: int| 0 <= j < o.levels.len() implies #[trigger] f.levels[j] == o.levels[j] by {
        assert((o.levels + new)[j] == o.levels[j]);
    }
}

/// Adding one vector to an index that has some: the node searches each layer that it and the
/// entry point reach, thoroughly and with room for as many candidates as the parameters say, and
/// has a selection from what it found; each that it selected is connected to it, and all other
/// lists are as they were. If it is higher than all others, it is the entry point from then on.
#[verifier::rlimit(40)]
pub proof fn adding_one_joins_it<L: Fn(u64, u64) -> u16>(
    o: HnswView,
    vector: Seq<u32>,
    level_of: L,
    f: HnswView,
) -> (best: Seq<Seq<u128>>)
    requires
        o.fits(),
        o.entry is Some,
        vector.len() == o.store.dim,
        added(o, vector, level_of, f),
        forall|i: int|
            0 <= i < f.levels.len() ==> !nan(
                #[trigger] nearness(f.store, (f.levels.len() - 1) as u32)(i),
            ),
    ensures
        ({
            let id = o.levels.len() as u32;
            let level = f.levels[o.levels.len() as int] as int;
            let top = if level <= o.max_level {
                level
            } else {
                o.max_level as int
            };
            let m = o.params.m as int;
            let before = o.links.push(Seq::new((level + 1) as nat, |l: int| Seq::empty()));
            let cur = landing(
                node_key(f.store, vector),
                Some(id),
                before,
                o.max_level as int,
                level + 1,
                o.entry->0,
            );
            &&& f.levels.len() == o.levels.len() + 1
            &&& best.len() == top + 1
            &&& forall|l: int|
                0 <= l <= top ==> is_joined_at(f.store, m, before, f.links, id, l, #[trigger] best[l])
            &&& forall|l: int|
                0 <= l <= top ==> is_search(
                    f.store,
                    before,
                    id,
                    l,
                    o.params.ef_construction as int,
                    started_from(best, cur, seq![cur], l),
                    #[trigger] best[l],
                )
            &&& forall|l: int| l > top ==> #[trigger] is_same_at(before, f.links, l)
            &&& f.entry == if level > o.max_level {
                Some(id)
            } else {
                o.entry
            }
            &&& f.max_level == if level > o.max_level {
                level
            } else {
                o.max_level as int
            }
        }),
{
    let dim = o.store.dim;
    rows_counted(1, dim);
    assert(1 * dim == dim);
    let new = f.levels.skip(o.len());
    let g = o.grown(vector, new);
    let id = o.len() as u32;
    let level = new[0] as int;
    assert(f.levels[o.levels.len() as int] == new[0]);
    let before = o.links.push(Seq::new((level + 1) as nat, |l: int| Seq::empty()));
    growing_fits(o.levels, new, o.params.m as int, o.links);
    assert(g.links =~= before) by {
        assert(g.links.len() == before.len());
        assert(g.links[o.len()] =~= before[o.len()]);
    }
    assert(row(f.store.data, f.store.dim, id as int) =~= vector) by {
        row_fits(o.len(), o.len() + 1, dim);
    }
    assert(node_fits(o.levels, o.params.m as int, o.entry->0 as int, o.links[o.entry->0 as int]));
    linking_joins(
        f.store,
        f.levels,
        o.params.m as int,
        o.params.ef_construction as int,
        before,
        id,
        o.entry->0,
        o.max_level as int,
    )
}

/// Adding no vector changes nothing; the first vector of all becomes the entry point, without
/// neighbors.
pub proof fn adding_none_or_the_first<L: Fn(u64, u64) -> u16>(
    o: HnswView,
    vectors: Seq<u32>,
    level_of: L,
    f: HnswView,
)
    requires
        o.fits(),
        added(o, vectors, level_of, f),
    ensures
        vectors.len() == 0 ==> f == o,
        o.entry is None && vectors.len() == o.store.dim ==> {
            &&& f.entry == Some(0u32)
            &&& f.levels.len() == 1
            &&& f.max_level == f.levels[0]
            &&& f.links.len() == 1
            &&& forall|l: int|
                0 <= l < f.links[0].len() ==> (#[trigger] f.links[0][l]).len() == 0
            &&& f.links[0].len() == f.levels[0] + 1
        },
{
    let dim = o.store.dim;
    rows_counted(0, dim);
    assert(0 * dim == 0);
    rows_counted(1, dim);
    assert(1 * dim == dim);
    if o.entry is None && vectors.len() == dim {
        let new = f.levels.skip(o.len());
        let g = o.grown(vectors, new);
        assert(f == g);
        assert(f.links[0] == bare(new[0]));
        assert(f.levels[0] == new[0]);
    }
}

} // verus!
