//! Graph indexes as bytes, and back.

use vstd::prelude::*;
use crate::flat::FlatView;
use crate::format::{
    count, count_list_delimits, le, le_delimits, le_ranges, list, maybe_word, maybe_word_delimits,
    nested_list_delimits, peel, short_lists, starts, starts_means, word, word_list_delimits,
    word_lists, LoadError,
};
use crate::graph::{layers_of, links_of};
use crate::hnsw::{Hnsw, HnswParams, HnswView};
use crate::metric::Metric;
use crate::wiring::{list_fits, node_fits, share};

verus! {

/// The parts of a graph index.
#[verifier::ext_equal]
pub struct HnswParts {
    pub dim: int,
    pub metric: u32,
    pub params: HnswParams,
    pub m_max0: int,
    pub m_max: int,
    pub ml: u64,
    pub data: Seq<u32>,
    pub links: Seq<Seq<Seq<u32>>>,
    pub levels: Seq<usize>,
    pub entry: Option<u32>,
    pub max_level: int,
    pub rng_state: u64,
    pub n: int,
}

impl HnswParts {
    /// Every part is one that memory can hold.
    pub open spec fn in_range(self) -> bool {
        &&& 0 <= self.dim <= usize::MAX
        &&& 0 <= self.m_max0 <= usize::MAX
        &&& 0 <= self.m_max <= usize::MAX
        &&& self.data.len() <= usize::MAX
        &&& self.links.len() <= usize::MAX
        &&& forall|i: int| 0 <= i < self.links.len() ==> short_lists()(#[trigger] self.links[i])
        &&& self.levels.len() <= usize::MAX
        &&& 0 <= self.max_level <= usize::MAX
        &&& 0 <= self.n <= usize::MAX
    }

    /// The last parts as bytes.
    pub open spec fn tail(self) -> Seq<u8> {
        maybe_word(self.entry) + (le(self.max_level, 8) + (le(self.rng_state as int, 8) + le(
            self.n,
            8,
        )))
    }

    /// The lists as bytes, and what follows them.
    pub open spec fn body(self) -> Seq<u8> {
        list(word(), self.data) + (list(word_lists(), self.links) + (list(count(), self.levels)
            + self.tail()))
    }

    /// The derived parts as bytes, and what follows them.
    pub open spec fn middle(self) -> Seq<u8> {
        le(self.m_max0, 8) + (le(self.m_max, 8) + (le(self.ml as int, 8) + self.body()))
    }

    /// The parts as bytes.
    pub open spec fn bytes(self) -> Seq<u8> {
        le(self.dim, 8) + (le(self.metric as int, 4) + (le(self.params.m as int, 8) + (le(
            self.params.ef_construction as int,
            8,
        ) + (le(self.params.ef_search as int, 8) + (le(self.params.seed as int, 8)
            + self.middle())))))
    }
}

proof fn hnsw_tail_is_exact(p: HnswParts, q: HnswParts, r1: Seq<u8>, r2: Seq<u8>)
    requires
        p.in_range(),
        q.in_range(),
        p.tail() + r1 == q.tail() + r2,
    ensures
        p.entry == q.entry,
        p.max_level == q.max_level,
        p.rng_state == q.rng_state,
        p.n == q.n,
{
    le_ranges();
    let a1 = le(p.n, 8);
    let a2 = le(q.n, 8);
    let b1 = le(p.rng_state as int, 8) + a1;
    let b2 = le(q.rng_state as int, 8) + a2;
    let c1 = le(p.max_level, 8) + b1;
    let c2 = le(q.max_level, 8) + b2;
    peel(maybe_word(p.entry), c1, r1);
    peel(maybe_word(q.entry), c2, r2);
    maybe_word_delimits(p.entry, q.entry, c1 + r1, c2 + r2);
    peel(le(p.max_level, 8), b1, r1);
    peel(le(q.max_level, 8), b2, r2);
    le_delimits(p.max_level, q.max_level, 8, b1 + r1, b2 + r2);
    peel(le(p.rng_state as int, 8), a1, r1);
    peel(le(q.rng_state as int, 8), a2, r2);
    le_delimits(p.rng_state as int, q.rng_state as int, 8, a1 + r1, a2 + r2);
    le_delimits(p.n, q.n, 8, r1, r2);
}

proof fn hnsw_body_is_exact(p: HnswParts, q: HnswParts, r1: Seq<u8>, r2: Seq<u8>)
    requires
        p.in_range(),
        q.in_range(),
        p.body() + r1 == q.body() + r2,
    ensures
        p.data == q.data,
        p.links == q.links,
        p.levels == q.levels,
        p.tail() + r1 == q.tail() + r2,
{
    let a1 = list(count(), p.levels) + p.tail();
    let a2 = list(count(), q.levels) + q.tail();
    let b1 = list(word_lists(), p.links) + a1;
    let b2 = list(word_lists(), q.links) + a2;
    peel(list(word(), p.data), b1, r1);
    peel(list(word(), q.data), b2, r2);
    word_list_delimits(p.data, q.data, b1 + r1, b2 + r2);
    peel(list(word_lists(), p.links), a1, r1);
    peel(list(word_lists(), q.links), a2, r2);
    nested_list_delimits(p.links, q.links, a1 + r1, a2 + r2);
    peel(list(count(), p.levels), p.tail(), r1);
    peel(list(count(), q.levels), q.tail(), r2);
    count_list_delimits(p.levels, q.levels, p.tail() + r1, q.tail() + r2);
}

proof fn hnsw_middle_is_exact(p: HnswParts, q: HnswParts, r1: Seq<u8>, r2: Seq<u8>)
    requires
        p.in_range(),
        q.in_range(),
        p.middle() + r1 == q.middle() + r2,
    ensures
        p.m_max0 == q.m_max0,
        p.m_max == q.m_max,
        p.ml == q.ml,
        p.body() + r1 == q.body() + r2,
{
    le_ranges();
    let a1 = le(p.ml as int, 8) + p.body();
    let a2 = le(q.ml as int, 8) + q.body();
    let b1 = le(p.m_max, 8) + a1;
    let b2 = le(q.m_max, 8) + a2;
    peel(le(p.m_max0, 8), b1, r1);
    peel(le(q.m_max0, 8), b2, r2);
    le_delimits(p.m_max0, q.m_max0, 8, b1 + r1, b2 + r2);
    peel(le(p.m_max, 8), a1, r1);
    peel(le(q.m_max, 8), a2, r2);
    le_delimits(p.m_max, q.m_max, 8, a1 + r1, a2 + r2);
    peel(le(p.ml as int, 8), p.body(), r1);
    peel(le(q.ml as int, 8), q.body(), r2);
    le_delimits(p.ml as int, q.ml as int, 8, p.body() + r1, q.body() + r2);
}

/// Bytes start with the parts of one graph index only.
pub proof fn hnsw_parts_are_exact(bytes: Seq<u8>, p: HnswParts, q: HnswParts)
    requires
        p.in_range(),
        q.in_range(),
        starts(bytes, p.bytes()),
        starts(bytes, q.bytes()),
    ensures
        p == q,
{
    le_ranges();
    starts_means(bytes, p.bytes());
    starts_means(bytes, q.bytes());
    let r1 = bytes.skip(p.bytes().len() as int);
    let r2 = bytes.skip(q.bytes().len() as int);
    let a1 = le(p.params.seed as int, 8) + p.middle();
    let a2 = le(q.params.seed as int, 8) + q.middle();
    let b1 = le(p.params.ef_search as int, 8) + a1;
    let b2 = le(q.params.ef_search as int, 8) + a2;
    let c1 = le(p.params.ef_construction as int, 8) + b1;
    let c2 = le(q.params.ef_construction as int, 8) + b2;
    let d1 = le(p.params.m as int, 8) + c1;
    let d2 = le(q.params.m as int, 8) + c2;
    let e1 = le(p.metric as int, 4) + d1;
    let e2 = le(q.metric as int, 4) + d2;
    peel(le(p.dim, 8), e1, r1);
    peel(le(q.dim, 8), e2, r2);
    le_delimits(p.dim, q.dim, 8, e1 + r1, e2 + r2);
    peel(le(p.metric as int, 4), d1, r1);
    peel(le(q.metric as int, 4), d2, r2);
    le_delimits(p.metric as int, q.metric as int, 4, d1 + r1, d2 + r2);
    peel(le(p.params.m as int, 8), c1, r1);
    peel(le(q.params.m as int, 8), c2, r2);
    le_delimits(p.params.m as int, q.params.m as int, 8, c1 + r1, c2 + r2);
    peel(le(p.params.ef_construction as int, 8), b1, r1);
    peel(le(q.params.ef_construction as int, 8), b2, r2);
    le_delimits(
        p.params.ef_construction as int,
        q.params.ef_construction as int,
        8,
        b1 + r1,
        b2 + r2,
    );
    peel(le(p.params.ef_search as int, 8), a1, r1);
    peel(le(q.params.ef_search as int, 8), a2, r2);
    le_delimits(p.params.ef_search as int, q.params.ef_search as int, 8, a1 + r1, a2 + r2);
    peel(le(p.params.seed as int, 8), p.middle(), r1);
    peel(le(q.params.seed as int, 8), q.middle(), r2);
    le_delimits(
        p.params.seed as int,
        q.params.seed as int,
        8,
        p.middle() + r1,
        q.middle() + r2,
    );
    hnsw_middle_is_exact(p, q, r1, r2);
    hnsw_body_is_exact(p, q, r1, r2);
    hnsw_tail_is_exact(p, q, r1, r2);
    assert(p =~= q);
}

impl HnswView {
    /// The parts of the index.
    pub open spec fn parts(self) -> HnswParts {
        HnswParts {
            dim: self.store.dim,
            metric: self.store.metric.spec_code(),
            params: self.params,
            m_max0: 2 * self.params.m,
            m_max: self.params.m as int,
            ml: self.ml,
            data: self.store.data,
            links: self.links,
            levels: self.levels,
            entry: self.entry,
            max_level: self.max_level as int,
            rng_state: self.rng_state,
            n: self.len(),
        }
    }

    /// A graph index as bytes.
    pub open spec fn bytes(self) -> Seq<u8> {
        self.parts().bytes()
    }

    /// The graph index that bytes start with.
    pub open spec fn loaded(bytes: Seq<u8>) -> Result<HnswView, LoadError> {
        if exists|v: HnswView| v.fits() && starts(bytes, #[trigger] v.bytes()) {
            Ok(choose|v: HnswView| v.fits() && starts(bytes, #[trigger] v.bytes()))
        } else if exists|p: HnswParts|
            p.metric < 2 && p.in_range() && starts(bytes, #[trigger] p.bytes()) {
            Err(LoadError::Inconsistent)
        } else {
            Err(LoadError::Malformed)
        }
    }
}

/// The parts of an index are in range.
proof fn hnsw_is_in_range(v: HnswView)
    requires
        v.fits(),
    ensures
        v.parts().in_range(),
{
    let (n, d, len) = (v.len(), v.store.dim, v.store.data.len() as int);
    assert(0 <= n <= len) by (nonlinear_arith)
        requires
            n * d == len,
            d >= 1,
            len >= 0,
    ;
    assert forall|i: int| 0 <= i < v.links.len() implies short_lists()(#[trigger] v.links[i]) by {
        let m = v.params.m as int;
        assert(node_fits(v.levels, m, i, v.links[i]));
        assert(v.levels[i] <= v.max_level);
        assert forall|l: int| 0 <= l < v.links[i].len() implies (#[trigger] v.links[i][l]).len()
            <= usize::MAX by {
            assert(list_fits(v.levels, m, i, l, v.links[i][l]));
            assert(share(m, l) <= usize::MAX);
        }
    }
}

/// The parts of a graph index name it.
proof fn hnsw_parts_name(v: HnswView, w: HnswView)
    requires
        v.parts() == w.parts(),
    ensures
        v == w,
{
    assert(v.store.metric == w.store.metric);
    assert(v.store =~= w.store);
    assert(v =~= w);
}

/// The bytes of a graph index are those of no other.
pub proof fn hnsw_bytes_are_exact(bytes: Seq<u8>, v: HnswView, w: HnswView)
    requires
        v.fits(),
        w.fits(),
        starts(bytes, v.bytes()),
        starts(bytes, w.bytes()),
    ensures
        v == w,
{
    hnsw_is_in_range(v);
    hnsw_is_in_range(w);
    hnsw_parts_are_exact(bytes, v.parts(), w.parts());
    hnsw_parts_name(v, w);
}

/// What is loaded from the bytes of a graph index, whatever follows them, is that index.
pub proof fn hnsw_load_gives_back(v: HnswView, rest: Seq<u8>)
    requires
        v.fits(),
    ensures
        HnswView::loaded(v.bytes() + rest) == Ok::<HnswView, LoadError>(v),
{
    let bytes = v.bytes() + rest;
    assert(bytes.take(v.bytes().len() as int) =~= v.bytes());
    assert(starts(bytes, v.bytes()));
    let w = choose|w: HnswView| w.fits() && starts(bytes, #[trigger] w.bytes());
    hnsw_bytes_are_exact(bytes, v, w);
}

/// Bytes hold an index only if its parts are those that they start with.
proof fn hnsw_has_parts(bytes: Seq<u8>, p: HnswParts)
    requires
        p.in_range(),
        starts(bytes, p.bytes()),
    ensures
        forall|v: HnswView| v.fits() && starts(bytes, #[trigger] v.bytes()) ==> v.parts() == p,
        forall|q: HnswParts| q.in_range() && starts(bytes, #[trigger] q.bytes()) ==> q == p,
{
    assert forall|v: HnswView| v.fits() && starts(bytes, #[trigger] v.bytes()) implies v.parts()
        == p by {
        hnsw_is_in_range(v);
        hnsw_parts_are_exact(bytes, v.parts(), p);
    }
    assert forall|q: HnswParts| q.in_range() && starts(bytes, #[trigger] q.bytes()) implies q
        == p by {
        hnsw_parts_are_exact(bytes, q, p);
    }
}

/// The parts that are held as these values.
pub open spec fn hnsw_parts_of(
    head: (usize, u32),
    params: (usize, usize, usize, u64),
    derived: (usize, usize, u64),
    data: Seq<u32>,
    links: Seq<Vec<Vec<u32>>>,
    levels: Seq<usize>,
    tail: (Option<u32>, usize, u64, usize),
) -> HnswParts {
    HnswParts {
        dim: head.0 as int,
        metric: head.1,
        params: HnswParams {
            m: params.0,
            ef_construction: params.1,
            ef_search: params.2,
            seed: params.3,
        },
        m_max0: derived.0 as int,
        m_max: derived.1 as int,
        ml: derived.2,
        data,
        links: links_of(links),
        levels,
        entry: tail.0,
        max_level: tail.1 as int,
        rng_state: tail.2,
        n: tail.3 as int,
    }
}

/// Writes the parts of a graph index.
///
/// Trusted: `bincode::serialize` on these values writes integers in a fixed number of bytes,
/// the lowest first, counts in eight, a slice or vector as its length and its elements, and
/// an option as a byte, 0 or 1, and the value if there is one. Without a size limit, and into
/// memory, it does not fail.
#[verifier::external_body]
fn write_hnsw(
    head: (usize, u32),
    params: (usize, usize, usize, u64),
    derived: (usize, usize, u64),
    data: &[u32],
    links: &[Vec<Vec<u32>>],
    levels: &[usize],
    tail: (Option<u32>, usize, u64, usize),
) -> (r: Option<Vec<u8>>)
    ensures
        r is Some,
        r->0@ == hnsw_parts_of(head, params, derived, data@, links@, levels@, tail).bytes(),
{
    bincode::serialize(&(head, params, derived, data, links, levels, tail)).ok()
}

/// Reads the parts of a graph index.
///
/// Trusted: `bincode::deserialize` for these types reads what [`write_hnsw`] writes, and lets
/// other bytes follow. It fails if the bytes do not start with such parts.
#[verifier::external_body]
fn read_hnsw(bytes: &[u8]) -> (r: Option<
    (
        (usize, u32),
        (usize, usize, usize, u64),
        (usize, usize, u64),
        Vec<u32>,
        Vec<Vec<Vec<u32>>>,
        Vec<usize>,
        (Option<u32>, usize, u64, usize),
    ),
>)
    ensures
        r matches Some(p) ==> starts(
            bytes@,
            hnsw_parts_of(p.0, p.1, p.2, p.3@, p.4@, p.5@, p.6).bytes(),
        ),
        r is None ==> forall|p: HnswParts| p.in_range() ==> !starts(bytes@, #[trigger] p.bytes()),
{
    bincode::deserialize(bytes).ok()
}

/// Lists that are held in memory are short enough.
proof fn held_lists_are_short(links: Seq<Vec<Vec<u32>>>)
    ensures
        forall|i: int|
            0 <= i < links_of(links).len() ==> short_lists()(#[trigger] links_of(links)[i]),
{
    assert forall|i: int| 0 <= i < links_of(links).len() implies short_lists()(
        #[trigger] links_of(links)[i],
    ) by {
        let lists = links[i];
        let s = links_of(links)[i];
        assert(s == layers_of(lists@));
        assert(lists.len() == lists@.len());
        assert forall|j: int| 0 <= j < s.len() implies (#[trigger] s[j]).len() <= usize::MAX by {
            assert(lists@[j].len() == lists@[j]@.len());
        }
    }
}

impl Hnsw {
    /// The index as bytes.
    pub fn to_bytes(&self) -> (r: Vec<u8>)
        ensures
            r@ == self@.bytes(),
    {
        proof {
            use_type_invariant(self);
            self.wf_means();
        }
        let params: HnswParams = self.params();
        let r: Option<Vec<u8>> = write_hnsw(
            (self.dim(), self.metric().code()),
            (params.m, params.ef_construction, params.ef_search, params.seed),
            (params.m * 2, params.m, self.ml()),
            self.data(),
            self.links(),
            self.levels(),
            (self.entry_point(), self.max_level(), self.rng_state(), self.len()),
        );
        r.unwrap()
    }

    /// The index that bytes start with.
    pub fn from_bytes(bytes: &[u8]) -> (r: Result<Self, LoadError>)
        ensures
            (match r {
                Ok(x) => Ok::<HnswView, LoadError>(x@),
                Err(e) => Err::<HnswView, LoadError>(e),
            }) == HnswView::loaded(bytes@),
    {
        let (head, shape, derived, data, links, levels, tail) = match read_hnsw(bytes) {
            Some(p) => p,
            None => {
                proof {
                    assert forall|v: HnswView| v.fits() implies !starts(
                        bytes@,
                        #[trigger] v.bytes(),
                    ) by {
                        hnsw_is_in_range(v);
                        assert(!starts(bytes@, v.parts().bytes()));
                    }
                }
                return Err(LoadError::Malformed);
            },
        };
        let ghost p = hnsw_parts_of(head, shape, derived, data@, links@, levels@, tail);
        proof {
            held_lists_are_short(links@);
            assert(links.len() == links@.len());
            assert(data.len() == data@.len());
            assert(levels.len() == levels@.len());
            hnsw_has_parts(bytes@, p);
        }
        let metric: Metric = match Metric::from_code(head.1) {
            Some(metric) => metric,
            None => {
                return Err(LoadError::Malformed);
            },
        };
        let params: HnswParams = HnswParams {
            m: shape.0,
            ef_construction: shape.1,
            ef_search: shape.2,
            seed: shape.3,
        };
        let ghost v = HnswView {
            params,
            ml: derived.2,
            store: FlatView { dim: head.0 as int, metric, data: data@ },
            links: links_of(links@),
            levels: levels@,
            entry: tail.0,
            max_level: tail.1,
            rng_state: tail.2,
        };
        match Hnsw::from_parts(
            head.0,
            metric,
            params,
            derived.0,
            derived.1,
            derived.2,
            data,
            links,
            levels,
            tail.0,
            tail.1,
            tail.2,
            tail.3,
        ) {
            Some(x) => {
                proof {
                    assert(x@ == v);
                    assert(v.parts() =~= p);
                    assert(v.fits() && starts(bytes@, v.bytes()));
                    let w = choose|w: HnswView| w.fits() && starts(bytes@, #[trigger] w.bytes());
                    hnsw_bytes_are_exact(bytes@, v, w);
                }
                Ok(x)
            },
            None => {
                proof {
                    assert forall|w: HnswView| w.fits() implies !starts(
                        bytes@,
                        #[trigger] w.bytes(),
                    ) by {
                        if starts(bytes@, w.bytes()) {
                            assert(w.parts() == p);
                            assert(w.store.metric == metric);
                            assert(w.store =~= v.store);
                            assert(w.max_level == v.max_level);
                            assert(w =~= v);
                        }
                    }
                    assert(p.metric < 2 && p.in_range() && starts(bytes@, p.bytes()));
                }
                Err(LoadError::Inconsistent)
            },
        }
    }
}

} // verus!
