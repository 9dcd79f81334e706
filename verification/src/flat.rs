//! Exact ("flat") brute-force nearest-neighbor index.
//!
//! It scans every stored vector for each query, so its results are exact by construction:
//! see [`crate::topk::best_are_best`]. Vectors are stored one after the other, and batch
//! search is spread over threads query by query.

use vstd::prelude::*;
use crate::arith::Arithmetic;
use crate::distance::{key, key_four, key_of};
use crate::metric::Metric;
use crate::parallel::{run, PoolUnavailable};
use crate::rows::{
    capacity, count_output_rows, covers, is_passing, mask, output_rows, passes, row, row_at,
    row_count, row_fits, rows_counted,
};
use crate::topk::{best_of, report, report_rows, reports, reports_rows, TopK};

verus! {

/// What an exact index holds.
#[verifier::ext_equal]
pub struct FlatView {
    pub dim: int,
    pub metric: Metric,
    pub data: Seq<u32>,
}

impl FlatView {
    /// How many vectors there are.
    pub open spec fn len(self) -> int {
        self.data.len() as int / self.dim
    }

    /// What holds of every exact index: the vectors have a length, are complete, and fit in
    /// memory.
    pub open spec fn fits(self) -> bool {
        &&& 0 < self.dim <= usize::MAX
        &&& self.len() * self.dim == self.data.len()
        &&& self.data.len() <= capacity()
    }

    /// The key of each vector for a query.
    pub open spec fn keys(self, query: Seq<u32>) -> spec_fn(int) -> u32 {
        |i: int| key_of(self.metric, query, row(self.data, self.dim, i))
    }

    /// The `k` vectors nearest to a query among those that pass a filter, best first.
    pub open spec fn nearest(self, query: Seq<u32>, k: int, filter: Option<Seq<bool>>) -> Seq<u128> {
        best_of(self.keys(query), passes(filter), self.len(), k)
    }
}

/// Exact brute-force vector index.
pub struct FlatIndex {
    dim: usize,
    metric: Metric,
    n: usize,
    data: Vec<u32>,
}

impl View for FlatIndex {
    type V = FlatView;

    closed spec fn view(&self) -> FlatView {
        FlatView { dim: self.dim as int, metric: self.metric, data: self.data@ }
    }
}

impl FlatIndex {
    /// The vectors have a length, are complete, and fit in memory.
    #[verifier::type_invariant]
    pub closed spec fn wf(self) -> bool {
        &&& self.dim > 0
        &&& self.n * self.dim == self.data@.len()
        &&& self.data@.len() <= capacity()
    }

    /// What holds of every index.
    pub proof fn wf_means(self)
        requires
            self.wf(),
        ensures
            self@.fits(),
            0 <= self@.len() <= self@.data.len(),
    {
        rows_counted(self.n as int, self.dim as int);
    }

    /// Creates an empty index for vectors of length `dim`.
    pub fn new(dim: usize, metric: Metric) -> (r: Self)
        requires
            dim > 0,
        ensures
            r@ == (FlatView { dim: dim as int, metric, data: Seq::<u32>::empty() }),
    {
        let data: Vec<u32> = Vec::new();
        assert(0 * dim == 0) by (nonlinear_arith);
        FlatIndex { dim, metric, n: 0, data }
    }

    /// The index with a length, a metric, a number of vectors and the vectors themselves, if
    /// they belong together.
    pub fn from_parts(dim: usize, metric: Metric, n: usize, data: Vec<u32>) -> (r: Option<Self>)
        ensures
            r is Some <==> dim > 0 && n * dim == data@.len() && data@.len() <= capacity(),
            r matches Some(x) ==> x@ == (FlatView { dim: dim as int, metric, data: data@ }),
    {
        let len: usize = data.len();
        if dim == 0 || len > isize::MAX as usize / 4 || len % dim != 0 || len / dim != n {
            proof {
                if dim > 0 {
                    if n * dim == data@.len() {
                        rows_counted(n as int, dim as int);
                    }
                }
            }
            return None;
        }
        proof {
            row_count(len as int, dim as int);
        }
        Some(FlatIndex { dim, metric, n, data })
    }

    /// The length of the vectors.
    pub fn dim(&self) -> (r: usize)
        ensures
            r == self@.dim,
            r > 0,
    {
        proof {
            use_type_invariant(self);
        }
        self.dim
    }

    /// How many vectors there are.
    pub fn len(&self) -> (r: usize)
        ensures
            r == self@.len(),
    {
        proof {
            use_type_invariant(self);
            self.wf_means();
            rows_counted(self.n as int, self.dim as int);
        }
        self.n
    }

    /// Whether there is no vector.
    pub fn is_empty(&self) -> (r: bool)
        ensures
            r == (self@.len() == 0),
    {
        self.len() == 0
    }

    /// The metric.
    pub fn metric(&self) -> (r: Metric)
        ensures
            r == self@.metric,
    {
        self.metric
    }

    /// The vectors, one after the other.
    pub fn data(&self) -> (r: &Vec<u32>)
        ensures
            r@ == self@.data,
    {
        &self.data
    }

    /// The key of vector `i` for a query.
    #[inline]
    pub fn key_to<A: Arithmetic>(&self, query: &[u32], i: usize) -> (r: u32)
        requires
            query@.len() == self@.dim,
            i < self@.len(),
        ensures
            r == self@.keys(query@)(i as int),
    {
        key::<A>(self.metric, query, self.vector(i))
    }

    /// The keys of vectors for a query.
    pub(crate) fn keys_to<A: Arithmetic>(&self, query: &[u32], ids: &[u32], keys: &mut Vec<u32>)
        requires
            query@.len() == self@.dim,
            forall|i: int| 0 <= i < ids@.len() ==> (#[trigger] ids@[i]) < self@.len(),
        ensures
            final(keys)@.len() == ids@.len(),
            forall|i: int|
                0 <= i < ids@.len() ==> #[trigger] final(keys)@[i] == self@.keys(query@)(
                    ids@[i] as int,
                ),
    {
        keys.clear();
        let n: usize = ids.len();
        let mut i: usize = 0;
        while i < n
            invariant
                i <= n == ids@.len(),
                keys@.len() == i,
                query@.len() == self@.dim,
                forall|i: int| 0 <= i < ids@.len() ==> (#[trigger] ids@[i]) < self@.len(),
                forall|j: int|
                    0 <= j < i ==> #[trigger] keys@[j] == self@.keys(query@)(ids@[j] as int),
            decreases n - i,
        {
            if n - i >= 4 {
                assert(ids@[i as int] < self@.len());
                assert(ids@[i + 1] < self@.len());
                assert(ids@[i + 2] < self@.len());
                assert(ids@[i + 3] < self@.len());
                let d: [u32; 4] = key_four::<A>(
                    self.metric,
                    query,
                    self.vector(ids[i] as usize),
                    self.vector(ids[i + 1] as usize),
                    self.vector(ids[i + 2] as usize),
                    self.vector(ids[i + 3] as usize),
                );
                keys.push(d[0]);
                keys.push(d[1]);
                keys.push(d[2]);
                keys.push(d[3]);
                i += 4;
            } else {
                assert(ids@[i as int] < self@.len());
                keys.push(self.key_to::<A>(query, ids[i] as usize));
                i += 1;
            }
        }
    }

    /// Vector `i`.
    #[inline]
    pub fn vector(&self, i: usize) -> (r: &[u32])
        requires
            i < self@.len(),
        ensures
            r@ == row(self@.data, self@.dim, i as int),
            r@.len() == self@.dim,
    {
        proof {
            use_type_invariant(self);
            self.wf_means();
            rows_counted(self.n as int, self.dim as int);
            row_fits(i as int, self.n as int, self.dim as int);
        }
        row_at(self.data.as_slice(), self.dim, i)
    }

    /// Bytes held by the raw vectors.
    pub fn memory_bytes(&self) -> (r: usize)
        ensures
            r == self@.data.len() * 4,
    {
        proof {
            use_type_invariant(self);
        }
        self.data.len() * 4
    }

    /// Appends vectors, one after the other. Their ids follow on those of the vectors that
    /// are there.
    pub fn add(&mut self, vectors: &[u32])
        requires
            vectors@.len() as int % old(self)@.dim == 0,
            old(self)@.data.len() + vectors@.len() <= capacity(),
        ensures
            final(self)@ == (FlatView { data: old(self)@.data + vectors@, ..old(self)@ }),
            final(self)@.len() == old(self)@.len() + vectors@.len() as int / old(self)@.dim,
    {
        proof {
            use_type_invariant(&*self);
        }
        let dim: usize = self.dim;
        let metric: Metric = self.metric;
        let n: usize = self.n;
        let more: usize = vectors.len() / dim;
        proof {
            row_count(vectors@.len() as int, dim as int);
            rows_counted(n as int, dim as int);
            assert((n + more) * dim == n * dim + more * dim) by (nonlinear_arith);
            rows_counted(n + more, dim as int);
            assert(0 * dim == 0) by (nonlinear_arith);
        }
        let ghost before = self.data@;
        let mut index: FlatIndex = FlatIndex { dim, metric, n: 0, data: Vec::new() };
        std::mem::swap(&mut index, self);
        let mut data: Vec<u32> = index.data;
        data.extend_from_slice(vectors);
        assert(data@ =~= before + vectors@);
        *self = FlatIndex { dim, metric, n: n + more, data };
    }

    /// The `k` nearest vectors that pass.
    fn scan<A: Arithmetic>(&self, query: &[u32], k: usize, filter: Option<&[bool]>) -> (r: Vec<
        u128,
    >)
        requires
            query@.len() == self@.dim,
            covers(mask(filter), self@.len()),
            k > 0,
        ensures
            r@ == self@.nearest(query@, k as int, mask(filter)),
    {
        proof {
            use_type_invariant(self);
            self.wf_means();
            rows_counted(self.n as int, self.dim as int);
        }
        let mut top: TopK = TopK::new(k);
        let ghost keys = self@.keys(query@);
        let ghost pass = passes(mask(filter));
        let mut i: usize = 0;
        while i < self.n
            invariant
                i <= self.n,
                self.dim > 0,
                self.dim == self@.dim,
                self.n == self@.len(),
                self.n * self.dim == self.data@.len(),
                query@.len() == self@.dim,
                covers(mask(filter), self@.len()),
                keys == self@.keys(query@),
                pass == passes(mask(filter)),
                k > 0,
                top.limit() == k,
                top.best() == best_of(keys, pass, i as int, k as int),
            decreases self.n - i,
        {
            if is_passing(filter, i) {
                top.offer(self.key_to::<A>(query, i), i as u64);
            }
            i += 1;
        }
        top.into_sorted_vec()
    }

    /// Top-`k` for a single query, best first. Where the index holds fewer than `k` vectors,
    /// the places that are left get id `-1`.
    pub fn search<A: Arithmetic>(
        &self,
        query: &[u32],
        k: usize,
        out_ids: &mut [i64],
        out_dists: &mut [u32],
    )
        requires
            query@.len() == self@.dim,
            k <= old(out_ids)@.len(),
            k <= old(out_dists)@.len(),
        ensures
            reports(
                self@.metric,
                self@.nearest(query@, k as int, None),
                0,
                k as int,
                final(out_ids)@,
                final(out_dists)@,
                old(out_ids)@,
                old(out_dists)@,
            ),
    {
        if k > 0 {
            let best: Vec<u128> = self.scan::<A>(query, k, None);
            report::<A>(self.metric, best.as_slice(), 0, k, out_ids, out_dists);
        }
    }

    /// Top-`k` among the vectors whose entry in `filter` is `true`. Every vector is still
    /// scanned, so this is a real filtered search, not a reranking of an unfiltered one.
    pub fn search_filtered<A: Arithmetic>(
        &self,
        query: &[u32],
        k: usize,
        filter: &[bool],
        out_ids: &mut [i64],
        out_dists: &mut [u32],
    )
        requires
            query@.len() == self@.dim,
            filter@.len() == self@.len(),
            k <= old(out_ids)@.len(),
            k <= old(out_dists)@.len(),
        ensures
            reports(
                self@.metric,
                self@.nearest(query@, k as int, Some(filter@)),
                0,
                k as int,
                final(out_ids)@,
                final(out_dists)@,
                old(out_ids)@,
                old(out_dists)@,
            ),
    {
        if k > 0 {
            let best: Vec<u128> = self.scan::<A>(query, k, Some(filter));
            report::<A>(self.metric, best.as_slice(), 0, k, out_ids, out_dists);
        }
    }

    /// Top-`k` for each query of a batch.
    fn batch<A: Arithmetic>(
        &self,
        queries: &[u32],
        k: usize,
        filter: Option<&[bool]>,
        out_ids: &mut [i64],
        out_dists: &mut [u32],
        num_threads: usize,
    ) -> (r: Result<(), PoolUnavailable>)
        requires
            covers(mask(filter), self@.len()),
            k > 0 ==> {
                let rows = output_rows(
                    old(out_ids)@.len() as int,
                    old(out_dists)@.len() as int,
                    k as int,
                );
                &&& rows * k <= old(out_ids)@.len()
                &&& rows * k <= old(out_dists)@.len()
                &&& rows * self@.dim <= queries@.len()
            },
        ensures
            k == 0 || num_threads == 0 ==> r is Ok,
            r is Ok && k > 0 ==> reports_rows(
                self@.metric,
                |q: int|
                    self@.nearest(row(queries@, self@.dim, q), k as int, mask(filter)),
                output_rows(old(out_ids)@.len() as int, old(out_dists)@.len() as int, k as int),
                k as int,
                final(out_ids)@,
                final(out_dists)@,
                old(out_ids)@,
                old(out_dists)@,
            ),
            r is Err || k == 0 ==> final(out_ids)@ == old(out_ids)@ && final(out_dists)@ == old(
                out_dists,
            )@,
    {
        if k == 0 {
            return Ok(());
        }
        let dim: usize = self.dim();
        let rows: usize = count_output_rows(out_ids.len(), out_dists.len(), k);
        let found = |q: usize| -> (v: Vec<u128>)
            requires
                q < rows,
                k > 0,
                dim == self@.dim,
                rows * dim <= queries@.len(),
                covers(mask(filter), self@.len()),
            ensures
                v@ == self@.nearest(row(queries@, self@.dim, q as int), k as int, mask(filter)),
            {
                proof {
                    row_fits(q as int, rows as int, dim as int);
                }
                self.scan::<A>(row_at(queries, dim, q), k, filter)
            };
        match run(num_threads, rows, found) {
            Ok(best) => {
                let ghost all = |q: int|
                    self@.nearest(row(queries@, self@.dim, q), k as int, mask(filter));
                proof {
                    assert forall|q: int| 0 <= q < best@.len() implies #[trigger] best@[q]@ == all(
                        q,
                    ) by {
                        let u = q as usize;
                        assert(call_ensures(found, (u,), best@[u as int]));
                    }
                }
                report_rows::<A>(self.metric, &best, k, out_ids, out_dists, Ghost(all));
                Ok(())
            },
            Err(e) => Err(e),
        }
    }

    /// Top-`k` for a batch of queries, one after the other; the results are rows of `k`. Runs
    /// on the shared threads for `num_threads == 0`, and else on as many threads of its own;
    /// where these cannot be had, the outputs are as they were.
    pub fn search_batch<A: Arithmetic>(
        &self,
        queries: &[u32],
        k: usize,
        out_ids: &mut [i64],
        out_dists: &mut [u32],
        num_threads: usize,
    ) -> (r: Result<(), PoolUnavailable>)
        requires
            k > 0 ==> {
                let rows = output_rows(
                    old(out_ids)@.len() as int,
                    old(out_dists)@.len() as int,
                    k as int,
                );
                &&& rows * k <= old(out_ids)@.len()
                &&& rows * k <= old(out_dists)@.len()
                &&& rows * self@.dim <= queries@.len()
            },
        ensures
            k == 0 || num_threads == 0 ==> r is Ok,
            r is Ok && k > 0 ==> reports_rows(
                self@.metric,
                |q: int| self@.nearest(row(queries@, self@.dim, q), k as int, None),
                output_rows(old(out_ids)@.len() as int, old(out_dists)@.len() as int, k as int),
                k as int,
                final(out_ids)@,
                final(out_dists)@,
                old(out_ids)@,
                old(out_dists)@,
            ),
            r is Err || k == 0 ==> final(out_ids)@ == old(out_ids)@ && final(out_dists)@ == old(
                out_dists,
            )@,
    {
        self.batch::<A>(queries, k, None, out_ids, out_dists, num_threads)
    }

    /// Batch version of [`FlatIndex::search_filtered`]: the one `filter` applies to every
    /// query.
    pub fn search_batch_filtered<A: Arithmetic>(
        &self,
        queries: &[u32],
        k: usize,
        filter: &[bool],
        out_ids: &mut [i64],
        out_dists: &mut [u32],
        num_threads: usize,
    ) -> (r: Result<(), PoolUnavailable>)
        requires
            filter@.len() == self@.len(),
            k > 0 ==> {
                let rows = output_rows(
                    old(out_ids)@.len() as int,
                    old(out_dists)@.len() as int,
                    k as int,
                );
                &&& rows * k <= old(out_ids)@.len()
                &&& rows * k <= old(out_dists)@.len()
                &&& rows * self@.dim <= queries@.len()
            },
        ensures
            k == 0 || num_threads == 0 ==> r is Ok,
            r is Ok && k > 0 ==> reports_rows(
                self@.metric,
                |q: int| self@.nearest(row(queries@, self@.dim, q), k as int, Some(filter@)),
                output_rows(old(out_ids)@.len() as int, old(out_dists)@.len() as int, k as int),
                k as int,
                final(out_ids)@,
                final(out_dists)@,
                old(out_ids)@,
                old(out_dists)@,
            ),
            r is Err || k == 0 ==> final(out_ids)@ == old(out_ids)@ && final(out_dists)@ == old(
                out_dists,
            )@,
    {
        self.batch::<A>(queries, k, Some(filter), out_ids, out_dists, num_threads)
    }
}

} // verus!
