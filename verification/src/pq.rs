//! Approximate search over compressed vectors.
//!
//! Only the codes of the vectors are kept. A search works out the key of every centroid once,
//! and adds up, for each vector, the keys that its code points to.

use vstd::arithmetic::power2::pow2;
use vstd::prelude::*;
use crate::arith::{sum, Arithmetic};
use crate::binary32::all_finite;
use crate::metric::Metric;
use crate::parallel::{par_map, run, PoolUnavailable};
use crate::quantizer::QuantizerView;
use crate::rows::{
    capacity, covers, is_passing, mask, passes, row, row_at, row_count, row_fits,
    row_is_finite, rows_counted,
};
use crate::topk::{best_of, report, report_rows, reports, reports_rows, slot, TopK};

pub use crate::quantizer::{PqParams, ProductQuantizer};

verus! {

/// Code `i` of codes of `m` bytes.
pub open spec fn code_at(codes: Seq<u8>, m: int, i: int) -> Seq<u8> {
    codes.subrange(i * m, i * m + m)
}

/// What a compressed index holds.
#[verifier::ext_equal]
pub struct PqView {
    pub metric: Metric,
    pub pq: QuantizerView,
    pub codes: Seq<u8>,
}

impl PqView {
    /// How many vectors there are.
    pub open spec fn len(self) -> int {
        self.codes.len() as int / self.pq.m
    }

    /// What holds of every compressed index: the codes are complete, and name centroids.
    pub open spec fn fits(self) -> bool {
        &&& self.pq.fits()
        &&& self.len() * self.pq.m == self.codes.len()
        &&& self.codes.len() <= isize::MAX
        &&& forall|i: int| 0 <= i < self.codes.len() ==> (#[trigger] self.codes[i]) < self.pq.k()
    }

    /// The keys that the first `n` bytes of a code point to, added up in order.
    pub open spec fn adc(self, query: Seq<u32>, code: Seq<u8>, n: int) -> u32
        decreases n,
    {
        if n <= 0 {
            0
        } else {
            sum(
                self.adc(query, code, n - 1),
                self.pq.table_entry(self.metric, query, n - 1, code[n - 1] as int),
            )
        }
    }

    /// The key of each vector for a query, as its code tells it.
    pub open spec fn keys(self, query: Seq<u32>) -> spec_fn(int) -> u32 {
        |i: int| self.adc(query, code_at(self.codes, self.pq.m, i), self.pq.m)
    }

    /// The `k` vectors nearest to a query among those that pass a filter, best first.
    pub open spec fn nearest(self, query: Seq<u32>, k: int, filter: Option<Seq<bool>>) -> Seq<u128> {
        best_of(self.keys(query), passes(filter), self.len(), k)
    }
}

/// Appending codes keeps the old ones and puts the new ones behind them.
pub proof fn code_of_appended(codes: Seq<u8>, more: Seq<u8>, m: int, n: int, i: int)
    requires
        m > 0,
        codes.len() == n * m,
        more.len() == m,
        0 <= i <= n,
    ensures
        code_at(codes + more, m, i) == if i < n {
            code_at(codes, m, i)
        } else {
            more
        },
{
    if i < n {
        row_fits(i, n, m);
        assert(code_at(codes + more, m, i) =~= code_at(codes, m, i));
    } else {
        assert(code_at(codes + more, m, i) =~= more);
    }
}

/// `f` is what a compressed index `o` becomes when vectors are added: their codes are behind those
/// before.
pub open spec fn coded(o: PqView, vectors: Seq<u32>, f: PqView) -> bool {
    let count = vectors.len() as int / o.pq.dim;
    &&& f.fits()
    &&& f.metric == o.metric
    &&& f.pq == o.pq
    &&& f.len() == o.len() + count
    &&& forall|i: int|
        #![trigger code_at(f.codes, o.pq.m, i)]
        0 <= i < o.len() ==> code_at(f.codes, o.pq.m, i) == code_at(o.codes, o.pq.m, i)
    &&& forall|i: int|
        #![trigger code_at(f.codes, o.pq.m, i)]
        o.len() <= i < f.len() ==> code_at(f.codes, o.pq.m, i) == o.pq.code(
            row(vectors, o.pq.dim, i - o.len()),
        )
}

/// Compressed approximate vector index.
pub struct PqIndex {
    metric: Metric,
    pq: ProductQuantizer,
    codes: Vec<u8>,
}

impl View for PqIndex {
    type V = PqView;

    closed spec fn view(&self) -> PqView {
        PqView { metric: self.metric, pq: self.pq@, codes: self.codes@ }
    }
}

impl PqIndex {
    #[verifier::type_invariant]
    pub closed spec fn wf(self) -> bool {
        self@.fits()
    }

    /// What holds of every index.
    pub proof fn wf_means(self)
        requires
            self.wf(),
        ensures
            self@.fits(),
    {
    }

    /// Trains an empty index on example vectors.
    pub fn train<A: Arithmetic>(
        training: &[u32],
        dim: usize,
        metric: Metric,
        params: PqParams,
    ) -> (r: Self)
        requires
            dim > 0,
            params.m >= 1,
            dim % params.m == 0,
            1 <= params.nbits <= 8,
            training@.len() as int % dim as int == 0,
            training@.len() as int / dim as int >= pow2(params.nbits as nat),
            all_finite(training@),
            training@.len() <= capacity(),
        ensures
            r@.metric == metric,
            r@.pq.is_trained(training@, dim as int, params),
            r@.codes == Seq::<u8>::empty(),
            r@.len() == 0,
    {
        let pq: ProductQuantizer = ProductQuantizer::train::<A>(training, dim, params);
        let codes: Vec<u8> = Vec::new();
        proof {
            use_type_invariant(&pq);
            pq.wf_means();
            rows_counted(0, pq@.m);
        }
        PqIndex { metric, pq, codes }
    }

    /// The index with these parts, if they belong together.
    pub fn from_parts(metric: Metric, pq: ProductQuantizer, codes: Vec<u8>, n: usize) -> (r: Option<
        Self,
    >)
        ensures
            ({
                let v = PqView { metric, pq: pq@, codes: codes@ };
                &&& r is Some <==> v.fits() && v.len() == n
                &&& r matches Some(x) ==> x@ == v
            }),
    {
        let ghost v = PqView { metric, pq: pq@, codes: codes@ };
        proof {
            use_type_invariant(&pq);
            pq.wf_means();
        }
        let m: usize = pq.m();
        let k: usize = pq.k();
        let len: usize = codes.len();
        if len > isize::MAX as usize || len % m != 0 || len / m != n {
            proof {
                if v.fits() {
                    rows_counted(v.len(), m as int);
                }
            }
            return None;
        }
        proof {
            row_count(len as int, m as int);
        }
        let mut i: usize = 0;
        while i < len
            invariant
                i <= len,
                len == codes@.len(),
                v == (PqView { metric, pq: pq@, codes: codes@ }),
                k == v.pq.k(),
                forall|j: int| 0 <= j < i ==> (#[trigger] codes@[j]) < k,
            decreases len - i,
        {
            if codes[i] as usize >= k {
                assert(!(codes@[i as int] < k));
                return None;
            }
            i += 1;
        }
        Some(PqIndex { metric, pq, codes })
    }

    /// The length of the vectors.
    pub fn dim(&self) -> (r: usize)
        ensures
            r == self@.pq.dim,
            r > 0,
    {
        self.pq.dim()
    }

    /// How many parts a vector is cut into.
    pub fn m(&self) -> (r: usize)
        ensures
            r == self@.pq.m,
            r > 0,
    {
        self.pq.m()
    }

    /// How many bits the code of a part has.
    pub fn nbits(&self) -> (r: usize)
        ensures
            r == self@.pq.nbits,
            1 <= r <= 8,
    {
        self.pq.nbits()
    }

    /// How many vectors there are.
    pub fn len(&self) -> (r: usize)
        ensures
            r == self@.len(),
    {
        self.codes.len() / self.m()
    }

    /// Whether there is no vector.
    pub fn is_empty(&self) -> (r: bool)
        ensures
            r == (self@.len() == 0),
    {
        self.len() == 0
    }

    /// The metric that vectors are ranked by.
    pub fn metric(&self) -> (r: Metric)
        ensures
            r == self@.metric,
    {
        self.metric
    }

    /// The quantizer.
    pub fn quantizer(&self) -> (r: &ProductQuantizer)
        ensures
            r@ == self@.pq,
    {
        &self.pq
    }

    /// The codes, one after the other.
    pub fn codes(&self) -> (r: &[u8])
        ensures
            r@ == self@.codes,
    {
        self.codes.as_slice()
    }

    /// Bytes held by the codes and the centroids.
    pub fn memory_bytes(&self) -> (r: usize)
        ensures
            r == self@.codes.len() + 4 * self@.pq.books.len(),
    {
        proof {
            use_type_invariant(self);
            use_type_invariant(&self.pq);
            self.pq.wf_means();
        }
        self.codes.len() + self.pq.codebooks().len() * 4
    }

    /// Bytes that the vectors would take uncompressed.
    pub fn raw_bytes(&self) -> (r: usize)
        requires
            self@.len() * self@.pq.dim * 4 <= usize::MAX,
        ensures
            r == self@.len() * self@.pq.dim * 4,
    {
        let n: usize = self.len();
        let dim: usize = self.dim();
        assert(0 <= n * dim <= n * dim * 4) by (nonlinear_arith);
        n * dim * 4
    }

    /// Adds vectors, one after the other; they get the next ids. Only their codes are kept.
    pub fn add<A: Arithmetic>(&mut self, vectors: &[u32])
        requires
            vectors@.len() as int % old(self)@.pq.dim == 0,
            old(self)@.codes.len() + (vectors@.len() as int / old(self)@.pq.dim) * old(self)@.pq.m
                <= isize::MAX,
        ensures
            coded(old(self)@, vectors@, final(self)@),
    {
        proof {
            use_type_invariant(&*self);
        }
        let ghost o = self@;
        let dim: usize = self.pq.dim();
        let m: usize = self.pq.m();
        let n: usize = self.len();
        let count: usize = vectors.len() / dim;
        proof {
            row_count(vectors@.len() as int, dim as int);
        }
        let pq: &ProductQuantizer = &self.pq;
        let encode = |i: usize| -> (code: Vec<u8>)
            requires
                i < count,
                dim == pq@.dim,
                count * dim <= vectors@.len(),
            ensures
                code@ == pq@.code(row(vectors@, dim as int, i as int)),
                code@.len() == pq@.m,
                forall|j: int| 0 <= j < code@.len() ==> (#[trigger] code@[j]) < pq@.k(),
            {
                proof {
                    row_fits(i as int, count as int, dim as int);
                }
                pq.encode::<A>(row_at(vectors, dim, i))
            };
        let new: Vec<Vec<u8>> = par_map(count, encode);
        proof {
            assert forall|i: int| 0 <= i < count implies (#[trigger] new@[i])@ == o.pq.code(
                row(vectors@, dim as int, i),
            ) && new@[i]@.len() == m && forall|j: int|
                0 <= j < m ==> (#[trigger] new@[i]@[j]) < o.pq.k() by {
                let u = i as usize;
                assert(call_ensures(encode, (u,), new@[u as int]));
            }
        }
        let mut codes: Vec<u8> = Vec::new();
        proof {
            rows_counted(0, m as int);
        }
        std::mem::swap(&mut codes, &mut self.codes);
        let mut i: usize = 0;
        while i < count
            invariant
                i <= count,
                m == o.pq.m,
                m > 0,
                o.fits(),
                n == o.len(),
                new@.len() == count,
                o.codes.len() + count * m <= isize::MAX,
                forall|i: int|
                    0 <= i < count ==> (#[trigger] new@[i])@ == o.pq.code(
                        row(vectors@, dim as int, i),
                    ) && new@[i]@.len() == m && forall|j: int|
                        0 <= j < m ==> (#[trigger] new@[i]@[j]) < o.pq.k(),
                codes@.len() == (n + i) * m,
                forall|j: int| 0 <= j < codes@.len() ==> (#[trigger] codes@[j]) < o.pq.k(),
                forall|j: int|
                    #![trigger code_at(codes@, m as int, j)]
                    0 <= j < n ==> code_at(codes@, m as int, j) == code_at(o.codes, m as int, j),
                forall|j: int|
                    #![trigger code_at(codes@, m as int, j)]
                    n <= j < n + i ==> code_at(codes@, m as int, j) == o.pq.code(
                        row(vectors@, dim as int, j - n),
                    ),
            decreases count - i,
        {
            let ghost before = codes@;
            let code: &Vec<u8> = &new[i];
            assert(code@.len() == m);
            codes.extend_from_slice(code.as_slice());
            proof {
                assert(codes@ =~= before + code@);
                assert((n + i + 1) * m == (n + i) * m + m) by (nonlinear_arith);
                assert forall|j: int| 0 <= j < codes@.len() implies (#[trigger] codes@[j])
                    < o.pq.k() by {
                    if j >= before.len() {
                        assert(codes@[j] == new@[i as int]@[j - before.len()]);
                    }
                }
                assert forall|j: int|
                    #![trigger code_at(codes@, m as int, j)]
                    0 <= j < n implies code_at(codes@, m as int, j) == code_at(
                    o.codes,
                    m as int,
                    j,
                ) by {
                    code_of_appended(before, code@, m as int, n + i, j);
                    assert(code_at(before, m as int, j) == code_at(o.codes, m as int, j));
                }
                assert forall|j: int|
                    #![trigger code_at(codes@, m as int, j)]
                    n <= j < n + i + 1 implies code_at(codes@, m as int, j) == o.pq.code(
                    row(vectors@, dim as int, j - n),
                ) by {
                    code_of_appended(before, code@, m as int, n + i, j);
                    if j < n + i {
                        assert(code_at(before, m as int, j) == o.pq.code(
                            row(vectors@, dim as int, j - n),
                        ));
                    }
                }
            }
            i += 1;
        }
        proof {
            rows_counted(n + count, m as int);
            assert((n + count) * m == n * m + count * m) by (nonlinear_arith);
        }
        self.codes = codes;
    }

    /// The `k` nearest vectors that pass.
    fn scan<A: Arithmetic>(&self, query: &[u32], k: usize, filter: Option<&[bool]>) -> (r: Vec<
        u128,
    >)
        requires
            query@.len() == self@.pq.dim,
            all_finite(query@),
            covers(mask(filter), self@.len()),
            k > 0,
        ensures
            r@ == self@.nearest(query@, k as int, mask(filter)),
    {
        proof {
            use_type_invariant(self);
        }
        let n: usize = self.len();
        let m: usize = self.m();
        let stride: usize = self.pq.k();
        let table: Vec<u32> = self.pq.adc_table::<A>(query, self.metric);
        let mut top: TopK = TopK::new(k);
        let ghost keys = self@.keys(query@);
        let ghost pass = passes(mask(filter));
        let mut i: usize = 0;
        while i < n
            invariant
                i <= n,
                n == self@.len(),
                m == self@.pq.m,
                stride == self@.pq.k(),
                self@.fits(),
                table@.len() == m * stride,
                forall|sub: int, c: int|
                    0 <= sub < m && 0 <= c < stride ==> #[trigger] slot(
                        table@,
                        stride as int,
                        sub,
                        c,
                    ) == self@.pq.table_entry(self@.metric, query@, sub, c),
                covers(mask(filter), n as int),
                keys == self@.keys(query@),
                pass == passes(mask(filter)),
                k > 0,
                top.limit() == k,
                top.best() == best_of(keys, pass, i as int, k as int),
            decreases n - i,
        {
            if is_passing(filter, i) {
                let key: u32 = self.sum_up::<A>(
                    i,
                    m,
                    stride,
                    table.as_slice(),
                    Ghost(query@),
                );
                assert(key == keys(i as int));
                top.offer(key, i as u64);
            }
            i += 1;
        }
        top.into_sorted_vec()
    }

    /// The keys that code `i` points to, added up.
    #[inline]
    fn sum_up<A: Arithmetic>(
        &self,
        i: usize,
        m: usize,
        stride: usize,
        table: &[u32],
        Ghost(query): Ghost<Seq<u32>>,
    ) -> (r: u32)
        requires
            self@.fits(),
            i < self@.len(),
            m == self@.pq.m,
            stride == self@.pq.k(),
            table@.len() == m * stride,
            forall|sub: int, c: int|
                0 <= sub < m && 0 <= c < stride ==> #[trigger] slot(table@, stride as int, sub, c)
                    == self@.pq.table_entry(self@.metric, query, sub, c),
        ensures
            r == self@.keys(query)(i as int),
    {
        proof {
            row_fits(i as int, self@.len(), m as int);
        }
        let room: usize = self.codes.len();
        let size: usize = table.len();
        let from: usize = i * m;
        let ghost code = code_at(self@.codes, m as int, i as int);
        let mut key: u32 = 0;
        let mut sub: usize = 0;
        while sub < m
            invariant
                sub <= m,
                self@.fits(),
                m == self@.pq.m,
                stride == self@.pq.k(),
                room == self.codes@.len(),
                from == i * m,
                from + m <= room,
                size == table@.len(),
                table@.len() == m * stride,
                code == code_at(self@.codes, m as int, i as int),
                forall|sub: int, c: int|
                    0 <= sub < m && 0 <= c < stride ==> #[trigger] slot(
                        table@,
                        stride as int,
                        sub,
                        c,
                    ) == self@.pq.table_entry(self@.metric, query, sub, c),
                key == self@.adc(query, code, sub as int),
            decreases m - sub,
        {
            let c: usize = self.codes[from + sub] as usize;
            proof {
                assert(self@.codes[from + sub] < self@.pq.k());
                assert(code[sub as int] == c);
                row_fits(sub as int, m as int, stride as int);
                assert(slot(table@, stride as int, sub as int, c as int)
                    == self@.pq.table_entry(self@.metric, query, sub as int, c as int));
            }
            key = A::add(key, table[sub * stride + c]);
            sub += 1;
        }
        key
    }

    /// Top-`k` for a single query, best first. Where the index holds fewer than `k` vectors,
    /// the places that are left get id `-1`.
    pub fn search<A: Arithmetic>(
        &self,
        query: &[u32],
        k: usize,
        out_ids: &mut [i64],
        out_dists: &mut [u32],
    )
        requires
            query@.len() == self@.pq.dim,
            k > 0 ==> old(out_ids)@.len() == k && old(out_dists)@.len() == k && all_finite(query@),
        ensures
            reports(
                self@.metric,
                self@.nearest(query@, k as int, None),
                0,
                k as int,
                final(out_ids)@,
                final(out_dists)@,
                old(out_ids)@,
                old(out_dists)@,
            ),
    {
        if k > 0 {
            let best: Vec<u128> = self.scan::<A>(query, k, None);
            report::<A>(self.metric, best.as_slice(), 0, k, out_ids, out_dists);
        }
    }

    /// Top-`k` among the vectors whose entry in `filter` is `true`.
    pub fn search_filtered<A: Arithmetic>(
        &self,
        query: &[u32],
        k: usize,
        filter: &[bool],
        out_ids: &mut [i64],
        out_dists: &mut [u32],
    )
        requires
            query@.len() == self@.pq.dim,
            filter@.len() == self@.len(),
            k > 0 ==> old(out_ids)@.len() == k && old(out_dists)@.len() == k && all_finite(query@),
        ensures
            reports(
                self@.metric,
                self@.nearest(query@, k as int, Some(filter@)),
                0,
                k as int,
                final(out_ids)@,
                final(out_dists)@,
                old(out_ids)@,
                old(out_dists)@,
            ),
    {
        if k > 0 {
            let best: Vec<u128> = self.scan::<A>(query, k, Some(filter));
            report::<A>(self.metric, best.as_slice(), 0, k, out_ids, out_dists);
        }
    }

    /// Top-`k` for a batch of queries, one after the other; the results are rows of `k`. Runs
    /// on the shared threads for `num_threads == 0`, and else on as many threads of its own;
    /// where these cannot be had, the outputs are as they were.
    pub fn search_batch<A: Arithmetic>(
        &self,
        queries: &[u32],
        k: usize,
        out_ids: &mut [i64],
        out_dists: &mut [u32],
        num_threads: usize,
    ) -> (r: Result<(), PoolUnavailable>)
        requires
            k > 0 ==> {
                let rows = queries@.len() as int / self@.pq.dim;
                &&& queries@.len() as int % self@.pq.dim == 0
                &&& all_finite(queries@)
                &&& old(out_ids)@.len() == rows * k
                &&& old(out_dists)@.len() == rows * k
            },
        ensures
            k == 0 || num_threads == 0 ==> r is Ok,
            r is Ok && k > 0 ==> reports_rows(
                self@.metric,
                |q: int| self@.nearest(row(queries@, self@.pq.dim, q), k as int, None),
                queries@.len() as int / self@.pq.dim,
                k as int,
                final(out_ids)@,
                final(out_dists)@,
                old(out_ids)@,
                old(out_dists)@,
            ),
            r is Err || k == 0 ==> final(out_ids)@ == old(out_ids)@ && final(out_dists)@ == old(
                out_dists,
            )@,
    {
        self.search_batch_impl::<A>(queries, k, None, out_ids, out_dists, num_threads)
    }

    /// Batch version of [`PqIndex::search_filtered`]: the one `filter` applies to every query.
    pub fn search_batch_filtered<A: Arithmetic>(
        &self,
        queries: &[u32],
        k: usize,
        filter: &[bool],
        out_ids: &mut [i64],
        out_dists: &mut [u32],
        num_threads: usize,
    ) -> (r: Result<(), PoolUnavailable>)
        requires
            filter@.len() == self@.len(),
            k > 0 ==> {
                let rows = queries@.len() as int / self@.pq.dim;
                &&& queries@.len() as int % self@.pq.dim == 0
                &&& all_finite(queries@)
                &&& old(out_ids)@.len() == rows * k
                &&& old(out_dists)@.len() == rows * k
            },
        ensures
            k == 0 || num_threads == 0 ==> r is Ok,
            r is Ok && k > 0 ==> reports_rows(
                self@.metric,
                |q: int| self@.nearest(row(queries@, self@.pq.dim, q), k as int, Some(filter@)),
                queries@.len() as int / self@.pq.dim,
                k as int,
                final(out_ids)@,
                final(out_dists)@,
                old(out_ids)@,
                old(out_dists)@,
            ),
            r is Err || k == 0 ==> final(out_ids)@ == old(out_ids)@ && final(out_dists)@ == old(
                out_dists,
            )@,
    {
        self.search_batch_impl::<A>(queries, k, Some(filter), out_ids, out_dists, num_threads)
    }

    /// Top-`k` for each query of a batch, among the vectors that pass the filter if there is
    /// one.
    pub fn search_batch_impl<A: Arithmetic>(
        &self,
        queries: &[u32],
        k: usize,
        filter: Option<&[bool]>,
        out_ids: &mut [i64],
        out_dists: &mut [u32],
        num_threads: usize,
    ) -> (r: Result<(), PoolUnavailable>)
        requires
            covers(mask(filter), self@.len()),
            k > 0 ==> {
                let rows = queries@.len() as int / self@.pq.dim;
                &&& queries@.len() as int % self@.pq.dim == 0
                &&& all_finite(queries@)
                &&& old(out_ids)@.len() == rows * k
                &&& old(out_dists)@.len() == rows * k
            },
        ensures
            k == 0 || num_threads == 0 ==> r is Ok,
            r is Ok && k > 0 ==> reports_rows(
                self@.metric,
                |q: int| self@.nearest(row(queries@, self@.pq.dim, q), k as int, mask(filter)),
                queries@.len() as int / self@.pq.dim,
                k as int,
                final(out_ids)@,
                final(out_dists)@,
                old(out_ids)@,
                old(out_dists)@,
            ),
            r is Err || k == 0 ==> final(out_ids)@ == old(out_ids)@ && final(out_dists)@ == old(
                out_dists,
            )@,
    {
        if k == 0 {
            return Ok(());
        }
        let dim: usize = self.dim();
        let rows: usize = queries.len() / dim;
        proof {
            row_count(queries@.len() as int, dim as int);
        }
        let found = |q: usize| -> (v: Vec<u128>)
            requires
                q < rows,
                k > 0,
                dim == self@.pq.dim,
                dim > 0,
                rows * dim <= queries@.len(),
                all_finite(queries@),
                covers(mask(filter), self@.len()),
            ensures
                v@ == self@.nearest(
                    row(queries@, self@.pq.dim, q as int),
                    k as int,
                    mask(filter),
                ),
            {
                proof {
                    row_fits(q as int, rows as int, dim as int);
                    row_is_finite(queries@, dim as int, rows as int, q as int);
                }
                self.scan::<A>(row_at(queries, dim, q), k, filter)
            };
        match run(num_threads, rows, found) {
            Ok(best) => {
                let ghost all = |q: int|
                    self@.nearest(row(queries@, self@.pq.dim, q), k as int, mask(filter));
                proof {
                    assert forall|q: int| 0 <= q < best@.len() implies #[trigger] best@[q]@ == all(
                        q,
                    ) by {
                        let u = q as usize;
                        assert(call_ensures(found, (u,), best@[u as int]));
                    }
                }
                report_rows::<A>(self.metric, &best, k, out_ids, out_dists, Ghost(all));
                Ok(())
            },
            Err(e) => Err(e),
        }
    }
}

} // verus!
