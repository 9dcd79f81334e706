//! Vectors compressed to short codes.
//!
//! A vector is cut into parts of equal length. Each part has its own book of centroids, and
//! the code of a vector says for each part which centroid is nearest.

use vstd::arithmetic::div_mod::lemma_fundamental_div_mod;
use vstd::arithmetic::power2::{lemma2_to64, lemma_pow2_pos, pow2};
use vstd::prelude::*;
use crate::arith::Arithmetic;
use crate::binary32::{all_finite, lt, MAX};
use crate::distance::{key, key_of, l2_sqr_of};
use crate::kmeans::{
    closest, closest_is_least, closest_row, distances, holds_rows, kmeans, least_key, rounds,
    rounds_keep_shape, rows_of,
};
use crate::metric::Metric;
use crate::parallel::par_map;
use crate::rng::{draw, state_after, SplitMix, GOLDEN};
use crate::rows::{
    capacity, row, row_at, row_count, row_fits, row_of_appended, rows_counted,
};
use crate::topk::slot;

verus! {

/// How a quantizer is trained.
#[derive(Clone, Copy, Debug)]
pub struct PqParams {
    /// How many parts a vector is cut into.
    pub m: usize,
    /// How many bits the code of a part has; there are two to this power centroids.
    pub nbits: usize,
    /// How many rounds of clustering there are.
    pub train_iters: usize,
    /// How many training vectors are used; 0 for all of them.
    pub train_sample: usize,
    /// Where the random choices come from.
    pub seed: u64,
}

impl Default for PqParams {
    fn default() -> (r: Self)
        ensures
            r == (PqParams {
                m: 8,
                nbits: 8,
                train_iters: 25,
                train_sample: 50_000,
                seed: 0x5EED,
            }),
    {
        PqParams { m: 8, nbits: 8, train_iters: 25, train_sample: 50_000, seed: 0x5EED }
    }
}

/// How many of the training vectors are used.
pub open spec fn sample_size(params: PqParams, k: int, n_all: int) -> int {
    if params.train_sample == 0 || params.train_sample >= n_all {
        n_all
    } else if params.train_sample < k {
        k
    } else {
        params.train_sample as int
    }
}

/// Which training vectors are used: all of them in order, or some drawn at random, with
/// repetition.
pub open spec fn sampled(n_all: int, n: int, seed: u64) -> Seq<usize> {
    Seq::new(
        n as nat,
        |i: int|
            if n == n_all {
                i as usize
            } else {
                (draw(seed, i as nat) as int % n_all) as usize
            },
    )
}

/// Part `sub` of each training vector that is used.
pub open spec fn parts(
    training: Seq<u32>,
    dim: int,
    sample: Seq<usize>,
    dsub: int,
    sub: int,
) -> Seq<Seq<u32>> {
    Seq::new(sample.len(), |i: int| row(row(training, dim, sample[i] as int), dsub, sub))
}

/// Where the random choices of a part come from.
pub open spec fn seed_of(seed: u64, sub: int) -> u64 {
    seed ^ (sub as u64).wrapping_mul(GOLDEN)
}

/// What a quantizer holds.
#[verifier::ext_equal]
pub struct QuantizerView {
    pub dim: int,
    pub m: int,
    pub nbits: nat,
    pub books: Seq<u32>,
}

impl QuantizerView {
    /// The length of a part.
    pub open spec fn dsub(self) -> int {
        self.dim / self.m
    }

    /// How many centroids there are for a part.
    pub open spec fn k(self) -> int {
        pow2(self.nbits) as int
    }

    /// Part `sub` of a vector.
    pub open spec fn part(self, v: Seq<u32>, sub: int) -> Seq<u32> {
        row(v, self.dsub(), sub)
    }

    /// Centroid `c` of part `sub`.
    pub open spec fn centroid(self, sub: int, c: int) -> Seq<u32> {
        row(self.books, self.dsub(), sub * self.k() + c)
    }

    /// What holds of every quantizer.
    pub open spec fn fits(self) -> bool {
        &&& self.m > 0
        &&& self.dim > 0
        &&& self.dim % self.m == 0
        &&& 1 <= self.nbits <= 8
        &&& self.books.len() == self.m * self.k() * self.dsub()
        &&& self.books.len() <= capacity()
    }

    /// The code of part `sub` of a vector: the centroid that is nearest.
    pub open spec fn code_part(self, v: Seq<u32>, sub: int) -> u8 {
        closest(
            distances(self.part(v, sub), self.books, self.dsub(), sub * self.k()),
            self.k(),
        ) as u8
    }

    /// The code of a vector.
    pub open spec fn code(self, v: Seq<u32>) -> Seq<u8> {
        Seq::new(self.m as nat, |sub: int| self.code_part(v, sub))
    }

    /// The key of centroid `c` of part `sub` for that part of a query.
    pub open spec fn table_entry(self, metric: Metric, query: Seq<u32>, sub: int, c: int) -> u32 {
        key_of(metric, self.part(query, sub), self.centroid(sub, c))
    }

    /// The centroids are those that clustering finds for each part of the training vectors.
    pub open spec fn is_trained(self, training: Seq<u32>, dim: int, params: PqParams) -> bool {
        let n_all = training.len() as int / dim;
        let sample = sampled(n_all, sample_size(params, self.k(), n_all), params.seed);
        &&& self.dim == dim
        &&& self.m == params.m
        &&& self.nbits == params.nbits
        &&& forall|sub: int, c: int|
            0 <= sub < self.m && 0 <= c < self.k() ==> #[trigger] self.centroid(sub, c) == rounds(
                parts(training, dim, sample, self.dsub(), sub),
                self.dsub(),
                self.k(),
                seed_of(params.seed, sub),
                params.train_iters as int,
            ).0[c]
    }
}

/// Two quantizers with the same centroids are the same.
proof fn same_centroids(a: QuantizerView, b: QuantizerView)
    requires
        a.fits(),
        b.fits(),
        a.dim == b.dim,
        a.m == b.m,
        a.nbits == b.nbits,
        forall|sub: int, c: int|
            0 <= sub < a.m && 0 <= c < a.k() ==> #[trigger] a.centroid(sub, c) == b.centroid(
                sub,
                c,
            ),
    ensures
        a == b,
{
    let (m, k, d) = (a.m, a.k(), a.dsub());
    lemma_pow2_pos(a.nbits);
    row_count(a.dim, m);
    assert(d > 0) by (nonlinear_arith)
        requires
            d * m == a.dim,
            a.dim > 0,
            m > 0,
    ;
    assert forall|p: int| 0 <= p < a.books.len() implies a.books[p] == b.books[p] by {
        let (r, j) = (p / d, p % d);
        lemma_fundamental_div_mod(p, d);
        assert(p == r * d + j && 0 <= j < d) by (nonlinear_arith)
            requires
                p == d * r + j,
                j == p % d,
                d > 0,
        ;
        assert(0 <= r < m * k) by (nonlinear_arith)
            requires
                p == r * d + j,
                0 <= j < d,
                0 <= p < m * k * d,
        ;
        let (sub, c) = (r / k, r % k);
        lemma_fundamental_div_mod(r, k);
        assert(r == sub * k + c && 0 <= c < k) by (nonlinear_arith)
            requires
                r == k * sub + c,
                c == r % k,
                k > 0,
        ;
        assert(0 <= sub < m) by (nonlinear_arith)
            requires
                r == sub * k + c,
                0 <= c < k,
                0 <= r < m * k,
        ;
        row_fits(r, m * k, d);
        assert(a.centroid(sub, c) == b.centroid(sub, c));
        assert(a.books[p] == a.centroid(sub, c)[j]);
        assert(b.books[p] == b.centroid(sub, c)[j]);
    }
    assert(a.books =~= b.books);
}

/// Training depends on how many training vectors are asked for only through how many are used:
/// where these are as many, the same quantizer comes of it, on every run and whatever the threads.
pub proof fn training_depends_on_sample_size(
    a: QuantizerView,
    b: QuantizerView,
    training: Seq<u32>,
    dim: int,
    p: PqParams,
    q: PqParams,
)
    requires
        a.fits(),
        b.fits(),
        a.is_trained(training, dim, p),
        b.is_trained(training, dim, q),
        q == (PqParams { train_sample: q.train_sample, ..p }),
        ({
            let k = pow2(p.nbits as nat) as int;
            let n_all = training.len() as int / dim;
            sample_size(p, k, n_all) == sample_size(q, k, n_all)
        }),
    ensures
        a == b,
{
    same_centroids(a, b);
}

/// As many training vectors are used whichever way all of them are asked for, and whichever way
/// no more than there are centroids.
pub proof fn sample_sizes_agree(p: PqParams, q: PqParams, k: int, n_all: int)
    requires
        0 < k <= n_all,
        ({
            ||| (p.train_sample == 0 || p.train_sample >= n_all) && (q.train_sample == 0
                || q.train_sample >= n_all)
            ||| 1 <= p.train_sample <= k && 1 <= q.train_sample <= k
        }),
    ensures
        sample_size(p, k, n_all) == sample_size(q, k, n_all),
{
}

/// The numbers of centroids.
pub proof fn code_counts()
    ensures
        pow2(1) == 2,
        pow2(2) == 4,
        pow2(3) == 8,
        pow2(4) == 16,
        pow2(5) == 32,
        pow2(6) == 64,
        pow2(7) == 128,
        pow2(8) == 256,
{
    lemma2_to64();
}

/// A number of centroids that codes of one to eight bits can tell apart.
pub open spec fn is_code_count(k: int) -> bool {
    exists|b: nat| 1 <= b <= 8 && k == #[trigger] pow2(b)
}

/// How many centroids codes of a number of bits can tell apart.
pub fn centroid_count(nbits: usize) -> (r: usize)
    requires
        1 <= nbits <= 8,
    ensures
        r == pow2(nbits as nat),
        2 <= r <= 256,
{
    proof {
        code_counts();
    }
    match nbits {
        1 => 2,
        2 => 4,
        3 => 8,
        4 => 16,
        5 => 32,
        6 => 64,
        7 => 128,
        _ => 256,
    }
}

/// How many bits the codes of a number of centroids have, if it is one.
pub fn code_bits(k: usize) -> (r: Option<usize>)
    ensures
        r is Some <==> is_code_count(k as int),
        r matches Some(b) ==> 1 <= b <= 8 && k == pow2(b as nat),
{
    proof {
        code_counts();
        assert forall|b: nat| 1 <= b <= 8 implies #[trigger] pow2(b) == 2 || pow2(b) == 4 || pow2(b)
            == 8 || pow2(b) == 16 || pow2(b) == 32 || pow2(b) == 64 || pow2(b) == 128 || pow2(b)
            == 256 by {
            if b == 1 {
            } else if b == 2 {
            } else if b == 3 {
            } else if b == 4 {
            } else if b == 5 {
            } else if b == 6 {
            } else if b == 7 {
            } else {
                assert(b == 8);
            }
        }
    }
    match k {
        2 => Some(1),
        4 => Some(2),
        8 => Some(3),
        16 => Some(4),
        32 => Some(5),
        64 => Some(6),
        128 => Some(7),
        256 => Some(8),
        _ => None,
    }
}

/// Product quantizer: a book of centroids for each part.
pub struct ProductQuantizer {
    dim: usize,
    m: usize,
    dsub: usize,
    k: usize,
    nbits: usize,
    codebooks: Vec<u32>,
}

impl View for ProductQuantizer {
    type V = QuantizerView;

    closed spec fn view(&self) -> QuantizerView {
        QuantizerView {
            dim: self.dim as int,
            m: self.m as int,
            nbits: self.nbits as nat,
            books: self.codebooks@,
        }
    }
}

impl ProductQuantizer {
    #[verifier::type_invariant]
    pub closed spec fn wf(self) -> bool {
        &&& self@.fits()
        &&& self.dsub == self@.dsub()
        &&& self.k == self@.k()
    }

    /// What holds of every quantizer.
    pub proof fn wf_means(self)
        requires
            self.wf(),
        ensures
            self@.fits(),
    {
    }

    /// The shape of a quantizer.
    proof fn shape(self)
        requires
            self.wf(),
        ensures
            self.dim == self.m * self.dsub,
            self.dsub > 0,
            2 <= self.k <= 256,
            self.m * self.k >= 0,
            self.codebooks@.len() == (self.m * self.k) * self.dsub,
            self.m * self.k <= self.codebooks@.len(),
    {
        code_counts();
        let b = self.nbits;
        assert(b == 1 || b == 2 || b == 3 || b == 4 || b == 5 || b == 6 || b == 7 || b == 8);
        row_count(self.dim as int, self.m as int);
        let (dim, m, dsub) = (self.dim as int, self.m as int, self.dsub as int);
        assert(dim == m * dsub && dsub > 0) by (nonlinear_arith)
            requires
                dsub * m == dim,
                dim > 0,
                m > 0,
                dsub >= 0,
        ;
        let rows = self.m * self.k;
        assert(rows >= 0) by (nonlinear_arith)
            requires
                rows == self.m * self.k,
        ;
        assert(rows <= rows * dsub) by (nonlinear_arith)
            requires
                rows >= 0,
                dsub >= 1,
        ;
    }

    /// The length of the vectors.
    pub fn dim(&self) -> (r: usize)
        ensures
            r == self@.dim,
            r > 0,
    {
        proof {
            use_type_invariant(self);
        }
        self.dim
    }

    /// How many parts a vector is cut into.
    pub fn m(&self) -> (r: usize)
        ensures
            r == self@.m,
            r > 0,
    {
        proof {
            use_type_invariant(self);
        }
        self.m
    }

    /// How many bits the code of a part has.
    pub fn nbits(&self) -> (r: usize)
        ensures
            r == self@.nbits,
            1 <= r <= 8,
    {
        proof {
            use_type_invariant(self);
        }
        self.nbits
    }

    /// The length of a part.
    pub fn dsub(&self) -> (r: usize)
        ensures
            r == self@.dsub(),
            r > 0,
    {
        proof {
            use_type_invariant(self);
            self.shape();
        }
        self.dsub
    }

    /// How many centroids there are for a part.
    pub fn k(&self) -> (r: usize)
        ensures
            r == self@.k(),
            2 <= r <= 256,
    {
        proof {
            use_type_invariant(self);
            self.shape();
        }
        self.k
    }

    /// The centroids, part by part.
    pub fn codebooks(&self) -> (r: &[u32])
        ensures
            r@ == self@.books,
    {
        self.codebooks.as_slice()
    }

    /// The quantizer with these parts, if they belong together.
    pub fn from_parts(dim: usize, m: usize, dsub: usize, k: usize, codebooks: Vec<u32>) -> (r: Option<
        Self,
    >)
        ensures
            r is Some <==> dim > 0 && m > 0 && dim % m == 0 && dsub == dim / m && is_code_count(
                k as int,
            ) && codebooks@.len() == k * dim && codebooks@.len() <= capacity(),
            r matches Some(x) ==> x@.fits() && x@.dim == dim && x@.m == m && x@.k() == k && x@.books
                == codebooks@,
    {
        let nbits: usize = match code_bits(k) {
            Some(b) => b,
            None => {
                return None;
            },
        };
        if dim == 0 || m == 0 || dim % m != 0 || dsub != dim / m {
            return None;
        }
        let len: usize = codebooks.len();
        proof {
            books_len(dim as int, m as int, k as int);
            rows_counted(k as int, dim as int);
        }
        if len > isize::MAX as usize / 4 || len % dim != 0 || len / dim != k {
            return None;
        }
        proof {
            row_count(len as int, dim as int);
        }
        Some(ProductQuantizer { dim, m, dsub, k, nbits, codebooks })
    }

    /// Trains a quantizer: clusters each part of the training vectors.
    pub fn train<A: Arithmetic>(training: &[u32], dim: usize, params: PqParams) -> (r: Self)
        requires
            dim > 0,
            params.m >= 1,
            dim % params.m == 0,
            1 <= params.nbits <= 8,
            training@.len() as int % dim as int == 0,
            training@.len() as int / dim as int >= pow2(params.nbits as nat),
            all_finite(training@),
            training@.len() <= capacity(),
        ensures
            r@.is_trained(training@, dim as int, params),
            r@.fits(),
            r@.books.len() == pow2(params.nbits as nat) * dim,
    {
        let m: usize = params.m;
        let k: usize = centroid_count(params.nbits);
        let dsub: usize = dim / m;
        let n_all: usize = training.len() / dim;
        proof {
            row_count(training@.len() as int, dim as int);
            row_count(dim as int, m as int);
            assert(dim == m * dsub && dsub > 0) by (nonlinear_arith)
                requires
                    dsub * m == dim,
                    dim > 0,
                    m > 0,
                    dsub >= 0,
            ;
        }
        let n: usize = if params.train_sample == 0 || params.train_sample >= n_all {
            n_all
        } else if params.train_sample < k {
            k
        } else {
            params.train_sample
        };
        let sample: Vec<usize> = draw_sample(n_all, n, params.seed);
        let learn = |sub: usize| -> (book: Vec<u32>)
            requires
                sub < m,
                dim == m * dsub,
                dsub > 0,
                0 < k <= n,
                n <= capacity(),
                sample@.len() == n,
                n_all * dim <= training@.len(),
                forall|i: int| 0 <= i < n ==> (#[trigger] sample@[i]) < n_all,
            ensures
                book@.len() == k * dsub,
                holds_rows(
                    book@,
                    dsub as int,
                    rounds(
                        parts(training@, dim as int, sample@, dsub as int, sub as int),
                        dsub as int,
                        k as int,
                        seed_of(params.seed, sub as int),
                        params.train_iters as int,
                    ).0,
                ),
            {
                let data: Vec<u32> = cut_out(training, dim, &sample, n_all, m, dsub, sub);
                proof {
                    assert(rows_of(data@, dsub as int, n as int) =~= parts(
                        training@,
                        dim as int,
                        sample@,
                        dsub as int,
                        sub as int,
                    ));
                }
                kmeans::<A>(
                    data.as_slice(),
                    n,
                    dsub,
                    k,
                    params.train_iters,
                    params.seed ^ (sub as u64).wrapping_mul(GOLDEN),
                )
            };
        let books: Vec<Vec<u32>> = par_map(m, learn);
        let ghost learned = |sub: int|
            rounds(
                parts(training@, dim as int, sample@, dsub as int, sub),
                dsub as int,
                k as int,
                seed_of(params.seed, sub),
                params.train_iters as int,
            ).0;
        proof {
            assert forall|sub: int| 0 <= sub < m implies (#[trigger] books@[sub])@.len() == k * dsub
                && holds_rows(books@[sub]@, dsub as int, learned(sub)) && learned(sub).len() == k by {
                let u = sub as usize;
                assert(call_ensures(learn, (u,), books@[u as int]));
                let points = parts(training@, dim as int, sample@, dsub as int, sub);
                assert forall|i: int| 0 <= i < points.len() implies (#[trigger] points[i]).len()
                    == dsub by {
                    row_fits(sample@[i] as int, n_all as int, dim as int);
                    row_fits(sub, m as int, dsub as int);
                }
                rounds_keep_shape(
                    points,
                    dsub as int,
                    k as int,
                    seed_of(params.seed, sub),
                    params.train_iters as int,
                );
            }
        }
        let codebooks: Vec<u32> = bind(&books, m, k, dsub, Ghost(learned));
        proof {
            books_len(dim as int, m as int, k as int);
            assert((m * k) * dsub == k * dim);
            assert(k * dim <= n_all * dim) by (nonlinear_arith)
                requires
                    k <= n_all,
                    dim >= 0,
            ;
        }
        let r = ProductQuantizer { dim, m, dsub, k, nbits: params.nbits, codebooks };
        proof {
            assert forall|sub: int, c: int| 0 <= sub < m && 0 <= c < k implies
                #[trigger] r@.centroid(sub, c) == learned(sub)[c] by {
                assert(row(codebooks@, dsub as int, sub * k + c) == learned(sub)[c]);
            }
        }
        r
    }

    /// Centroid `c` of part `sub`.
    fn centroid(&self, sub: usize, c: usize) -> (r: &[u32])
        requires
            sub < self@.m,
            c < self@.k(),
        ensures
            r@ == self@.centroid(sub as int, c as int),
            r@.len() == self@.dsub(),
    {
        proof {
            use_type_invariant(self);
            self.shape();
            row_fits(sub as int, self.m as int, self.k as int);
            row_fits((sub * self.k + c) as int, self.m * self.k, self.dsub as int);
        }
        row_at(self.codebooks.as_slice(), self.dsub, sub * self.k + c)
    }

    /// Writes the code of a vector.
    pub fn encode_into<A: Arithmetic>(&self, v: &[u32], out: &mut [u8])
        requires
            v@.len() >= self@.dim,
            old(out)@.len() >= self@.m,
        ensures
            final(out)@.len() == old(out)@.len(),
            final(out)@.take(self@.m) == self@.code(v@),
            forall|i: int|
                self@.m <= i < old(out)@.len() ==> #[trigger] final(out)@[i] == old(out)@[i],
    {
        proof {
            use_type_invariant(self);
            self.shape();
        }
        let ghost was = out@;
        let mut sub: usize = 0;
        while sub < self.m
            invariant
                sub <= self.m,
                self.wf(),
                self.dim == self.m * self.dsub,
                self.codebooks@.len() == (self.m * self.k) * self.dsub,
                self.m * self.k <= self.codebooks@.len(),
                2 <= self.k <= 256,
                v@.len() >= self.dim,
                out@.len() == was.len(),
                was.len() >= self.m,
                forall|i: int| 0 <= i < sub ==> #[trigger] out@[i] == self@.code_part(v@, i),
                forall|i: int| sub <= i < was.len() ==> #[trigger] out@[i] == was[i],
            decreases self.m - sub,
        {
            proof {
                row_fits(sub as int, self.m as int, self.dsub as int);
                row_fits(sub as int, self.m as int, self.k as int);
                assert((sub * self.k + self.k) * self.dsub <= (self.m * self.k) * self.dsub)
                    by (nonlinear_arith)
                    requires
                        sub * self.k + self.k <= self.m * self.k,
                        self.dsub >= 0,
                ;
            }
            let part: &[u32] = row_at(v, self.dsub, sub);
            let c: usize = closest_row::<A>(
                part,
                self.codebooks.as_slice(),
                self.dsub,
                sub * self.k,
                self.k,
            );
            out[sub] = c as u8;
            sub += 1;
        }
        assert(out@.take(self@.m) =~= self@.code(v@));
    }

    /// The code of a vector.
    pub fn encode<A: Arithmetic>(&self, v: &[u32]) -> (r: Vec<u8>)
        requires
            v@.len() >= self@.dim,
        ensures
            r@ == self@.code(v@),
            r@.len() == self@.m,
            forall|i: int| 0 <= i < r@.len() ==> (#[trigger] r@[i]) < self@.k(),
    {
        let m: usize = self.m();
        let mut out: Vec<u8> = vec![0; m];
        self.encode_into::<A>(v, out.as_mut_slice());
        proof {
            use_type_invariant(self);
            self.shape();
            assert(out@.take(self@.m) =~= out@);
            assert forall|i: int| 0 <= i < out@.len() implies (#[trigger] out@[i]) < self@.k() by {
                code_part_is_bounded(self@, v@, i);
            }
        }
        out
    }

    /// The key of each centroid of each part for a query.
    pub fn adc_table<A: Arithmetic>(&self, query: &[u32], metric: Metric) -> (r: Vec<u32>)
        requires
            query@.len() == self@.dim,
        ensures
            r@.len() == self@.m * self@.k(),
            forall|sub: int, c: int|
                0 <= sub < self@.m && 0 <= c < self@.k() ==> #[trigger] slot(
                    r@,
                    self@.k(),
                    sub,
                    c,
                ) == self@.table_entry(metric, query@, sub, c),
    {
        proof {
            use_type_invariant(self);
            self.shape();
        }
        let ghost k = self.k as int;
        let mut table: Vec<u32> = Vec::new();
        let mut sub: usize = 0;
        assert(0 * k == 0) by (nonlinear_arith);
        while sub < self.m
            invariant
                sub <= self.m,
                self.wf(),
                self.dim == self.m * self.dsub,
                query@.len() == self.dim,
                k == self.k,
                table@.len() == sub * k,
                forall|s: int, c: int|
                    0 <= s < sub && 0 <= c < k ==> #[trigger] slot(table@, k, s, c)
                        == self@.table_entry(metric, query@, s, c),
            decreases self.m - sub,
        {
            proof {
                row_fits(sub as int, self.m as int, self.dsub as int);
            }
            let part: &[u32] = row_at(query, self.dsub, sub);
            let mut c: usize = 0;
            while c < self.k
                invariant
                    sub < self.m,
                    c <= self.k,
                    self.wf(),
                    k == self.k,
                    part@ == self@.part(query@, sub as int),
                    part@.len() == self@.dsub(),
                    table@.len() == sub * k + c,
                    forall|s: int, j: int|
                        0 <= s < sub && 0 <= j < k ==> #[trigger] slot(table@, k, s, j)
                            == self@.table_entry(metric, query@, s, j),
                    forall|j: int|
                        0 <= j < c ==> #[trigger] slot(table@, k, sub as int, j)
                            == self@.table_entry(metric, query@, sub as int, j),
                decreases self.k - c,
            {
                let ghost before = table@;
                let x: u32 = key::<A>(metric, part, self.centroid(sub, c));
                table.push(x);
                proof {
                    assert forall|s: int, j: int| 0 <= s < sub && 0 <= j < k implies
                        #[trigger] slot(table@, k, s, j) == self@.table_entry(
                        metric,
                        query@,
                        s,
                        j,
                    ) by {
                        row_fits(s, sub as int, k);
                        assert(slot(before, k, s, j) == self@.table_entry(metric, query@, s, j));
                    }
                    assert forall|j: int| 0 <= j < c + 1 implies #[trigger] slot(
                        table@,
                        k,
                        sub as int,
                        j,
                    ) == self@.table_entry(metric, query@, sub as int, j) by {
                        assert(0 <= sub * k) by (nonlinear_arith)
                            requires
                                sub >= 0,
                                k >= 0,
                        ;
                        if j < c {
                            assert(slot(before, k, sub as int, j) == self@.table_entry(
                                metric,
                                query@,
                                sub as int,
                                j,
                            ));
                        }
                    }
                }
                c += 1;
            }
            assert((sub + 1) * k == sub * k + k) by (nonlinear_arith);
            sub += 1;
        }
        table
    }
}

/// Chooses the training vectors that are used.
fn draw_sample(n_all: usize, n: usize, seed: u64) -> (r: Vec<usize>)
    requires
        n_all > 0,
    ensures
        r@ == sampled(n_all as int, n as int, seed),
        r@.len() == n,
        forall|i: int| 0 <= i < n ==> (#[trigger] r@[i]) < n_all,
{
    let mut rng: SplitMix = SplitMix { state: seed };
    let mut r: Vec<usize> = Vec::new();
    let mut i: usize = 0;
    while i < n
        invariant
            i <= n,
            n_all > 0,
            n != n_all ==> rng.state == state_after(seed, i as nat),
            r@.len() == i,
            forall|j: int|
                0 <= j < i ==> #[trigger] r@[j] == sampled(n_all as int, n as int, seed)[j],
            forall|j: int| 0 <= j < i ==> (#[trigger] r@[j]) < n_all,
        decreases n - i,
    {
        if n == n_all {
            r.push(i);
        } else {
            r.push(rng.below(n_all));
        }
        i += 1;
    }
    assert(r@ =~= sampled(n_all as int, n as int, seed));
    r
}

/// Part `sub` of each training vector that is used, one after the other.
fn cut_out(
    training: &[u32],
    dim: usize,
    sample: &Vec<usize>,
    n_all: usize,
    m: usize,
    dsub: usize,
    sub: usize,
) -> (r: Vec<u32>)
    requires
        dim == m * dsub,
        dsub > 0,
        sub < m,
        n_all * dim <= training@.len(),
        forall|i: int| 0 <= i < sample@.len() ==> (#[trigger] sample@[i]) < n_all,
    ensures
        r@.len() == sample@.len() * dsub,
        forall|i: int|
            0 <= i < sample@.len() ==> row(r@, dsub as int, i) == #[trigger] parts(
                training@,
                dim as int,
                sample@,
                dsub as int,
                sub as int,
            )[i],
{
    let ghost goal = parts(training@, dim as int, sample@, dsub as int, sub as int);
    let ghost d = dsub as int;
    let mut r: Vec<u32> = Vec::new();
    let mut i: usize = 0;
    assert(0 * d == 0) by (nonlinear_arith);
    while i < sample.len()
        invariant
            i <= sample@.len(),
            d == dsub,
            dim == m * dsub,
            dsub > 0,
            sub < m,
            n_all * dim <= training@.len(),
            forall|i: int| 0 <= i < sample@.len() ==> (#[trigger] sample@[i]) < n_all,
            goal == parts(training@, dim as int, sample@, d, sub as int),
            r@.len() == i * d,
            forall|j: int| 0 <= j < i ==> row(r@, d, j) == #[trigger] goal[j],
        decreases sample@.len() - i,
    {
        proof {
            row_fits(sample@[i as int] as int, n_all as int, dim as int);
            row_fits(sub as int, m as int, d);
        }
        let v: &[u32] = row_at(row_at(training, dim, sample[i]), dsub, sub);
        let ghost before = r@;
        r.extend_from_slice(v);
        proof {
            assert(v@ == goal[i as int]);
            assert(r@ =~= before + v@);
            rows_counted(1, d);
            assert((i + 1) * d == i * d + d) by (nonlinear_arith);
            assert forall|j: int| 0 <= j < i + 1 implies row(r@, d, j) == #[trigger] goal[j] by {
                row_of_appended(before, v@, d, i as int, j);
                if j == i {
                    assert(row(v@, d, 0) =~= v@);
                }
            }
        }
        i += 1;
    }
    r
}

/// Puts the books of the parts one after the other.
fn bind(
    books: &Vec<Vec<u32>>,
    m: usize,
    k: usize,
    dsub: usize,
    Ghost(learned): Ghost<spec_fn(int) -> Seq<Seq<u32>>>,
) -> (r: Vec<u32>)
    requires
        dsub > 0,
        books@.len() == m,
        forall|sub: int|
            0 <= sub < m ==> (#[trigger] books@[sub])@.len() == k * dsub && holds_rows(
                books@[sub]@,
                dsub as int,
                learned(sub),
            ) && learned(sub).len() == k,
    ensures
        r@.len() == (m * k) * dsub,
        forall|sub: int, c: int|
            #![trigger learned(sub)[c]]
            0 <= sub < m && 0 <= c < k ==> row(r@, dsub as int, sub * k + c) == learned(sub)[c],
{
    let ghost d = dsub as int;
    let mut r: Vec<u32> = Vec::new();
    let mut sub: usize = 0;
    assert((0 * k) * d == 0) by (nonlinear_arith);
    while sub < m
        invariant
            sub <= m,
            d == dsub,
            dsub > 0,
            books@.len() == m,
            forall|sub: int|
                0 <= sub < m ==> (#[trigger] books@[sub])@.len() == k * dsub && holds_rows(
                    books@[sub]@,
                    dsub as int,
                    learned(sub),
                ) && learned(sub).len() == k,
            r@.len() == (sub * k) * d,
            forall|s: int, c: int|
                #![trigger learned(s)[c]]
                0 <= s < sub && 0 <= c < k ==> row(r@, d, s * k + c) == learned(s)[c],
        decreases m - sub,
    {
        let ghost before = r@;
        let book: &Vec<u32> = &books[sub];
        r.extend_from_slice(book.as_slice());
        proof {
            assert(book@.len() == k * d);
            assert(r@ =~= before + book@);
            rows_counted(k as int, d);
            assert(((sub + 1) * k) * d == (sub * k) * d + k * d) by (nonlinear_arith);
            assert(0 <= sub * k) by (nonlinear_arith);
            assert forall|s: int, c: int|
                #![trigger learned(s)[c]]
                0 <= s < sub + 1 && 0 <= c < k implies row(r@, d, s * k + c) == learned(s)[c] by {
                assert(0 <= s * k) by (nonlinear_arith)
                    requires
                        s >= 0,
                ;
                if s < sub {
                    row_fits(s, sub as int, k as int);
                    row_of_appended(before, book@, d, sub * k, s * k + c);
                } else {
                    row_of_appended(before, book@, d, sub * k, s * k + c);
                    assert(row(book@, d, c) == learned(s)[c]);
                }
            }
        }
        sub += 1;
    }
    r
}

/// The code of a part names a centroid.
pub proof fn code_part_is_bounded(q: QuantizerView, v: Seq<u32>, sub: int)
    requires
        q.fits(),
    ensures
        0 <= q.code_part(v, sub) < q.k(),
        q.code_part(v, sub) == closest(
            distances(q.part(v, sub), q.books, q.dsub(), sub * q.k()),
            q.k(),
        ),
{
    code_counts();
    let b = q.nbits;
    assert(b == 1 || b == 2 || b == 3 || b == 4 || b == 5 || b == 6 || b == 7 || b == 8);
    closest_is_least(distances(q.part(v, sub), q.books, q.dsub(), sub * q.k()), q.k());
}

/// The code of a part names a centroid that no other is nearer than, unless all are too far
/// for a finite number; of those equally near it is the first.
pub proof fn code_names_nearest_centroid(q: QuantizerView, v: Seq<u32>, sub: int, c: int)
    requires
        q.fits(),
        0 <= sub < q.m,
        0 <= c < q.k(),
    ensures
        ({
            let d = |c: int| l2_sqr_of(q.part(v, sub), q.centroid(sub, c));
            let best = q.code_part(v, sub) as int;
            &&& best < q.k()
            &&& lt(d(c), MAX) ==> !lt(d(c), d(best))
            &&& lt(d(c), MAX) && c < best ==> lt(d(best), d(c))
        }),
{
    code_part_is_bounded(q, v, sub);
    let keys = distances(q.part(v, sub), q.books, q.dsub(), sub * q.k());
    closest_is_least(keys, q.k());
    let best = q.code_part(v, sub) as int;
    assert(keys(c) == l2_sqr_of(q.part(v, sub), q.centroid(sub, c)));
    assert(keys(best) == l2_sqr_of(q.part(v, sub), q.centroid(sub, best)));
    assert(!lt(keys(c), least_key(keys, q.k())));
}

/// A number of centroids belongs to one number of bits.
pub proof fn codes_differ()
    ensures
        forall|a: nat, b: nat|
            1 <= a <= 8 && 1 <= b <= 8 && #[trigger] pow2(a) == #[trigger] pow2(b) ==> a == b,
{
    code_counts();
    assert forall|a: nat, b: nat|
        1 <= a <= 8 && 1 <= b <= 8 && #[trigger] pow2(a) == #[trigger] pow2(b) implies a == b by {
        assert(a == 1 || a == 2 || a == 3 || a == 4 || a == 5 || a == 6 || a == 7 || a == 8);
        assert(b == 1 || b == 2 || b == 3 || b == 4 || b == 5 || b == 6 || b == 7 || b == 8);
    }
}

/// How long the books are together.
pub proof fn books_len(dim: int, m: int, k: int)
    requires
        m > 0,
        dim > 0,
        dim % m == 0,
        k >= 0,
    ensures
        m * k * (dim / m) == k * dim,
        k * dim >= 0,
{
    row_count(dim, m);
    let d = dim / m;
    assert(m * k * d == k * dim) by (nonlinear_arith)
        requires
            d * m == dim,
    ;
    assert(k * dim >= 0) by (nonlinear_arith)
        requires
            k >= 0,
            dim >= 0,
    ;
}

} // verus!
