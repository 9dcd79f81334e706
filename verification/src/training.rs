//! What training a quantizer comes to.

use vstd::arithmetic::div_mod::{lemma_fundamental_div_mod, lemma_mod_bound};
use vstd::arithmetic::power2::{
    lemma2_to64, lemma2_to64_rest, lemma_pow2_adds, lemma_pow2_pos, lemma_pow2_strictly_increases,
    pow2,
};
use vstd::prelude::*;
use crate::arith::{
    exponent, is_product, is_quotient, is_whole, nearest, nearest_unique, product, product_is,
    quotient, quotient_is, significand, unit, units, units_increase, units_of_zero, units_step,
    value, whole, whole_is,
};
use crate::binary32::{finite, ge, lt, magnitude, nan, negative, INFINITY, MAX, ONE, SIGN};
use crate::distance::l2_sqr_of;
use crate::geometry::{nearest_exists, one_is_small, product_exists};
use crate::integral::{
    added_up, fewer_are_less, int_means, is_int, magnitude_of, nearest_is_exact, scaled, size,
    sizes, sizes_bound, sum_is_exact, zero_is_int, EXACT,
};
use crate::kmeans::{
    assignment, closest, closest_is_least, count_of, deserted, distances, least_key, rounds,
    rounds_keep_shape, shuffled, shuffled_is_distinct, sum_of,
};
use crate::pq::{code_at, coded, PqView};
use crate::quantizer::{code_counts, parts, sample_size, sampled, PqParams, QuantizerView};
use crate::rng::{draw, draws_go_on, state_after};
use crate::rows::{row, row_count, row_fits, rows_counted};

verus! {

/// The training vectors that draws name, one after the other: draw `i` of the generator, modulo
/// the number of vectors, names the `i`th.
pub open spec fn drawn(training: Seq<u32>, dim: int, n_all: int, n: int, seed: u64) -> Seq<u32> {
    Seq::new(
        (n * dim) as nat,
        |p: int| training[(draw(seed, (p / dim) as nat) as int % n_all) * dim + p % dim],
    )
}

/// Training with fewer vectors than there are is training with those that the draws name: as many
/// as were asked for, but no fewer than there are centroids.
#[verifier::rlimit(40)]
pub proof fn training_with_a_sample(
    v: QuantizerView,
    training: Seq<u32>,
    dim: int,
    p: PqParams,
    n: int,
)
    requires
        dim > 0,
        p.m >= 1,
        dim % p.m as int == 0,
        training.len() as int % dim == 0,
        p.train_sample > 0,
        n == if p.train_sample < pow2(p.nbits as nat) {
            pow2(p.nbits as nat) as int
        } else {
            p.train_sample as int
        },
        n < training.len() as int / dim,
        training.len() <= usize::MAX,
        v.is_trained(training, dim, p),
    ensures
        v.is_trained(
            drawn(training, dim, training.len() as int / dim, n, p.seed),
            dim,
            PqParams { train_sample: 0, ..p },
        ),
{
    let n_all = training.len() as int / dim;
    row_count(training.len() as int, dim);
    let all = drawn(training, dim, n_all, n, p.seed);
    let q = PqParams { train_sample: 0, ..p };
    rows_counted(n, dim);
    lemma_pow2_pos(p.nbits as nat);
    assert(all.len() == n * dim);
    let (s, t) = (sampled(n_all, n, p.seed), sampled(n, n, p.seed));
    assert(sample_size(p, v.k(), n_all) == n);
    assert(sample_size(q, v.k(), n) == n);
    assert forall|i: int| 0 <= i < n implies #[trigger] row(all, dim, i) == row(
        training,
        dim,
        s[i] as int,
    ) by {
        let x = draw(p.seed, i as nat) as int % n_all;
        lemma_mod_bound(draw(p.seed, i as nat) as int, n_all);
        row_fits(i, n, dim);
        row_fits(x, n_all, dim);
        let (a, b) = (row(all, dim, i), row(training, dim, x));
        assert forall|j: int| 0 <= j < dim implies a[j] == b[j] by {
            let at = i * dim + j;
            assert(at / dim == i && at % dim == j) by (nonlinear_arith)
                requires
                    at == i * dim + j,
                    0 <= j < dim,
                    i >= 0,
            ;
        }
        assert(a =~= b);
    }
    assert forall|sub: int| #[trigger] parts(all, dim, t, v.dsub(), sub) == parts(
        training,
        dim,
        s,
        v.dsub(),
        sub,
    ) by {
        let (a, b) = (parts(all, dim, t, v.dsub(), sub), parts(training, dim, s, v.dsub(), sub));
        assert forall|i: int| 0 <= i < a.len() implies a[i] == b[i] by {
            assert(t[i] == i);
            assert(row(all, dim, i) == row(training, dim, s[i] as int));
        }
        assert(a =~= b);
    }
}

/// Part `sub` of training vector `i`, for each `i`.
pub open spec fn pieces(training: Seq<u32>, dim: int, m: int, sub: int) -> Seq<Seq<u32>> {
    let d = dim / m;
    Seq::new(
        (training.len() as int / dim) as nat,
        |i: int| training.subrange(i * dim + sub * d, i * dim + sub * d + d),
    )
}

/// Training with all vectors clusters each part of them by itself, in all the rounds that were
/// asked for: the centroids of a part are the ones found for that part of each vector.
pub proof fn training_clusters_each_part(
    v: QuantizerView,
    training: Seq<u32>,
    dim: int,
    p: PqParams,
    sub: int,
    c: int,
)
    requires
        v.fits(),
        dim > 0,
        training.len() as int % dim == 0,
        p.train_sample == 0,
        training.len() <= usize::MAX,
        v.is_trained(training, dim, p),
        0 <= sub < p.m,
        0 <= c < pow2(p.nbits as nat),
    ensures
        ({
            let d = dim / p.m as int;
            let k = pow2(p.nbits as nat) as int;
            let at = (sub * k + c) * d;
            v.books.subrange(at, at + d) == rounds(
                pieces(training, dim, p.m as int, sub),
                d,
                k,
                p.seed ^ ((sub * 0x9E37_79B9_7F4A_7C15) % 0x1_0000_0000_0000_0000) as u64,
                p.train_iters as int,
            ).0[c]
        }),
{
    let d = dim / p.m as int;
    let n_all = training.len() as int / dim;
    let m = p.m as int;
    row_count(training.len() as int, dim);
    row_count(dim, m);
    assert(m * d == dim) by (nonlinear_arith)
        requires
            d * m == dim,
    ;
    let s = sampled(n_all, n_all, p.seed);
    let (a, b) = (parts(training, dim, s, d, sub), pieces(training, dim, m, sub));
    assert forall|i: int| 0 <= i < a.len() implies a[i] == b[i] by {
        assert(s[i] == i);
        row_fits(i, n_all, dim);
        row_fits(sub, m, d);
        assert(a[i] =~= b[i]);
    }
    assert(a =~= b);
    assert(v.centroid(sub, c) == v.books.subrange((sub * v.k() + c) * d, (sub * v.k() + c) * d + d));
}

/// Where the start of clustering looks for its centroid `c`: among the places not yet passed.
pub open spec fn start_place(n: int, seed: u64, c: int) -> int {
    c + draw(seed, c as nat) as int % (n - c)
}

proof fn untouched(n: int, seed: u64, c: int, i: int)
    requires
        0 <= c <= i < n,
        forall|b: int| 0 <= b < c ==> #[trigger] start_place(n, seed, b) != i,
    ensures
        shuffled(n, seed, c)[i] == i,
    decreases c,
{
    if c > 0 {
        untouched(n, seed, c - 1, i);
        shuffled_is_distinct(n, seed, c - 1);
        assert(start_place(n, seed, c - 1) != i);
        lemma_mod_bound(draw(seed, (c - 1) as nat) as int, n - (c - 1));
    }
}

proof fn places_passed_stay(n: int, seed: u64, c: int, k: int)
    requires
        0 <= c < k <= n,
    ensures
        shuffled(n, seed, k)[c] == shuffled(n, seed, c + 1)[c],
    decreases k,
{
    if c + 1 < k {
        places_passed_stay(n, seed, c, k - 1);
        shuffled_is_distinct(n, seed, k - 1);
        lemma_mod_bound(draw(seed, (k - 1) as nat) as int, n - (k - 1));
    }
}

/// Clustering starts from points at different places. Draw `c` names the place of the start of
/// centroid `c`, unless it was named before.
pub proof fn clustering_starts_from_points(
    points: Seq<Seq<u32>>,
    d: int,
    k: int,
    seed: u64,
) -> (at: Seq<int>)
    requires
        0 < k <= points.len(),
    ensures
        at.len() == k,
        at.no_duplicates(),
        forall|c: int|
            0 <= c < k ==> 0 <= #[trigger] at[c] < points.len() && rounds(
                points,
                d,
                k,
                seed,
                0,
            ).0[c] == points[at[c]],
        forall|c: int|
            0 <= c < k && (forall|b: int|
                0 <= b < c ==> #[trigger] start_place(points.len() as int, seed, b) != start_place(
                    points.len() as int,
                    seed,
                    c,
                )) ==> #[trigger] at[c] == start_place(points.len() as int, seed, c),
{
    let n = points.len() as int;
    let all = shuffled(n, seed, k);
    let at = all.take(k);
    shuffled_is_distinct(n, seed, k);
    assert forall|c: int| 0 <= c < k implies 0 <= #[trigger] at[c] < n && rounds(
        points,
        d,
        k,
        seed,
        0,
    ).0[c] == points[at[c]] by {
        assert(0 <= all[c] < n);
    }
    assert forall|c: int|
        0 <= c < k && (forall|b: int|
            0 <= b < c ==> #[trigger] start_place(n, seed, b) != start_place(
                n,
                seed,
                c,
            )) implies #[trigger] at[c] == start_place(n, seed, c) by {
        let i = start_place(n, seed, c);
        lemma_mod_bound(draw(seed, c as nat) as int, n - c);
        untouched(n, seed, c, i);
        places_passed_stay(n, seed, c, k);
        shuffled_is_distinct(n, seed, c);
    }
    at
}

/// A centroid is the first of those that no other is nearer to a point than.
pub open spec fn is_nearest(point: Seq<u32>, centroids: Seq<Seq<u32>>, b: int) -> bool {
    &&& 0 <= b < centroids.len()
    &&& lt(l2_sqr_of(point, centroids[b]), MAX)
    &&& forall|c: int|
        0 <= c < centroids.len() ==> !lt(
            l2_sqr_of(point, #[trigger] centroids[c]),
            l2_sqr_of(point, centroids[b]),
        )
    &&& forall|c: int|
        0 <= c < b ==> !ge(
            l2_sqr_of(point, centroids[b]),
            l2_sqr_of(point, #[trigger] centroids[c]),
        )
}

proof fn least_is_a_number(keys: spec_fn(int) -> u32, n: int)
    ensures
        !nan(least_key(keys, n)),
    decreases n,
{
    if n > 0 {
        least_is_a_number(keys, n - 1);
    }
}

/// A point is with the nearest centroid.
proof fn assigned_to_nearest(points: Seq<Seq<u32>>, centroids: Seq<Seq<u32>>, i: int, b: int)
    requires
        0 <= i < points.len(),
        is_nearest(points[i], centroids, b),
    ensures
        assignment(points, centroids)[i] == b,
{
    let keys = |c: int| l2_sqr_of(points[i], centroids[c]);
    let n = centroids.len() as int;
    closest_is_least(keys, n);
    least_is_a_number(keys, n);
    let e = closest(keys, n);
    assert(!lt(keys(b), least_key(keys, n)));
    assert(!lt(l2_sqr_of(points[i], centroids[e]), l2_sqr_of(points[i], centroids[b])));
    if e < b {
        assert(!ge(l2_sqr_of(points[i], centroids[b]), l2_sqr_of(points[i], centroids[e])));
    } else if b < e {
        assert(nan(keys(b)) || lt(least_key(keys, n), keys(b)));
    }
}

/// The inverse of a power of two is exact.
proof fn inverse_of_power(e: nat)
    requires
        e < 64,
    ensures
        ({
            let r = quotient(ONE, whole(pow2(e) as u64));
            &&& finite(r)
            &&& !negative(r)
            &&& units(magnitude(r)) == pow2((149 - e) as nat)
        }),
{
    lemma2_to64();
    lemma_pow2_pos(e);
    lemma_pow2_pos(149);
    assert(pow2(e) <= pow2(63)) by {
        if e < 63 {
            lemma_pow2_strictly_increases(e, 63);
        }
    }
    assert(pow2(63) <= u64::MAX) by {
        lemma2_to64_rest();
    }
    let u = unit();
    let n = pow2(e) as u64;
    assert(1 * pow2(0) == 1);
    let a = scaled(1, 0, (149 + e) as nat);
    lemma_pow2_adds(e, 149);
    let w = a as u32;
    assert(magnitude(w) == a);
    nearest_is_exact(1, a);
    assert(1 * units(a) == units(a));
    assert(is_whole(n, w));
    whole_is(n, w);
    let one = scaled(1, 0, 149);
    assert(units(ONE as int) == u) by {
        lemma_pow2_adds(23, 126);
        assert(exponent(ONE as int) == 126);
        assert(significand(ONE as int) == 0x80_0000);
        assert(pow2(23) == 0x80_0000);
    }
    let b = scaled(1, 0, (149 - e) as nat);
    let r = b as u32;
    assert(magnitude(r) == b);
    lemma_pow2_adds((149 + e) as nat, (149 - e) as nat);
    lemma_pow2_adds(149, 149);
    assert(((149 + e) as nat + (149 - e) as nat) as nat == 298nat);
    lemma_pow2_pos((149 + e) as nat);
    nearest_is_exact(units(a), b);
    assert(is_quotient(ONE, w, r));
    quotient_is(ONE, w, r);
}

/// A whole number divided by a power of two is exact.
proof fn share_is_exact(a: u32, x: int, e: nat)
    requires
        is_int(a, x),
        size(x) < EXACT,
        e < 64,
    ensures
        ({
            let r = product(a, quotient(ONE, whole(pow2(e) as u64)));
            finite(r) && value(r) * pow2(e) == x * unit()
        }),
{
    inverse_of_power(e);
    int_means(a, x);
    lemma2_to64();
    lemma_pow2_pos(149);
    lemma_pow2_pos(e);
    let q = quotient(ONE, whole(pow2(e) as u64));
    let u = unit();
    let h = pow2((149 - e) as nat) as int;
    let p = pow2(e) as int;
    lemma_pow2_adds(e, (149 - e) as nat);
    assert(p * h == u);
    let n = size(x);
    let m = if n == 0 {
        0
    } else {
        assert(n * pow2(0) == n);
        scaled(n, 0, (149 - e) as nat)
    };
    units_of_zero();
    assert(n == 0 ==> n * h == 0) by (nonlinear_arith);
    assert(units(m) == n * h);
    let r = if negative(a) {
        (m + SIGN) as u32
    } else {
        m as u32
    };
    assert(magnitude(r) == m);
    assert((n * u) * h == u * (n * h)) by (nonlinear_arith);
    nearest_is_exact(u, m);
    assert(is_product(a, q, r));
    product_is(a, q, r);
    assert((n * h) * p == n * u) by (nonlinear_arith)
        requires
            p * h == u,
    ;
    assert((-(n * h)) * p == -((n * h) * p)) by (nonlinear_arith);
    assert((-n) * u == -(n * u)) by (nonlinear_arith);
    assert(value(r) * p == x * u) by {
        if x == 0 {
            assert(x * u == 0) by (nonlinear_arith)
                requires
                    x == 0,
            ;
            assert(0 * p == 0);
            assert(value(r) == 0);
        }
    }
}

/// One for each point that is with centroid `c`.
pub open spec fn members(assign: Seq<int>, c: int) -> spec_fn(int) -> int {
    |i: int|
        if assign[i] == c {
            1int
        } else {
            0
        }
}

/// Coordinate `t` of each point that is with centroid `c`.
pub open spec fn shares(x: Seq<Seq<int>>, assign: Seq<int>, c: int, t: int) -> spec_fn(int) -> int {
    |i: int|
        if assign[i] == c {
            x[i][t]
        } else {
            0
        }
}

proof fn members_are_counted(assign: Seq<int>, c: int, n: int)
    requires
        n >= 0,
    ensures
        count_of(assign, c, n) == added_up(members(assign, c), n),
        0 <= count_of(assign, c, n) <= n,
    decreases n,
{
    if n > 0 {
        members_are_counted(assign, c, n - 1);
    }
}

proof fn shares_add_up(
    points: Seq<Seq<u32>>,
    x: Seq<Seq<int>>,
    assign: Seq<int>,
    c: int,
    t: int,
    n: int,
    all: int,
)
    requires
        0 <= n <= all,
        forall|i: int| 0 <= i < all ==> is_int(#[trigger] points[i][t], x[i][t]),
        added_up(sizes(shares(x, assign, c, t)), all) < EXACT,
    ensures
        is_int(sum_of(points, assign, c, t, n), added_up(shares(x, assign, c, t), n)),
    decreases n,
{
    let f = shares(x, assign, c, t);
    sizes_bound(f, n);
    fewer_are_less(sizes(f), n, all);
    if n > 0 {
        shares_add_up(points, x, assign, c, t, n - 1, all);
        assert(is_int(points[n - 1][t], x[n - 1][t]));
        if assign[n - 1] == c {
            sum_is_exact(
                sum_of(points, assign, c, t, n - 1),
                points[n - 1][t],
                added_up(f, n - 1),
                x[n - 1][t],
            );
        }
    } else {
        zero_is_int(0);
    }
}

/// Each round of clustering moves a centroid to the mean of the points that it is the nearest
/// to: where these are whole numbers that are not too large, and their count is a power of two,
/// exactly. It is so in every round, for every centroid and every coordinate.
pub proof fn rounds_move_to_means(
    points: Seq<Seq<u32>>,
    d: int,
    k: int,
    seed: u64,
    iters: int,
    assign: Seq<int>,
    x: Seq<Seq<int>>,
    c: int,
    t: int,
    e: nat,
)
    requires
        0 < k <= points.len(),
        forall|i: int| 0 <= i < points.len() ==> (#[trigger] points[i]).len() == d,
        iters >= 0,
        assign.len() == points.len(),
        forall|i: int|
            0 <= i < points.len() ==> is_nearest(
                points[i],
                rounds(points, d, k, seed, iters).0,
                #[trigger] assign[i],
            ),
        0 <= c < k,
        0 <= t < d,
        e < 64,
        added_up(members(assign, c), points.len() as int) == pow2(e),
        forall|i: int| 0 <= i < points.len() ==> is_int(#[trigger] points[i][t], x[i][t]),
        added_up(sizes(shares(x, assign, c, t)), points.len() as int) < EXACT,
    ensures
        ({
            let r = rounds(points, d, k, seed, iters + 1).0[c][t];
            finite(r) && value(r) * pow2(e) == added_up(
                shares(x, assign, c, t),
                points.len() as int,
            ) * unit()
        }),
{
    let n = points.len() as int;
    let from = rounds(points, d, k, seed, iters);
    rounds_keep_shape(points, d, k, seed, iters);
    assert forall|i: int| 0 <= i < n implies assignment(points, from.0)[i] == assign[i] by {
        assert(is_nearest(points[i], from.0, assign[i]));
        assigned_to_nearest(points, from.0, i, assign[i]);
    }
    assert(assignment(points, from.0) =~= assign);
    members_are_counted(assign, c, n);
    lemma_pow2_pos(e);
    shares_add_up(points, x, assign, c, t, n, n);
    sizes_bound(shares(x, assign, c, t), n);
    share_is_exact(
        sum_of(points, assign, c, t, n),
        added_up(shares(x, assign, c, t), n),
        e,
    );
}

/// The magnitude next to a fraction is off by no more than one part in two to the 24th, unless it
/// is very small.
proof fn rounding_is_small(num: int, den: int, m: int)
    requires
        den > 0,
        nearest(num, den, m),
        0x80_0000 <= m < INFINITY,
    ensures
        0x100_0000 * size(num - den * units(m)) <= den * units(m),
        units(m) > 0,
{
    let u = units(m);
    let e = exponent(m);
    let p = pow2(e) as int;
    lemma_pow2_pos(e);
    units_step(m);
    units_step(m - 1);
    let q = pow2(exponent(m - 1)) as int;
    lemma_pow2_pos(exponent(m - 1));
    assert(q <= p) by {
        if exponent(m - 1) < e {
            lemma_pow2_strictly_increases(exponent(m - 1), e);
        }
    }
    let s = significand(m);
    assert(0x80_0000 * p <= u) by (nonlinear_arith)
        requires
            u == s * p,
            s >= 0x80_0000,
            p > 0,
    ;
    assert(den * (u + (u + p)) == 2 * (den * u) + den * p && den * ((u - q) + u) == 2 * (den * u)
        - den * q && den * q <= den * p && 0x80_0000 * (den * p) <= den * u) by (nonlinear_arith)
        requires
            den > 0,
            q <= p,
            0x80_0000 * p <= u,
    ;
}

/// The smallest number with a full significand.
proof fn smallest_normal()
    ensures
        units(0x80_0000) == 0x80_0000,
{
    lemma2_to64();
    let p = pow2(exponent(0x80_0000)) as int;
    let s = significand(0x80_0000);
    assert(exponent(0x80_0000) == 0);
    assert(s == 0x80_0000);
    assert(p == 1);
    assert(s * p == 0x80_0000) by (nonlinear_arith)
        requires
            s == 0x80_0000,
            p == 1,
    ;
}

/// One divided by a count is off by little.
proof fn inverse_is_near(n: int)
    requires
        0 < n < EXACT,
    ensures
        ({
            let r = quotient(ONE, whole(n as u64));
            let q = units(magnitude(r));
            &&& finite(r)
            &&& !negative(r)
            &&& q > 0
            &&& 0x100_0000 * size(unit() - n * q) <= n * q
        }),
{
    let u = unit();
    lemma_pow2_pos(149);
    lemma2_to64();
    units_of_zero();
    let a = magnitude_of(n);
    let w = a as u32;
    assert(magnitude(w) == a);
    nearest_is_exact(1, a);
    assert(1 * units(a) == units(a));
    assert(is_whole(n as u64, w));
    whole_is(n as u64, w);
    assert(units(ONE as int) == u) by {
        lemma_pow2_adds(23, 126);
        assert(exponent(ONE as int) == 126);
        assert(significand(ONE as int) == 0x80_0000);
        assert(pow2(23) == 0x80_0000);
    }
    let den = n * u;
    let num = u * u;
    assert(den > 0 && num > 0) by (nonlinear_arith)
        requires
            n > 0,
            u > 0,
            den == n * u,
            num == u * u,
    ;
    nearest_exists(num, den);
    let m = choose|m: int| nearest(num, den, m);
    let r = m as u32;
    assert(magnitude(r) == m);
    assert(is_quotient(ONE, w, r));
    quotient_is(ONE, w, r);
    one_is_small();
    if m == INFINITY {
        let s = units(m - 1) + units(m);
        units_step(m - 1);
        assert(den * s >= 4 * num) by (nonlinear_arith)
            requires
                den == n * u,
                num == u * u,
                s >= 4 * u,
                n >= 1,
                u > 0,
        ;
    }
    if m < 0x80_0000 {
        let s = units(m) + units(m + 1);
        units_increase(m, 0x80_0000);
        if m + 1 < 0x80_0000 {
            units_increase(m + 1, 0x80_0000);
        }
        smallest_normal();
        lemma_pow2_adds(60, 89);
        lemma_pow2_pos(89);
        lemma2_to64_rest();
        assert(pow2(60) == 0x1000_0000_0000_0000);
        let h = pow2(89) as int;
        assert(u >= 0x1000_0000_0000_0000) by (nonlinear_arith)
            requires
                u == 0x1000_0000_0000_0000 * h,
                h >= 1,
        ;
        assert(2 * num > den * s) by (nonlinear_arith)
            requires
                num == u * u,
                den == n * u,
                0 <= s <= 0x100_0000,
                0 < n < 0x100_0000,
                u >= 0x1000_0000_0000_0000,
        ;
    }
    rounding_is_small(num, den, m);
    let q = units(m);
    let d = u - n * q;
    assert(num - den * q == u * d && den * q == u * (n * q)) by (nonlinear_arith)
        requires
            num == u * u,
            den == n * u,
            d == u - n * q,
    ;
    assert(size(u * d) == u * size(d)) by (nonlinear_arith)
        requires
            u > 0,
    ;
    let (x, y) = (size(d), n * q);
    assert(0x100_0000 * x <= y) by (nonlinear_arith)
        requires
            0x100_0000 * (u * x) <= u * y,
            u > 0,
    ;
}

/// A whole number divided by a count, by way of the inverse, is off by no more than one part in
/// four million.
#[verifier::rlimit(40)]
proof fn share_is_near(a: u32, x: int, n: int)
    requires
        is_int(a, x),
        size(x) < EXACT,
        0 < n < EXACT,
    ensures
        ({
            let r = product(a, quotient(ONE, whole(n as u64)));
            finite(r) && 0x40_0000 * size(value(r) * n - x * unit()) <= size(x) * unit()
        }),
{
    inverse_is_near(n);
    int_means(a, x);
    lemma2_to64();
    lemma_pow2_pos(149);
    units_of_zero();
    product_exists(a, quotient(ONE, whole(n as u64)));
    let c = quotient(ONE, whole(n as u64));
    let r = product(a, c);
    let u = unit();
    let q = units(magnitude(c));
    let s = size(x);
    let top = s * u;
    let num = top * q;
    let m = magnitude(r);
    assert(nearest(num, u, m));
    if x == 0 {
        assert(num == 0) by (nonlinear_arith)
            requires
                num == (s * u) * q,
                s == 0,
        ;
        nearest_is_exact(u, 0);
        assert(u * units(0) == 0) by (nonlinear_arith)
            requires
                units(0) == 0,
        ;
        nearest_unique(num, u, m, 0);
        assert(value(r) == 0);
        assert(0 * n == 0 && x * u == 0 && s * u == 0) by (nonlinear_arith)
            requires
                x == 0,
                s == 0,
        ;
    } else {
        lemma_pow2_adds(60, 89);
        lemma_pow2_adds(30, 59);
        lemma_pow2_pos(89);
        lemma_pow2_pos(59);
        lemma2_to64_rest();
        let h = pow2(89) as int;
        assert(pow2(60) == 0x1000_0000_0000_0000);
        assert(h >= 0x4000_0000) by (nonlinear_arith)
            requires
                h == pow2(30) as int * pow2(59) as int,
                pow2(30) == 0x4000_0000,
                pow2(59) >= 1,
        ;
        // the inverse is between half and twice what it should be
        assert(u <= 2 * (n * q) && n * q <= 2 * u);
        assert(num >= u * 0x4000_0000) by (nonlinear_arith)
            requires
                num == (s * u) * q,
                s >= 1,
                u <= 2 * (n * q),
                0 < n < 0x100_0000,
                u == 0x1000_0000_0000_0000 * h,
                h >= 0x4000_0000,
                q > 0,
        ;
        if m < 0x80_0000 {
            let t = units(m) + units(m + 1);
            units_increase(m, 0x80_0000);
            if m + 1 < 0x80_0000 {
                units_increase(m + 1, 0x80_0000);
            }
            smallest_normal();
            assert(2 * num > u * t) by (nonlinear_arith)
                requires
                    num >= u * 0x4000_0000,
                    0 <= t <= 0x100_0000,
                    u > 0,
            ;
        }
        if m == INFINITY {
            let t = units(m - 1) + units(m);
            units_step(m - 1);
            far_is_large();
            assert(q <= 2 * u) by (nonlinear_arith)
                requires
                    n * q <= 2 * u,
                    n >= 1,
                    q > 0,
            ;
            assert(2 * num < u * t) by (nonlinear_arith)
                requires
                    num == (s * u) * q,
                    0 < s < 0x100_0000,
                    0 < q <= 2 * u,
                    t >= 0x1000_0000 * u,
                    u > 0,
            ;
        }
        rounding_is_small(num, u, m);
        let w = units(m);
        let y = w * n;
        let d = num - u * w;
        let e = u - n * q;
        // num and u * w, top and n * w
        assert(u * (y - top) == -(n * d) - top * e) by (nonlinear_arith)
            requires
                d == (top * q) - u * w,
                e == u - n * q,
                y == w * n,
        ;
        assert(size(n * d) == n * size(d) && size(top * e) == top * size(e)) by (nonlinear_arith)
            requires
                n > 0,
                top >= 0,
        ;
        assert(top > 0) by (nonlinear_arith)
            requires
                top == s * u,
                s >= 1,
                u > 0,
        ;
        let (sd, se) = (size(d), size(e));
        assert(0x100_0000 * (n * sd) <= n * (u * w) && 0x100_0000 * (top * se) <= top * (n * q)
            && top * (n * q) <= top * (2 * u) && n * (u * w) == u * y && top * (2 * u) == u * (2
            * top)) by (nonlinear_arith)
            requires
                0x100_0000 * sd <= u * w,
                0x100_0000 * se <= n * q,
                n * q <= 2 * u,
                n > 0,
                top > 0,
                y == w * n,
        ;
        let z = size(y - top);
        assert(u * z == size(u * (y - top))) by (nonlinear_arith)
            requires
                u > 0,
                z == size(y - top),
        ;
        assert(0x100_0000 * (u * z) <= u * y + u * (2 * top));
        assert(0x100_0000 * z <= y + 2 * top) by (nonlinear_arith)
            requires
                0x100_0000 * (u * z) <= u * y + u * (2 * top),
                u > 0,
        ;
        assert(0x40_0000 * z <= top);
        assert((-w) * n == -(w * n) && (-s) * u == -(s * u)) by (nonlinear_arith);
    }
}

/// What would follow the largest number is very large.
proof fn far_is_large()
    ensures
        0x1000_0000 * unit() <= units(INFINITY as int),
{
    lemma2_to64();
    lemma_pow2_adds(149, 105);
    lemma_pow2_adds(28, 77);
    lemma_pow2_pos(77);
    lemma_pow2_pos(149);
    let p = pow2(149) as int;
    let q = pow2(105) as int;
    let h = pow2(77) as int;
    assert(exponent(INFINITY as int) == 254);
    assert(significand(INFINITY as int) == 0x80_0000);
    assert(pow2(28) == 0x1000_0000);
    assert(0x1000_0000 * p <= 0x80_0000 * (p * q)) by (nonlinear_arith)
        requires
            p > 0,
            q == 0x1000_0000 * h,
            h >= 1,
    ;
}

/// Each round of clustering moves a centroid near the mean of the points that it is the nearest
/// to, however many there are: where these are whole numbers that are not too large, it is off by
/// no more than one part in four million. It is so in every round, for every centroid and every
/// coordinate.
pub proof fn rounds_move_near_means(
    points: Seq<Seq<u32>>,
    d: int,
    k: int,
    seed: u64,
    iters: int,
    assign: Seq<int>,
    x: Seq<Seq<int>>,
    c: int,
    t: int,
    count: int,
)
    requires
        0 < k <= points.len(),
        forall|i: int| 0 <= i < points.len() ==> (#[trigger] points[i]).len() == d,
        iters >= 0,
        assign.len() == points.len(),
        forall|i: int|
            0 <= i < points.len() ==> is_nearest(
                points[i],
                rounds(points, d, k, seed, iters).0,
                #[trigger] assign[i],
            ),
        0 <= c < k,
        0 <= t < d,
        count == added_up(members(assign, c), points.len() as int),
        0 < count < EXACT,
        forall|i: int| 0 <= i < points.len() ==> is_int(#[trigger] points[i][t], x[i][t]),
        added_up(sizes(shares(x, assign, c, t)), points.len() as int) < EXACT,
    ensures
        ({
            let r = rounds(points, d, k, seed, iters + 1).0[c][t];
            let s = added_up(shares(x, assign, c, t), points.len() as int);
            finite(r) && 0x40_0000 * size(value(r) * count - s * unit()) <= size(s) * unit()
        }),
{
    let n = points.len() as int;
    let from = rounds(points, d, k, seed, iters);
    rounds_keep_shape(points, d, k, seed, iters);
    assert forall|i: int| 0 <= i < n implies assignment(points, from.0)[i] == assign[i] by {
        assert(is_nearest(points[i], from.0, assign[i]));
        assigned_to_nearest(points, from.0, i, assign[i]);
    }
    assert(assignment(points, from.0) =~= assign);
    members_are_counted(assign, c, n);
    shares_add_up(points, x, assign, c, t, n, n);
    sizes_bound(shares(x, assign, c, t), n);
    share_is_near(
        sum_of(points, assign, c, t, n),
        added_up(shares(x, assign, c, t), n),
        count,
    );
}

/// Draws of clustering go on from round to round.
proof fn draws_of_rounds(points: Seq<Seq<u32>>, d: int, k: int, seed: u64, iters: int) -> (n: nat)
    requires
        k >= 0,
    ensures
        n >= k,
        rounds(points, d, k, seed, iters).1 == state_after(seed, n),
    decreases iters,
{
    if iters <= 0 {
        k as nat
    } else {
        let a = draws_of_rounds(points, d, k, seed, iters - 1);
        let p = rounds(points, d, k, seed, iters - 1);
        let b = deserted(assignment(points, p.0), p.0.len() as int);
        draws_go_on(seed, a, b);
        a + b
    }
}

/// A centroid that is the nearest to no point moves to a point that a new draw names.
pub proof fn deserted_centroids_move_to_points(
    points: Seq<Seq<u32>>,
    d: int,
    k: int,
    seed: u64,
    iters: int,
    assign: Seq<int>,
    c: int,
) -> (e: nat)
    requires
        0 < k <= points.len(),
        d >= 0,
        forall|i: int| 0 <= i < points.len() ==> (#[trigger] points[i]).len() == d,
        iters >= 0,
        assign.len() == points.len(),
        forall|i: int|
            0 <= i < points.len() ==> is_nearest(
                points[i],
                rounds(points, d, k, seed, iters).0,
                #[trigger] assign[i],
            ),
        0 <= c < k,
        forall|i: int| 0 <= i < points.len() ==> #[trigger] assign[i] != c,
    ensures
        e >= k,
        rounds(points, d, k, seed, iters + 1).0[c] == points[draw(seed, e) as int
            % points.len() as int],
{
    let n = points.len() as int;
    let from = rounds(points, d, k, seed, iters);
    rounds_keep_shape(points, d, k, seed, iters);
    assert forall|i: int| 0 <= i < n implies assignment(points, from.0)[i] == assign[i] by {
        assert(is_nearest(points[i], from.0, assign[i]));
        assigned_to_nearest(points, from.0, i, assign[i]);
    }
    assert(assignment(points, from.0) =~= assign);
    nobody_is_with(assign, c, n);
    let a = draws_of_rounds(points, d, k, seed, iters);
    let b = deserted(assign, c);
    draws_go_on(seed, a, b);
    a + b
}

proof fn nobody_is_with(assign: Seq<int>, c: int, n: int)
    requires
        0 <= n <= assign.len(),
        forall|i: int| 0 <= i < assign.len() ==> #[trigger] assign[i] != c,
    ensures
        count_of(assign, c, n) == 0,
    decreases n,
{
    if n > 0 {
        nobody_is_with(assign, c, n - 1);
        assert(assign[n - 1] != c);
    }
}

/// The centroids of part `sub`.
pub open spec fn book(q: QuantizerView, sub: int) -> Seq<Seq<u32>> {
    let d = q.dim / q.m;
    let k = pow2(q.nbits) as int;
    Seq::new(
        k as nat,
        |c: int| q.books.subrange((sub * k + c) * d, (sub * k + c) * d + d),
    )
}

/// The code of a vector has a byte for each part, and each names the centroid nearest to that
/// part.
pub proof fn codes_name_the_nearest(q: QuantizerView, v: Seq<u32>, sub: int, b: int)
    requires
        q.fits(),
        0 <= sub < q.m,
        ({
            let d = q.dim / q.m;
            is_nearest(v.subrange(sub * d, sub * d + d), book(q, sub), b)
        }),
    ensures
        q.code(v).len() == q.m,
        q.code(v)[sub] == b,
{
    let d = q.dim / q.m;
    let k = pow2(q.nbits) as int;
    let point = v.subrange(sub * d, sub * d + d);
    code_counts();
    let n = q.nbits;
    assert(n == 1 || n == 2 || n == 3 || n == 4 || n == 5 || n == 6 || n == 7 || n == 8);
    let keys = |c: int| l2_sqr_of(point, book(q, sub)[c]);
    let theirs = distances(q.part(v, sub), q.books, q.dsub(), sub * q.k());
    assigned_to_nearest(seq![point], book(q, sub), 0, b);
    assert(assignment(seq![point], book(q, sub))[0] == closest(
        |c: int| l2_sqr_of(seq![point][0], book(q, sub)[c]),
        k,
    ));
    closest_depends_on_keys(|c: int| l2_sqr_of(seq![point][0], book(q, sub)[c]), theirs, k);
}

proof fn closest_depends_on_keys(f: spec_fn(int) -> u32, g: spec_fn(int) -> u32, n: int)
    requires
        forall|c: int| 0 <= c < n ==> #[trigger] f(c) == g(c),
    ensures
        closest(f, n) == closest(g, n),
        least_key(f, n) == least_key(g, n),
    decreases n,
{
    if n > 0 {
        closest_depends_on_keys(f, g, n - 1);
        assert(f(n - 1) == g(n - 1));
    }
}

/// Adding vectors to a compressed index appends a byte for each part of each: the number of the
/// centroid nearest to that part. What was there stays as it was.
pub proof fn added_vectors_are_coded(
    o: PqView,
    vectors: Seq<u32>,
    f: PqView,
    i: int,
    sub: int,
    b: int,
)
    requires
        o.fits(),
        coded(o, vectors, f),
        vectors.len() as int % o.pq.dim == 0,
        0 <= i < vectors.len() as int / o.pq.dim,
        0 <= sub < o.pq.m,
        ({
            let d = o.pq.dim / o.pq.m;
            let at = i * o.pq.dim + sub * d;
            is_nearest(vectors.subrange(at, at + d), book(o.pq, sub), b)
        }),
    ensures
        f.codes.len() == o.codes.len() + vectors.len() as int / o.pq.dim * o.pq.m,
        f.codes[o.codes.len() + i * o.pq.m + sub] == b,
        forall|p: int| 0 <= p < o.codes.len() ==> #[trigger] f.codes[p] == o.codes[p],
        f.pq == o.pq,
        f.metric == o.metric,
{
    let m = o.pq.m;
    let dim = o.pq.dim;
    let d = dim / m;
    let count = vectors.len() as int / dim;
    row_count(vectors.len() as int, dim);
    row_count(dim, m);
    assert(m * d == dim) by (nonlinear_arith)
        requires
            d * m == dim,
    ;
    let n = o.len();
    assert(f.codes.len() == n * m + count * m) by (nonlinear_arith)
        requires
            f.codes.len() == (n + count) * m,
    ;
    let v = row(vectors, dim, i);
    row_fits(i, count, dim);
    row_fits(sub, m, d);
    assert(v.subrange(sub * d, sub * d + d) =~= vectors.subrange(
        i * dim + sub * d,
        i * dim + sub * d + d,
    ));
    codes_name_the_nearest(o.pq, v, sub, b);
    assert(f.len() >= n + i + 1 && n >= 0) by (nonlinear_arith)
        requires
            f.len() == n + count,
            i < count,
            n * m >= 0,
            m > 0,
    ;
    let c = code_at(f.codes, m, n + i);
    assert(c == o.pq.code(v));
    row_fits(n + i, f.len(), m);
    assert((n + i) * m == n * m + i * m) by (nonlinear_arith);
    assert(c[sub] == f.codes[(n + i) * m + sub]);
    assert forall|p: int| 0 <= p < o.codes.len() implies #[trigger] f.codes[p] == o.codes[p] by {
        let (j, t) = (p / m, p % m);
        lemma_fundamental_div_mod(p, m);
        lemma_mod_bound(p, m);
        assert(0 <= j < n && j * m + t == p) by (nonlinear_arith)
            requires
                p == m * j + t,
                0 <= t < m,
                0 <= p < n * m,
        ;
        row_fits(j, n, m);
        row_fits(j, f.len(), m);
        assert(code_at(f.codes, m, j) == code_at(o.codes, m, j));
        assert(code_at(f.codes, m, j)[t] == f.codes[p]);
        assert(code_at(o.codes, m, j)[t] == o.codes[p]);
    }
}

} // verus!
