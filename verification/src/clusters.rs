//! Clustering into as many clusters as there are points.

use vstd::arithmetic::power2::{lemma2_to64, lemma_pow2_adds, lemma_pow2_pos, pow2};
use vstd::prelude::*;
use vstd::set_lib::{lemma_int_range, lemma_subset_equality, set_int_range};
use crate::arith::{
    difference, exponent, is_product, is_quotient, is_sum, is_whole, product, product_is, quotient,
    quotient_is, significand, sum, sum_is, unit, units, units_increase, units_of_zero, value, whole,
    whole_is,
};
use crate::binary32::{
    all_finite, finite, lt, magnitude, opposite, place, INFINITY, MAX, ONE, SIGN,
};
use crate::distance::{across_lanes, l2_sqr_of, lane_sum, squared_difference, with_rest, LANES};
use crate::geometry::{l2_of_same_is_zero, square_ignores_sign, sum_exists};
use crate::integral::nearest_is_exact;
use crate::kmeans::{
    assignment, closest, closest_is_least, count_of, least_key, moved, rounds,
    rounds_keep_shape, shuffled, shuffled_is_distinct, sum_of,
};

verus! {

/// One is one.
proof fn one_is_one()
    ensures
        units(ONE as int) == unit(),
        whole(1) == ONE,
        quotient(ONE, ONE) == ONE,
{
    lemma2_to64();
    lemma_pow2_adds(23, 126);
    lemma_pow2_pos(149);
    assert(exponent(ONE as int) == 126);
    assert(significand(ONE as int) == 0x80_0000);
    assert(pow2(23) == 0x80_0000);
    let u = unit();
    nearest_is_exact(1, ONE as int);
    assert(1 * u == u);
    assert(is_whole(1, ONE));
    whole_is(1, ONE);
    nearest_is_exact(u, ONE as int);
    assert(is_quotient(ONE, ONE, ONE));
    quotient_is(ONE, ONE, ONE);
}

/// A finite number times one.
proof fn times_one(x: u32)
    requires
        finite(x),
    ensures
        product(x, ONE) == x,
{
    one_is_one();
    lemma_pow2_pos(149);
    let u = unit();
    let w = units(magnitude(x));
    nearest_is_exact(u, magnitude(x));
    assert(u * w == w * u) by (nonlinear_arith);
    assert(is_product(x, ONE, x));
    product_is(x, ONE, x);
}

/// Only zero is no units.
proof fn units_of_positive(m: int)
    requires
        0 < m < INFINITY,
    ensures
        units(m) > 0,
{
    units_of_zero();
    units_increase(0, m);
}

/// Nothing and a finite number: minus zero becomes zero, every other number stays.
proof fn plus_nothing(x: u32)
    requires
        finite(x),
    ensures
        sum(0, x) == if x == SIGN {
            0
        } else {
            x
        },
{
    units_of_zero();
    if magnitude(x) == 0 {
        assert(is_sum(0, x, 0));
        sum_is(0, x, 0);
    } else {
        let m = magnitude(x);
        units_of_positive(m);
        nearest_is_exact(1, m);
        assert(1 * units(m) == units(m));
        assert(is_sum(0, x, x));
        sum_is(0, x, x);
    }
}

/// The same numbers, whatever the sign of zero.
pub open spec fn same_numbers(a: Seq<u32>, b: Seq<u32>) -> bool {
    &&& a.len() == b.len()
    &&& forall|j: int| 0 <= j < a.len() ==> place(#[trigger] a[j]) == place(b[j])
}

/// The squared difference from zero does not depend on its sign.
proof fn squares_ignore_sign_of_zero(x: u32, y: u32, z: u32)
    requires
        finite(x),
        finite(y),
        place(y) == place(z),
    ensures
        product(difference(x, y), difference(x, y)) == product(difference(x, z), difference(x, z)),
{
    if y != z {
        units_of_zero();
        let (a, b) = (opposite(y), opposite(z));
        assert(magnitude(a) == 0 && magnitude(b) == 0);
        assert(value(a) == 0 && value(b) == 0);
        sum_exists(x, a);
        sum_exists(x, b);
        if magnitude(x) == 0 {
            assert(value(x) == 0);
            square_ignores_sign(sum(x, a), sum(x, b));
        } else {
            units_of_positive(magnitude(x));
            assert(is_sum(x, b, sum(x, a)));
            sum_is(x, b, sum(x, a));
        }
    }
}

proof fn lane_depends_on_terms(
    f: spec_fn(int) -> u32,
    g: spec_fn(int) -> u32,
    len: int,
    lane: int,
    groups: int,
)
    requires
        forall|i: int| 0 <= i < len ==> #[trigger] f(i) == g(i),
        0 <= lane < LANES,
        groups * LANES <= len,
    ensures
        lane_sum(f, lane, groups) == lane_sum(g, lane, groups),
    decreases groups,
{
    if groups > 0 {
        lane_depends_on_terms(f, g, len, lane, groups - 1);
        let i = (groups - 1) * LANES + lane;
        assert(f(i) == g(i));
    }
}

proof fn across_depends_on_terms(
    f: spec_fn(int) -> u32,
    g: spec_fn(int) -> u32,
    len: int,
    lanes: int,
    groups: int,
)
    requires
        forall|i: int| 0 <= i < len ==> #[trigger] f(i) == g(i),
        lanes <= LANES,
        groups * LANES <= len,
    ensures
        across_lanes(f, lanes, groups) == across_lanes(g, lanes, groups),
    decreases lanes,
{
    if lanes > 0 {
        across_depends_on_terms(f, g, len, lanes - 1, groups);
        lane_depends_on_terms(f, g, len, lanes - 1, groups);
    }
}

proof fn rest_depends_on_terms(
    f: spec_fn(int) -> u32,
    g: spec_fn(int) -> u32,
    len: int,
    end: int,
)
    requires
        forall|i: int| 0 <= i < len ==> #[trigger] f(i) == g(i),
        0 <= end <= len,
    ensures
        with_rest(f, len, end) == with_rest(g, len, end),
    decreases end,
{
    let groups = len / LANES as int;
    if end <= 0 || end <= groups * LANES {
        across_depends_on_terms(f, g, len, LANES as int, groups);
    } else {
        rest_depends_on_terms(f, g, len, end - 1);
        assert(f(end - 1) == g(end - 1));
    }
}

/// The squared distance from a vector depends on its numbers only.
pub proof fn distance_depends_on_numbers(a: Seq<u32>, b: Seq<u32>, c: Seq<u32>)
    requires
        all_finite(a),
        all_finite(b),
        a.len() == b.len(),
        same_numbers(b, c),
    ensures
        l2_sqr_of(a, b) == l2_sqr_of(a, c),
{
    let (f, g) = (squared_difference(a, b), squared_difference(a, c));
    assert forall|i: int| 0 <= i < a.len() implies #[trigger] f(i) == g(i) by {
        assert(finite(a[i]) && finite(b[i]));
        assert(place(b[i]) == place(c[i]));
        squares_ignore_sign_of_zero(a[i], b[i], c[i]);
    }
    rest_depends_on_terms(f, g, a.len() as int, a.len() as int);
}

/// Points are apart: none is at distance zero from another.
pub open spec fn are_apart(points: Seq<Seq<u32>>) -> bool {
    forall|i: int, j: int|
        0 <= i < points.len() && 0 <= j < points.len() && i != j ==> lt(
            0,
            #[trigger] l2_sqr_of(points[i], points[j]),
        )
}

/// Points are finite and of length `d`.
pub open spec fn are_points(points: Seq<Seq<u32>>, d: int) -> bool {
    forall|i: int|
        0 <= i < points.len() ==> (#[trigger] points[i]).len() == d && all_finite(points[i])
}

/// Centroid `c` is at point `at[c]`; every point has one.
pub open spec fn are_at(centroids: Seq<Seq<u32>>, points: Seq<Seq<u32>>, at: Seq<int>) -> bool {
    &&& centroids.len() == points.len()
    &&& at.len() == points.len()
    &&& at.no_duplicates()
    &&& forall|c: int|
        0 <= c < at.len() ==> 0 <= (#[trigger] at[c]) < points.len() && same_numbers(
            points[at[c]],
            centroids[c],
        )
}

/// A point is nearest to the centroid that is at it.
proof fn stays_with_its_own(
    points: Seq<Seq<u32>>,
    d: int,
    centroids: Seq<Seq<u32>>,
    at: Seq<int>,
    c: int,
)
    requires
        are_points(points, d),
        are_apart(points),
        are_at(centroids, points, at),
        0 <= c < at.len(),
    ensures
        assignment(points, centroids)[at[c]] == c,
{
    let i = at[c];
    let n = centroids.len() as int;
    let keys = |b: int| l2_sqr_of(points[i], centroids[b]);
    assert(points[i].len() == d && all_finite(points[i]));
    distance_depends_on_numbers(points[i], points[i], centroids[c]);
    l2_of_same_is_zero(points[i]);
    assert(keys(c) == 0);
    closest_is_least(keys, n);
    let b = closest(keys, n);
    assert(!lt(keys(c), least_key(keys, n)));
    assert(lt(0, MAX));
    if b != c {
        let j = at[b];
        assert(points[j].len() == d && all_finite(points[j]));
        assert(at[b] != at[c]);
        distance_depends_on_numbers(points[i], points[j], centroids[b]);
        assert(lt(0, l2_sqr_of(points[i], points[j])));
        assert(lt(0, keys(b)));
    }
    assert(assignment(points, centroids)[i] == b);
}

/// What one point alone adds up to.
proof fn sum_of_one(points: Seq<Seq<u32>>, assign: Seq<int>, c: int, j: int, p: int, i: int)
    requires
        0 <= i <= assign.len(),
        forall|l: int| 0 <= l < assign.len() ==> (#[trigger] assign[l] == c <==> l == p),
    ensures
        count_of(assign, c, i) == if 0 <= p < i {
            1int
        } else {
            0
        },
        sum_of(points, assign, c, j, i) == if 0 <= p < i {
            sum(0, points[p][j])
        } else {
            0
        },
    decreases i,
{
    if i > 0 {
        sum_of_one(points, assign, c, j, p, i - 1);
        assert(assign[i - 1] == c <==> i - 1 == p);
    }
}

/// Centroids that are at the points stay there. A point without a minus zero is met exactly.
proof fn centroids_stay(
    points: Seq<Seq<u32>>,
    d: int,
    centroids: Seq<Seq<u32>>,
    at: Seq<int>,
    state: u64,
    c: int,
)
    requires
        are_points(points, d),
        are_apart(points),
        are_at(centroids, points, at),
        d >= 0,
        0 <= c < at.len(),
    ensures
        ({
            let r = moved(points, d, assignment(points, centroids), state, c);
            &&& same_numbers(points[at[c]], r)
            &&& !points[at[c]].contains(SIGN) ==> r == points[at[c]]
        }),
{
    let assign = assignment(points, centroids);
    let n = points.len() as int;
    let p = at[c];
    assert forall|l: int| 0 <= l < assign.len() implies (#[trigger] assign[l] == c <==> l == p) by {
        let b = place_of(at, n, l);
        stays_with_its_own(points, d, centroids, at, b);
        assert(assign[at[b]] == b);
    }
    let r = moved(points, d, assign, state, c);
    sum_of_one(points, assign, c, 0, p, n);
    one_is_one();
    assert(points[p].len() == d && all_finite(points[p]));
    assert(r.len() == d);
    assert forall|j: int| 0 <= j < d implies r[j] == if points[p][j] == SIGN {
        0
    } else {
        points[p][j]
    } by {
        sum_of_one(points, assign, c, j, p, n);
        assert(finite(points[p][j]));
        plus_nothing(points[p][j]);
        times_one(sum(0, points[p][j]));
    }
    if !points[p].contains(SIGN) {
        assert forall|j: int| 0 <= j < d implies r[j] == points[p][j] by {
            assert(points[p].contains(points[p][j]));
        }
        assert(r =~= points[p]);
    }
}

/// Where a number stands among as many different ones as there are.
proof fn place_of(at: Seq<int>, n: int, l: int) -> (b: int)
    requires
        at.len() == n,
        at.no_duplicates(),
        forall|c: int| 0 <= c < at.len() ==> 0 <= #[trigger] at[c] < n,
        0 <= l < n,
    ensures
        0 <= b < n,
        at[b] == l,
{
    at.unique_seq_to_set();
    lemma_int_range(0, n);
    let all = set_int_range(0, n);
    assert(at.to_set().subset_of(all)) by {
        assert forall|x: int| at.to_set().contains(x) implies all.contains(x) by {
            let c = choose|c: int| 0 <= c < at.len() && at[c] == x;
            assert(0 <= at[c] < n);
        }
    }
    lemma_subset_equality(at.to_set(), all);
    assert(at.to_set().contains(l));
    choose|b: int| 0 <= b < n && at[b] == l
}

/// With as many clusters as there are points, and all points apart, the centroids are the
/// points in another order, after any number of rounds. Where a point has a minus zero the
/// centroid may have a zero; otherwise they are the same.
pub proof fn as_many_clusters_as_points(points: Seq<Seq<u32>>, d: int, seed: u64, iters: int)
    requires
        points.len() > 0,
        d >= 0,
        are_points(points, d),
        are_apart(points),
    ensures
        ({
            let n = points.len() as int;
            let r = rounds(points, d, n, seed, iters).0;
            let at = shuffled(n, seed, n);
            &&& are_at(r, points, at)
            &&& forall|c: int|
                0 <= c < n && !points[#[trigger] at[c]].contains(SIGN) ==> r[c] == points[at[c]]
        }),
    decreases iters,
{
    let n = points.len() as int;
    let at = shuffled(n, seed, n);
    let r = rounds(points, d, n, seed, iters).0;
    shuffled_is_distinct(n, seed, n);
    rounds_keep_shape(points, d, n, seed, iters);
    if iters > 0 {
        as_many_clusters_as_points(points, d, seed, iters - 1);
        let from = rounds(points, d, n, seed, iters - 1);
        assert forall|c: int| 0 <= c < n implies same_numbers(points[#[trigger] at[c]], r[c]) && (
        !points[at[c]].contains(SIGN) ==> r[c] == points[at[c]]) by {
            centroids_stay(points, d, from.0, at, from.1, c);
            assert(r[c] == moved(points, d, assignment(points, from.0), from.1, c));
        }
        assert forall|c: int| 0 <= c < at.len() implies 0 <= (#[trigger] at[c]) < points.len() by {
            assert(0 <= shuffled(n, seed, n)[c] < n);
        }
    }
}

} // verus!
