//! That every coordinate counts, and every part of a code.

use vstd::arithmetic::power2::{lemma_pow2_pos, pow2};
use vstd::prelude::*;
use crate::arith::{
    difference, is_product, is_sum, product, product_is, sum, sum_is, unit, units, units_increase,
    units_of_zero,
};
use crate::binary32::{all_finite, finite, infinite, lt, magnitude, nan, negative, opposite, SIGN};
use crate::distance::{
    across_lanes, coordinate_product, inner_product_of, l2_sqr_of, lane_sum, squared_difference,
    with_rest, LANES,
};
use crate::geometry::{
    across_is_natural, difference_is_a_number, difference_of_same, is_natural, l2_is_natural,
    lane_is_natural, product_commutes, product_exists, rest_is_natural, square_is_natural,
    sum_exists, sum_is_natural,
};
use crate::integral::{
    added_up, are_ints, fewer_are_less, inner_product_is_exact, is_int, l2_is_exact,
    nearest_is_exact, products, same_add_up, size, sizes, sizes_bound, squares, sum_is_exact,
    zero_is_int, EXACT,
};
use crate::metric::Metric;
use crate::pq::{code_at, PqView};
use crate::quantizer::QuantizerView;
use crate::rows::{row_count, row_fits};

verus! {

/// One of the two zeros.
pub open spec fn is_zero(x: u32) -> bool {
    x == 0 || x == SIGN
}

/// The same number, whatever the sign of zero.
pub open spec fn same(x: u32, y: u32) -> bool {
    x == y || is_zero(x) && is_zero(y)
}

/// Zero does not change a sum.
proof fn zero_adds_nothing(z: u32, x: u32)
    requires
        is_zero(z),
        !nan(x),
    ensures
        same(sum(z, x), x),
        same(sum(x, z), x),
{
    units_of_zero();
    if infinite(x) {
        assert(is_sum(z, x, x));
        assert(is_sum(x, z, x));
        sum_is(z, x, x);
        sum_is(x, z, x);
    } else if magnitude(x) == 0 {
        sum_exists(z, x);
        sum_exists(x, z);
    } else {
        let m = magnitude(x);
        units_increase(0, m);
        nearest_is_exact(1, m);
        assert(1 * units(m) == units(m));
        assert(is_sum(z, x, x));
        assert(is_sum(x, z, x));
        sum_is(z, x, x);
        sum_is(x, z, x);
    }
}

/// What a sum of terms is of which only term `j` is not zero, if it is among the terms.
spec fn is_that(r: u32, term: spec_fn(int) -> u32, j: int, among: bool) -> bool {
    if among {
        same(r, term(j))
    } else {
        is_zero(r)
    }
}

spec fn only(term: spec_fn(int) -> u32, len: int, j: int) -> bool {
    &&& 0 <= j < len
    &&& !nan(term(j))
    &&& forall|i: int| 0 <= i < len && i != j ==> is_zero(#[trigger] term(i))
}

proof fn adding_one(
    p: u32,
    x: u32,
    term: spec_fn(int) -> u32,
    j: int,
    before: bool,
    now: bool,
)
    requires
        !nan(term(j)),
        is_that(p, term, j, before),
        is_that(x, term, j, now),
        !(before && now),
    ensures
        is_that(sum(p, x), term, j, before || now),
{
    if before {
        zero_adds_nothing(x, p);
    } else {
        zero_adds_nothing(p, x);
    }
}

proof fn lane_of_one(term: spec_fn(int) -> u32, len: int, j: int, lane: int, groups: int)
    requires
        only(term, len, j),
        0 <= lane < LANES,
        0 <= groups,
        groups * LANES <= len,
    ensures
        is_that(lane_sum(term, lane, groups), term, j, j < groups * LANES && j % 8 == lane),
    decreases groups,
{
    if groups > 0 {
        lane_of_one(term, len, j, lane, groups - 1);
        let i = (groups - 1) * LANES + lane;
        assert(i != j ==> is_zero(term(i)));
        assert(i % 8 == lane);
        let before = j < (groups - 1) * LANES && j % 8 == lane;
        let now = i == j;
        adding_one(lane_sum(term, lane, groups - 1), term(i), term, j, before, now);
        assert((before || now) == (j < groups * LANES && j % 8 == lane));
    }
}

proof fn across_of_one(term: spec_fn(int) -> u32, len: int, j: int, lanes: int, groups: int)
    requires
        only(term, len, j),
        0 <= lanes <= LANES,
        0 <= groups,
        groups * LANES <= len,
    ensures
        is_that(across_lanes(term, lanes, groups), term, j, j < groups * LANES && j % 8 < lanes),
    decreases lanes,
{
    if lanes > 0 {
        across_of_one(term, len, j, lanes - 1, groups);
        lane_of_one(term, len, j, lanes - 1, groups);
        adding_one(
            across_lanes(term, lanes - 1, groups),
            lane_sum(term, lanes - 1, groups),
            term,
            j,
            j < groups * LANES && j % 8 < lanes - 1,
            j < groups * LANES && j % 8 == lanes - 1,
        );
    }
}

proof fn rest_of_one(term: spec_fn(int) -> u32, len: int, j: int, end: int)
    requires
        only(term, len, j),
        (len / LANES as int) * LANES <= end <= len,
    ensures
        is_that(with_rest(term, len, end), term, j, j < end),
    decreases end,
{
    let groups = len / LANES as int;
    if end == groups * LANES {
        across_of_one(term, len, j, LANES as int, groups);
    } else {
        rest_of_one(term, len, j, end - 1);
        assert(end - 1 != j ==> is_zero(term(end - 1)));
        adding_one(
            with_rest(term, len, end - 1),
            term(end - 1),
            term,
            j,
            j < end - 1,
            j == end - 1,
        );
    }
}

/// Zero times a finite number.
proof fn zero_times(z: u32, x: u32)
    requires
        is_zero(z),
        finite(x),
    ensures
        is_zero(product(z, x)),
        is_zero(product(x, z)),
{
    units_of_zero();
    lemma_pow2_pos(149);
    let w = units(magnitude(x));
    assert(0 * w == 0 && unit() * 0 == 0);
    nearest_is_exact(unit(), 0);
    let r = if negative(z) != negative(x) {
        SIGN
    } else {
        0
    };
    assert(is_product(z, x, r));
    product_is(z, x, r);
    product_commutes(z, x);
}

/// A finite number and zero: what is left of it.
proof fn minus_zero(x: u32, z: u32)
    requires
        finite(x),
        is_zero(z),
    ensures
        same(difference(x, z), x),
{
    assert(is_zero(opposite(z)));
    zero_adds_nothing(opposite(z), x);
}

/// Every coordinate counts in a dot product: of a vector that is zero but at one coordinate,
/// whichever it is, and a finite one it is the product of their numbers there.
pub proof fn dot_product_of_one_coordinate(a: Seq<u32>, b: Seq<u32>, j: int)
    requires
        a.len() == b.len(),
        0 <= j < a.len(),
        all_finite(a),
        all_finite(b),
        forall|i: int| 0 <= i < a.len() && i != j ==> is_zero(#[trigger] a[i]),
    ensures
        same(inner_product_of(a, b), product(a[j], b[j])),
        same(inner_product_of(b, a), product(a[j], b[j])),
{
    let n = a.len() as int;
    let (f, g) = (coordinate_product(a, b), coordinate_product(b, a));
    assert forall|i: int| 0 <= i < n && i != j implies is_zero(#[trigger] f(i)) && is_zero(g(i)) by {
        assert(is_zero(a[i]));
        assert(finite(b[i]));
        zero_times(a[i], b[i]);
    }
    assert forall|i: int| 0 <= i < n && i != j implies is_zero(#[trigger] g(i)) by {
        assert(is_zero(f(i)));
    }
    assert(finite(a[j]) && finite(b[j]));
    product_exists(a[j], b[j]);
    product_commutes(a[j], b[j]);
    assert(f(j) == product(a[j], b[j]));
    assert(g(j) == product(a[j], b[j]));
    rest_of_one(f, n, j, n);
    rest_of_one(g, n, j, n);
}

/// Every coordinate counts in a squared distance: of two finite vectors that differ at one
/// coordinate only, whichever it is, it is the square of the difference there.
pub proof fn distance_of_one_coordinate(a: Seq<u32>, b: Seq<u32>, j: int)
    requires
        a.len() == b.len(),
        0 <= j < a.len(),
        all_finite(a),
        all_finite(b),
        forall|i: int| 0 <= i < a.len() && i != j ==> #[trigger] a[i] == b[i],
    ensures
        same(
            l2_sqr_of(a, b),
            product(difference(a[j], b[j]), difference(a[j], b[j])),
        ),
{
    let n = a.len() as int;
    let f = squared_difference(a, b);
    assert forall|i: int| 0 <= i < n && i != j implies is_zero(#[trigger] f(i)) by {
        assert(a[i] == b[i]);
        assert(finite(a[i]));
        difference_of_same(a[i]);
        zero_times(0, 0);
    }
    assert(finite(a[j]) && finite(b[j]));
    sum_exists(a[j], opposite(b[j]));
    product_exists(difference(a[j], b[j]), difference(a[j], b[j]));
    assert(f(j) == product(difference(a[j], b[j]), difference(a[j], b[j])));
    rest_of_one(f, n, j, n);
}

/// A sum of numbers that are not negative is no less than either.
proof fn sums_cover(a: u32, b: u32)
    requires
        is_natural(a),
        is_natural(b),
    ensures
        is_natural(sum(a, b)),
        !lt(sum(a, b), a),
        !lt(sum(a, b), b),
{
    sum_is_natural(a, b);
    sum_exists(a, b);
    units_of_zero();
    if finite(a) && finite(b) {
        let (x, y) = (magnitude(a), magnitude(b));
        let m = magnitude(sum(a, b));
        if x > 0 {
            units_increase(0, x);
        }
        if y > 0 {
            units_increase(0, y);
        }
        if m < x {
            units_increase(m, x);
            if m + 1 < x {
                units_increase(m + 1, x);
            }
        }
        if m < y {
            units_increase(m, y);
            if m + 1 < y {
                units_increase(m + 1, y);
            }
        }
    }
}

spec fn all_natural(term: spec_fn(int) -> u32, len: int) -> bool {
    forall|i: int| 0 <= i < len ==> is_natural(#[trigger] term(i))
}

proof fn no_less(a: u32, b: u32, c: u32)
    requires
        is_natural(a),
        is_natural(b),
        is_natural(c),
        !lt(a, b),
        !lt(b, c),
    ensures
        !lt(a, c),
{
}

proof fn lane_covers(term: spec_fn(int) -> u32, len: int, lane: int, groups: int, g: int)
    requires
        all_natural(term, len),
        0 <= lane < LANES,
        0 <= g < groups,
        groups * LANES <= len,
    ensures
        is_natural(lane_sum(term, lane, groups)),
        !lt(lane_sum(term, lane, groups), term(g * LANES + lane)),
    decreases groups,
{
    let i = (groups - 1) * LANES + lane;
    assert(is_natural(term(i)));
    lane_is_natural(term, len, lane, groups - 1);
    let p = lane_sum(term, lane, groups - 1);
    sums_cover(p, term(i));
    if g < groups - 1 {
        lane_covers(term, len, lane, groups - 1, g);
        assert(is_natural(term(g * LANES + lane)));
        no_less(lane_sum(term, lane, groups), p, term(g * LANES + lane));
    }
}

proof fn across_covers(
    term: spec_fn(int) -> u32,
    len: int,
    lanes: int,
    groups: int,
    lane: int,
    g: int,
)
    requires
        all_natural(term, len),
        0 <= lane < lanes <= LANES,
        0 <= g < groups,
        groups * LANES <= len,
    ensures
        is_natural(across_lanes(term, lanes, groups)),
        !lt(across_lanes(term, lanes, groups), term(g * LANES + lane)),
    decreases lanes,
{
    let l = lanes - 1;
    across_is_natural(term, len, l, groups);
    lane_is_natural(term, len, l, groups);
    let (p, x) = (across_lanes(term, l, groups), lane_sum(term, l, groups));
    sums_cover(p, x);
    let t = term(g * LANES + lane);
    assert(is_natural(t));
    if lane < l {
        across_covers(term, len, l, groups, lane, g);
        no_less(across_lanes(term, lanes, groups), p, t);
    } else {
        lane_covers(term, len, l, groups, g);
        no_less(across_lanes(term, lanes, groups), x, t);
    }
}

proof fn rest_covers(term: spec_fn(int) -> u32, len: int, end: int, j: int)
    requires
        all_natural(term, len),
        len >= 0,
        (len / LANES as int) * LANES <= end <= len,
        0 <= j < end,
    ensures
        is_natural(with_rest(term, len, end)),
        !lt(with_rest(term, len, end), term(j)),
    decreases end,
{
    let groups = len / LANES as int;
    if end == groups * LANES {
        across_covers(term, len, LANES as int, groups, j % 8, j / 8);
    } else {
        rest_is_natural(term, len, end - 1);
        assert(is_natural(term(end - 1)));
        let p = with_rest(term, len, end - 1);
        sums_cover(p, term(end - 1));
        if j < end - 1 {
            rest_covers(term, len, end - 1, j);
            assert(is_natural(term(j)));
            no_less(with_rest(term, len, end), p, term(j));
        }
    }
}

/// A squared distance is no less than the square of the difference at any coordinate, whatever the
/// numbers are.
pub proof fn distance_covers_each_coordinate(a: Seq<u32>, b: Seq<u32>, j: int)
    requires
        a.len() == b.len(),
        0 <= j < a.len(),
        all_finite(a),
        all_finite(b),
    ensures
        !lt(l2_sqr_of(a, b), product(difference(a[j], b[j]), difference(a[j], b[j]))),
{
    let n = a.len() as int;
    let f = squared_difference(a, b);
    assert forall|i: int| 0 <= i < n implies is_natural(#[trigger] f(i)) by {
        assert(finite(a[i]) && finite(b[i]));
        difference_is_a_number(a[i], b[i]);
        square_is_natural(difference(a[i], b[i]));
    }
    rest_covers(f, n, n, j);
    assert(f(j) == product(difference(a[j], b[j]), difference(a[j], b[j])));
}

/// The key of part `sub` of a query for the centroid that the code of vector `i` names.
pub open spec fn part_key(v: PqView, query: Seq<u32>, i: int, sub: int) -> u32 {
    let d = v.pq.dim / v.pq.m;
    let c = sub * pow2(v.pq.nbits) + v.codes[i * v.pq.m + sub];
    let x = query.subrange(sub * d, sub * d + d);
    let y = v.pq.books.subrange(c * d, c * d + d);
    match v.metric {
        Metric::L2 => l2_sqr_of(x, y),
        Metric::InnerProduct => opposite(inner_product_of(x, y)),
    }
}

/// The code of a vector is its bytes.
proof fn entry_is_part_key(v: PqView, query: Seq<u32>, i: int, sub: int)
    requires
        v.fits(),
        0 <= i < v.len(),
        0 <= sub < v.pq.m,
    ensures
        v.pq.table_entry(
            v.metric,
            query,
            sub,
            code_at(v.codes, v.pq.m, i)[sub] as int,
        ) == part_key(v, query, i, sub),
{
    row_fits(i, v.len(), v.pq.m);
}

proof fn parts_of_one(v: PqView, query: Seq<u32>, i: int, j: int, n: int)
    requires
        v.fits(),
        0 <= i < v.len(),
        0 <= j < v.pq.m,
        0 <= n <= v.pq.m,
        !nan(part_key(v, query, i, j)),
        forall|sub: int|
            0 <= sub < v.pq.m && sub != j ==> is_zero(#[trigger] part_key(v, query, i, sub)),
    ensures
        is_that(
            v.adc(query, code_at(v.codes, v.pq.m, i), n),
            |sub: int| part_key(v, query, i, sub),
            j,
            j < n,
        ),
    decreases n,
{
    if n > 0 {
        let keys = |sub: int| part_key(v, query, i, sub);
        let code = code_at(v.codes, v.pq.m, i);
        parts_of_one(v, query, i, j, n - 1);
        entry_is_part_key(v, query, i, n - 1);
        assert(n - 1 != j ==> is_zero(part_key(v, query, i, n - 1)));
        adding_one(v.adc(query, code, n - 1), keys(n - 1), keys, j, j < n - 1, j == n - 1);
    }
}

/// Every part counts in the key of a coded vector: where the keys of all parts but one are zero,
/// whichever that is, it is the key of that part.
pub proof fn code_key_of_one_part(v: PqView, query: Seq<u32>, i: int, j: int)
    requires
        v.fits(),
        0 <= i < v.len(),
        0 <= j < v.pq.m,
        !nan(part_key(v, query, i, j)),
        forall|sub: int|
            0 <= sub < v.pq.m && sub != j ==> is_zero(#[trigger] part_key(v, query, i, sub)),
    ensures
        same(v.keys(query)(i), part_key(v, query, i, j)),
{
    parts_of_one(v, query, i, j, v.pq.m);
}

/// The vector that a code stands for: for each part the centroid that the code names.
pub open spec fn decoded(v: PqView, i: int) -> Seq<u32> {
    let d = v.pq.dim / v.pq.m;
    Seq::new(
        v.pq.dim as nat,
        |t: int|
            v.pq.books[(t / d * pow2(v.pq.nbits) + v.codes[i * v.pq.m + t / d]) * d + t % d],
    )
}

/// Terms in two parts.
proof fn added_up_in_parts(t: spec_fn(int) -> int, a: int, b: int)
    requires
        a >= 0,
        b >= 0,
    ensures
        added_up(t, a + b) == added_up(t, a) + added_up(|i: int| t(a + i), b),
    decreases b,
{
    if b > 0 {
        added_up_in_parts(t, a, b - 1);
    }
}

/// What a coded vector and a query have in common at a coordinate, as an integer.
spec fn code_term(v: PqView, x: Seq<int>, y: Seq<int>) -> spec_fn(int) -> int {
    match v.metric {
        Metric::L2 => squares(x, y),
        Metric::InnerProduct => |t: int| -(x[t] * y[t]),
    }
}

proof fn sizes_of_part(t: spec_fn(int) -> int, a: int, b: int, n: int)
    requires
        0 <= a,
        0 <= b,
        a + b <= n,
    ensures
        added_up(sizes(|i: int| t(a + i)), b) <= added_up(sizes(t), n),
        size(added_up(t, a + b)) <= added_up(sizes(t), n),
{
    let s = sizes(t);
    assert(sizes(|i: int| t(a + i)) =~= (|i: int| s(a + i)));
    added_up_in_parts(s, a, b);
    sizes_bound(t, a);
    sizes_bound(t, a + b);
    fewer_are_less(s, a + b, n);
}

/// The shape of a quantizer.
proof fn shape(q: QuantizerView) -> (d: int)
    requires
        q.fits(),
    ensures
        d == q.dim / q.m,
        d > 0,
        q.m * d == q.dim,
        q.books.len() == q.m * pow2(q.nbits) * d,
{
    let d = q.dim / q.m;
    row_count(q.dim, q.m);
    assert(d > 0 && q.m * d == q.dim) by (nonlinear_arith)
        requires
            d * q.m == q.dim,
            q.dim > 0,
            q.m > 0,
    ;
    d
}

/// A part of the decoded vector is the centroid.
proof fn part_of_decoded(v: PqView, i: int, sub: int)
    requires
        v.fits(),
        0 <= i < v.len(),
        0 <= sub < v.pq.m,
    ensures
        ({
            let d = v.pq.dim / v.pq.m;
            let c = sub * pow2(v.pq.nbits) + v.codes[i * v.pq.m + sub];
            &&& 0 <= sub * d
            &&& sub * d + d <= v.pq.dim
            &&& 0 <= c * d
            &&& c * d + d <= v.pq.books.len()
            &&& decoded(v, i).subrange(sub * d, sub * d + d) == v.pq.books.subrange(c * d, c * d + d)
        }),
{
    let d = shape(v.pq);
    let k = pow2(v.pq.nbits) as int;
    let m = v.pq.m;
    row_fits(i, v.len(), m);
    row_fits(sub, m, d);
    row_fits(sub, m, k);
    let code = v.codes[i * m + sub] as int;
    assert(code < k);
    let c = sub * k + code;
    row_fits(c, m * k, d);
    let (a, b) = (
        decoded(v, i).subrange(sub * d, sub * d + d),
        v.pq.books.subrange(c * d, c * d + d),
    );
    assert forall|t: int| 0 <= t < d implies a[t] == b[t] by {
        let p = sub * d + t;
        assert(p / d == sub && p % d == t) by (nonlinear_arith)
            requires
                p == sub * d + t,
                0 <= t < d,
                sub >= 0,
        ;
    }
    assert(a =~= b);
}

/// The key of a part, of whole numbers.
proof fn part_key_is_exact(
    v: PqView,
    query: Seq<u32>,
    i: int,
    x: Seq<int>,
    y: Seq<int>,
    sub: int,
)
    requires
        v.fits(),
        0 <= i < v.len(),
        0 <= sub < v.pq.m,
        query.len() == v.pq.dim,
        are_ints(query, x),
        are_ints(decoded(v, i), y),
        added_up(sizes(code_term(v, x, y)), v.pq.dim) < EXACT,
    ensures
        ({
            let d = v.pq.dim / v.pq.m;
            let t = code_term(v, x, y);
            is_int(part_key(v, query, i, sub), added_up(|p: int| t(sub * d + p), d))
        }),
{
    let d = shape(v.pq);
    part_of_decoded(v, i, sub);
    let from = sub * d;
    let (a, b) = (query.subrange(from, from + d), decoded(v, i).subrange(from, from + d));
    let (xs, ys) = (x.subrange(from, from + d), y.subrange(from, from + d));
    assert forall|p: int| 0 <= p < a.len() implies is_int(#[trigger] a[p], xs[p]) by {
        assert(is_int(query[from + p], x[from + p]));
    }
    assert forall|p: int| 0 <= p < b.len() implies is_int(#[trigger] b[p], ys[p]) by {
        assert(is_int(decoded(v, i)[from + p], y[from + p]));
    }
    let t = code_term(v, x, y);
    let u = |p: int| t(from + p);
    sizes_of_part(t, from, d, v.pq.dim);
    match v.metric {
        Metric::L2 => {
            let w = squares(xs, ys);
            assert forall|p: int| 0 <= p < d implies #[trigger] w(p) == u(p) && w(p) == sizes(u)(p) by {
                let e = x[from + p] - y[from + p];
                assert(e * e >= 0) by (nonlinear_arith);
            }
            same_add_up(w, u, d);
            same_add_up(w, sizes(u), d);
            l2_is_exact(a, b, xs, ys);
        },
        Metric::InnerProduct => {
            let w = products(xs, ys);
            assert forall|p: int| 0 <= p < d implies #[trigger] sizes(w)(p) == sizes(u)(p) by {
                assert(xs[p] * ys[p] == x[from + p] * y[from + p]);
            }
            same_add_up(sizes(w), sizes(u), d);
            inner_product_is_exact(a, b, xs, ys);
            let r = inner_product_of(a, b);
            let s = added_up(w, d);
            assert((-s) * unit() == -(s * unit())) by (nonlinear_arith);
            assert(is_int(opposite(r), -s));
            opposites_add_up(w, u, d);
        },
    }
}

proof fn opposites_add_up(s: spec_fn(int) -> int, t: spec_fn(int) -> int, n: int)
    requires
        forall|i: int| 0 <= i < n ==> #[trigger] s(i) == -t(i),
    ensures
        added_up(s, n) == -added_up(t, n),
    decreases n,
{
    if n > 0 {
        opposites_add_up(s, t, n - 1);
        assert(s(n - 1) == -t(n - 1));
    }
}

proof fn parts_are_exact(
    v: PqView,
    query: Seq<u32>,
    i: int,
    x: Seq<int>,
    y: Seq<int>,
    n: int,
)
    requires
        v.fits(),
        0 <= i < v.len(),
        0 <= n <= v.pq.m,
        query.len() == v.pq.dim,
        are_ints(query, x),
        are_ints(decoded(v, i), y),
        added_up(sizes(code_term(v, x, y)), v.pq.dim) < EXACT,
    ensures
        is_int(
            v.adc(query, code_at(v.codes, v.pq.m, i), n),
            added_up(code_term(v, x, y), n * (v.pq.dim / v.pq.m)),
        ),
    decreases n,
{
    let d = shape(v.pq);
    let t = code_term(v, x, y);
    if n > 0 {
        let code = code_at(v.codes, v.pq.m, i);
        let from = (n - 1) * d;
        parts_are_exact(v, query, i, x, y, n - 1);
        part_key_is_exact(v, query, i, x, y, n - 1);
        entry_is_part_key(v, query, i, n - 1);
        row_fits(n - 1, v.pq.m, d);
        added_up_in_parts(t, from, d);
        sizes_of_part(t, from, d, v.pq.dim);
        assert(n * d == from + d) by (nonlinear_arith)
            requires
                from == (n - 1) * d,
        ;
        sum_is_exact(
            v.adc(query, code, n - 1),
            part_key(v, query, i, n - 1),
            added_up(t, from),
            added_up(|p: int| t(from + p), d),
        );
    } else {
        assert(0 * d == 0);
        zero_is_int(0);
    }
}

/// A coded vector has the distance from a query of the vector that its code stands for: on whole
/// numbers, if these are not too large, its key is the sum of the squared differences of all
/// coordinates, or the dot product with its sign changed.
pub proof fn code_key_is_exact(v: PqView, query: Seq<u32>, i: int, x: Seq<int>, y: Seq<int>)
    requires
        v.fits(),
        0 <= i < v.len(),
        query.len() == v.pq.dim,
        are_ints(query, x),
        are_ints(decoded(v, i), y),
        match v.metric {
            Metric::L2 => added_up(squares(x, y), v.pq.dim) < EXACT,
            Metric::InnerProduct => added_up(sizes(products(x, y)), v.pq.dim) < EXACT,
        },
    ensures
        match v.metric {
            Metric::L2 => is_int(v.keys(query)(i), added_up(squares(x, y), v.pq.dim)),
            Metric::InnerProduct => is_int(
                v.keys(query)(i),
                -added_up(products(x, y), v.pq.dim),
            ),
        },
{
    let d = shape(v.pq);
    let t = code_term(v, x, y);
    match v.metric {
        Metric::L2 => {
            assert forall|p: int| 0 <= p < v.pq.dim implies #[trigger] sizes(t)(p) == t(p) by {
                let e = x[p] - y[p];
                assert(e * e >= 0) by (nonlinear_arith);
            }
            same_add_up(sizes(t), t, v.pq.dim);
        },
        Metric::InnerProduct => {
            assert forall|p: int| 0 <= p < v.pq.dim implies #[trigger] sizes(t)(p) == sizes(
                products(x, y),
            )(p) by {
            }
            same_add_up(sizes(t), sizes(products(x, y)), v.pq.dim);
            opposites_add_up(products(x, y), t, v.pq.dim);
        },
    }
    parts_are_exact(v, query, i, x, y, v.pq.m);
}

/// The key of a coded vector, by distance, is no less than that of any of its parts, whatever the
/// numbers are.
pub proof fn code_key_covers_each_part(v: PqView, query: Seq<u32>, i: int, sub: int)
    requires
        v.fits(),
        v.metric == Metric::L2,
        0 <= i < v.len(),
        0 <= sub < v.pq.m,
        query.len() == v.pq.dim,
        all_finite(query),
        all_finite(v.pq.books),
    ensures
        !lt(v.keys(query)(i), part_key(v, query, i, sub)),
{
    parts_cover(v, query, i, sub, v.pq.m);
}

proof fn part_key_is_natural(v: PqView, query: Seq<u32>, i: int, sub: int)
    requires
        v.fits(),
        v.metric == Metric::L2,
        0 <= i < v.len(),
        0 <= sub < v.pq.m,
        query.len() == v.pq.dim,
        all_finite(query),
        all_finite(v.pq.books),
    ensures
        is_natural(part_key(v, query, i, sub)),
{
    let d = shape(v.pq);
    part_of_decoded(v, i, sub);
    let c = sub * pow2(v.pq.nbits) + v.codes[i * v.pq.m + sub];
    let (x, y) = (query.subrange(sub * d, sub * d + d), v.pq.books.subrange(c * d, c * d + d));
    assert forall|j: int| 0 <= j < x.len() implies finite(#[trigger] x[j]) by {
        assert(finite(query[sub * d + j]));
    }
    assert forall|j: int| 0 <= j < y.len() implies finite(#[trigger] y[j]) by {
        assert(finite(v.pq.books[c * d + j]));
    }
    l2_is_natural(x, y);
}

proof fn parts_cover(v: PqView, query: Seq<u32>, i: int, sub: int, n: int)
    requires
        v.fits(),
        v.metric == Metric::L2,
        0 <= i < v.len(),
        0 <= n <= v.pq.m,
        0 <= sub,
        query.len() == v.pq.dim,
        all_finite(query),
        all_finite(v.pq.books),
    ensures
        is_natural(v.adc(query, code_at(v.codes, v.pq.m, i), n)),
        sub < n ==> !lt(
            v.adc(query, code_at(v.codes, v.pq.m, i), n),
            part_key(v, query, i, sub),
        ),
    decreases n,
{
    if n > 0 {
        let code = code_at(v.codes, v.pq.m, i);
        parts_cover(v, query, i, sub, n - 1);
        entry_is_part_key(v, query, i, n - 1);
        part_key_is_natural(v, query, i, n - 1);
        let p = v.adc(query, code, n - 1);
        sums_cover(p, part_key(v, query, i, n - 1));
        if sub < n - 1 {
            part_key_is_natural(v, query, i, sub);
            no_less(v.adc(query, code, n), p, part_key(v, query, i, sub));
        }
    }
}

} // verus!
