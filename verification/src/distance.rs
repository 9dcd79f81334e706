//! Distance kernels.
//!
//! Both kernels add up one term per coordinate in the same order: eight running sums, one
//! for each place in a group of eight coordinates, then the eight sums, then the
//! coordinates that are left over.

use vstd::prelude::*;
use crate::arith::{difference, product, root, sum, Arithmetic};
use crate::binary32::{negate, opposite, MAX, MIN};
use crate::metric::Metric;
use crate::rows::{row, row_at};

verus! {

/// How many running sums there are.
pub const LANES: usize = 8;

/// The running sum at place `lane` after `groups` groups.
pub open spec fn lane_sum(term: spec_fn(int) -> u32, lane: int, groups: int) -> u32
    decreases groups,
{
    if groups <= 0 {
        0
    } else {
        sum(lane_sum(term, lane, groups - 1), term((groups - 1) * LANES + lane))
    }
}

/// The sum of the first `lanes` running sums.
pub open spec fn across_lanes(term: spec_fn(int) -> u32, lanes: int, groups: int) -> u32
    decreases lanes,
{
    if lanes <= 0 {
        0
    } else {
        sum(across_lanes(term, lanes - 1, groups), lane_sum(term, lanes - 1, groups))
    }
}

/// The terms up to `end`, from the first one that is in no full group of `len` terms, added
/// to the running sums.
pub open spec fn with_rest(term: spec_fn(int) -> u32, len: int, end: int) -> u32
    decreases end,
{
    let groups = len / LANES as int;
    if end <= 0 || end <= groups * LANES {
        across_lanes(term, LANES as int, groups)
    } else {
        sum(with_rest(term, len, end - 1), term(end - 1))
    }
}

/// All `len` terms added up.
pub open spec fn total(term: spec_fn(int) -> u32, len: int) -> u32 {
    with_rest(term, len, len)
}

/// The squared difference of two vectors at a coordinate.
pub open spec fn squared_difference(a: Seq<u32>, b: Seq<u32>) -> spec_fn(int) -> u32 {
    |i: int| product(difference(a[i], b[i]), difference(a[i], b[i]))
}

/// The product of two vectors at a coordinate.
pub open spec fn coordinate_product(a: Seq<u32>, b: Seq<u32>) -> spec_fn(int) -> u32 {
    |i: int| product(a[i], b[i])
}

/// The squared Euclidean distance of two vectors.
pub open spec fn l2_sqr_of(a: Seq<u32>, b: Seq<u32>) -> u32 {
    total(squared_difference(a, b), a.len() as int)
}

/// The dot product of two vectors.
pub open spec fn inner_product_of(a: Seq<u32>, b: Seq<u32>) -> u32 {
    total(coordinate_product(a, b), a.len() as int)
}

/// How relevant `b` is to `a`: for both metrics the smaller key is the more relevant.
pub open spec fn key_of(metric: Metric, a: Seq<u32>, b: Seq<u32>) -> u32 {
    match metric {
        Metric::L2 => l2_sqr_of(a, b),
        Metric::InnerProduct => opposite(inner_product_of(a, b)),
    }
}

/// The distance or similarity that is reported for a key.
pub open spec fn natural_of(metric: Metric, key: u32) -> u32 {
    match metric {
        Metric::L2 => root(key),
        Metric::InnerProduct => opposite(key),
    }
}

/// What is reported where there is no neighbor.
pub open spec fn padding_of(metric: Metric) -> u32 {
    match metric {
        Metric::L2 => MAX,
        Metric::InnerProduct => MIN,
    }
}

#[inline]
fn l2_term<A: Arithmetic>(x: u32, y: u32) -> (r: u32)
    ensures
        r == product(difference(x, y), difference(x, y)),
{
    let d: u32 = A::add(x, negate(y));
    A::mul(d, d)
}

/// `acc` are the running sums of `len` terms.
spec fn are_lanes(term: spec_fn(int) -> u32, len: int, acc: Seq<u32>) -> bool {
    &&& acc.len() == LANES
    &&& forall|l: int|
        0 <= l < LANES ==> #[trigger] acc[l] == lane_sum(term, l, len / LANES as int)
}

/// The sum of running sums.
#[inline]
fn across<A: Arithmetic>(acc: [u32; 8]) -> (r: u32)
    ensures
        forall|term: spec_fn(int) -> u32, len: int| #[trigger]
            are_lanes(term, len, acc@) ==> r == across_lanes(term, LANES as int, len / LANES as int),
{
    let mut s: u32 = 0;
    let mut l: usize = 0;
    while l < LANES
        invariant
            l <= LANES,
            forall|term: spec_fn(int) -> u32, len: int| #[trigger]
                are_lanes(term, len, acc@) ==> s == across_lanes(term, l as int, len / LANES as int),
        decreases LANES - l,
    {
        s = A::add(s, acc[l]);
        l += 1;
    }
    s
}

/// The sums of running sums of four kinds of terms, worked out side by side.
#[inline]
fn across_four<A: Arithmetic>(acc: [[u32; 8]; 4]) -> (r: [u32; 4])
    ensures
        forall|j: int, term: spec_fn(int) -> u32, len: int|
            0 <= j < 4 && #[trigger] are_lanes(term, len, acc@[j]@) ==> r@[j] == across_lanes(
                term,
                LANES as int,
                len / LANES as int,
            ),
{
    let mut s: [u32; 4] = [0, 0, 0, 0];
    let mut l: usize = 0;
    while l < LANES
        invariant
            l <= LANES,
            forall|j: int, term: spec_fn(int) -> u32, len: int|
                0 <= j < 4 && #[trigger] are_lanes(term, len, acc@[j]@) ==> s@[j] == across_lanes(
                    term,
                    l as int,
                    len / LANES as int,
                ),
        decreases LANES - l,
    {
        let s0: u32 = A::add(s[0], acc[0][l]);
        let s1: u32 = A::add(s[1], acc[1][l]);
        let s2: u32 = A::add(s[2], acc[2][l]);
        let s3: u32 = A::add(s[3], acc[3][l]);
        s = [s0, s1, s2, s3];
        l += 1;
    }
    s
}

/// The running sums of squared differences.
#[inline]
fn l2_lanes<A: Arithmetic>(a: &[u32], b: &[u32]) -> (r: [u32; 8])
    requires
        a@.len() == b@.len(),
    ensures
        are_lanes(squared_difference(a@, b@), a@.len() as int, r@),
{
    let n: usize = a.len();
    let groups: usize = n / LANES;
    let ghost term = squared_difference(a@, b@);
    let mut acc: [u32; 8] = [0, 0, 0, 0, 0, 0, 0, 0];
    let mut g: usize = 0;
    while g < groups
        invariant
            n == a@.len() == b@.len(),
            groups == n / LANES,
            g <= groups,
            term == squared_difference(a@, b@),
            forall|l: int| 0 <= l < LANES ==> #[trigger] acc@[l] == lane_sum(term, l, g as int),
        decreases groups - g,
    {
        let xs: &[u32] = row_at(a, LANES, g);
        let ys: &[u32] = row_at(b, LANES, g);
        let mut t: [u32; 8] = [0, 0, 0, 0, 0, 0, 0, 0];
        let mut l: usize = 0;
        while l < LANES
            invariant
                l <= LANES,
                xs@.len() == LANES,
                ys@.len() == LANES,
                forall|k: int| 0 <= k < l ==> #[trigger] t@[k] == difference(xs@[k], ys@[k]),
            decreases LANES - l,
        {
            t[l] = A::add(xs[l], negate(ys[l]));
            l += 1;
        }
        l = 0;
        while l < LANES
            invariant
                l <= LANES,
                forall|k: int|
                    0 <= k < l ==> #[trigger] t@[k] == product(
                        difference(xs@[k], ys@[k]),
                        difference(xs@[k], ys@[k]),
                    ),
                forall|k: int| l <= k < LANES ==> #[trigger] t@[k] == difference(xs@[k], ys@[k]),
            decreases LANES - l,
        {
            t[l] = A::mul(t[l], t[l]);
            l += 1;
        }
        assert forall|k: int| 0 <= k < LANES implies #[trigger] t@[k] == term(g * LANES + k) by {
            assert(xs@[k] == a@[g * LANES + k]);
            assert(ys@[k] == b@[g * LANES + k]);
        }
        l = 0;
        while l < LANES
            invariant
                l <= LANES,
                forall|k: int| 0 <= k < LANES ==> #[trigger] t@[k] == term(g * LANES + k),
                forall|k: int| 0 <= k < l ==> #[trigger] acc@[k] == lane_sum(term, k, g + 1),
                forall|k: int| l <= k < LANES ==> #[trigger] acc@[k] == lane_sum(term, k, g as int),
            decreases LANES - l,
        {
            acc[l] = A::add(acc[l], t[l]);
            l += 1;
        }
        g += 1;
    }
    acc
}

/// The squared Euclidean distance of two vectors, from the sum of the running sums on.
#[inline]
fn l2_rest<A: Arithmetic>(a: &[u32], b: &[u32], across: u32) -> (r: u32)
    requires
        a@.len() == b@.len(),
        across == across_lanes(squared_difference(a@, b@), LANES as int, a@.len() as int / LANES as int),
    ensures
        r == total(squared_difference(a@, b@), a@.len() as int),
{
    let n: usize = a.len();
    let groups: usize = n / LANES;
    let ghost term = squared_difference(a@, b@);
    let mut s: u32 = across;
    let mut i: usize = groups * LANES;
    while i < n
        invariant
            n == a@.len() == b@.len(),
            groups == n / LANES,
            groups * LANES <= i <= n,
            term == squared_difference(a@, b@),
            s == with_rest(term, n as int, i as int),
        decreases n - i,
    {
        assert(term(i as int) == product(
            difference(a@[i as int], b@[i as int]),
            difference(a@[i as int], b@[i as int]),
        ));
        let t: u32 = l2_term::<A>(a[i], b[i]);
        s = A::add(s, t);
        i += 1;
    }
    s
}

/// The running sums of products.
#[inline]
fn product_lanes<A: Arithmetic>(a: &[u32], b: &[u32]) -> (r: [u32; 8])
    requires
        a@.len() == b@.len(),
    ensures
        are_lanes(coordinate_product(a@, b@), a@.len() as int, r@),
{
    let n: usize = a.len();
    let groups: usize = n / LANES;
    let ghost term = coordinate_product(a@, b@);
    let mut acc: [u32; 8] = [0, 0, 0, 0, 0, 0, 0, 0];
    let mut g: usize = 0;
    while g < groups
        invariant
            n == a@.len() == b@.len(),
            groups == n / LANES,
            g <= groups,
            term == coordinate_product(a@, b@),
            forall|l: int| 0 <= l < LANES ==> #[trigger] acc@[l] == lane_sum(term, l, g as int),
        decreases groups - g,
    {
        let xs: &[u32] = row_at(a, LANES, g);
        let ys: &[u32] = row_at(b, LANES, g);
        let mut t: [u32; 8] = [0, 0, 0, 0, 0, 0, 0, 0];
        let mut l: usize = 0;
        while l < LANES
            invariant
                l <= LANES,
                xs@.len() == LANES,
                ys@.len() == LANES,
                forall|k: int| 0 <= k < l ==> #[trigger] t@[k] == product(xs@[k], ys@[k]),
            decreases LANES - l,
        {
            t[l] = A::mul(xs[l], ys[l]);
            l += 1;
        }
        assert forall|k: int| 0 <= k < LANES implies #[trigger] t@[k] == term(g * LANES + k) by {
            assert(xs@[k] == a@[g * LANES + k]);
            assert(ys@[k] == b@[g * LANES + k]);
        }
        l = 0;
        while l < LANES
            invariant
                l <= LANES,
                forall|k: int| 0 <= k < LANES ==> #[trigger] t@[k] == term(g * LANES + k),
                forall|k: int| 0 <= k < l ==> #[trigger] acc@[k] == lane_sum(term, k, g + 1),
                forall|k: int| l <= k < LANES ==> #[trigger] acc@[k] == lane_sum(term, k, g as int),
            decreases LANES - l,
        {
            acc[l] = A::add(acc[l], t[l]);
            l += 1;
        }
        g += 1;
    }
    acc
}

/// The dot product of two vectors, from the sum of the running sums on.
#[inline]
fn product_rest<A: Arithmetic>(a: &[u32], b: &[u32], across: u32) -> (r: u32)
    requires
        a@.len() == b@.len(),
        across == across_lanes(coordinate_product(a@, b@), LANES as int, a@.len() as int / LANES as int),
    ensures
        r == total(coordinate_product(a@, b@), a@.len() as int),
{
    let n: usize = a.len();
    let groups: usize = n / LANES;
    let ghost term = coordinate_product(a@, b@);
    let mut s: u32 = across;
    let mut i: usize = groups * LANES;
    while i < n
        invariant
            n == a@.len() == b@.len(),
            groups == n / LANES,
            groups * LANES <= i <= n,
            term == coordinate_product(a@, b@),
            s == with_rest(term, n as int, i as int),
        decreases n - i,
    {
        assert(term(i as int) == product(a@[i as int], b@[i as int]));
        s = A::add(s, A::mul(a[i], b[i]));
        i += 1;
    }
    s
}

/// The squared Euclidean distance of two vectors.
#[inline]
pub fn l2_sqr<A: Arithmetic>(a: &[u32], b: &[u32]) -> (r: u32)
    requires
        a@.len() == b@.len(),
    ensures
        r == l2_sqr_of(a@, b@),
{
    let acc: [u32; 8] = l2_lanes::<A>(a, b);
    assert(are_lanes(squared_difference(a@, b@), a@.len() as int, acc@));
    l2_rest::<A>(a, b, across::<A>(acc))
}

/// The dot product of two vectors.
#[inline]
pub fn inner_product<A: Arithmetic>(a: &[u32], b: &[u32]) -> (r: u32)
    requires
        a@.len() == b@.len(),
    ensures
        r == inner_product_of(a@, b@),
{
    let acc: [u32; 8] = product_lanes::<A>(a, b);
    assert(are_lanes(coordinate_product(a@, b@), a@.len() as int, acc@));
    product_rest::<A>(a, b, across::<A>(acc))
}

/// How relevant `b` is to `a`: the smaller key is the more relevant.
#[inline]
pub fn key<A: Arithmetic>(metric: Metric, a: &[u32], b: &[u32]) -> (r: u32)
    requires
        a@.len() == b@.len(),
    ensures
        r == key_of(metric, a@, b@),
{
    match metric {
        Metric::L2 => l2_sqr::<A>(a, b),
        Metric::InnerProduct => negate(inner_product::<A>(a, b)),
    }
}

/// How relevant each of four vectors is to `a`.
pub(crate) fn key_four<A: Arithmetic>(
    metric: Metric,
    a: &[u32],
    b0: &[u32],
    b1: &[u32],
    b2: &[u32],
    b3: &[u32],
) -> (r: [u32; 4])
    requires
        a@.len() == b0@.len() == b1@.len() == b2@.len() == b3@.len(),
    ensures
        r@ == seq![
            key_of(metric, a@, b0@),
            key_of(metric, a@, b1@),
            key_of(metric, a@, b2@),
            key_of(metric, a@, b3@),
        ],
{
    let ghost n = a@.len() as int;
    let r: [u32; 4] = match metric {
        Metric::L2 => {
            let acc: [[u32; 8]; 4] = [
                l2_lanes::<A>(a, b0),
                l2_lanes::<A>(a, b1),
                l2_lanes::<A>(a, b2),
                l2_lanes::<A>(a, b3),
            ];
            proof {
                assert(are_lanes(squared_difference(a@, b0@), n, acc@[0]@));
                assert(are_lanes(squared_difference(a@, b1@), n, acc@[1]@));
                assert(are_lanes(squared_difference(a@, b2@), n, acc@[2]@));
                assert(are_lanes(squared_difference(a@, b3@), n, acc@[3]@));
            }
            let s: [u32; 4] = across_four::<A>(acc);
            [
                l2_rest::<A>(a, b0, s[0]),
                l2_rest::<A>(a, b1, s[1]),
                l2_rest::<A>(a, b2, s[2]),
                l2_rest::<A>(a, b3, s[3]),
            ]
        },
        Metric::InnerProduct => {
            let acc: [[u32; 8]; 4] = [
                product_lanes::<A>(a, b0),
                product_lanes::<A>(a, b1),
                product_lanes::<A>(a, b2),
                product_lanes::<A>(a, b3),
            ];
            proof {
                assert(are_lanes(coordinate_product(a@, b0@), n, acc@[0]@));
                assert(are_lanes(coordinate_product(a@, b1@), n, acc@[1]@));
                assert(are_lanes(coordinate_product(a@, b2@), n, acc@[2]@));
                assert(are_lanes(coordinate_product(a@, b3@), n, acc@[3]@));
            }
            let s: [u32; 4] = across_four::<A>(acc);
            [
                negate(product_rest::<A>(a, b0, s[0])),
                negate(product_rest::<A>(a, b1, s[1])),
                negate(product_rest::<A>(a, b2, s[2])),
                negate(product_rest::<A>(a, b3, s[3])),
            ]
        },
    };
    assert(r@ =~= seq![
        key_of(metric, a@, b0@),
        key_of(metric, a@, b1@),
        key_of(metric, a@, b2@),
        key_of(metric, a@, b3@),
    ]);
    r
}

/// The distance or similarity that is reported for a key.
#[inline]
pub fn natural<A: Arithmetic>(metric: Metric, key: u32) -> (r: u32)
    ensures
        r == natural_of(metric, key),
{
    match metric {
        Metric::L2 => A::sqrt(key),
        Metric::InnerProduct => negate(key),
    }
}

/// What is reported where there is no neighbor.
#[inline]
pub fn padding(metric: Metric) -> (r: u32)
    ensures
        r == padding_of(metric),
{
    match metric {
        Metric::L2 => MAX,
        Metric::InnerProduct => MIN,
    }
}

} // verus!
