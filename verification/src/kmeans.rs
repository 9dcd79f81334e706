//! Clustering of vectors around centroids (Lloyd's algorithm).

use vstd::prelude::*;
use crate::arith::{product, quotient, sum, whole, Arithmetic};
use crate::binary32::{is_lt, lt, nan, MAX, ONE};
use crate::distance::{l2_sqr, l2_sqr_of};
use crate::parallel::par_map;
use crate::rng::{draw, state_after, SplitMix};
use crate::rows::{capacity, row, row_at, row_fits, row_of_appended, rows_counted};

verus! {

/// The least of the first `n` keys, or the largest finite number if none is less.
pub open spec fn least_key(keys: spec_fn(int) -> u32, n: int) -> u32
    decreases n,
{
    if n <= 0 {
        MAX
    } else if lt(keys(n - 1), least_key(keys, n - 1)) {
        keys(n - 1)
    } else {
        least_key(keys, n - 1)
    }
}

/// The first of the first `n` places with the least key.
pub open spec fn closest(keys: spec_fn(int) -> u32, n: int) -> int
    decreases n,
{
    if n <= 0 {
        0
    } else if lt(keys(n - 1), least_key(keys, n - 1)) {
        n - 1
    } else {
        closest(keys, n - 1)
    }
}

/// No key is less than that of the closest place, and each before it is not as small.
pub proof fn closest_is_least(keys: spec_fn(int) -> u32, n: int)
    requires
        n > 0,
    ensures
        0 <= closest(keys, n) < n,
        forall|i: int| 0 <= i < n ==> !lt(#[trigger] keys(i), least_key(keys, n)),
        least_key(keys, n) == keys(closest(keys, n)) || (closest(keys, n) == 0 && least_key(keys, n)
            == MAX),
        forall|i: int|
            0 <= i < closest(keys, n) ==> nan(#[trigger] keys(i)) || lt(
                least_key(keys, n),
                keys(i),
            ),
    decreases n,
{
    if n > 1 {
        closest_is_least(keys, n - 1);
    }
    reveal_with_fuel(least_key, 2);
    reveal_with_fuel(closest, 2);
}

/// The squared distance of a vector from each row.
pub open spec fn distances(v: Seq<u32>, book: Seq<u32>, d: int, from: int) -> spec_fn(int) -> u32 {
    |c: int| l2_sqr_of(v, row(book, d, from + c))
}

/// The row nearest to a vector among the `k` rows from `from` on, counted from there.
pub fn closest_row<A: Arithmetic>(v: &[u32], book: &[u32], d: usize, from: usize, k: usize) -> (r:
    usize)
    requires
        v@.len() == d,
        (from + k) * d <= book@.len(),
        from + k <= usize::MAX,
        k > 0,
    ensures
        r == closest(distances(v@, book@, d as int, from as int), k as int),
        r < k,
{
    let ghost keys = distances(v@, book@, d as int, from as int);
    let mut best: usize = 0;
    let mut best_key: u32 = MAX;
    let mut c: usize = 0;
    while c < k
        invariant
            c <= k,
            v@.len() == d,
            (from + k) * d <= book@.len(),
            from + k <= usize::MAX,
            keys == distances(v@, book@, d as int, from as int),
            best == closest(keys, c as int),
            best_key == least_key(keys, c as int),
        decreases k - c,
    {
        proof {
            row_fits((from + c) as int, (from + k) as int, d as int);
        }
        let key: u32 = l2_sqr::<A>(v, row_at(book, d, from + c));
        assert(key == keys(c as int));
        if is_lt(key, best_key) {
            best_key = key;
            best = c;
        }
        c += 1;
    }
    proof {
        closest_is_least(keys, k as int);
    }
    best
}

/// Two places of a sequence exchanged.
pub open spec fn exchanged(s: Seq<int>, i: int, j: int) -> Seq<int> {
    s.update(i, s[j]).update(j, s[i])
}

/// The numbers below `n` after the first `c` places were drawn from them at random.
pub open spec fn shuffled(n: int, seed: u64, c: int) -> Seq<int>
    decreases c,
{
    if c <= 0 {
        Seq::new(n as nat, |i: int| i)
    } else {
        let i = c - 1;
        exchanged(
            shuffled(n, seed, i),
            i,
            i + draw(seed, i as nat) as int % (n - i),
        )
    }
}

/// Shuffling keeps every number once, and the places before those drawn last.
pub proof fn shuffled_is_distinct(n: int, seed: u64, c: int)
    requires
        0 <= c <= n,
    ensures
        shuffled(n, seed, c).len() == n,
        shuffled(n, seed, c).no_duplicates(),
        forall|i: int| 0 <= i < n ==> 0 <= #[trigger] shuffled(n, seed, c)[i] < n,
    decreases c,
{
    if c > 0 {
        shuffled_is_distinct(n, seed, c - 1);
        let i = c - 1;
        let s = shuffled(n, seed, i);
        let r = draw(seed, i as nat) as int % (n - i);
        vstd::arithmetic::div_mod::lemma_mod_bound(draw(seed, i as nat) as int, n - i);
        let t = exchanged(s, i, i + r);
        assert forall|a: int, b: int| 0 <= a < t.len() && 0 <= b < t.len() && a != b implies t[a]
            != t[b] by {
            let a1 = if a == i {
                i + r
            } else if a == i + r {
                i
            } else {
                a
            };
            let b1 = if b == i {
                i + r
            } else if b == i + r {
                i
            } else {
                b
            };
            assert(t[a] == s[a1]);
            assert(t[b] == s[b1]);
            assert(a1 != b1);
        }
    }
}

/// The first `n` rows of rows one after the other.
pub open spec fn rows_of(data: Seq<u32>, d: int, n: int) -> Seq<Seq<u32>> {
    Seq::new(n as nat, |i: int| row(data, d, i))
}

/// The points that clustering starts from: `k` of them, none twice.
pub open spec fn initial(points: Seq<Seq<u32>>, k: int, seed: u64) -> Seq<Seq<u32>> {
    Seq::new(k as nat, |c: int| points[shuffled(points.len() as int, seed, k)[c]])
}

/// Rows one after the other.
pub open spec fn holds_rows(flat: Seq<u32>, d: int, rows: Seq<Seq<u32>>) -> bool {
    &&& flat.len() == rows.len() * d
    &&& forall|i: int| 0 <= i < rows.len() ==> row(flat, d, i) == #[trigger] rows[i]
}

/// Which centroid each point is nearest to.
pub open spec fn assignment(points: Seq<Seq<u32>>, centroids: Seq<Seq<u32>>) -> Seq<int> {
    Seq::new(
        points.len(),
        |i: int|
            closest(|c: int| l2_sqr_of(points[i], centroids[c]), centroids.len() as int),
    )
}

/// How many of the first `i` points are with centroid `c`.
pub open spec fn count_of(assign: Seq<int>, c: int, i: int) -> int
    decreases i,
{
    if i <= 0 {
        0
    } else {
        count_of(assign, c, i - 1) + if assign[i - 1] == c {
            1int
        } else {
            0
        }
    }
}

/// The sum of coordinate `j` over those of the first `i` points that are with centroid `c`.
pub open spec fn sum_of(points: Seq<Seq<u32>>, assign: Seq<int>, c: int, j: int, i: int) -> u32
    decreases i,
{
    if i <= 0 {
        0
    } else {
        let p = sum_of(points, assign, c, j, i - 1);
        if assign[i - 1] == c {
            sum(p, points[i - 1][j])
        } else {
            p
        }
    }
}

/// How many of the first `c` centroids no point is with.
pub open spec fn deserted(assign: Seq<int>, c: int) -> nat
    decreases c,
{
    if c <= 0 {
        0
    } else {
        deserted(assign, c - 1) + if count_of(assign, c - 1, assign.len() as int) == 0 {
            1nat
        } else {
            0
        }
    }
}

/// Where centroid `c` moves: to the mean of its points, or, if it has none, to a point drawn
/// at random.
pub open spec fn moved(
    points: Seq<Seq<u32>>,
    d: int,
    assign: Seq<int>,
    state: u64,
    c: int,
) -> Seq<u32> {
    let n = points.len() as int;
    let count = count_of(assign, c, n);
    if count == 0 {
        points[draw(state, deserted(assign, c)) as int % n]
    } else {
        Seq::new(
            d as nat,
            |j: int|
                product(
                    sum_of(points, assign, c, j, n),
                    quotient(ONE, whole(count as u64)),
                ),
        )
    }
}

/// The centroids and the state of the generator after one round.
pub open spec fn round(
    points: Seq<Seq<u32>>,
    d: int,
    from: (Seq<Seq<u32>>, u64),
) -> (Seq<Seq<u32>>, u64) {
    let assign = assignment(points, from.0);
    (
        Seq::new(from.0.len(), |c: int| moved(points, d, assign, from.1, c)),
        state_after(from.1, deserted(assign, from.0.len() as int)),
    )
}

/// The centroids and the state of the generator after a number of rounds.
pub open spec fn rounds(
    points: Seq<Seq<u32>>,
    d: int,
    k: int,
    seed: u64,
    iters: int,
) -> (Seq<Seq<u32>>, u64)
    decreases iters,
{
    if iters <= 0 {
        (initial(points, k, seed), state_after(seed, k as nat))
    } else {
        round(points, d, rounds(points, d, k, seed, iters - 1))
    }
}

/// There are always as many centroids, each of the length of the points.
pub proof fn rounds_keep_shape(points: Seq<Seq<u32>>, d: int, k: int, seed: u64, iters: int)
    requires
        0 < k <= points.len(),
        d >= 0,
        forall|i: int| 0 <= i < points.len() ==> (#[trigger] points[i]).len() == d,
    ensures
        rounds(points, d, k, seed, iters).0.len() == k,
        forall|c: int| 0 <= c < k ==> (#[trigger] rounds(points, d, k, seed, iters).0[c]).len() == d,
    decreases iters,
{
    let n = points.len() as int;
    let r = rounds(points, d, k, seed, iters);
    if iters <= 0 {
        shuffled_is_distinct(n, seed, k);
        assert forall|c: int| 0 <= c < k implies (#[trigger] r.0[c]).len() == d by {
            assert(0 <= shuffled(n, seed, k)[c] < n);
        }
    } else {
        rounds_keep_shape(points, d, k, seed, iters - 1);
        let p = rounds(points, d, k, seed, iters - 1);
        let assign = assignment(points, p.0);
        assert forall|c: int| 0 <= c < k implies (#[trigger] r.0[c]).len() == d by {
            vstd::arithmetic::div_mod::lemma_mod_bound(
                draw(p.1, deserted(assign, c)) as int,
                n,
            );
        }
    }
}

/// Rows have their length.
proof fn rows_have_length(data: Seq<u32>, d: int, n: int)
    requires
        d >= 0,
        n * d <= data.len(),
    ensures
        forall|i: int| 0 <= i < n ==> (#[trigger] rows_of(data, d, n)[i]).len() == d,
{
    assert forall|i: int| 0 <= i < n implies (#[trigger] rows_of(data, d, n)[i]).len() == d by {
        row_fits(i, n, d);
    }
}

proof fn count_is_bounded(assign: Seq<int>, c: int, i: int)
    requires
        i >= 0,
    ensures
        0 <= count_of(assign, c, i) <= i,
    decreases i,
{
    if i > 0 {
        count_is_bounded(assign, c, i - 1);
    }
}

/// Appends a row to rows.
proof fn rows_grow(flat: Seq<u32>, d: int, rows: Seq<Seq<u32>>, more: Seq<u32>)
    requires
        d > 0,
        holds_rows(flat, d, rows),
        more.len() == d,
    ensures
        holds_rows(flat + more, d, rows.push(more)),
{
    let n = rows.len() as int;
    let all = rows.push(more);
    assert((n + 1) * d == n * d + d) by (nonlinear_arith);
    rows_counted(1, d);
    assert forall|i: int| 0 <= i < all.len() implies row(flat + more, d, i) == #[trigger] all[i] by {
        row_of_appended(flat, more, d, n, i);
        if i == n {
            assert(row(more, d, 0) =~= more);
        }
    }
}

/// Draws the rows that clustering starts from.
fn seed_rows(data: &[u32], n: usize, d: usize, k: usize, rng: &mut SplitMix) -> (r: Vec<u32>)
    requires
        0 < k <= n,
        d > 0,
        data@.len() >= n * d,
    ensures
        final(rng).state == state_after(old(rng).state, k as nat),
        holds_rows(
            r@,
            d as int,
            initial(rows_of(data@, d as int, n as int), k as int, old(rng).state),
        ),
{
    let ghost seed = rng.state;
    let mut order: Vec<usize> = Vec::new();
    let mut i: usize = 0;
    while i < n
        invariant
            i <= n,
            order@.len() == i,
            forall|j: int| 0 <= j < i ==> order@[j] == j,
        decreases n - i,
    {
        order.push(i);
        i += 1;
    }
    let mut flat: Vec<u32> = Vec::new();
    let ghost mut rows: Seq<Seq<u32>> = Seq::empty();
    let mut c: usize = 0;
    assert(0 * d == 0) by (nonlinear_arith);
    while c < k
        invariant
            c <= k <= n,
            d > 0,
            data@.len() >= n * d,
            rng.state == state_after(seed, c as nat),
            order@.len() == n,
            shuffled(n as int, seed, c as int).len() == n,
            forall|j: int| 0 <= j < n ==> order@[j] == shuffled(n as int, seed, c as int)[j],
            rows.len() == c,
            holds_rows(flat@, d as int, rows),
            forall|j: int|
                0 <= j < c ==> #[trigger] rows[j] == row(
                    data@,
                    d as int,
                    shuffled(n as int, seed, c as int)[j],
                ),
        decreases k - c,
    {
        let ghost before = shuffled(n as int, seed, c as int);
        let j: usize = c + rng.below(n - c);
        assert(j == c + draw(seed, c as nat) as int % (n - c));
        let x: usize = order[c];
        let y: usize = order[j];
        order.set(c, y);
        order.set(j, x);
        proof {
            let after = shuffled(n as int, seed, c + 1);
            assert(after == exchanged(before, c as int, j as int));
            shuffled_is_distinct(n as int, seed, c + 1);
            assert(0 <= after[c as int] < n);
            row_fits(after[c as int], n as int, d as int);
        }
        let v: &[u32] = row_at(data, d, order[c]);
        proof {
            rows_grow(flat@, d as int, rows, v@);
        }
        let ghost flat0 = flat@;
        flat.extend_from_slice(v);
        proof {
            assert(flat@ =~= flat0 + v@);
            rows = rows.push(v@);
        }
        c += 1;
    }
    proof {
        let goal = initial(rows_of(data@, d as int, n as int), k as int, seed);
        shuffled_is_distinct(n as int, seed, k as int);
        assert forall|i: int| 0 <= i < k implies rows[i] == goal[i] by {
            assert(0 <= shuffled(n as int, seed, k as int)[i] < n);
        }
        assert(rows =~= goal);
    }
    flat
}

/// Which centroid each row is nearest to.
fn assign_rows<A: Arithmetic>(
    data: &[u32],
    n: usize,
    d: usize,
    k: usize,
    flat: &Vec<u32>,
    Ghost(centroids): Ghost<Seq<Seq<u32>>>,
) -> (r: Vec<usize>)
    requires
        d > 0,
        k > 0,
        data@.len() >= n * d,
        centroids.len() == k,
        holds_rows(flat@, d as int, centroids),
    ensures
        r@.len() == n,
        forall|i: int|
            0 <= i < n ==> #[trigger] r@[i] == assignment(rows_of(data@, d as int, n as int), centroids)[i] && r@[i] < k,
{
    let pick = |i: usize| -> (c: usize)
        requires
            i < n,
            d > 0,
            k > 0,
            data@.len() >= n * d,
            k * d <= flat@.len(),
        ensures
            c == closest(distances(row(data@, d as int, i as int), flat@, d as int, 0), k as int),
            c < k,
        {
            proof {
                row_fits(i as int, n as int, d as int);
            }
            closest_row::<A>(row_at(data, d, i), flat.as_slice(), d, 0, k)
        };
    let r: Vec<usize> = par_map(n, pick);
    proof {
        let all = assignment(rows_of(data@, d as int, n as int), centroids);
        assert forall|i: int| 0 <= i < n implies #[trigger] r@[i] == all[i] && r@[i] < k by {
            let u = i as usize;
            assert(call_ensures(pick, (u,), r@[u as int]));
            let v = row(data@, d as int, i);
            let a = distances(v, flat@, d as int, 0);
            let b = |c: int| l2_sqr_of(v, centroids[c]);
            assert forall|c: int| 0 <= c < k implies #[trigger] a(c) == b(c) by {
                assert(row(flat@, d as int, c) == centroids[c]);
            }
            closest_of_same(a, b, k as int);
        }
    }
    r
}

/// The closest place depends on the keys alone.
proof fn closest_of_same(a: spec_fn(int) -> u32, b: spec_fn(int) -> u32, n: int)
    requires
        forall|i: int| 0 <= i < n ==> #[trigger] a(i) == b(i),
    ensures
        closest(a, n) == closest(b, n),
        least_key(a, n) == least_key(b, n),
    decreases n,
{
    if n > 0 {
        closest_of_same(a, b, n - 1);
        assert(a(n - 1) == b(n - 1));
    }
}

/// Sums up the rows of each centroid, and counts them.
fn gather<A: Arithmetic>(
    data: &[u32],
    n: usize,
    d: usize,
    k: usize,
    assign: &Vec<usize>,
    Ghost(all): Ghost<Seq<int>>,
) -> (r: (Vec<Vec<u32>>, Vec<u64>))
    requires
        d > 0,
        data@.len() >= n * d,
        n <= capacity(),
        assign@.len() == n,
        all.len() == n,
        forall|i: int| 0 <= i < n ==> #[trigger] assign@[i] == all[i] && assign@[i] < k,
    ensures
        r.0@.len() == k,
        r.1@.len() == k,
        forall|c: int|
            0 <= c < k ==> (#[trigger] r.0@[c])@.len() == d && forall|j: int|
                0 <= j < d ==> (#[trigger] r.0@[c]@[j]) == sum_of(
                    rows_of(data@, d as int, n as int),
                    all,
                    c,
                    j,
                    n as int,
                ),
        forall|c: int| 0 <= c < k ==> #[trigger] r.1@[c] == count_of(all, c, n as int),
{
    let mut sums: Vec<Vec<u32>> = Vec::new();
    let mut counts: Vec<u64> = Vec::new();
    let mut c: usize = 0;
    while c < k
        invariant
            c <= k,
            sums@.len() == c,
            counts@.len() == c,
            forall|l: int|
                0 <= l < c ==> (#[trigger] sums@[l])@.len() == d && forall|j: int|
                    0 <= j < d ==> (#[trigger] sums@[l]@[j]) == 0,
            forall|l: int| 0 <= l < c ==> #[trigger] counts@[l] == 0,
        decreases k - c,
    {
        let zeros: Vec<u32> = vec![0; d];
        sums.push(zeros);
        counts.push(0);
        c += 1;
    }
    let mut i: usize = 0;
    while i < n
        invariant
            i <= n,
            d > 0,
            data@.len() >= n * d,
            n <= capacity(),
            assign@.len() == n,
            all.len() == n,
            forall|i: int| 0 <= i < n ==> #[trigger] assign@[i] == all[i] && assign@[i] < k,
            sums@.len() == k,
            counts@.len() == k,
            forall|l: int|
                0 <= l < k ==> (#[trigger] sums@[l])@.len() == d && forall|j: int|
                    0 <= j < d ==> (#[trigger] sums@[l]@[j]) == sum_of(
                    rows_of(data@, d as int, n as int),
                    all,
                        l,
                        j,
                        i as int,
                    ),
            forall|l: int| 0 <= l < k ==> #[trigger] counts@[l] == count_of(all, l, i as int),
        decreases n - i,
    {
        let c: usize = assign[i];
        assert(assign@[i as int] == all[i as int]);
        proof {
            count_is_bounded(all, c as int, i as int);
            row_fits(i as int, n as int, d as int);
        }
        let ghost sums0 = sums@;
        counts.set(c, counts[c] + 1);
        let v: &[u32] = row_at(data, d, i);
        let mut s: Vec<u32> = Vec::new();
        std::mem::swap(&mut s, &mut sums[c]);
        let ghost s0 = s@;
        assert(s0 == sums0[c as int]@);
        assert(s0.len() == d);
        let mut j: usize = 0;
        while j < d
            invariant
                j <= d,
                v@.len() == d,
                s@.len() == d,
                s0.len() == d,
                forall|l: int| 0 <= l < j ==> (#[trigger] s@[l]) == sum(s0[l], v@[l]),
                forall|l: int| j <= l < d ==> (#[trigger] s@[l]) == s0[l],
            decreases d - j,
        {
            let x: u32 = A::add(s[j], v[j]);
            s.set(j, x);
            j += 1;
        }
        let ghost s1 = s@;
        std::mem::swap(&mut s, &mut sums[c]);
        proof {
            assert forall|l: int| 0 <= l < k implies (#[trigger] sums@[l])@.len() == d
                && forall|j: int|
                0 <= j < d ==> (#[trigger] sums@[l]@[j]) == sum_of(
                    rows_of(data@, d as int, n as int),
                    all,
                    l,
                    j,
                    i + 1,
                ) by {
                assert(sums0[l]@.len() == d);
                if l == c {
                    assert(sums@[l]@ == s1);
                } else {
                    assert(sums@[l] == sums0[l]);
                }
            }
        }
        i += 1;
    }
    (sums, counts)
}

/// Moves each centroid to the mean of its rows, or to a row drawn at random.
fn move_centroids<A: Arithmetic>(
    data: &[u32],
    n: usize,
    d: usize,
    k: usize,
    sums: &Vec<Vec<u32>>,
    counts: &Vec<u64>,
    rng: &mut SplitMix,
    Ghost(all): Ghost<Seq<int>>,
) -> (r: Vec<u32>)
    requires
        d > 0,
        0 < n <= capacity(),
        data@.len() >= n * d,
        all.len() == n,
        sums@.len() == k,
        counts@.len() == k,
        forall|c: int|
            0 <= c < k ==> (#[trigger] sums@[c])@.len() == d && forall|j: int|
                0 <= j < d ==> (#[trigger] sums@[c]@[j]) == sum_of(
                    rows_of(data@, d as int, n as int),
                    all,
                    c,
                    j,
                    n as int,
                ),
        forall|c: int| 0 <= c < k ==> #[trigger] counts@[c] == count_of(all, c, n as int),
    ensures
        final(rng).state == state_after(old(rng).state, deserted(all, k as int)),
        holds_rows(
            r@,
            d as int,
            Seq::new(
                k as nat,
                |c: int| moved(rows_of(data@, d as int, n as int), d as int, all, old(rng).state, c),
            ),
        ),
{
    let ghost state = rng.state;
    let mut flat: Vec<u32> = Vec::new();
    let ghost mut rows: Seq<Seq<u32>> = Seq::empty();
    assert(0 * d == 0) by (nonlinear_arith);
    let mut c: usize = 0;
    while c < k
        invariant
            c <= k,
            d > 0,
            0 < n <= capacity(),
            data@.len() >= n * d,
            all.len() == n,
            sums@.len() == k,
            counts@.len() == k,
            forall|c: int|
                0 <= c < k ==> (#[trigger] sums@[c])@.len() == d && forall|j: int|
                    0 <= j < d ==> (#[trigger] sums@[c]@[j]) == sum_of(
                    rows_of(data@, d as int, n as int),
                    all,
                        c,
                        j,
                        n as int,
                    ),
            forall|c: int| 0 <= c < k ==> #[trigger] counts@[c] == count_of(all, c, n as int),
            rng.state == state_after(state, deserted(all, c as int)),
            rows.len() == c,
            holds_rows(flat@, d as int, rows),
            forall|l: int|
                0 <= l < c ==> #[trigger] rows[l] == moved(rows_of(data@, d as int, n as int), d as int, all,
                    state,
                    l,
                ),
        decreases k - c,
    {
        let ghost goal = moved(rows_of(data@, d as int, n as int), d as int, all, state, c as int);
        let count: u64 = counts[c];
        assert(count == count_of(all, c as int, n as int));
        proof {
            count_is_bounded(all, c as int, n as int);
        }
        let ghost flat0 = flat@;
        if count == 0 {
            let i: usize = rng.below(n);
            proof {
                row_fits(i as int, n as int, d as int);
            }
            let v: &[u32] = row_at(data, d, i);
            flat.extend_from_slice(v);
            proof {
                assert(v@ == goal);
                assert(flat@ =~= flat0 + goal);
            }
        } else {
            let inv: u32 = A::div(ONE, A::from_count(count));
            let s: &Vec<u32> = &sums[c];
            assert(s@.len() == d);
            let mut j: usize = 0;
            while j < d
                invariant
                    j <= d,
                    s@.len() == d,
                    goal.len() == d,
                    inv == quotient(ONE, whole(count)),
                    forall|l: int| 0 <= l < d ==> goal[l] == product(#[trigger] s@[l], inv),
                    flat@ == flat0 + goal.take(j as int),
                decreases d - j,
            {
                let x: u32 = A::mul(s[j], inv);
                assert(x == goal[j as int]);
                flat.push(x);
                j += 1;
                assert(flat@ =~= flat0 + goal.take(j as int));
            }
            assert(goal.take(d as int) =~= goal);
        }
        proof {
            if count == 0 {
                let x = draw(state, deserted(all, c as int)) as int;
                vstd::arithmetic::div_mod::lemma_mod_bound(x, n as int);
                row_fits(x % n as int, n as int, d as int);
            }
            rows_grow(flat0, d as int, rows, goal);
            rows = rows.push(goal);
        }
        c += 1;
    }
    proof {
        assert(rows =~= Seq::new(
            k as nat,
            |c: int| moved(rows_of(data@, d as int, n as int), d as int, all, state, c),
        ));
    }
    flat
}

/// Clusters `n` rows of length `d` around `k` centroids, which are returned one after the
/// other.
pub fn kmeans<A: Arithmetic>(
    data: &[u32],
    n: usize,
    d: usize,
    k: usize,
    iters: usize,
    seed: u64,
) -> (r: Vec<u32>)
    requires
        0 < k <= n,
        n <= capacity(),
        d > 0,
        data@.len() >= n * d,
    ensures
        holds_rows(
            r@,
            d as int,
            rounds(rows_of(data@, d as int, n as int), d as int, k as int, seed, iters as int).0,
        ),
        r@.len() == k * d,
{
    let mut rng: SplitMix = SplitMix { state: seed };
    let mut flat: Vec<u32> = seed_rows(data, n, d, k, &mut rng);
    let mut t: usize = 0;
    while t < iters
        invariant
            t <= iters,
            0 < k <= n,
            n <= capacity(),
            d > 0,
            data@.len() >= n * d,
            rng.state == rounds(rows_of(data@, d as int, n as int), d as int, k as int, seed, t as int).1,
            holds_rows(
                flat@,
                d as int,
                rounds(rows_of(data@, d as int, n as int), d as int, k as int, seed, t as int).0,
            ),
        decreases iters - t,
    {
        let ghost from = rounds(rows_of(data@, d as int, n as int), d as int, k as int, seed, t as int);
        proof {
            rows_have_length(data@, d as int, n as int);
            rounds_keep_shape(
                rows_of(data@, d as int, n as int),
                d as int,
                k as int,
                seed,
                t as int,
            );
        }
        let ghost all = assignment(rows_of(data@, d as int, n as int), from.0);
        let assign: Vec<usize> = assign_rows::<A>(data, n, d, k, &flat, Ghost(from.0));
        let (sums, counts) = gather::<A>(data, n, d, k, &assign, Ghost(all));
        flat = move_centroids::<A>(data, n, d, k, &sums, &counts, &mut rng, Ghost(all));
        t += 1;
    }
    proof {
        rows_have_length(data@, d as int, n as int);
            rounds_keep_shape(
                rows_of(data@, d as int, n as int),
                d as int,
                k as int,
                seed,
                iters as int,
            );
    }
    flat
}

} // verus!
