//! Knot vector utilities for spline computations.
//!
//! Knot values built here are exact fractions `num / den`; knots handed in
//! are the bit patterns of doubles (see `fbits`).
use vstd::prelude::*;
use crate::fbits::{ascending, less, less_eq, nan, ordinal, lt, le};

verus! {

/// The exact value `num / den`. A zero denominator appears only where a
/// formula divides zero by zero (a uniform vector of a single knot, or the
/// parameter of a single interpolated point), whose floating-point value is
/// NaN.
#[derive(Clone, Copy, Debug, PartialEq, Eq, Structural)]
pub struct Fraction {
    pub num: usize,
    pub den: usize,
}

/// The fraction `num / den`.
pub open spec fn frac(num: int, den: int) -> Fraction {
    Fraction { num: num as usize, den: den as usize }
}

/// `a <= b` as rational numbers with positive denominators.
pub open spec fn frac_le(a: Fraction, b: Fraction) -> bool {
    a.num * b.den <= b.num * a.den
}

/// `a < b` as rational numbers with positive denominators.
pub open spec fn frac_lt(a: Fraction, b: Fraction) -> bool {
    a.num * b.den < b.num * a.den
}

/// Knot `i` of the uniform knot vector for `n` control points of degree
/// `degree`: `i / (m - 1)` with `m = n + degree + 1` knots.
pub open spec fn uniform_knot(n: int, degree: int, i: int) -> Fraction {
    frac(i, n + degree)
}

/// Knot `i` of the clamped (open) uniform knot vector for `n` control
/// points of degree `degree`: zero up to index `degree`, one from index `n`
/// on, and `(i - degree) / (n - degree)` in between.
pub open spec fn clamped_knot(n: int, degree: int, i: int) -> Fraction {
    if i <= degree {
        frac(0, 1)
    } else if i >= n {
        frac(1, 1)
    } else {
        frac(i - degree, n - degree)
    }
}

/// Create a uniform knot vector: `n + degree + 1` knots `i / (n + degree)`,
/// evenly spaced from 0 to 1.
pub fn uniform(n: usize, degree: usize) -> (r: Vec<Fraction>)
    requires
        n + degree + 1 <= usize::MAX,
    ensures
        r@.len() == n + degree + 1,
        forall|i: int| 0 <= i < r@.len() ==> #[trigger] r@[i] == uniform_knot(n as int, degree as int, i),
        // knot i is the point i / (n + degree): evenly spaced from 0 to 1
        n + degree >= 1 ==> forall|i: int|
            0 <= i < r@.len() ==> {
                let k = #[trigger] r@[i];
                &&& k.den > 0
                &&& k.num * (n + degree) == i * k.den
            },
{
    let m = n + degree + 1;
    let mut knots: Vec<Fraction> = Vec::with_capacity(m);
    let mut i: usize = 0;
    while i < m
        invariant
            m == n + degree + 1,
            i <= m,
            knots@.len() == i,
            forall|j: int| 0 <= j < i ==> #[trigger] knots@[j] == uniform_knot(n as int, degree as int, j),
        decreases m - i,
    {
        knots.push(Fraction { num: i, den: m - 1 });
        i = i + 1;
    }
    knots
}

/// Create a clamped (open) uniform knot vector.
///
/// The first and last `degree + 1` knots are repeated (see
/// `lemma_clamped_ends`).
pub fn clamped(n: usize, degree: usize) -> (r: Vec<Fraction>)
    requires
        n + degree + 1 <= usize::MAX,
    ensures
        r@.len() == n + degree + 1,
        forall|i: int| 0 <= i < r@.len() ==> #[trigger] r@[i] == clamped_knot(n as int, degree as int, i),
        // every knot is a value in [0, 1] with a positive denominator
        forall|i: int|
            0 <= i < r@.len() ==> {
                let k = #[trigger] r@[i];
                &&& k.den > 0
                &&& k.num <= k.den
            },
        // 0 up to index degree, 1 from index n on, and knot i in between is
        // the point (i - degree) / (n - degree): evenly spaced
        forall|i: int| 0 <= i <= degree && i < r@.len() ==> #[trigger] r@[i].num == 0,
        forall|i: int| n <= i < r@.len() && i > degree ==> #[trigger] r@[i].num == r@[i].den,
        forall|i: int|
            degree < i < n ==> #[trigger] r@[i].num * (n - degree) == (i - degree) * r@[i].den,
{
    let m = n + degree + 1;
    let mut knots: Vec<Fraction> = Vec::with_capacity(m);
    let mut i: usize = 0;
    while i < m
        invariant
            m == n + degree + 1,
            i <= m,
            knots@.len() == i,
            forall|j: int| 0 <= j < i ==> #[trigger] knots@[j] == clamped_knot(n as int, degree as int, j),
        decreases m - i,
    {
        if i <= degree {
            knots.push(Fraction { num: 0, den: 1 });
        } else if i >= m - degree - 1 {
            knots.push(Fraction { num: 1, den: 1 });
        } else {
            knots.push(Fraction { num: i - degree, den: n - degree });
        }
        i = i + 1;
    }
    knots
}

/// The uniform knot vector runs from exactly 0 to exactly 1 and is strictly
/// increasing.
pub proof fn lemma_uniform_increasing(n: int, degree: int)
    requires
        n >= 0,
        degree >= 0,
        n + degree >= 1,
        n + degree <= usize::MAX,
    ensures
        uniform_knot(n, degree, 0).num == 0,
        uniform_knot(n, degree, n + degree).num == uniform_knot(n, degree, n + degree).den,
        forall|i: int, j: int|
            0 <= i < j <= n + degree ==> frac_lt(
                #[trigger] uniform_knot(n, degree, i),
                #[trigger] uniform_knot(n, degree, j),
            ),
{
    assert forall|i: int, j: int| 0 <= i < j <= n + degree implies frac_lt(
        #[trigger] uniform_knot(n, degree, i),
        #[trigger] uniform_knot(n, degree, j),
    ) by {
        let a = uniform_knot(n, degree, i);
        let b = uniform_knot(n, degree, j);
        assert(a.num == i && b.num == j && a.den == n + degree && b.den == n + degree);
        lemma_mul_strict_right(i, j, n + degree);
    }
}

/// The uniform knot vector is evenly spaced: knot `i` has the value
/// `i / (n + degree)`.
pub proof fn lemma_uniform_evenly_spaced(n: int, degree: int)
    requires
        n >= 0,
        degree >= 0,
        n + degree >= 1,
        n + degree <= usize::MAX,
    ensures
        forall|i: int|
            0 <= i <= n + degree ==> {
                let k = #[trigger] uniform_knot(n, degree, i);
                &&& k.den > 0
                &&& k.num * (n + degree) == i * k.den
            },
{
    assert forall|i: int| 0 <= i <= n + degree implies {
        let k = #[trigger] uniform_knot(n, degree, i);
        &&& k.den > 0
        &&& k.num * (n + degree) == i * k.den
    } by {
        let k = uniform_knot(n, degree, i);
        assert(k.num == i && k.den == n + degree);
    }
}

/// The interior knots of the clamped vector are evenly spaced: for
/// `degree < i < n`, knot `i` has the value `(i - degree) / (n - degree)`,
/// so consecutive knots from index `degree` to index `n` differ by
/// `1 / (n - degree)`.
pub proof fn lemma_clamped_evenly_spaced(n: int, degree: int)
    requires
        0 <= degree < n,
        n + degree + 1 <= usize::MAX,
    ensures
        forall|i: int|
            degree < i < n ==> {
                let k = #[trigger] clamped_knot(n, degree, i);
                &&& k.den > 0
                &&& k.num * (n - degree) == (i - degree) * k.den
            },
        clamped_knot(n, degree, degree).num == 0,
        clamped_knot(n, degree, n).num == clamped_knot(n, degree, n).den,
{
    assert forall|i: int| degree < i < n implies {
        let k = #[trigger] clamped_knot(n, degree, i);
        &&& k.den > 0
        &&& k.num * (n - degree) == (i - degree) * k.den
    } by {
        let k = clamped_knot(n, degree, i);
        assert(k.num == i - degree && k.den == n - degree);
    }
}

proof fn lemma_mul_strict_right(a: int, b: int, c: int)
    by (nonlinear_arith)
    requires
        a < b,
        c > 0,
    ensures
        a * c < b * c,
{
}

proof fn lemma_mul_le_right(a: int, b: int, c: int)
    by (nonlinear_arith)
    requires
        a <= b,
        c >= 0,
    ensures
        a * c <= b * c,
{
}

/// When there are more control points than the degree, the first
/// `degree + 1` knots of the clamped vector are 0 and the last `degree + 1`
/// are 1.
pub proof fn lemma_clamped_ends(n: int, degree: int)
    requires
        0 <= degree < n,
    ensures
        forall|i: int| 0 <= i < degree + 1 ==> #[trigger] clamped_knot(n, degree, i) == frac(0, 1),
        forall|i: int|
            n + degree + 1 - (degree + 1) <= i < n + degree + 1 ==> #[trigger] clamped_knot(
                n,
                degree,
                i,
            ) == frac(1, 1),
{
}

/// When there are more control points than the degree, every knot of the
/// clamped vector lies in `[0, 1]` and the vector is non-decreasing.
pub proof fn lemma_clamped_nondecreasing(n: int, degree: int)
    requires
        0 <= degree < n,
        n + degree + 1 <= usize::MAX,
    ensures
        forall|i: int|
            0 <= i < n + degree + 1 ==> {
                let k = #[trigger] clamped_knot(n, degree, i);
                &&& k.den > 0
                &&& k.num <= k.den
            },
        forall|i: int, j: int|
            0 <= i <= j < n + degree + 1 ==> frac_le(
                #[trigger] clamped_knot(n, degree, i),
                #[trigger] clamped_knot(n, degree, j),
            ),
{
    assert forall|i: int, j: int| 0 <= i <= j < n + degree + 1 implies frac_le(
        #[trigger] clamped_knot(n, degree, i),
        #[trigger] clamped_knot(n, degree, j),
    ) by {
        let a = clamped_knot(n, degree, i);
        let b = clamped_knot(n, degree, j);
        if degree < i && i < n && degree < j && j < n {
            assert(a.num == i - degree && b.num == j - degree);
            assert(a.den == n - degree && b.den == n - degree);
            lemma_mul_le_right(i - degree, j - degree, n - degree);
        } else if degree < i && i < n {
            assert(a.num == i - degree && a.den == n - degree);
            assert(b.num == 1 && b.den == 1);
            assert(a.num * b.den == i - degree);
            assert(b.num * a.den == n - degree);
        } else if degree < j && j < n {
            assert(b.num == j - degree && b.den == n - degree);
            assert(a.num == 0 && a.den == 1);
            assert(a.num * b.den == 0) by (nonlinear_arith)
                requires
                    a.num == 0,
            ;
            assert(b.num * a.den == j - degree);
        } else {
            assert(a.den == 1 && b.den == 1);
            assert(a.num <= b.num);
        }
    }
}

/// The index at which bisection of the span `[lo, hi)` stops for the
/// parameter `u`: halve at `mid = (lo + hi) / 2` towards the half that can
/// still hold `u` until `k[mid] <= u < k[mid + 1]` (comparisons with a NaN
/// being false).
pub open spec fn bisect(k: Seq<u64>, u: u64, lo: int, hi: int) -> int
    decreases hi - lo,
{
    let mid = (lo + hi) / 2;
    if lo + 1 >= hi {
        mid
    } else if less(u, k[mid]) {
        bisect(k, u, lo, mid)
    } else if less_eq(k[mid + 1], u) {
        bisect(k, u, mid, hi)
    } else {
        mid
    }
}

/// `s` is the knot span that `find_span` reports for the parameter `u` in the
/// knot vector `k` of degree `degree`, with `n = k.len() - degree - 2`:
/// `n` when `u >= k[n + 1]`; else `degree` when `u < k[degree]`; else, for a
/// NaN `u`, the first midpoint `(degree + n + 1) / 2`; else the index in
/// `[degree, n]` found by bisection, which has `k[s] <= u < k[s + 1]`.
pub open spec fn is_span(k: Seq<u64>, degree: int, u: u64, s: int) -> bool {
    let n = k.len() - degree - 2;
    if less_eq(k[n + 1], u) {
        s == n
    } else if less(u, k[degree]) {
        s == degree
    } else if nan(u) {
        s == (degree + n + 1) / 2
    } else {
        &&& s == bisect(k, u, degree, n + 1)
        &&& degree <= s <= n
        &&& !less(u, k[s])
        &&& !less_eq(k[s + 1], u)
    }
}

/// What `find_span` needs of its input: room for `degree + 2` knots, and
/// either at least `degree + 1` spans or a sorted knot vector.
pub open spec fn span_input(k: Seq<u64>, degree: int) -> bool {
    &&& k.len() >= degree + 2
    &&& (degree + degree + 2 <= k.len() || ascending(k))
}

/// Compute the knot span index for parameter `u`.
///
/// Returns the index `i` such that `knots[i] <= u < knots[i + 1]` (see
/// `is_span` for the ends of the range, and `lemma_span_unique` and
/// `lemma_span_brackets` for sorted knot vectors).
pub fn find_span(degree: usize, knots: &[u64], u: u64) -> (r: usize)
    requires
        span_input(knots@, degree as int),
    ensures
        is_span(knots@, degree as int, u, r as int),
{
    let n = knots.len() - degree - 2;
    if le(knots[n + 1], u) {
        return n;
    }
    if lt(u, knots[degree]) {
        return degree;
    }
    proof {
        if !nan(u) && degree > n {
            // a sorted vector would have u < knots[n + 1] <= knots[degree]
            assert(ascending(knots@));
            assert(ordinal(knots@[n + 1]) <= ordinal(knots@[degree as int]));
            assert(!nan(knots@[n + 1]) && !nan(knots@[degree as int]));
            assert(false);
        }
    }
    let mut lo = degree;
    let mut hi = n + 1;
    // lo + hi == knots.len() - 1 here
    let mut mid = (lo + hi) / 2;
    while lt(u, knots[mid]) || le(knots[mid + 1], u)
        invariant
            span_input(knots@, degree as int),
            n == knots@.len() - degree - 2,
            !less_eq(knots@[n + 1], u),
            !less(u, knots@[degree as int]),
            mid + 1 < knots@.len(),
            nan(u) ==> mid == (degree + n + 1) / 2,
            !nan(u) ==> {
                &&& degree <= lo < hi <= n + 1
                &&& mid == (lo + hi) / 2
                &&& bisect(knots@, u, lo as int, hi as int) == bisect(
                    knots@,
                    u,
                    degree as int,
                    n + 1,
                )
                &&& !less(u, knots@[lo as int])
                &&& !less_eq(knots@[hi as int], u)
            },
        decreases hi - lo,
    {
        if lt(u, knots[mid]) {
            hi = mid;
        } else {
            lo = mid;
        }
        mid = lo + (hi - lo) / 2;
    }
    mid
}

/// For a sorted knot vector the knot span is unique.
pub proof fn lemma_span_unique(k: Seq<u64>, degree: int, u: u64, s1: int, s2: int)
    requires
        0 <= degree,
        k.len() >= degree + 2,
        ascending(k),
        is_span(k, degree, u, s1),
        is_span(k, degree, u, s2),
    ensures
        s1 == s2,
{
    let n = k.len() - degree - 2;
    if !less_eq(k[n + 1], u) && !less_eq(u, k[degree]) && !nan(u) {
        if s1 < s2 {
            assert(ordinal(k[s1 + 1]) <= ordinal(k[s2]));
        } else if s2 < s1 {
            assert(ordinal(k[s2 + 1]) <= ordinal(k[s1]));
        }
    }
}

/// For a sorted knot vector and `knots[degree] <= u < knots[n + 1]`, the span
/// `s` satisfies `knots[s] <= u < knots[s + 1]`.
pub proof fn lemma_span_brackets(k: Seq<u64>, degree: int, u: u64, s: int)
    requires
        0 <= degree,
        k.len() >= degree + 2,
        ascending(k),
        less_eq(k[degree], u),
        less(u, k[k.len() - degree - 1]),
        is_span(k, degree, u, s),
    ensures
        degree <= s <= k.len() - degree - 2,
        less_eq(k[s], u),
        less(u, k[s + 1]),
{
}

/// How a control point of the refined curve is obtained from the old ones.
#[derive(Clone, Copy, Debug, PartialEq, Eq, Structural)]
pub enum NewPoint {
    /// A copy of old control point `i`.
    Keep(usize),
    /// `alpha * P[i] + (1 - alpha) * P[i - 1]` with
    /// `alpha = (u - knots[i]) / (knots[i + degree] - knots[i])`.
    Blend(usize),
}

/// The control points after inserting a knot in span `s` of a curve of
/// degree `degree` with `n_points` control points: old points `0..=s-degree`,
/// blends `s-degree+1..=s`, then old points `s..n_points`.
pub open spec fn insertion_plan(s: int, degree: int, n_points: int) -> Seq<NewPoint> {
    let len = if n_points > s {
        n_points + 1
    } else {
        s + 1
    };
    Seq::new(
        len as nat,
        |k: int|
            if k <= s - degree {
                NewPoint::Keep(k as usize)
            } else if k <= s {
                NewPoint::Blend(k as usize)
            } else {
                NewPoint::Keep((k - 1) as usize)
            },
    )
}

/// Inserting a knot into a curve with more control points than its span
/// index adds exactly one control point, and every new point refers only to
/// old points that exist (a blend to point `i` and its predecessor `i - 1`).
pub proof fn lemma_insertion_adds_one(s: int, degree: int, n_points: int)
    requires
        0 <= degree <= s < n_points,
        n_points < usize::MAX,
    ensures
        insertion_plan(s, degree, n_points).len() == n_points + 1,
        forall|k: int|
            0 <= k < n_points + 1 ==> match #[trigger] insertion_plan(s, degree, n_points)[k] {
                NewPoint::Keep(i) => i < n_points,
                NewPoint::Blend(i) => 1 <= i < n_points,
            },
{
}

/// The shape of knot insertion in span `s` for degree `degree`: the old
/// points up to `s - degree` are kept in place, the `degree` points
/// `s - degree + 1 ..= s` are blends of old points `k` and `k - 1`, and the old
/// points from `s` on follow shifted by one place; the refined polygon has one
/// point more than the old one (when `s < n_points`).
pub proof fn lemma_insertion_plan_shape(s: int, degree: int, n_points: int)
    requires
        0 <= degree <= s,
    ensures
        n_points > s ==> insertion_plan(s, degree, n_points).len() == n_points + 1,
        n_points <= s ==> insertion_plan(s, degree, n_points).len() == s + 1,
        forall|k: int|
            0 <= k <= s - degree ==> #[trigger] insertion_plan(s, degree, n_points)[k]
                == NewPoint::Keep(k as usize),
        forall|k: int|
            s - degree < k <= s ==> #[trigger] insertion_plan(s, degree, n_points)[k]
                == NewPoint::Blend(k as usize),
        forall|k: int|
            s < k < insertion_plan(s, degree, n_points).len() ==> #[trigger] insertion_plan(
                s,
                degree,
                n_points,
            )[k] == NewPoint::Keep((k - 1) as usize),
{
}

/// Inserting a parameter `u` with `knots[degree] <= u < knots[n + 1]` into a
/// sorted knot vector keeps it sorted.
pub proof fn lemma_insertion_keeps_order(k: Seq<u64>, degree: int, u: u64, s: int)
    requires
        0 <= degree,
        span_input(k, degree),
        ascending(k),
        less_eq(k[degree], u),
        less(u, k[k.len() - degree - 1]),
        is_span(k, degree, u, s),
    ensures
        ascending(k.insert(s + 1, u)),
{
    let n = k.len() - degree - 2;
    let t = k.insert(s + 1, u);
    assert(degree <= s <= n);
    assert(ordinal(k[s]) <= ordinal(u));
    assert(ordinal(u) <= ordinal(k[s + 1]));
    assert forall|i: int| 0 <= i < t.len() implies !nan(#[trigger] t[i]) by {
        if i > s + 1 {
            assert(t[i] == k[i - 1]);
        }
    }
    assert forall|i: int, j: int| 0 <= i <= j < t.len() implies ordinal(#[trigger] t[i]) <= ordinal(
        #[trigger] t[j],
    ) by {
        if j <= s {
            assert(t[i] == k[i] && t[j] == k[j]);
        } else if j == s + 1 {
            if i <= s {
                assert(ordinal(k[i]) <= ordinal(k[s]));
            }
        } else {
            assert(t[j] == k[j - 1]);
            if i <= s {
                assert(ordinal(k[i]) <= ordinal(k[j - 1]));
            } else if i == s + 1 {
                assert(ordinal(k[s + 1]) <= ordinal(k[j - 1]));
            } else {
                assert(t[i] == k[i - 1]);
            }
        }
    }
}

/// Insert a knot into the knot vector and lay out the updated control
/// points (Boehm's algorithm).
///
/// Returns the new knot vector, with `u` inserted right after its span, and
/// for each new control point how it is formed from the `n_points` old ones.
pub fn insert_knot(knots: &[u64], n_points: usize, degree: usize, u: u64) -> (r: (
    Vec<u64>,
    Vec<NewPoint>,
))
    requires
        span_input(knots@, degree as int),
        forall|s: int| is_span(knots@, degree as int, u, s) ==> s >= degree,
    ensures
        exists|s: int|
            #[trigger] is_span(knots@, degree as int, u, s) && r.0@ == knots@.insert(s + 1, u)
                && r.1@ == insertion_plan(s, degree as int, n_points as int)
            // one knot more, and one point more when the span is below the
            // point count
                && r.0@.len() == knots@.len() + 1 && r.0@[s + 1] == u && (n_points > s
                ==> r.1@.len() == n_points + 1)
            // old points 0..=s-degree are kept in place
                && (forall|k: int| 0 <= k <= s - degree ==> #[trigger] r.1@[k] == NewPoint::Keep(k as usize))
            // the degree points s-degree+1..=s are blends of old points k and k-1
                && (forall|k: int|
                s - degree < k <= s ==> #[trigger] r.1@[k] == NewPoint::Blend(k as usize))
            // the old points from s on follow, shifted by one
                && (forall|k: int|
                s < k < r.1@.len() ==> #[trigger] r.1@[k] == NewPoint::Keep((k - 1) as usize)),
{
    let span = find_span(degree, knots, u);
    assert(span >= degree);
    assert(span + 1 < knots@.len());
    assert(knots@.len() == knots.len());
    let mut new_knots: Vec<u64> = Vec::new();
    let mut i: usize = 0;
    while i < knots.len()
        invariant
            i <= knots@.len(),
            new_knots@ == knots@.subrange(0, i as int),
        decreases knots@.len() - i,
    {
        new_knots.push(knots[i]);
        i = i + 1;
    }
    assert(new_knots@ == knots@);
    new_knots.insert(span + 1, u);

    let ghost plan = insertion_plan(span as int, degree as int, n_points as int);
    let mut points: Vec<NewPoint> = Vec::new();
    let mut i: usize = 0;
    while i <= span - degree
        invariant
            degree <= span,
            span + 1 < usize::MAX,
            i <= span - degree + 1,
            points@.len() == i,
            forall|k: int| 0 <= k < i ==> #[trigger] points@[k] == plan[k],
            plan == insertion_plan(span as int, degree as int, n_points as int),
        decreases span - degree + 1 - i,
    {
        points.push(NewPoint::Keep(i));
        i = i + 1;
    }
    let mut i: usize = span - degree + 1;
    while i <= span
        invariant
            degree <= span,
            span + 1 < usize::MAX,
            span - degree + 1 <= i <= span + 1,
            points@.len() == i,
            forall|k: int| 0 <= k < i ==> #[trigger] points@[k] == plan[k],
            plan == insertion_plan(span as int, degree as int, n_points as int),
        decreases span + 1 - i,
    {
        points.push(NewPoint::Blend(i));
        i = i + 1;
    }
    let mut i: usize = span;
    while i < n_points
        invariant
            degree <= span,
            span <= i,
            n_points > span ==> i <= n_points,
            n_points <= span ==> i == span,
            points@.len() == i + 1,
            forall|k: int| 0 <= k < points@.len() ==> #[trigger] points@[k] == plan[k],
            plan == insertion_plan(span as int, degree as int, n_points as int),
        decreases n_points - i,
    {
        points.push(NewPoint::Keep(i));
        i = i + 1;
    }
    assert(points@ =~= plan);
    assert(is_span(knots@, degree as int, u, span as int));
    (new_knots, points)
}

} // verus!
