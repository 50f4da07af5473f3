//! B-spline basis functions and interpolation: the decisions that do not
//! depend on floating-point arithmetic.
use vstd::prelude::*;
use crate::fbits::{ascending, less, less_eq, same, le, lt, eq, nan, ordinal, magnitude, is_nan, SIGN_BIT};
use crate::knots::{Fraction, clamped, clamped_knot, frac};

verus! {

/// The degree-zero B-spline basis function `N(i, 0)` is one at `u`: `u` lies
/// in `[knots[i], knots[i + 1])`, or `u` is the right end of the knot vector,
/// equal to `knots[i + 1]` and to every knot after it.
pub open spec fn basis_zero_is_one(knots: Seq<u64>, i: int, u: u64) -> bool {
    ||| less_eq(knots[i], u) && less(u, knots[i + 1])
    ||| same(u, knots[i + 1]) && forall|j: int| i + 2 <= j < knots.len() ==> same(
        #[trigger] knots[j],
        u,
    )
}

/// Evaluate the degree-zero B-spline basis function at knot span `i`,
/// parameter `u`: `true` where it is one, `false` where it is zero.
///
/// At the right end of the knot vector, `u == knots[i + 1]` counts as inside
/// span `i` when every later knot equals `u` too; when the end knot is
/// repeated, several (empty) spans at the end therefore report one there.
pub fn basis_degree_zero(i: usize, u: u64, knots: &[u64]) -> (r: bool)
    requires
        i + 1 < knots@.len(),
    ensures
        r == basis_zero_is_one(knots@, i as int, u),
        // inside the span [knots[i], knots[i + 1]) the function is one
        less_eq(knots@[i as int], u) && less(u, knots@[i + 1]) ==> r,
        // below knots[i + 1] it is one only from knots[i] on
        r && less(u, knots@[i + 1]) ==> less_eq(knots@[i as int], u),
        // not below knots[i + 1] it is one only at the right end: u equals
        // knots[i + 1] and every later knot
        r && !less(u, knots@[i + 1]) ==> same(knots@[i + 1], u) && forall|j: int|
            i + 2 <= j < knots@.len() ==> same(#[trigger] knots@[j], u),
        same(u, knots@[i + 1]) && (forall|j: int|
            i + 2 <= j < knots@.len() ==> same(#[trigger] knots@[j], u)) ==> r,
{
    if le(knots[i], u) && lt(u, knots[i + 1]) {
        return true;
    }
    if eq(u, knots[i + 1]) {
        let n = knots.len();
        let mut j: usize = i + 2;
        while j < n
            invariant
                n == knots@.len(),
                i + 2 <= j <= n,
                !(less_eq(knots@[i as int], u) && less(u, knots@[i + 1])),
                forall|l: int| i + 2 <= l < j ==> same(#[trigger] knots@[l], u),
            decreases n - j,
        {
            if !eq(knots[j], u) {
                assert(!same(knots@[j as int], u));
                return false;
            }
            j = j + 1;
        }
        return true;
    }
    false
}

/// The degree-zero basis at the right end: a span that does not contain
/// `u` in `[knots[i], knots[i + 1])` is one at `u` only when `u` equals
/// `knots[i + 1]` and every knot after it; so on a sorted knot vector a span
/// whose right knot is below `u` is zero at `u`, and at the last knot `u` of
/// a sorted vector exactly the spans ending in the final run of knots equal
/// to `u` are one.
pub proof fn lemma_basis_zero_right_end(knots: Seq<u64>, i: int, u: u64)
    requires
        0 <= i,
        i + 1 < knots.len(),
    ensures
        basis_zero_is_one(knots, i, u) && !less(u, knots[i + 1]) ==> same(knots[i + 1], u)
            && forall|j: int| i + 2 <= j < knots.len() ==> same(#[trigger] knots[j], u),
        ascending(knots) && less(knots[i + 1], u) ==> !basis_zero_is_one(knots, i, u),
        ascending(knots) && same(u, knots[knots.len() - 1]) ==> (basis_zero_is_one(knots, i, u)
            <==> same(knots[i + 1], u)),
{
    if ascending(knots) && same(u, knots[knots.len() - 1]) {
        let m = knots.len();
        if same(knots[i + 1], u) {
            assert forall|j: int| i + 2 <= j < m implies same(#[trigger] knots[j], u) by {
                assert(ordinal(knots[i + 1]) <= ordinal(knots[j]));
                assert(ordinal(knots[j]) <= ordinal(knots[m - 1]));
            }
        }
        if basis_zero_is_one(knots, i, u) && !same(knots[i + 1], u) {
            if i + 1 < m - 1 {
                assert(ordinal(knots[i + 1]) <= ordinal(knots[m - 1]));
            }
            assert(less(u, knots[i + 1]));
            assert(ordinal(knots[i + 1]) <= ordinal(knots[m - 1]));
        }
    }
}

proof fn lemma_bracket_exists(knots: Seq<u64>, u: u64, lo: int)
    requires
        ascending(knots),
        0 <= lo < knots.len() - 1,
        less_eq(knots[lo], u),
        less(u, knots[knots.len() - 1]),
    ensures
        exists|i: int|
            lo <= i < knots.len() - 1 && less_eq(knots[i], u) && #[trigger] less(u, knots[i + 1]),
    decreases knots.len() - lo,
{
    if less(u, knots[lo + 1]) {
        assert(less(u, knots[lo + 1]));
    } else {
        assert(!nan(knots[lo + 1]));
        lemma_bracket_exists(knots, u, lo + 1);
    }
}

/// Partition of unity for degree zero: on a sorted knot vector, for every
/// `u` with `knots[0] <= u < knots[m - 1]` exactly one degree-zero basis
/// function is one.
pub proof fn lemma_degree_zero_partition(knots: Seq<u64>, u: u64)
    requires
        ascending(knots),
        knots.len() >= 2,
        less_eq(knots[0], u),
        less(u, knots[knots.len() - 1]),
    ensures
        exists|i: int| 0 <= i < knots.len() - 1 && #[trigger] basis_zero_is_one(knots, i, u),
        forall|i: int, j: int|
            0 <= i < knots.len() - 1 && 0 <= j < knots.len() - 1 && #[trigger] basis_zero_is_one(
                knots,
                i,
                u,
            ) && #[trigger] basis_zero_is_one(knots, j, u) ==> i == j,
{
    let m = knots.len();
    lemma_bracket_exists(knots, u, 0);
    let w = choose|i: int| 0 <= i < m - 1 && less_eq(knots[i], u) && #[trigger] less(u, knots[i + 1]);
    assert(basis_zero_is_one(knots, w, u));
    assert forall|i: int| 0 <= i < m - 1 && #[trigger] basis_zero_is_one(knots, i, u) implies less_eq(
        knots[i],
        u,
    ) && less(u, knots[i + 1]) by {
        if same(u, knots[i + 1]) {
            if i + 2 <= m - 1 {
                assert(same(knots[m - 1], u));
            }
            assert(false);
        }
    }
    assert forall|i: int, j: int|
        0 <= i < m - 1 && 0 <= j < m - 1 && #[trigger] basis_zero_is_one(knots, i, u)
            && #[trigger] basis_zero_is_one(knots, j, u) implies i == j by {
        if i < j {
            assert(ordinal(knots[i + 1]) <= ordinal(knots[j]));
        } else if j < i {
            assert(ordinal(knots[j + 1]) <= ordinal(knots[i]));
        }
    }
}

/// Collocation parameter `i` of `n` evenly spaced data points: `i / (n - 1)`.
pub open spec fn collocation_param(n: int, i: int) -> Fraction {
    frac(i, n - 1)
}

/// The collocation parameters of `n >= 2` points are evenly spaced over
/// `[0, 1]`: parameter `i` has the value `i / (n - 1)`, the first is 0 and
/// the last is 1.
pub proof fn lemma_collocation_evenly_spaced(n: int)
    requires
        2 <= n <= usize::MAX,
    ensures
        forall|i: int|
            0 <= i < n ==> {
                let p = #[trigger] collocation_param(n, i);
                &&& p.den > 0
                &&& p.num * (n - 1) == i * p.den
            },
        collocation_param(n, 0).num == 0,
        collocation_param(n, n - 1).num == collocation_param(n, n - 1).den,
{
    assert forall|i: int| 0 <= i < n implies {
        let p = #[trigger] collocation_param(n, i);
        &&& p.den > 0
        &&& p.num * (n - 1) == i * p.den
    } by {
        let p = collocation_param(n, i);
        assert(p.num == i && p.den == n - 1);
    }
}

/// The layout of B-spline interpolation of `n` data points with a curve of
/// degree `degree`: the knot vector and the parameter of each data point.
///
/// `None` when there are fewer than `degree + 1` points. Otherwise the knot
/// vector is the clamped uniform vector `clamped(n, degree)` and the data
/// points sit at the evenly spaced parameters `i / (n - 1)`.
pub fn interpolation_layout(n: usize, degree: usize) -> (r: Option<(Vec<Fraction>, Vec<Fraction>)>)
    requires
        degree + 1 <= usize::MAX,
        n < degree + 1 || n + degree + 1 <= usize::MAX,
    ensures
        r is None <==> n < degree + 1,
        r matches Some((knots, params)) ==> {
            &&& knots@.len() == n + degree + 1
            &&& forall|i: int|
                0 <= i < knots@.len() ==> #[trigger] knots@[i] == clamped_knot(
                    n as int,
                    degree as int,
                    i,
                )
            &&& params@.len() == n
            &&& forall|i: int| 0 <= i < n ==> #[trigger] params@[i] == collocation_param(n as int, i)
            // parameter i is the point i / (n - 1) of [0, 1]
            &&& n >= 2 ==> forall|i: int|
                0 <= i < n ==> {
                    let p = #[trigger] params@[i];
                    &&& p.den > 0
                    &&& p.num * (n - 1) == i * p.den
                }
            &&& params@[0].num == 0
            &&& params@[n - 1].num == params@[n - 1].den
        },
{
    if n < degree + 1 {
        return None;
    }
    let knots = clamped(n, degree);
    let mut params: Vec<Fraction> = Vec::with_capacity(n);
    let mut i: usize = 0;
    while i < n
        invariant
            1 <= n,
            i <= n,
            params@.len() == i,
            forall|j: int| 0 <= j < i ==> #[trigger] params@[j] == collocation_param(n as int, j),
        decreases n - i,
    {
        params.push(Fraction { num: i, den: n - 1 });
        i = i + 1;
    }
    Some((knots, params))
}

/// `p` is the partial-pivoting row for the column `col` from row `start`
/// on: the first row whose entry has the largest absolute value, NaN entries
/// never winning; when the entry at `start` is NaN, `start` itself.
pub open spec fn is_pivot(col: Seq<u64>, start: int, p: int) -> bool {
    &&& start <= p < col.len()
    &&& nan(col[start]) ==> p == start
    &&& !nan(col[start]) ==> {
        &&& !nan(col[p])
        &&& forall|j: int|
            start <= j < col.len() && !nan(#[trigger] col[j]) ==> magnitude(col[j]) <= magnitude(
                col[p],
            )
        &&& forall|j: int|
            start <= j < p && !nan(#[trigger] col[j]) ==> magnitude(col[j]) < magnitude(col[p])
    }
}

/// Choose the pivot row for Gaussian elimination with partial pivoting:
/// scanning rows `start..`, a row replaces the current choice only when the
/// absolute value of its entry is strictly greater.
pub fn pivot_row(col: &[u64], start: usize) -> (r: usize)
    requires
        start < col@.len(),
    ensures
        is_pivot(col@, start as int, r as int),
{
    let n = col.len();
    let mut best = start;
    let mut best_abs = col[start] % SIGN_BIT;
    let mut row = start + 1;
    while row < n
        invariant
            n == col@.len(),
            start <= best < row <= n,
            best_abs == magnitude(col@[best as int]),
            nan(col@[start as int]) ==> best == start,
            !nan(col@[start as int]) ==> {
                &&& !nan(col@[best as int])
                &&& forall|j: int|
                    start <= j < row && !nan(#[trigger] col@[j]) ==> magnitude(col@[j])
                        <= best_abs
                &&& forall|j: int|
                    start <= j < best && !nan(#[trigger] col@[j]) ==> magnitude(col@[j])
                        < best_abs
            },
        decreases n - row,
    {
        let a = col[row] % SIGN_BIT;
        if !is_nan(col[row]) && !is_nan(col[best]) && a > best_abs {
            best = row;
            best_abs = a;
        }
        row = row + 1;
    }
    best
}

} // verus!
