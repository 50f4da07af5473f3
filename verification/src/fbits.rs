//! The ordering of IEEE-754 doubles, read from their bit patterns.
//!
//! A double is passed around as its `u64` bit pattern (`f64::to_bits`).
//! The top bit is the sign; the remaining 63 bits (the magnitude) order
//! non-negative doubles exactly as their integer values do. A pattern whose
//! magnitude exceeds that of infinity is a NaN. Positive and negative zero
//! compare equal, and NaN compares false with everything, as in `f64`.
use vstd::prelude::*;

verus! {

/// The sign bit of a double.
pub const SIGN_BIT: u64 = 0x8000_0000_0000_0000u64;

/// The bit pattern of positive infinity: the largest non-NaN magnitude.
pub const INFINITY_BITS: u64 = 0x7FF0_0000_0000_0000u64;

/// The bits of `b` without its sign.
pub open spec fn magnitude(b: u64) -> int {
    if b >= SIGN_BIT {
        b - SIGN_BIT
    } else {
        b as int
    }
}

/// `b` is a NaN pattern.
pub open spec fn nan(b: u64) -> bool {
    magnitude(b) > INFINITY_BITS
}

/// The position of `b` on the number line: order-isomorphic to the double
/// value for every non-NaN pattern, with both zeros at 0.
pub open spec fn ordinal(b: u64) -> int {
    if b >= SIGN_BIT {
        -magnitude(b)
    } else {
        magnitude(b)
    }
}

/// `a < b` on doubles.
pub open spec fn less(a: u64, b: u64) -> bool {
    !nan(a) && !nan(b) && ordinal(a) < ordinal(b)
}

/// `a <= b` on doubles.
pub open spec fn less_eq(a: u64, b: u64) -> bool {
    !nan(a) && !nan(b) && ordinal(a) <= ordinal(b)
}

/// `a == b` on doubles.
pub open spec fn same(a: u64, b: u64) -> bool {
    !nan(a) && !nan(b) && ordinal(a) == ordinal(b)
}

/// No NaN, and each value at most the next: the nodes or knots of a spline.
pub open spec fn ascending(xs: Seq<u64>) -> bool {
    &&& forall|i: int| 0 <= i < xs.len() ==> !nan(#[trigger] xs[i])
    &&& forall|i: int, j: int|
        0 <= i <= j < xs.len() ==> ordinal(#[trigger] xs[i]) <= ordinal(#[trigger] xs[j])
}

/// Whether `b` is a NaN pattern.
pub fn is_nan(b: u64) -> (r: bool)
    ensures
        r == nan(b),
{
    let m = if b >= SIGN_BIT {
        b - SIGN_BIT
    } else {
        b
    };
    m > INFINITY_BITS
}

/// The ordinal of `b` as a machine integer.
pub fn ordinal_of(b: u64) -> (r: i128)
    ensures
        r == ordinal(b),
{
    if b >= SIGN_BIT {
        let m = b - SIGN_BIT;
        -(m as i128)
    } else {
        b as i128
    }
}

/// `a < b` on the doubles with bit patterns `a` and `b`.
pub fn lt(a: u64, b: u64) -> (r: bool)
    ensures
        r == less(a, b),
{
    !is_nan(a) && !is_nan(b) && ordinal_of(a) < ordinal_of(b)
}

/// `a <= b` on the doubles with bit patterns `a` and `b`.
pub fn le(a: u64, b: u64) -> (r: bool)
    ensures
        r == less_eq(a, b),
{
    !is_nan(a) && !is_nan(b) && ordinal_of(a) <= ordinal_of(b)
}

/// `a == b` on the doubles with bit patterns `a` and `b`.
pub fn eq(a: u64, b: u64) -> (r: bool)
    ensures
        r == same(a, b),
{
    !is_nan(a) && !is_nan(b) && ordinal_of(a) == ordinal_of(b)
}

/// Whether `xs` holds no NaN and is sorted in ascending order.
pub fn is_ascending(xs: &[u64]) -> (r: bool)
    ensures
        r == ascending(xs@),
{
    let n = xs.len();
    let mut k: usize = 0;
    while k < n
        invariant
            n == xs@.len(),
            k <= n,
            forall|i: int| 0 <= i < k ==> !nan(#[trigger] xs@[i]),
            forall|i: int, j: int|
                0 <= i <= j < k ==> ordinal(#[trigger] xs@[i]) <= ordinal(#[trigger] xs@[j]),
        decreases n - k,
    {
        if is_nan(xs[k]) {
            return false;
        }
        if k > 0 && ordinal_of(xs[k - 1]) > ordinal_of(xs[k]) {
            assert(!(ordinal(xs@[k - 1]) <= ordinal(xs@[k as int])));
            return false;
        }
        assert forall|i: int, j: int| 0 <= i <= j < k + 1 implies ordinal(
            #[trigger] xs@[i],
        ) <= ordinal(#[trigger] xs@[j]) by {
            if j == k && i < k {
                assert(ordinal(xs@[i]) <= ordinal(xs@[k - 1]));
            }
        }
        k = k + 1;
    }
    true
}

} // verus!
