//! Binary search over sorted interpolation nodes, and the choice of the
//! node or interval at which a query point is evaluated.
use vstd::prelude::*;
use crate::fbits::{ascending, less, nan, ordinal, same, lt, eq};

verus! {

/// Where a query point falls among the nodes `xs`.
#[derive(Clone, Copy, Debug, PartialEq, Eq, Structural)]
pub enum Placement {
    /// The query equals node `i`: the interpolant takes the value `ys[i]`.
    Node(usize),
    /// The query lies in the interval from node `i` to node `i + 1`.
    Segment(usize),
}

/// `i` is the first index whose node is not below `x`: every node before
/// it is below `x`, and the node at it (if any) is not.
pub open spec fn first_not_below(xs: Seq<u64>, x: u64, i: int) -> bool {
    &&& 0 <= i <= xs.len()
    &&& forall|j: int| 0 <= j < i ==> less(#[trigger] xs[j], x)
    &&& i < xs.len() ==> !less(xs[i], x)
}

/// The number of nodes of the ascending sequence `xs` that are below `x`:
/// the position at which `x` would be inserted to keep `xs` sorted.
pub fn lower_bound(xs: &[u64], x: u64) -> (r: usize)
    requires
        ascending(xs@),
        !nan(x),
    ensures
        first_not_below(xs@, x, r as int),
{
    let mut lo: usize = 0;
    let mut hi: usize = xs.len();
    while lo < hi
        invariant
            ascending(xs@),
            !nan(x),
            0 <= lo <= hi <= xs@.len(),
            forall|j: int| 0 <= j < lo ==> less(#[trigger] xs@[j], x),
            forall|j: int| hi <= j < xs@.len() ==> ordinal(#[trigger] xs@[j]) >= ordinal(x),
        decreases hi - lo,
    {
        let mid = lo + (hi - lo) / 2;
        if lt(xs[mid], x) {
            assert forall|j: int| 0 <= j < mid + 1 implies less(#[trigger] xs@[j], x) by {
                assert(ordinal(xs@[j]) <= ordinal(xs@[mid as int]));
            }
            lo = mid + 1;
        } else {
            assert forall|j: int| mid <= j < xs@.len() implies ordinal(#[trigger] xs@[j]) >= ordinal(
                x,
            ) by {
                assert(ordinal(xs@[mid as int]) <= ordinal(xs@[j]));
            }
            hi = mid;
        }
    }
    lo
}

/// The first-not-below index of an ascending sequence is unique.
pub proof fn lemma_first_not_below_unique(xs: Seq<u64>, x: u64, i: int, k: int)
    requires
        ascending(xs),
        !nan(x),
        first_not_below(xs, x, i),
        first_not_below(xs, x, k),
    ensures
        i == k,
{
    if i < k {
        assert(less(xs[i], x));
    } else if k < i {
        assert(less(xs[k], x));
    }
}

/// Where the spline interpolants (Akima, cubic Hermite, natural cubic)
/// evaluate the query `x` over the nodes `xs`.
///
/// `None` when there are fewer than two nodes or `x` is outside
/// `[xs[0], xs[n - 1]]`. A query equal to the last node (and to no earlier
/// one) is answered by that node; any other query lies in the interval that
/// starts at the first node equal to it, or else at the last node below it.
pub fn locate_spline(xs: &[u64], x: u64) -> (r: Option<Placement>)
    requires
        xs@.len() < 2 || less(x, xs@[0]) || less(xs@[xs@.len() - 1], x) || (ascending(xs@)
            && !nan(x)),
    ensures
        r is None <==> (xs@.len() < 2 || less(x, xs@[0]) || less(xs@[xs@.len() - 1], x)),
        r matches Some(Placement::Node(i)) ==> {
            &&& i == xs@.len() - 1
            &&& same(xs@[i as int], x)
            &&& forall|j: int| 0 <= j < i ==> less(#[trigger] xs@[j], x)
        },
        r matches Some(Placement::Segment(i)) ==> {
            &&& i + 1 < xs@.len()
            &&& forall|j: int| 0 <= j < i ==> less(#[trigger] xs@[j], x)
            &&& (same(xs@[i as int], x) || (less(xs@[i as int], x) && less(x, xs@[i + 1])))
        },
{
    let n = xs.len();
    if n < 2 {
        return None;
    }
    if lt(x, xs[0]) || lt(xs[n - 1], x) {
        return None;
    }
    let k = lower_bound(xs, x);
    if k < n && eq(xs[k], x) {
        if k == n - 1 {
            Some(Placement::Node(k))
        } else {
            Some(Placement::Segment(k))
        }
    } else {
        // x is above the first node and not equal to node k, so 0 < k < n
        proof {
            if k == n {
                assert(less(xs@[n - 1], x));
            }
            if k == 0 {
                assert(ordinal(xs@[0]) >= ordinal(x));
                assert(!less(x, xs@[0]));
            }
        }
        Some(Placement::Segment(k - 1))
    }
}

/// Where piecewise linear interpolation evaluates the query `x` over the
/// nodes `xs`.
///
/// `None` when there are no nodes or `x` is outside `[xs[0], xs[n - 1]]`
/// (the caller then applies its tolerance at the two ends). A query equal to
/// a node is answered by the first such node; any other query lies strictly
/// inside the interval between the last node below it and the next one.
pub fn locate_linear(xs: &[u64], x: u64) -> (r: Option<Placement>)
    requires
        xs@.len() == 0 || less(x, xs@[0]) || less(xs@[xs@.len() - 1], x) || (ascending(xs@)
            && !nan(x)),
    ensures
        r is None <==> (xs@.len() == 0 || less(x, xs@[0]) || less(xs@[xs@.len() - 1], x)),
        r matches Some(Placement::Node(i)) ==> {
            &&& i < xs@.len()
            &&& same(xs@[i as int], x)
            &&& forall|j: int| 0 <= j < i ==> less(#[trigger] xs@[j], x)
        },
        r matches Some(Placement::Segment(i)) ==> {
            &&& i + 1 < xs@.len()
            &&& forall|j: int| 0 <= j <= i ==> less(#[trigger] xs@[j], x)
            &&& less(x, xs@[i + 1])
        },
{
    let n = xs.len();
    if n == 0 {
        return None;
    }
    if lt(x, xs[0]) || lt(xs[n - 1], x) {
        return None;
    }
    let k = lower_bound(xs, x);
    if k < n && eq(xs[k], x) {
        Some(Placement::Node(k))
    } else {
        proof {
            if k == n {
                assert(less(xs@[n - 1], x));
            }
            if k == 0 {
                assert(ordinal(xs@[0]) >= ordinal(x));
                assert(!less(x, xs@[0]));
            }
            assert(ordinal(xs@[k as int]) >= ordinal(x));
            assert(!same(xs@[k as int], x));
            assert(less(x, xs@[k as int]));
        }
        Some(Placement::Segment(k - 1))
    }
}

} // verus!
