//! Interpolation and spline methods: linear, cubic Hermite, B-spline, Akima.
//!
//! The verified part of the library works on the bit patterns of IEEE-754
//! double-precision numbers (as `u64`) and on exact fractions of integers.
//! It decides which interval a query point falls into, builds knot vectors,
//! locates knot spans and lays out knot insertion; the floating-point
//! arithmetic that evaluates the curves on top of these decisions is done
//! by the caller.
//!
//! ## Modules
//! - `fbits` — the ordering of doubles, read from their bit patterns
//! - `search` — binary search over sorted nodes and interval location
//! - `knots` — knot vector construction, knot spans and knot insertion
//! - `bspline` — the B-spline degree-zero basis and the interpolation layout

pub mod fbits;
pub mod search;
pub mod knots;
pub mod bspline;



