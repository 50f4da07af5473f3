# interp_spline

Interpolation and spline methods (linear, cubic Hermite, natural cubic,
B-spline, Akima), with the decisions proved in Verus.

- `src/` is the verified library. Doubles enter it as their IEEE-754 bit
  patterns (`f64::to_bits`), ordered as `f64` orders them (`fbits`); knot
  values it builds are exact fractions. It locates query points among sorted
  nodes (`search`), builds uniform and clamped knot vectors, finds knot spans
  and lays out knot insertion (`knots`), and decides the degree-zero B-spline
  basis, the interpolation layout and the elimination pivot (`bspline`).
- `app/` is the `f64` interface: it converts to and from bit patterns and
  fractions and does the floating-point arithmetic on top of the library's
  decisions.
- `tests/` exercises the library on concrete values.
