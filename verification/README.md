# bezier_curve

Bézier curves: linear, quadratic and cubic curves, de Casteljau's algorithm
for any degree, curve splitting, and arc-length parameterization.

- `src/` is the verified library. Its curves and algorithms take any point
  type; the interpolation of two points at the curve parameter is passed in,
  and the contracts describe de Casteljau's scheme over what that
  interpolation returns (rows of the scheme, halves of a split, the segment
  found by the arc-length search).
- `app/` holds `f64` points and the floating-point parts: interpolation,
  evaluation, derivatives, degree elevation, lengths and the arc-length
  lookup table, calling the library for de Casteljau's scheme, splitting and
  the segment search.
- `tests/` runs the library on `f64` and integer points.
