//! Bézier curves: linear, quadratic and cubic curves and their splitting,
//! de Casteljau's scheme of repeated pairwise interpolation for curves of any
//! degree, and the interval search used to map an arc length back to a curve
//! parameter.
//!
//! The curves and algorithms are written for any point type: the
//! interpolation of two points at the curve parameter is handed in by the
//! caller, so the contracts speak of the scheme itself, over the results
//! that the interpolation gives.

pub mod arclength;
pub mod casteljau;
pub mod cubic;
pub mod linear;
pub mod quadratic;

pub use arclength::find_segment;
pub use casteljau::{de_casteljau, de_casteljau_layers, de_casteljau_split};
pub use cubic::CubicBezier;
pub use linear::LinearBezier;
pub use quadratic::QuadraticBezier;
