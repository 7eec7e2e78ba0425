//! Quadratic Bézier curve.
use vstd::prelude::*;

use crate::casteljau::{is_next_layer, is_scheme, left_half, right_half, total};

verus! {

/// A quadratic Bézier curve defined by three control points.
#[derive(Debug, Clone, Copy)]
pub struct QuadraticBezier<P> {
    pub p0: P,
    pub p1: P,
    pub p2: P,
}

impl<P: Copy> QuadraticBezier<P> {
    /// The control points in order.
    pub open spec fn control_points(self) -> Seq<P> {
        seq![self.p0, self.p1, self.p2]
    }

    pub fn new(p0: P, p1: P, p2: P) -> (curve: Self)
        ensures
            curve.p0 == p0,
            curve.p1 == p1,
            curve.p2 == p2,
    {
        Self { p0, p1, p2 }
    }

    /// Split the curve at the parameter of `lerp` using de Casteljau: the
    /// halves are the first and the last points of the scheme's rows, and
    /// they meet at the point of the curve there.
    pub fn split<F: Fn(P, P) -> P>(&self, lerp: F) -> (halves: (
        QuadraticBezier<P>,
        QuadraticBezier<P>,
    ))
        requires
            total(lerp),
        ensures
            halves.0.p0 == self.p0,
            halves.1.p2 == self.p2,
            halves.0.p2 == halves.1.p0,
            call_ensures(lerp, (self.p0, self.p1), halves.0.p1),
            call_ensures(lerp, (self.p1, self.p2), halves.1.p1),
            call_ensures(lerp, (halves.0.p1, halves.1.p1), halves.0.p2),
            exists|layers: Seq<Seq<P>>|
                {
                    &&& is_scheme(lerp, self.control_points(), layers)
                    &&& halves.0.control_points() == left_half(layers)
                    &&& halves.1.control_points() == right_half(layers)
                },
    {
        let q0 = self.p0;
        let q1 = lerp(self.p0, self.p1);
        let q2 = lerp(self.p1, self.p2);
        let r0 = lerp(q1, q2);
        let r1 = q2;
        let r2 = self.p2;
        let left = QuadraticBezier::new(q0, q1, r0);
        let right = QuadraticBezier::new(r0, r1, r2);
        proof {
            let layers = seq![self.control_points(), seq![q1, q2], seq![r0]];
            assert(is_next_layer(lerp, layers[0], layers[0int + 1]));
            assert(is_next_layer(lerp, layers[1], layers[1int + 1]));
            assert(is_scheme(lerp, self.control_points(), layers));
            assert(left.control_points() =~= left_half(layers));
            assert(right.control_points() =~= right_half(layers));
        }
        (left, right)
    }
}

} // verus!
