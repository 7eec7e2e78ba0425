//! Cubic Bézier curve.
use vstd::prelude::*;

use crate::casteljau::{is_next_layer, is_scheme, left_half, right_half, total};

verus! {

/// A cubic Bézier curve defined by four control points.
#[derive(Debug, Clone, Copy)]
pub struct CubicBezier<P> {
    pub p0: P,
    pub p1: P,
    pub p2: P,
    pub p3: P,
}

impl<P: Copy> CubicBezier<P> {
    /// The control points in order.
    pub open spec fn control_points(self) -> Seq<P> {
        seq![self.p0, self.p1, self.p2, self.p3]
    }

    pub fn new(p0: P, p1: P, p2: P, p3: P) -> (curve: Self)
        ensures
            curve.p0 == p0,
            curve.p1 == p1,
            curve.p2 == p2,
            curve.p3 == p3,
    {
        Self { p0, p1, p2, p3 }
    }

    /// Split the curve at the parameter of `lerp` using de Casteljau: the
    /// halves are the first and the last points of the scheme's rows, and
    /// they meet at the point of the curve there.
    pub fn split<F: Fn(P, P) -> P>(&self, lerp: F) -> (halves: (CubicBezier<P>, CubicBezier<P>))
        requires
            total(lerp),
        ensures
            halves.0.p0 == self.p0,
            halves.1.p3 == self.p3,
            halves.0.p3 == halves.1.p0,
            call_ensures(lerp, (self.p0, self.p1), halves.0.p1),
            call_ensures(lerp, (self.p2, self.p3), halves.1.p2),
            call_ensures(lerp, (halves.0.p2, halves.1.p1), halves.0.p3),
            exists|layers: Seq<Seq<P>>|
                {
                    &&& is_scheme(lerp, self.control_points(), layers)
                    &&& halves.0.control_points() == left_half(layers)
                    &&& halves.1.control_points() == right_half(layers)
                },
    {
        let a = lerp(self.p0, self.p1);
        let b = lerp(self.p1, self.p2);
        let c = lerp(self.p2, self.p3);
        let d = lerp(a, b);
        let e = lerp(b, c);
        let f = lerp(d, e);
        let left = CubicBezier::new(self.p0, a, d, f);
        let right = CubicBezier::new(f, e, c, self.p3);
        proof {
            let layers = seq![self.control_points(), seq![a, b, c], seq![d, e], seq![f]];
            assert(is_next_layer(lerp, layers[0], layers[0int + 1]));
            assert(is_next_layer(lerp, layers[1], layers[1int + 1]));
            assert(is_next_layer(lerp, layers[2], layers[2int + 1]));
            assert(is_scheme(lerp, self.control_points(), layers));
            assert(left.control_points() =~= left_half(layers));
            assert(right.control_points() =~= right_half(layers));
        }
        (left, right)
    }
}

} // verus!
