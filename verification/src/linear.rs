//! Linear Bézier curve: the straight segment between two points.
use vstd::prelude::*;

use crate::casteljau::{is_scheme, left_half, right_half, total};

verus! {

/// A linear Bézier curve (straight line between P0 and P1).
#[derive(Debug, Clone, Copy)]
pub struct LinearBezier<P> {
    pub p0: P,
    pub p1: P,
}

impl<P: Copy> LinearBezier<P> {
    /// The control points in order.
    pub open spec fn control_points(self) -> Seq<P> {
        seq![self.p0, self.p1]
    }

    pub fn new(p0: P, p1: P) -> (curve: Self)
        ensures
            curve.p0 == p0,
            curve.p1 == p1,
    {
        Self { p0, p1 }
    }

    /// Split the curve at the parameter of `lerp`, returning two sub-curves
    /// that meet at the point of the curve there.
    pub fn split<F: Fn(P, P) -> P>(&self, lerp: F) -> (halves: (LinearBezier<P>, LinearBezier<P>))
        requires
            total(lerp),
        ensures
            halves.0.p0 == self.p0,
            halves.1.p1 == self.p1,
            halves.0.p1 == halves.1.p0,
            call_ensures(lerp, (self.p0, self.p1), halves.0.p1),
            exists|layers: Seq<Seq<P>>|
                {
                    &&& is_scheme(lerp, self.control_points(), layers)
                    &&& halves.0.control_points() == left_half(layers)
                    &&& halves.1.control_points() == right_half(layers)
                },
    {
        let mid = lerp(self.p0, self.p1);
        let left = LinearBezier::new(self.p0, mid);
        let right = LinearBezier::new(mid, self.p1);
        proof {
            let layers = seq![self.control_points(), seq![mid]];
            assert(crate::casteljau::is_next_layer(lerp, layers[0], layers[0int + 1]));
            assert(is_scheme(lerp, self.control_points(), layers));
            assert(left.control_points() =~= left_half(layers));
            assert(right.control_points() =~= right_half(layers));
        }
        (left, right)
    }
}

} // verus!
