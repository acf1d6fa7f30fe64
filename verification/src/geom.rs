//! Plane geometry over exact arithmetic.
//!
//! Node positions and velocities live on the integer grid (`IVec2`).
//! Forces and corrections are first computed as exact rational vectors
//! (`RVec2`) and only then truncated back onto the grid, so every claim
//! about a force is a claim about exact integer products.

use vstd::prelude::*;

verus! {

/// A 2-D vector on the integer grid.
#[derive(Clone, Copy, Debug, PartialEq, Eq, Structural)]
pub struct IVec2 {
    pub x: i64,
    pub y: i64,
}

/// A 2-D vector with exact rational coordinates `(xn / den, yn / den)`.
///
/// The denominator is shared by both components and is always positive,
/// so two `RVec2` values built over the same denominator are exactly
/// opposite when their numerators are negations of each other.
#[derive(Clone, Copy, Debug, PartialEq, Eq, Structural)]
pub struct RVec2 {
    pub xn: i128,
    pub yn: i128,
    pub den: i128,
}

/// Squared Euclidean length of an integer vector.
pub open spec fn mag2(v: IVec2) -> int {
    v.x * v.x + v.y * v.y
}

/// Squared distance between two integer points.
pub open spec fn dist2(a: IVec2, b: IVec2) -> int {
    (a.x - b.x) * (a.x - b.x) + (a.y - b.y) * (a.y - b.y)
}

/// The rationals `an / ad` and `bn / bd` are equal (for nonzero denominators).
pub open spec fn rat_eq(an: int, ad: int, bn: int, bd: int) -> bool {
    an * bd == bn * ad
}

/// Numerator of the squared length of `v`; the denominator is `v.den * v.den`.
pub open spec fn rmag2_num(v: RVec2) -> int {
    v.xn * v.xn + v.yn * v.yn
}

/// `b` is exactly the opposite vector of `a`.
pub open spec fn rvec_opposite(a: RVec2, b: RVec2) -> bool {
    b.xn == -a.xn && b.yn == -a.yn && b.den == a.den
}

} // verus!
