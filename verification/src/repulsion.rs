//! Contact repulsion.
//!
//! For a contact between nodes at `a` and `b` the impulse on `a` is the
//! vector of magnitude `ideal_length² / |a − b|` pointing from `b` toward
//! `a`, and the impulse on `b` is its exact opposite. When the two
//! positions coincide the direction is undefined, so a random direction is
//! drawn and both impulses get magnitude exactly `ideal_length²`.
//!
//! All of this is exact: with `diff = a − b` and `d2 = |diff|²`, the
//! impulse on `a` equals `ideal_length² · diff / d2` as a rational vector,
//! and a random direction is represented by the tangent half-angle `t`,
//! whose unit vector `((1 − t²), 2t) / (1 + t²)` has length exactly one.

use crate::config::Ratio;
use crate::geom::{dist2, rat_eq, rmag2_num, rvec_opposite, IVec2, RVec2};
use crate::num::iabs;
use crate::rng::rand_i64;
use vstd::prelude::*;

verus! {

/// Positions the simulation works on: bounded so that every product the
/// pipeline forms fits in 128-bit intermediates.
pub open spec fn in_world(v: IVec2) -> bool {
    &&& -16777216 <= v.x <= 16777216
    &&& -16777216 <= v.y <= 16777216
}

/// A direction parameter: the tangent half-angle `t = n / d` of an angle,
/// standing for the exact unit vector
/// `((d² − n²) / (d² + n²), 2nd / (d² + n²))`.
#[derive(Clone, Copy, Debug, PartialEq, Eq, Structural)]
pub struct DirParam {
    pub n: i64,
    pub d: i64,
}

impl DirParam {
    pub open spec fn valid(self) -> bool {
        &&& -1000 <= self.n <= 1000
        &&& 1 <= self.d <= 1000
    }
}

/// Numerator of the x component of the exact impulse on the node at `pa`
/// for a contact with the node at `pb`; the denominator is `impulse_den`.
pub open spec fn impulse_num_x(pa: IVec2, pb: IVec2, l: Ratio, dir: DirParam) -> int {
    if pa == pb {
        l.n * l.n * (dir.d * dir.d - dir.n * dir.n)
    } else {
        l.n * l.n * (pa.x - pb.x)
    }
}

/// Numerator of the y component of the exact impulse on the node at `pa`.
pub open spec fn impulse_num_y(pa: IVec2, pb: IVec2, l: Ratio, dir: DirParam) -> int {
    if pa == pb {
        l.n * l.n * (2 * (dir.n * dir.d))
    } else {
        l.n * l.n * (pa.y - pb.y)
    }
}

/// Common positive denominator of the exact impulse on the node at `pa`.
pub open spec fn impulse_den(pa: IVec2, pb: IVec2, l: Ratio, dir: DirParam) -> int {
    if pa == pb {
        l.d * l.d * (dir.d * dir.d + dir.n * dir.n)
    } else {
        l.d * l.d * dist2(pa, pb)
    }
}

/// Distinct integer points are at squared distance at least one.
pub proof fn lemma_dist2_positive(a: IVec2, b: IVec2)
    ensures
        dist2(a, b) >= 0,
        a != b <==> dist2(a, b) > 0,
{
    let dx = a.x - b.x;
    let dy = a.y - b.y;
    assert(dx * dx >= 0 && dy * dy >= 0 && (dx != 0 ==> dx * dx > 0) && (dy != 0 ==> dy * dy
        > 0)) by (nonlinear_arith);
    if a != b {
        assert(dx != 0 || dy != 0);
    }
    if dist2(a, b) > 0 {
        assert(a != b);
    }
}

/// The repulsion impulse pair for a contact of nodes at `a` and `b`, as
/// exact rational vectors; `dir` is used only in the degenerate case
/// `a == b`, where it names the direction of the impulse on `a`.
///
/// The impulses are exactly opposite. When `a != b`, the impulse on `a`
/// is exactly `l² · (a − b) / dist2(a, b)`, whose squared magnitude times
/// `dist2(a, b)` is exactly `l⁴`; when `a == b`, the squared magnitude is
/// exactly `l⁴`.
pub fn repulsive_force_dir(a: IVec2, b: IVec2, l: Ratio, dir: DirParam) -> (r: (RVec2, RVec2))
    requires
        in_world(a),
        in_world(b),
        l.valid(),
        dir.valid(),
    ensures
        rvec_opposite(r.0, r.1),
        r.0.den >= 1,
        r.0.xn == impulse_num_x(a, b, l, dir),
        r.0.yn == impulse_num_y(a, b, l, dir),
        r.0.den == impulse_den(a, b, l, dir),
        iabs(r.0.xn as int) <= 1048576 * r.0.den,
        iabs(r.0.yn as int) <= 1048576 * r.0.den,
        r.0.den <= 0x100_0000_0000_0000_0000,
        a != b ==> rat_eq(
            rmag2_num(r.0) * dist2(a, b),
            r.0.den * r.0.den,
            l.n * l.n * (l.n * l.n),
            l.d * l.d * (l.d * l.d),
        ),
        a == b ==> rat_eq(
            rmag2_num(r.0),
            r.0.den * r.0.den,
            l.n * l.n * (l.n * l.n),
            l.d * l.d * (l.d * l.d),
        ),
{
    let ln = l.n as i128;
    let ld = l.d as i128;
    proof {
        assert(1 <= ln * ln <= 0x100000 && 1 <= ld * ld <= 0x100000) by (nonlinear_arith)
            requires
                1 <= ln <= 1024,
                1 <= ld <= 1024,
        ;
    }
    let l2 = ln * ln;
    let ld2 = ld * ld;
    if a == b {
        let tn = dir.n as i128;
        let td = dir.d as i128;
        proof {
            assert(0 <= tn * tn <= 0x100000 && 1 <= td * td <= 0x100000 && -0x100000 <= tn * td
                <= 0x100000) by (nonlinear_arith)
                requires
                    -1000 <= tn <= 1000,
                    1 <= td <= 1000,
            ;
        }
        let half_diff = td * td - tn * tn;
        let half_sum = td * td + tn * tn;
        let twist = 2 * (tn * td);
        proof {
            assert(-0x400_0000_0000 <= l2 * half_diff <= 0x400_0000_0000 && -0x400_0000_0000 <= l2
                * twist <= 0x400_0000_0000 && 1 <= ld2 * half_sum <= 0x400_0000_0000)
                by (nonlinear_arith)
                requires
                    1 <= l2 <= 0x100000,
                    1 <= ld2 <= 0x100000,
                    -0x200000 <= half_diff <= 0x200000,
                    -0x200000 <= twist <= 0x200000,
                    1 <= half_sum <= 0x200000,
            ;
        }
        let xn = l2 * half_diff;
        let yn = l2 * twist;
        let den = ld2 * half_sum;
        proof {
            lemma_unit_circle(ln as int, ld as int, tn as int, td as int);
            assert(-(1048576 * den) <= xn <= 1048576 * den && -(1048576 * den) <= yn <= 1048576
                * den) by (nonlinear_arith)
                requires
                    xn == l2 * half_diff,
                    yn == l2 * twist,
                    den == ld2 * half_sum,
                    half_diff == td * td - tn * tn,
                    twist == 2 * (tn * td),
                    half_sum == td * td + tn * tn,
                    1 <= l2 <= 1048576,
                    1 <= ld2,
            ;
        }
        (RVec2 { xn, yn, den }, RVec2 { xn: -xn, yn: -yn, den })
    } else {
        let dx = a.x as i128 - b.x as i128;
        let dy = a.y as i128 - b.y as i128;
        proof {
            assert(0 <= dx * dx <= 0x4_0000_0000_0000 && 0 <= dy * dy <= 0x4_0000_0000_0000)
                by (nonlinear_arith)
                requires
                    -0x2000000 <= dx <= 0x2000000,
                    -0x2000000 <= dy <= 0x2000000,
            ;
        }
        let d2 = dx * dx + dy * dy;
        proof {
            lemma_dist2_positive(a, b);
            assert(dx * dx == (a.x - b.x) * (a.x - b.x) && dy * dy == (a.y - b.y) * (a.y - b.y))
                by (nonlinear_arith)
                requires
                    dx == a.x - b.x,
                    dy == a.y - b.y,
            ;
            assert(d2 == dist2(a, b));
            assert(-0x1_0000_0000_0000_0000 <= l2 * dx <= 0x1_0000_0000_0000_0000
                && -0x1_0000_0000_0000_0000 <= l2 * dy <= 0x1_0000_0000_0000_0000 && 1 <= ld2 * d2
                <= 0x100_0000_0000_0000_0000) by (nonlinear_arith)
                requires
                    1 <= l2 <= 0x100000,
                    1 <= ld2 <= 0x100000,
                    -0x2000000 <= dx <= 0x2000000,
                    -0x2000000 <= dy <= 0x2000000,
                    1 <= d2 <= 0x8_0000_0000_0000,
            ;
        }
        let xn = l2 * dx;
        let yn = l2 * dy;
        let den = ld2 * d2;
        proof {
            lemma_inverse_distance(ln as int, ld as int, dx as int, dy as int);
            assert(-(1048576 * den) <= xn <= 1048576 * den && -(1048576 * den) <= yn <= 1048576
                * den) by (nonlinear_arith)
                requires
                    xn == l2 * dx,
                    yn == l2 * dy,
                    den == ld2 * d2,
                    d2 == dx * dx + dy * dy,
                    1 <= d2,
                    1 <= l2 <= 1048576,
                    1 <= ld2,
            ;
        }
        (RVec2 { xn, yn, den }, RVec2 { xn: -xn, yn: -yn, den })
    }
}

/// The squared magnitude of `l² · (dx, dy) / (ld² · d2)` times `d2`
/// equals `l⁴ / ld⁴` exactly, where `d2 = dx² + dy²`.
proof fn lemma_inverse_distance(ln: int, ld: int, dx: int, dy: int)
    requires
        dx * dx + dy * dy > 0,
    ensures
        rat_eq(
            (ln * ln * dx * (ln * ln * dx) + ln * ln * dy * (ln * ln * dy)) * (dx * dx + dy * dy),
            (ld * ld * (dx * dx + dy * dy)) * (ld * ld * (dx * dx + dy * dy)),
            ln * ln * (ln * ln),
            ld * ld * (ld * ld),
        ),
{
    let a = ln * ln;
    let d = ld * ld;
    let s = dx * dx + dy * dy;
    assert(a * dx * (a * dx) + a * dy * (a * dy) == (a * a) * s) by (nonlinear_arith)
        requires
            a == ln * ln,
            s == dx * dx + dy * dy,
    ;
    assert((((a * a) * s) * s) * (d * d) == (a * a) * ((d * s) * (d * s))) by (nonlinear_arith);
    assert(((a * a) * s) * s == ((a * dx * (a * dx) + a * dy * (a * dy)) * s));
}

/// `(d² − n²)² + (2nd)² == (d² + n²)²`: the tangent half-angle vector
/// scaled by `l²` lies exactly on the circle of radius `l²`.
proof fn lemma_unit_circle(ln: int, ld: int, tn: int, td: int)
    requires
        td * td + tn * tn > 0,
    ensures
        rat_eq(
            ln * ln * (td * td - tn * tn) * (ln * ln * (td * td - tn * tn)) + ln * ln * (2 * (tn * td)) * (ln * ln * (2 * (tn * td))),
            (ld * ld * (td * td + tn * tn)) * (ld * ld * (td * td + tn * tn)),
            ln * ln * (ln * ln),
            ld * ld * (ld * ld),
        ),
{
    let a = ln * ln;
    let d = ld * ld;
    let p = td * td;
    let q = tn * tn;
    let t = 2 * (tn * td);
    assert(t * t == 4 * (p * q)) by (nonlinear_arith)
        requires
            t == 2 * (tn * td),
            p == td * td,
            q == tn * tn,
    ;
    assert((p - q) * (p - q) + t * t == (p + q) * (p + q)) by (nonlinear_arith)
        requires
            t * t == 4 * (p * q),
    ;
    assert(a * (p - q) * (a * (p - q)) + a * t * (a * t) == (a * a) * ((p - q) * (p - q) + t * t))
        by (nonlinear_arith);
    let u = p + q;
    assert(((a * a) * (u * u)) * (d * d) == (a * a) * ((d * u) * (d * u))) by (nonlinear_arith);
    assert(a * (p - q) * (a * (p - q)) + a * t * (a * t) == (a * a) * (u * u));
}

/// The repulsion impulse pair for a contact of nodes at `a` and `b`.
///
/// When the positions coincide the direction is drawn at random, so only
/// what holds of every draw is promised there: the impulses are exactly
/// opposite and their squared magnitude is exactly `l⁴`.
pub fn repulsive_force(a: IVec2, b: IVec2, l: Ratio) -> (r: (RVec2, RVec2))
    requires
        in_world(a),
        in_world(b),
        l.valid(),
    ensures
        rvec_opposite(r.0, r.1),
        r.0.den >= 1,
        a != b ==> r.0.xn == l.n * l.n * (a.x - b.x) && r.0.yn == l.n * l.n * (a.y - b.y)
            && r.0.den == l.d * l.d * dist2(a, b),
        a != b ==> rat_eq(
            rmag2_num(r.0) * dist2(a, b),
            r.0.den * r.0.den,
            l.n * l.n * (l.n * l.n),
            l.d * l.d * (l.d * l.d),
        ),
        a == b ==> rat_eq(
            rmag2_num(r.0),
            r.0.den * r.0.den,
            l.n * l.n * (l.n * l.n),
            l.d * l.d * (l.d * l.d),
        ),
{
    let dir = if a == b {
        random_dir()
    } else {
        DirParam { n: 0, d: 1 }
    };
    repulsive_force_dir(a, b, l, dir)
}

/// Draw a direction parameter uniformly from the representable range.
pub(crate) fn random_dir() -> (r: DirParam)
    ensures
        r.valid(),
{
    let n = rand_i64(-1000, 1000);
    let d = rand_i64(1, 1000);
    DirParam { n, d }
}

} // verus!
