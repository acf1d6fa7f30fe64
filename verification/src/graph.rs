//! The graph model and the per-tick simulation driver.
//!
//! A tick runs four phases in strict order: collect the contact events
//! (supplied by the caller), compute and queue the repulsion impulses,
//! apply them additively to the velocities, then integrate positions,
//! relax the spring constraints and damp every velocity. Repulsion is
//! injected strictly before the spring solve and damping of the same tick.

use crate::config::{Config, Ratio};
use crate::geom::{dist2, mag2, IVec2};
use crate::num::{iabs, tdiv};
use crate::num::{div_trunc, lemma_tdiv_bounds, lemma_tdiv_mul_le, lemma_tdiv_strict};
use crate::repulsion::{
    impulse_den, impulse_num_x, impulse_num_y, in_world, repulsive_force_dir, DirParam,
};
use crate::topology::{edge_at, edges_generated, generate_edges, Edge};
use vstd::prelude::*;

verus! {

/// A node of the layout: current position and velocity on the integer
/// grid. Mass and interaction radius are uniform and live in `Config`.
#[derive(Clone, Copy, Debug, PartialEq, Eq, Structural)]
pub struct Node {
    pub pos: IVec2,
    pub vel: IVec2,
}

/// A contact event: a pair of node indices whose interaction discs began
/// overlapping this tick. Transient — it exists only within one tick.
#[derive(Clone, Copy, Debug, PartialEq, Eq, Structural)]
pub struct Contact {
    pub a: usize,
    pub b: usize,
}

/// The only failure of a tick: a computed position or velocity left the
/// representable world region. The tick is aborted as a whole and the
/// state left unchanged, rather than committing a partial update.
#[derive(Clone, Copy, Debug, PartialEq, Eq, Structural)]
pub enum TickError {
    OutOfRange,
}

/// Position and velocity within the representable world region.
pub open spec fn node_ok(nd: Node) -> bool {
    &&& in_world(nd.pos)
    &&& in_world(nd.vel)
}

pub open spec fn nodes_ok(ns: Seq<Node>) -> bool {
    forall|i: int| 0 <= i < ns.len() ==> node_ok(#[trigger] ns[i])
}

/// Every edge joins two distinct live nodes and carries valid parameters.
pub open spec fn edges_ok(es: Seq<Edge>, n: int) -> bool {
    forall|k: int|
        0 <= k < es.len() ==> (#[trigger] es[k]).a < n && es[k].b < n && es[k].a != es[k].b
            && es[k].rest.valid() && es[k].compliance.valid()
}

/// The graph model: the node arena, the static edge set and the
/// configuration, exclusively owned by the tick driver.
pub struct Graph {
    pub nodes: Vec<Node>,
    pub edges: Vec<Edge>,
    pub cfg: Config,
}

/// Spec-level interactive override: node `i` is moved to `p` directly,
/// bypassing physics; its velocity is deliberately left untouched.
pub open spec fn override_at(ns: Seq<Node>, i: int, p: IVec2) -> Seq<Node> {
    ns.update(i, Node { pos: p, vel: ns[i].vel })
}

/// Pinning a node to the same position twice in a row is the same as
/// pinning it once: the override writes no velocity, so no motion builds
/// up from a held drag.
pub proof fn lemma_override_idempotent(ns: Seq<Node>, i: int, p: IVec2)
    requires
        0 <= i < ns.len(),
    ensures
        override_at(override_at(ns, i, p), i, p) == override_at(ns, i, p),
{
    assert(override_at(override_at(ns, i, p), i, p) =~= override_at(ns, i, p));
}

/// One tick of velocity damping on one component: the exact factor is
/// `cool / (cool + 1)` — one integration step of the damping coefficient
/// `1 / cool` — truncated toward zero onto the grid.
pub open spec fn damp_component(v: int, cool: Ratio) -> int {
    tdiv(v * cool.n, cool.n + cool.d)
}

/// Damping monotonicity: with no repulsion or spring input, damping
/// strictly shrinks a nonzero velocity and leaves zero at zero, so the
/// speed decreases tick over tick toward rest.
pub proof fn lemma_damping_monotonic(v: IVec2, cool: Ratio)
    requires
        cool.valid(),
    ensures
        iabs(damp_component(v.x as int, cool)) <= iabs(v.x as int),
        iabs(damp_component(v.y as int, cool)) <= iabs(v.y as int),
        v.x != 0 ==> iabs(damp_component(v.x as int, cool)) < iabs(v.x as int),
        v.y != 0 ==> iabs(damp_component(v.y as int, cool)) < iabs(v.y as int),
        v.x >= 0 ==> damp_component(v.x as int, cool) >= 0,
        v.x <= 0 ==> damp_component(v.x as int, cool) <= 0,
        damp_component(v.x as int, cool) * damp_component(v.x as int, cool) + damp_component(v.y as int, cool)
            * damp_component(v.y as int, cool) <= mag2(v),
        v.x != 0 || v.y != 0 ==> damp_component(v.x as int, cool) * damp_component(v.x as int, cool)
            + damp_component(v.y as int, cool) * damp_component(v.y as int, cool) < mag2(v),
{
    lemma_damp_one(v.x as int, cool);
    lemma_damp_one(v.y as int, cool);
    let ax = iabs(damp_component(v.x as int, cool));
    let ay = iabs(damp_component(v.y as int, cool));
    assert(mag2(v) == iabs(v.x as int) * iabs(v.x as int) + iabs(v.y as int) * iabs(v.y as int)) by (nonlinear_arith);
    assert(damp_component(v.x as int, cool) * damp_component(v.x as int, cool) == ax * ax
        && damp_component(v.y as int, cool) * damp_component(v.y as int, cool) == ay * ay)
        by (nonlinear_arith)
        requires
            ax == iabs(damp_component(v.x as int, cool)),
            ay == iabs(damp_component(v.y as int, cool)),
    ;
    assert(ax * ax + ay * ay <= iabs(v.x as int) * iabs(v.x as int) + iabs(v.y as int) * iabs(v.y as int)) by (nonlinear_arith)
        requires
            0 <= ax <= iabs(v.x as int),
            0 <= ay <= iabs(v.y as int),
    ;
    if v.x != 0 || v.y != 0 {
        assert(ax * ax + ay * ay < iabs(v.x as int) * iabs(v.x as int) + iabs(v.y as int) * iabs(v.y as int))
            by (nonlinear_arith)
            requires
                0 <= ax <= iabs(v.x as int),
                0 <= ay <= iabs(v.y as int),
                ax < iabs(v.x as int) || ay < iabs(v.y as int),
        ;
    }
}

/// One damped component never grows, keeps its sign, and strictly
/// shrinks when nonzero.
proof fn lemma_damp_one(x: int, cool: Ratio)
    requires
        cool.valid(),
    ensures
        iabs(damp_component(x, cool)) <= iabs(x),
        x != 0 ==> iabs(damp_component(x, cool)) < iabs(x),
        x >= 0 ==> damp_component(x, cool) >= 0,
        x <= 0 ==> damp_component(x, cool) <= 0,
{
    let cn = cool.n as int;
    let cd = cool.d as int;
    let a = iabs(x);
    assert(iabs(x * cn) == a * cn && a * cn <= a * (cn + cd) && (a >= 1 ==> a * cn + a <= a * (cn
        + cd))) by (nonlinear_arith)
        requires
            a == iabs(x),
            1 <= cn,
            1 <= cd,
    ;
    lemma_tdiv_bounds(x * cn, cn + cd, a);
    if x != 0 {
        lemma_tdiv_strict(x * cn, cn + cd, a);
    }
    if x >= 0 {
        assert(x * cn >= 0) by (nonlinear_arith)
            requires
                x >= 0,
                cn >= 1,
        ;
    } else {
        assert(x * cn < 0) by (nonlinear_arith)
            requires
                x < 0,
                cn >= 1,
        ;
    }
}

/// Compute the repulsion impulses for all contact events of a tick from
/// the current positions and drain the queue into velocity accumulators,
/// exactly as `vels_after_contacts` says.
fn apply_impulses(
    nodes: &Vec<Node>,
    events: &Vec<Contact>,
    dirs: &Vec<DirParam>,
    l: Ratio,
) -> (acc: Vec<(i128, i128)>)
    requires
        nodes_ok(nodes@),
        l.valid(),
        events@.len() == dirs@.len(),
        forall|k: int|
            0 <= k < events@.len() ==> (#[trigger] events@[k]).a < nodes@.len() && events@[k].b
                < nodes@.len(),
        forall|k: int| 0 <= k < dirs@.len() ==> (#[trigger] dirs@[k]).valid(),
    ensures
        acc_matches(
            acc@,
            vels_after_contacts(
                poss_of(nodes@),
                vels_of(nodes@),
                events@,
                dirs@,
                l,
                events@.len() as int,
            ),
        ),
{
    let n = nodes.len();
    let mut acc: Vec<(i128, i128)> = Vec::new();
    let mut i: usize = 0;
    while i < n
        invariant
            i <= n,
            n == nodes@.len(),
            acc@.len() == i,
            forall|j: int|
                0 <= j < i ==> (#[trigger] acc@[j]).0 == nodes@[j].vel.x && acc@[j].1
                    == nodes@[j].vel.y,
        decreases n - i,
    {
        acc.push((nodes[i].vel.x as i128, nodes[i].vel.y as i128));
        i = i + 1;
    }
    proof {
        assert(acc_matches(acc@, vels_after_contacts(poss_of(nodes@), vels_of(nodes@), events@,
        dirs@, l, 0)));
    }
    let m = events.len();
    let mut k: usize = 0;
    while k < m
        invariant
            k <= m,
            m == events@.len(),
            events@.len() == dirs@.len(),
            n == nodes@.len(),
            acc@.len() == n,
            nodes_ok(nodes@),
            l.valid(),
            forall|j: int|
                0 <= j < events@.len() ==> (#[trigger] events@[j]).a < nodes@.len() && events@[j].b
                    < nodes@.len(),
            forall|j: int| 0 <= j < dirs@.len() ==> (#[trigger] dirs@[j]).valid(),
            acc_matches(
                acc@,
                vels_after_contacts(poss_of(nodes@), vels_of(nodes@), events@, dirs@, l, k as int),
            ),
            forall|j: int|
                0 <= j < acc@.len() ==> iabs((#[trigger] acc@[j]).0 as int) <= 16777216 + k
                    * 2097152 && iabs(acc@[j].1 as int) <= 16777216 + k * 2097152,
        decreases m - k,
    {
        let ghost prev = vels_after_contacts(
            poss_of(nodes@),
            vels_of(nodes@),
            events@,
            dirs@,
            l,
            k as int,
        );
        let e = events[k];
        let dir = dirs[k];
        let pa = nodes[e.a].pos;
        let pb = nodes[e.b].pos;
        let (ra, _rb) = repulsive_force_dir(pa, pb, l, dir);
        proof {
            lemma_tdiv_bounds(ra.xn as int, ra.den as int, 1048576);
            lemma_tdiv_bounds(ra.yn as int, ra.den as int, 1048576);
        }
        let dx = div_trunc(ra.xn, ra.den);
        let dy = div_trunc(ra.yn, ra.den);
        let va = acc[e.a];
        acc.set(e.a, (va.0 + dx, va.1 + dy));
        let vb = acc[e.b];
        acc.set(e.b, (vb.0 - dx, vb.1 - dy));
        proof {
            let ai = e.a as int;
            let bi = e.b as int;
            assert(poss_of(nodes@)[ai] == pa && poss_of(nodes@)[bi] == pb);
            assert(dx == delta_x(pa, pb, l, dir) && dy == delta_y(pa, pb, l, dir));
            let step1 = prev.update(ai, (prev[ai].0 + dx, prev[ai].1 + dy));
            let step2 = step1.update(bi, (step1[bi].0 - dx, step1[bi].1 - dy));
            assert(vels_after_contacts(
                poss_of(nodes@),
                vels_of(nodes@),
                events@,
                dirs@,
                l,
                k as int + 1,
            ) == step2);
            assert(acc_matches(acc@, step2));
        }
        k = k + 1;
    }
    acc
}

/// Relax every spring once, in edge order, exactly as `springs_pass`
/// says; fails if and only if a correction would leave the world region.
fn solve_springs(start: &Vec<IVec2>, edges: &Vec<Edge>) -> (r: Result<Vec<IVec2>, TickError>)
    requires
        forall|i: int| 0 <= i < start@.len() ==> in_world(#[trigger] start@[i]),
        edges_ok(edges@, start@.len() as int),
    ensures
        match r {
            Ok(ps) => {
                &&& springs_pass(pairs_of(start@), edges@, edges@.len() as int) == Some(
                    pairs_of(ps@),
                )
                &&& ps@.len() == start@.len()
                &&& forall|i: int| 0 <= i < ps@.len() ==> in_world(#[trigger] ps@[i])
            },
            Err(_) => springs_pass(pairs_of(start@), edges@, edges@.len() as int) is None,
        },
{
    let ghost p0 = pairs_of(start@);
    let n = start.len();
    let m = edges.len();
    let mut ps: Vec<IVec2> = Vec::new();
    let mut i: usize = 0;
    while i < n
        invariant
            i <= n,
            n == start@.len(),
            ps@.len() == i,
            forall|j: int| 0 <= j < i ==> ps@[j] == start@[j],
        decreases n - i,
    {
        ps.push(start[i]);
        i = i + 1;
    }
    proof {
        assert(ps@ =~= start@);
    }
    let mut k: usize = 0;
    while k < m
        invariant
            k <= m,
            m == edges@.len(),
            n == ps@.len(),
            edges_ok(edges@, n as int),
            p0 == pairs_of(start@),
            forall|i: int| 0 <= i < ps@.len() ==> in_world(#[trigger] ps@[i]),
            springs_pass(p0, edges@, k as int) == Some(pairs_of(ps@)),
        decreases m - k,
    {
        let ghost prev = pairs_of(ps@);
        let e = edges[k];
        let pa = ps[e.a];
        let pb = ps[e.b];
        if !(pa.x == pb.x && pa.y == pb.y) {
            let dxi = pa.x as i128 - pb.x as i128;
            let dyi = pa.y as i128 - pb.y as i128;
            proof {
                assert(0 <= dxi * dxi <= 0x4_0000_0000_0000 && 0 <= dyi * dyi <= 0x4_0000_0000_0000
                    && (dxi != 0 ==> dxi * dxi >= 1) && (dyi != 0 ==> dyi * dyi >= 1))
                    by (nonlinear_arith)
                    requires
                        -0x2000000 <= dxi <= 0x2000000,
                        -0x2000000 <= dyi <= 0x2000000,
                ;
            }
            let d2 = dxi * dxi + dyi * dyi;
            let rn = e.rest.n as i128;
            let rd = e.rest.d as i128;
            let cn = e.compliance.n as i128;
            let cd = e.compliance.d as i128;
            proof {
                assert(1 <= rn * rn <= 0x100000 && 1 <= rd * rd <= 0x100000) by (nonlinear_arith)
                    requires
                        1 <= rn <= 1024,
                        1 <= rd <= 1024,
                ;
            }
            let rn2 = rn * rn;
            let rd2 = rd * rd;
            proof {
                assert(1 <= d2 * rd2 <= 0x100_0000_0000_0000_0000) by (nonlinear_arith)
                    requires
                        1 <= d2 <= 0x8_0000_0000_0000,
                        1 <= rd2 <= 0x100000,
                ;
            }
            let core = rn2 - d2 * rd2;
            proof {
                assert(-0x4000_0000_0000_0000_0000_0000 <= core * cd <= 0x4000_0000_0000_0000_0000_0000
                    && 4 <= (4 * d2) * rd2 <= 0x4000_0000_0000_0000_0000 && 4 <= (4 * d2) * rd2 * (
                cn + cd) <= 0x1000_0000_0000_0000_0000_0000) by (nonlinear_arith)
                    requires
                        -0x200_0000_0000_0000_0000 <= core <= 0x200_0000_0000_0000_0000,
                        1 <= cd <= 1024,
                        1 <= cn <= 1024,
                        1 <= d2 <= 0x8_0000_0000_0000,
                        1 <= rd2 <= 0x100000,
                ;
            }
            let sn = core * cd;
            let sd = 4 * d2 * rd2 * (cn + cd);
            proof {
                assert(-0x4000_0000_0000_0000_0000_0000_0000_0000 < sn * dxi
                    < 0x4000_0000_0000_0000_0000_0000_0000_0000 && -0x4000_0000_0000_0000_0000_0000_0000_0000
                    < sn * dyi < 0x4000_0000_0000_0000_0000_0000_0000_0000) by (nonlinear_arith)
                    requires
                        -0x4000_0000_0000_0000_0000_0000 <= sn <= 0x4000_0000_0000_0000_0000_0000,
                        -0x2000000 <= dxi <= 0x2000000,
                        -0x2000000 <= dyi <= 0x2000000,
                ;
                let mx = iabs((sn * dxi) as int);
                assert(mx <= mx * sd) by (nonlinear_arith)
                    requires
                        mx >= 0,
                        sd >= 1,
                ;
                lemma_tdiv_bounds((sn * dxi) as int, sd as int, mx);
                let my = iabs((sn * dyi) as int);
                assert(my <= my * sd) by (nonlinear_arith)
                    requires
                        my >= 0,
                        sd >= 1,
                ;
                lemma_tdiv_bounds((sn * dyi) as int, sd as int, my);
            }
            let dxc = div_trunc(sn * dxi, sd);
            let dyc = div_trunc(sn * dyi, sd);
            let nax = pa.x as i128 + dxc;
            let nay = pa.y as i128 + dyc;
            let nbx = pb.x as i128 - dxc;
            let nby = pb.y as i128 - dyc;
            if nax < -16777216 || nax > 16777216 || nay < -16777216 || nay > 16777216 || nbx
                < -16777216 || nbx > 16777216 || nby < -16777216 || nby > 16777216 {
                proof {
                    let a = e.a as int;
                    let b = e.b as int;
                    let dx = spring_dx(prev[a], prev[b], e);
                    let dy = spring_dy(prev[a], prev[b], e);
                    assert(dx == dxc && dy == dyc);
                    assert(!(pair_in_range((prev[a].0 + dx, prev[a].1 + dy)) && pair_in_range(
                        (prev[b].0 - dx, prev[b].1 - dy),
                    )));
                    assert(springs_pass(p0, edges@, k as int + 1) is None);
                    lemma_springs_none_persists(p0, edges@, k as int + 1, m as int);
                }
                return Err(TickError::OutOfRange);
            }
            ps.set(e.a, IVec2 { x: nax as i64, y: nay as i64 });
            ps.set(e.b, IVec2 { x: nbx as i64, y: nby as i64 });
            proof {
                let a = e.a as int;
                let b = e.b as int;
                let dx = spring_dx(prev[a], prev[b], e);
                let dy = spring_dy(prev[a], prev[b], e);
                assert(dx == dxc && dy == dyc);
                let na = (prev[a].0 + dx, prev[a].1 + dy);
                let nb = (prev[b].0 - dx, prev[b].1 - dy);
                assert(springs_pass(p0, edges@, k as int + 1) == Some(
                    prev.update(a, na).update(b, nb),
                ));
                assert(pairs_of(ps@) =~= prev.update(a, na).update(b, nb));
            }
        } else {
            proof {
                let a = e.a as int;
                let b = e.b as int;
                assert(prev[a] == prev[b]);
                assert(springs_pass(p0, edges@, k as int + 1) == Some(prev));
            }
        }
        k = k + 1;
    }
    Ok(ps)
}

/// A random point strictly inside the disc of the given radius around
/// the origin: a random distance scaled by a random exact unit vector,
/// truncated onto the grid (which only moves it toward the origin).
fn random_point_in_disc(radius: i64) -> (p: IVec2)
    requires
        1 <= radius <= 16777216,
    ensures
        mag2(p) < radius * radius,
        in_world(p),
{
    let dist = crate::rng::rand_i64(0, radius - 1);
    let dir = crate::repulsion::random_dir();
    let tn = dir.n as i128;
    let td = dir.d as i128;
    proof {
        assert(0 <= tn * tn <= 0x100000 && 1 <= td * td <= 0x100000 && -0x100000 <= tn * td
            <= 0x100000) by (nonlinear_arith)
            requires
                -1000 <= tn <= 1000,
                1 <= td <= 1000,
        ;
    }
    let ax = td * td - tn * tn;
    let ay = 2 * (tn * td);
    let h = td * td + tn * tn;
    let di = dist as i128;
    proof {
        assert(-(td * td + tn * tn) <= 2 * (tn * td) && 2 * (tn * td) <= td * td + tn * tn)
            by (nonlinear_arith);
        assert(-0x40_0000_0000_0000 <= di * ax <= 0x40_0000_0000_0000 && -0x40_0000_0000_0000 <= di
            * ay <= 0x40_0000_0000_0000 && iabs((di * ax) as int) <= di * h && iabs(
            (di * ay) as int,
        ) <= di * h) by (nonlinear_arith)
            requires
                0 <= di <= 16777216,
                -0x200000 <= ax <= 0x200000,
                -0x200000 <= ay <= 0x200000,
                1 <= h <= 0x200000,
                ax <= h,
                -h <= ax,
                ay <= h,
                -h <= ay,
        ;
        lemma_tdiv_bounds((di * ax) as int, h as int, di as int);
        lemma_tdiv_bounds((di * ay) as int, h as int, di as int);
        lemma_tdiv_mul_le((di * ax) as int, h as int);
        lemma_tdiv_mul_le((di * ay) as int, h as int);
    }
    let x = div_trunc(di * ax, h);
    let y = div_trunc(di * ay, h);
    let p = IVec2 { x: x as i64, y: y as i64 };
    proof {
        let xi = x as int;
        let yi = y as int;
        let hi = h as int;
        let dd = di as int;
        let axi = ax as int;
        let ayi = ay as int;
        assert(axi * axi + ayi * ayi == hi * hi) by (nonlinear_arith)
            requires
                axi == td * td - tn * tn,
                ayi == 2 * (tn * td),
                hi == td * td + tn * tn,
        ;
        let ux = iabs(xi);
        let uy = iabs(yi);
        let mx = iabs((dd * axi) as int);
        let my = iabs((dd * ayi) as int);
        assert(xi * xi * (hi * hi) <= (dd * axi) * (dd * axi) && yi * yi * (hi * hi) <= (dd * ayi)
            * (dd * ayi)) by (nonlinear_arith)
            requires
                ux * hi <= mx,
                uy * hi <= my,
                ux >= 0,
                uy >= 0,
                mx >= 0,
                my >= 0,
                hi >= 1,
                ux == xi || ux == -xi,
                uy == yi || uy == -yi,
                mx == dd * axi || mx == -(dd * axi),
                my == dd * ayi || my == -(dd * ayi),
        ;
        assert((dd * axi) * (dd * axi) + (dd * ayi) * (dd * ayi) == dd * dd * (hi * hi))
            by (nonlinear_arith)
            requires
                axi * axi + ayi * ayi == hi * hi,
        ;
        assert(xi * xi + yi * yi <= dd * dd) by (nonlinear_arith)
            requires
                xi * xi * (hi * hi) + yi * yi * (hi * hi) <= dd * dd * (hi * hi),
                hi >= 1,
        ;
        assert(dd * dd < radius * radius) by (nonlinear_arith)
            requires
                0 <= dd < radius,
        ;
    }
    p
}

/// Damp one velocity on the grid, exactly as `damp_component` says.
pub fn damp_velocity(v: IVec2, cool: Ratio) -> (r: IVec2)
    requires
        in_world(v),
        cool.valid(),
    ensures
        r.x == damp_component(v.x as int, cool),
        r.y == damp_component(v.y as int, cool),
        in_world(r),
{
    proof {
        lemma_damping_monotonic(v, cool);
        assert(-0x10_0000_0000_0000 <= v.x as int * cool.n as int <= 0x10_0000_0000_0000
            && -0x10_0000_0000_0000 <= v.y as int * cool.n as int <= 0x10_0000_0000_0000)
            by (nonlinear_arith)
            requires
                -16777216 <= v.x <= 16777216,
                -16777216 <= v.y <= 16777216,
                1 <= cool.n <= 1024,
        ;
    }
    let den = cool.n as i128 + cool.d as i128;
    let x = div_trunc(v.x as i128 * cool.n as i128, den);
    let y = div_trunc(v.y as i128 * cool.n as i128, den);
    IVec2 { x: x as i64, y: y as i64 }
}

/// The positions of a node sequence.
pub open spec fn poss_of(ns: Seq<Node>) -> Seq<IVec2> {
    Seq::new(ns.len(), |i: int| ns[i].pos)
}

/// The velocities of a node sequence, as unbounded integer pairs.
pub open spec fn vels_of(ns: Seq<Node>) -> Seq<(int, int)> {
    Seq::new(ns.len(), |i: int| (ns[i].vel.x as int, ns[i].vel.y as int))
}

/// x component of the velocity delta queued for node `a` of a contact:
/// the exact impulse truncated toward zero onto the grid.
pub open spec fn delta_x(pa: IVec2, pb: IVec2, l: Ratio, dir: DirParam) -> int {
    tdiv(impulse_num_x(pa, pb, l, dir), impulse_den(pa, pb, l, dir))
}

/// y component of the queued velocity delta for node `a` of a contact.
pub open spec fn delta_y(pa: IVec2, pb: IVec2, l: Ratio, dir: DirParam) -> int {
    tdiv(impulse_num_y(pa, pb, l, dir), impulse_den(pa, pb, l, dir))
}

/// Velocities after the impulse queue of the first `k` events is drained:
/// each event adds the rounded impulse to its `a` node and the exact
/// opposite to its `b` node; deltas on one node accumulate additively.
pub open spec fn vels_after_contacts(
    poss: Seq<IVec2>,
    vels: Seq<(int, int)>,
    events: Seq<Contact>,
    dirs: Seq<DirParam>,
    l: Ratio,
    k: int,
) -> Seq<(int, int)>
    decreases k,
{
    if k <= 0 {
        vels
    } else {
        let prev = vels_after_contacts(poss, vels, events, dirs, l, k - 1);
        let e = events[k - 1];
        let dir = dirs[k - 1];
        let a = e.a as int;
        let b = e.b as int;
        let dx = delta_x(poss[a], poss[b], l, dir);
        let dy = delta_y(poss[a], poss[b], l, dir);
        let step1 = prev.update(a, (prev[a].0 + dx, prev[a].1 + dy));
        step1.update(b, (step1[b].0 - dx, step1[b].1 - dy))
    }
}

/// Draining the impulse queue changes no node count.
pub proof fn lemma_vels_len(
    poss: Seq<IVec2>,
    vels: Seq<(int, int)>,
    events: Seq<Contact>,
    dirs: Seq<DirParam>,
    l: Ratio,
    k: int,
)
    requires
        k <= events.len(),
        forall|j: int|
            0 <= j < events.len() ==> (#[trigger] events[j]).a < vels.len() && events[j].b
                < vels.len(),
    ensures
        vels_after_contacts(poss, vels, events, dirs, l, k).len() == vels.len(),
    decreases k,
{
    if k > 0 {
        lemma_vels_len(poss, vels, events, dirs, l, k - 1);
        let prev = vels_after_contacts(poss, vels, events, dirs, l, k - 1);
        let e = events[k - 1];
        let dir = dirs[k - 1];
        let a = e.a as int;
        let b = e.b as int;
        let dx = delta_x(poss[a], poss[b], l, dir);
        let dy = delta_y(poss[a], poss[b], l, dir);
        let step1 = prev.update(a, (prev[a].0 + dx, prev[a].1 + dy));
        let step2 = step1.update(b, (step1[b].0 - dx, step1[b].1 - dy));
        assert(vels_after_contacts(poss, vels, events, dirs, l, k) == step2);
        assert(step2.len() == prev.len());
    }
}

/// Both components within the representable world region.
pub open spec fn pair_in_range(p: (int, int)) -> bool {
    &&& -16777216 <= p.0 <= 16777216
    &&& -16777216 <= p.1 <= 16777216
}

pub open spec fn pairs_in_range(vs: Seq<(int, int)>) -> bool {
    forall|i: int| 0 <= i < vs.len() ==> pair_in_range(#[trigger] vs[i])
}

/// One integration step: each position advances by the node's velocity.
pub open spec fn integrate_poss(poss: Seq<IVec2>, vs: Seq<(int, int)>) -> Seq<(int, int)> {
    Seq::new(poss.len(), |i: int| (poss[i].x + vs[i].0, poss[i].y + vs[i].1))
}

/// Positions as unbounded integer pairs.
pub open spec fn pairs_of(s: Seq<IVec2>) -> Seq<(int, int)> {
    Seq::new(s.len(), |i: int| (s[i].x as int, s[i].y as int))
}

/// Squared distance of two integer pairs.
pub open spec fn pair_dist2(p: (int, int), q: (int, int)) -> int {
    (p.0 - q.0) * (p.0 - q.0) + (p.1 - q.1) * (p.1 - q.1)
}

/// Numerator of the exact correction scale a spring applies to its `a`
/// endpoint: positive when the spring is shorter than its rest length
/// (pushing apart), negative when longer (pulling together), and smaller
/// in magnitude the larger the compliance.
pub open spec fn spring_num(p: (int, int), q: (int, int), e: Edge) -> int {
    (e.rest.n * e.rest.n - pair_dist2(p, q) * (e.rest.d * e.rest.d)) * e.compliance.d
}

/// Positive denominator of the exact spring correction scale; the factor
/// `compliance + 1` softens the step for compliant springs.
pub open spec fn spring_den(p: (int, int), q: (int, int), e: Edge) -> int {
    4 * pair_dist2(p, q) * (e.rest.d * e.rest.d) * (e.compliance.n + e.compliance.d)
}

/// x component of the correction the spring applies to its `a` endpoint;
/// the `b` endpoint receives the exact opposite.
pub open spec fn spring_dx(p: (int, int), q: (int, int), e: Edge) -> int {
    tdiv(spring_num(p, q, e) * (p.0 - q.0), spring_den(p, q, e))
}

pub open spec fn spring_dy(p: (int, int), q: (int, int), e: Edge) -> int {
    tdiv(spring_num(p, q, e) * (p.1 - q.1), spring_den(p, q, e))
}

/// The spring correction drives the distance toward the rest length: it
/// pushes the `a` endpoint away from `b` (a positive multiple of
/// `p - q`) when the spring is shorter than its rest length, and pulls it
/// toward `b` when it is longer; the denominator is positive, and grows
/// with the compliance, so a softer spring corrects more slowly.
pub proof fn lemma_spring_sign(p: (int, int), q: (int, int), e: Edge)
    requires
        e.rest.valid(),
        e.compliance.valid(),
        pair_dist2(p, q) > 0,
    ensures
        spring_den(p, q, e) > 0,
        pair_dist2(p, q) * (e.rest.d * e.rest.d) > e.rest.n * e.rest.n ==> spring_num(p, q, e) < 0,
        pair_dist2(p, q) * (e.rest.d * e.rest.d) < e.rest.n * e.rest.n ==> spring_num(p, q, e) > 0,
        pair_dist2(p, q) * (e.rest.d * e.rest.d) == e.rest.n * e.rest.n ==> spring_num(p, q, e)
            == 0,
{
    let d2 = pair_dist2(p, q);
    let rn2 = e.rest.n * e.rest.n;
    let rd2 = e.rest.d * e.rest.d;
    assert(rn2 >= 1 && rd2 >= 1) by (nonlinear_arith)
        requires
            rn2 == e.rest.n * e.rest.n,
            rd2 == e.rest.d * e.rest.d,
            e.rest.n >= 1,
            e.rest.d >= 1,
    ;
    assert(4 * d2 * rd2 * (e.compliance.n + e.compliance.d) > 0) by (nonlinear_arith)
        requires
            d2 >= 1,
            rd2 >= 1,
            e.compliance.n + e.compliance.d >= 2,
    ;
    assert((rn2 - d2 * rd2) * e.compliance.d < 0 <== rn2 - d2 * rd2 < 0) by (nonlinear_arith)
        requires
            e.compliance.d >= 1,
    ;
    assert((rn2 - d2 * rd2) * e.compliance.d > 0 <== rn2 - d2 * rd2 > 0) by (nonlinear_arith)
        requires
            e.compliance.d >= 1,
    ;
}

/// Positions after the first `k` springs are relaxed in order, each
/// correction computed from the positions left by the previous one. A
/// spring whose endpoints coincide has no direction and is skipped; a
/// correction that would leave the world region aborts the pass.
pub open spec fn springs_pass(poss: Seq<(int, int)>, es: Seq<Edge>, k: int) -> Option<
    Seq<(int, int)>,
>
    decreases k,
{
    if k <= 0 {
        Some(poss)
    } else {
        match springs_pass(poss, es, k - 1) {
            None => None,
            Some(prev) => {
                let e = es[k - 1];
                let a = e.a as int;
                let b = e.b as int;
                if prev[a] == prev[b] {
                    Some(prev)
                } else {
                    let dx = spring_dx(prev[a], prev[b], e);
                    let dy = spring_dy(prev[a], prev[b], e);
                    let na = (prev[a].0 + dx, prev[a].1 + dy);
                    let nb = (prev[b].0 - dx, prev[b].1 - dy);
                    if pair_in_range(na) && pair_in_range(nb) {
                        Some(prev.update(a, na).update(b, nb))
                    } else {
                        None
                    }
                }
            },
        }
    }
}

/// Once a spring pass has aborted, it stays aborted.
proof fn lemma_springs_none_persists(poss: Seq<(int, int)>, es: Seq<Edge>, j: int, m: int)
    requires
        0 <= j <= m,
        springs_pass(poss, es, j) is None,
    ensures
        springs_pass(poss, es, m) is None,
    decreases m - j,
{
    if j < m {
        lemma_springs_none_persists(poss, es, j, m - 1);
    }
}

/// An executable accumulator matches a spec-level integer-pair sequence.
pub open spec fn acc_matches(a: Seq<(i128, i128)>, b: Seq<(int, int)>) -> bool {
    &&& a.len() == b.len()
    &&& forall|i: int| 0 <= i < a.len() ==> (#[trigger] a[i]).0 == b[i].0 && a[i].1 == b[i].1
}

/// The interaction discs of two nodes overlap: centre distance strictly
/// below the diameter `2r`, compared exactly by cross-multiplication.
pub open spec fn discs_overlap_at(pa: IVec2, pb: IVec2, r: Ratio) -> bool {
    dist2(pa, pb) * (r.d * r.d) < 4 * (r.n * r.n)
}

/// Whether the queue holds this contact.
fn contains_contact(v: &Vec<Contact>, c: Contact) -> (r: bool)
    ensures
        r == v@.contains(c),
{
    let mut k: usize = 0;
    while k < v.len()
        invariant
            k <= v@.len(),
            forall|t: int| 0 <= t < k ==> v@[t] != c,
        decreases v@.len() - k,
    {
        if v[k].a == c.a && v[k].b == c.b {
            proof {
                assert(v@[k as int] == c);
            }
            return true;
        }
        k = k + 1;
    }
    false
}

/// The edge-triggered contact events of a tick: the pairs overlapping
/// now that were not overlapping at the previous tick's detection pass.
#[verifier::loop_isolation(false)]
pub fn new_contacts(curr: &Vec<Contact>, prev: &Vec<Contact>) -> (es: Vec<Contact>)
    ensures
        forall|k: int|
            0 <= k < es@.len() ==> curr@.contains(#[trigger] es@[k]) && !prev@.contains(es@[k]),
        forall|c: Contact| curr@.contains(c) && !prev@.contains(c) ==> es@.contains(c),
{
    broadcast use vstd::seq_lib::lemma_seq_contains_after_push;

    let mut es: Vec<Contact> = Vec::new();
    let mut k: usize = 0;
    while k < curr.len()
        invariant
            k <= curr@.len(),
            forall|t: int|
                0 <= t < es@.len() ==> curr@.contains(#[trigger] es@[t]) && !prev@.contains(
                    es@[t],
                ),
            forall|t: int|
                0 <= t < k && !prev@.contains(#[trigger] curr@[t]) ==> es@.contains(curr@[t]),
        decreases curr@.len() - k,
    {
        let c = curr[k];
        if !contains_contact(prev, c) {
            proof {
                assert(curr@[k as int] == c);
            }
            es.push(c);
        }
        k = k + 1;
    }
    proof {
        assert forall|c: Contact| curr@.contains(c) && !prev@.contains(c) implies es@.contains(
            c,
        ) by {
            let t = choose|t: int| 0 <= t < curr@.len() && curr@[t] == c;
            assert(es@.contains(curr@[t]));
        }
    }
    es
}

/// A well-formed sequence of direction draws for `n` contact events.
pub open spec fn dirs_ok(dirs: Seq<DirParam>, n: int) -> bool {
    &&& dirs.len() == n
    &&& forall|k: int| 0 <= k < dirs.len() ==> (#[trigger] dirs[k]).valid()
}

/// One whole tick over the mathematical model, in the strict phase order:
/// drain the repulsion impulse queue into the velocities, advance every
/// position by its post-repulsion velocity, relax the springs in edge
/// order, then damp every velocity. `None` exactly when some intermediate
/// value would leave the representable world region.
pub open spec fn spec_tick(
    ns: Seq<Node>,
    es: Seq<Edge>,
    cfg: Config,
    events: Seq<Contact>,
    dirs: Seq<DirParam>,
) -> Option<Seq<Node>> {
    let vs = vels_after_contacts(
        poss_of(ns),
        vels_of(ns),
        events,
        dirs,
        cfg.ideal_length,
        events.len() as int,
    );
    if !pairs_in_range(vs) {
        None
    } else {
        let ip = integrate_poss(poss_of(ns), vs);
        if !pairs_in_range(ip) {
            None
        } else {
            match springs_pass(ip, es, es.len() as int) {
                None => None,
                Some(ps2) => Some(
                    Seq::new(
                        ns.len(),
                        |i: int|
                            Node {
                                pos: IVec2 { x: ps2[i].0 as i64, y: ps2[i].1 as i64 },
                                vel: IVec2 {
                                    x: damp_component(vs[i].0, cfg.cooling_factor) as i64,
                                    y: damp_component(vs[i].1, cfg.cooling_factor) as i64,
                                },
                            },
                    ),
                ),
            }
        }
    }
}

impl Graph {
    pub open spec fn wf(self) -> bool {
        &&& self.cfg.valid()
        &&& nodes_ok(self.nodes@)
        &&& edges_ok(self.edges@, self.nodes@.len() as int)
    }

    /// Build a graph from given node positions: velocities start at zero
    /// and the triple-grouping topology is generated over the positions'
    /// order, each spring with the configured ideal length and compliance.
    pub fn from_positions(cfg: Config, positions: &Vec<IVec2>) -> (g: Graph)
        requires
            cfg.valid(),
            forall|i: int| 0 <= i < positions@.len() ==> in_world(#[trigger] positions@[i]),
        ensures
            g.wf(),
            g.cfg == cfg,
            g.nodes@.len() == positions@.len(),
            forall|i: int|
                0 <= i < positions@.len() ==> (#[trigger] g.nodes@[i]).pos == positions@[i]
                    && g.nodes@[i].vel == (IVec2 { x: 0, y: 0 }),
            edges_generated(
                positions@.len() as int,
                cfg.ideal_length,
                cfg.compliance,
                g.edges@,
            ),
    {
        let n = positions.len();
        let edges = generate_edges(n, cfg.ideal_length, cfg.compliance);
        let mut nodes: Vec<Node> = Vec::new();
        let mut i: usize = 0;
        while i < n
            invariant
                i <= n,
                n == positions@.len(),
                nodes@.len() == i,
                forall|j: int| 0 <= j < positions@.len() ==> in_world(#[trigger] positions@[j]),
                forall|j: int|
                    0 <= j < i ==> (#[trigger] nodes@[j]).pos == positions@[j] && nodes@[j].vel == (
                    IVec2 { x: 0, y: 0 }),
            decreases n - i,
        {
            nodes.push(Node { pos: positions[i], vel: IVec2 { x: 0, y: 0 } });
            i = i + 1;
        }
        proof {
            assert forall|k: int| 0 <= k < edges@.len() implies (#[trigger] edges@[k]).a
                < nodes@.len() && edges@[k].b < nodes@.len() && edges@[k].a != edges@[k].b
                && edges@[k].rest.valid() && edges@[k].compliance.valid() by {
                assert(edge_at(n as int, cfg.ideal_length, cfg.compliance, edges@, k));
            }
            assert(nodes_ok(nodes@));
        }
        Graph { nodes, edges, cfg }
    }

    /// Build a graph as startup does: `cfg.node_total` nodes at a random
    /// angle and random distance from the origin, all strictly inside the
    /// placement disc of radius 500, with zero initial velocities, and the
    /// triple-grouping topology over them. Only the draws are random; the
    /// in-disc bound holds of every outcome.
    pub fn new_random(cfg: Config) -> (g: Graph)
        requires
            cfg.valid(),
        ensures
            g.wf(),
            g.cfg == cfg,
            g.nodes@.len() == cfg.node_total,
            forall|i: int|
                0 <= i < g.nodes@.len() ==> mag2((#[trigger] g.nodes@[i]).pos) < 250000
                    && g.nodes@[i].vel == (IVec2 { x: 0, y: 0 }),
            edges_generated(cfg.node_total as int, cfg.ideal_length, cfg.compliance, g.edges@),
    {
        let n = cfg.node_total;
        let mut positions: Vec<IVec2> = Vec::new();
        let mut i: usize = 0;
        while i < n
            invariant
                i <= n,
                positions@.len() == i,
                forall|j: int|
                    0 <= j < i ==> mag2(#[trigger] positions@[j]) < 250000 && in_world(
                        positions@[j],
                    ),
            decreases n - i,
        {
            positions.push(random_point_in_disc(500));
            i = i + 1;
        }
        let g = Graph::from_positions(cfg, &positions);
        proof {
            assert forall|j: int| 0 <= j < g.nodes@.len() implies mag2(
                (#[trigger] g.nodes@[j]).pos,
            ) < 250000 && g.nodes@[j].vel == (IVec2 { x: 0, y: 0 }) by {
                assert(g.nodes@[j].pos == positions@[j]);
            }
        }
        g
    }

    /// One simulation tick with the degenerate-contact directions given
    /// explicitly: the deterministic core of the driver, exactly as
    /// `spec_tick` says. Contact events come from the caller's detection
    /// pass and must reference live nodes; the tick fails — leaving the
    /// state untouched — exactly when an intermediate value would leave
    /// the representable world region.
    #[verifier::loop_isolation(false)]
    pub fn tick_with_dirs(&mut self, events: &Vec<Contact>, dirs: &Vec<DirParam>) -> (r: Result<
        (),
        TickError,
    >)
        requires
            old(self).wf(),
            events@.len() == dirs@.len(),
            forall|k: int|
                0 <= k < events@.len() ==> (#[trigger] events@[k]).a < old(self).nodes@.len()
                    && events@[k].b < old(self).nodes@.len(),
            forall|k: int| 0 <= k < dirs@.len() ==> (#[trigger] dirs@[k]).valid(),
        ensures
            final(self).wf(),
            final(self).edges@ == old(self).edges@,
            final(self).cfg == old(self).cfg,
            final(self).nodes@.len() == old(self).nodes@.len(),
            match spec_tick(old(self).nodes@, old(self).edges@, old(self).cfg, events@, dirs@) {
                Some(ns) => r == Ok::<(), TickError>(()) && final(self).nodes@ == ns,
                None => r == Err::<(), TickError>(TickError::OutOfRange) && final(self).nodes@
                    == old(self).nodes@,
            },
    {
        let ghost ns0 = self.nodes@;
        let l = self.cfg.ideal_length;
        let cool = self.cfg.cooling_factor;
        let n = self.nodes.len();
        let acc = apply_impulses(&self.nodes, events, dirs, l);
        let ghost vs = vels_after_contacts(
            poss_of(ns0),
            vels_of(ns0),
            events@,
            dirs@,
            l,
            events@.len() as int,
        );
        proof {
            lemma_vels_len(poss_of(ns0), vels_of(ns0), events@, dirs@, l, events@.len() as int);
        }
        let mut newvels: Vec<IVec2> = Vec::new();
        let mut i: usize = 0;
        while i < n
            invariant
                i <= n,
                n == ns0.len(),
                self.nodes@ == ns0,
                acc@.len() == n,
                acc_matches(acc@, vs),
                newvels@.len() == i,
                forall|j: int|
                    0 <= j < i ==> (#[trigger] newvels@[j]).x == vs[j].0 && newvels@[j].y
                        == vs[j].1 && in_world(newvels@[j]),
            decreases n - i,
        {
            let v = acc[i];
            if v.0 < -16777216 || v.0 > 16777216 || v.1 < -16777216 || v.1 > 16777216 {
                proof {
                    assert(!pair_in_range(vs[i as int]));
                }
                return Err(TickError::OutOfRange);
            }
            newvels.push(IVec2 { x: v.0 as i64, y: v.1 as i64 });
            i = i + 1;
        }
        proof {
            assert forall|j: int| 0 <= j < vs.len() implies pair_in_range(#[trigger] vs[j]) by {
                assert(newvels@[j].x == vs[j].0 && newvels@[j].y == vs[j].1 && in_world(
                    newvels@[j],
                ));
            }
            assert(pairs_in_range(vs));
        }
        let ghost ip = integrate_poss(poss_of(ns0), vs);
        let mut posv: Vec<IVec2> = Vec::new();
        i = 0;
        while i < n
            invariant
                i <= n,
                n == ns0.len(),
                self.nodes@ == ns0,
                nodes_ok(ns0),
                ip == integrate_poss(poss_of(ns0), vs),
                newvels@.len() == n,
                forall|j: int|
                    0 <= j < n ==> (#[trigger] newvels@[j]).x == vs[j].0 && newvels@[j].y
                        == vs[j].1 && in_world(newvels@[j]),
                posv@.len() == i,
                forall|j: int|
                    0 <= j < i ==> (#[trigger] posv@[j]).x == ip[j].0 && posv@[j].y == ip[j].1
                        && in_world(posv@[j]),
            decreases n - i,
        {
            let p = self.nodes[i].pos;
            let v = newvels[i];
            let sx = p.x + v.x;
            let sy = p.y + v.y;
            proof {
                assert(ip[i as int] == (p.x + v.x, p.y + v.y));
            }
            if sx < -16777216 || sx > 16777216 || sy < -16777216 || sy > 16777216 {
                proof {
                    assert(!pair_in_range(ip[i as int]));
                }
                return Err(TickError::OutOfRange);
            }
            posv.push(IVec2 { x: sx, y: sy });
            i = i + 1;
        }
        proof {
            assert forall|j: int| 0 <= j < ip.len() implies pair_in_range(#[trigger] ip[j]) by {
                assert(posv@[j].x == ip[j].0 && posv@[j].y == ip[j].1 && in_world(posv@[j]));
            }
            assert(pairs_in_range(ip));
            assert(pairs_of(posv@) =~= ip);
        }
        let sres = solve_springs(&posv, &self.edges);
        let ps = match sres {
            Ok(ps) => ps,
            Err(_) => {
                return Err(TickError::OutOfRange);
            },
        };
        let mut out: Vec<Node> = Vec::new();
        i = 0;
        while i < n
            invariant
                i <= n,
                n == ns0.len(),
                self.nodes@ == ns0,
                cool.valid(),
                out@.len() == i,
                newvels@.len() == n,
                forall|j: int|
                    0 <= j < n ==> (#[trigger] newvels@[j]).x == vs[j].0 && newvels@[j].y
                        == vs[j].1 && in_world(newvels@[j]),
                ps@.len() == n,
                forall|j: int| 0 <= j < n ==> in_world(#[trigger] ps@[j]),
                forall|j: int|
                    0 <= j < i ==> (#[trigger] out@[j]).pos == ps@[j] && out@[j].vel.x
                        == damp_component(vs[j].0, cool) && out@[j].vel.y == damp_component(
                        vs[j].1,
                        cool,
                    ) && node_ok(out@[j]),
            decreases n - i,
        {
            let dv = damp_velocity(newvels[i], cool);
            out.push(Node { pos: ps[i], vel: dv });
            i = i + 1;
        }
        self.nodes = out;
        proof {
            let ps2 = pairs_of(ps@);
            assert(springs_pass(ip, self.edges@, self.edges@.len() as int) == Some(ps2));
            let expect = Seq::new(
                ns0.len(),
                |j: int|
                    Node {
                        pos: IVec2 { x: ps2[j].0 as i64, y: ps2[j].1 as i64 },
                        vel: IVec2 {
                            x: damp_component(vs[j].0, cool) as i64,
                            y: damp_component(vs[j].1, cool) as i64,
                        },
                    },
            );
            assert forall|j: int| 0 <= j < n implies self.nodes@[j] == expect[j] by {
                assert(ps2[j].0 == ps@[j].x && ps2[j].1 == ps@[j].y);
                lemma_damp_one(vs[j].0, cool);
                lemma_damp_one(vs[j].1, cool);
                assert(pair_in_range(vs[j]));
                assert(-16777216 <= damp_component(vs[j].0, cool) <= 16777216 && -16777216
                    <= damp_component(vs[j].1, cool) <= 16777216);
            }
            assert(self.nodes@ =~= expect);
        }
        Ok(())
    }

    /// One simulation tick. The directions used for degenerate contacts
    /// are drawn at random, so this promises what holds of every draw:
    /// the tick behaves as `spec_tick` for some well-formed direction
    /// sequence.
    pub fn tick(&mut self, events: &Vec<Contact>) -> (r: Result<(), TickError>)
        requires
            old(self).wf(),
            forall|k: int|
                0 <= k < events@.len() ==> (#[trigger] events@[k]).a < old(self).nodes@.len()
                    && events@[k].b < old(self).nodes@.len(),
        ensures
            final(self).wf(),
            final(self).edges@ == old(self).edges@,
            final(self).cfg == old(self).cfg,
            final(self).nodes@.len() == old(self).nodes@.len(),
            exists|dirs: Seq<DirParam>|
                #[trigger] dirs_ok(dirs, events@.len() as int) && match spec_tick(
                    old(self).nodes@,
                    old(self).edges@,
                    old(self).cfg,
                    events@,
                    dirs,
                ) {
                    Some(ns) => r == Ok::<(), TickError>(()) && final(self).nodes@ == ns,
                    None => r == Err::<(), TickError>(TickError::OutOfRange) && final(self).nodes@
                        == old(self).nodes@,
                },
    {
        let m = events.len();
        let mut dirs: Vec<DirParam> = Vec::new();
        let mut i: usize = 0;
        while i < m
            invariant
                i <= m,
                dirs@.len() == i,
                forall|k: int| 0 <= k < i ==> (#[trigger] dirs@[k]).valid(),
            decreases m - i,
        {
            dirs.push(crate::repulsion::random_dir());
            i = i + 1;
        }
        let r = self.tick_with_dirs(events, &dirs);
        proof {
            assert(dirs_ok(dirs@, events@.len() as int));
        }
        r
    }

    /// Contact-detection pass: every pair `(i, j)` with `i < j` whose
    /// interaction discs — radius `cfg.collider_radius` around each node —
    /// currently overlap, that is, whose centre distance is below the
    /// diameter. The edge-triggered events of a tick are the pairs
    /// reported here but not by the previous tick's pass; `new_contacts`
    /// computes that difference.
    #[verifier::loop_isolation(false)]
    pub fn overlapping_pairs(&self) -> (cs: Vec<Contact>)
        requires
            self.wf(),
        ensures
            forall|k: int|
                0 <= k < cs@.len() ==> (#[trigger] cs@[k]).a < cs@[k].b && cs@[k].b
                    < self.nodes@.len(),
            forall|i: int, j: int|
                0 <= i < j < self.nodes@.len() ==> (#[trigger] cs@.contains(
                    Contact { a: i as usize, b: j as usize },
                ) <==> discs_overlap_at(
                    self.nodes@[i].pos,
                    self.nodes@[j].pos,
                    self.cfg.collider_radius,
                )),
    {
        broadcast use vstd::seq_lib::lemma_seq_contains_after_push;

        let n = self.nodes.len();
        let rn = self.cfg.collider_radius.n as i128;
        let rd = self.cfg.collider_radius.d as i128;
        proof {
            assert(1 <= rn * rn <= 0x100000 && 1 <= rd * rd <= 0x100000) by (nonlinear_arith)
                requires
                    1 <= rn <= 1024,
                    1 <= rd <= 1024,
            ;
        }
        let rn2 = rn * rn;
        let rd2 = rd * rd;
        let r = self.cfg.collider_radius;
        let mut cs: Vec<Contact> = Vec::new();
        let mut i: usize = 0;
        while i < n
            invariant
                i <= n,
                forall|k: int|
                    0 <= k < cs@.len() ==> (#[trigger] cs@[k]).a < cs@[k].b && cs@[k].b < n
                        && cs@[k].a < i && discs_overlap_at(
                        self.nodes@[cs@[k].a as int].pos,
                        self.nodes@[cs@[k].b as int].pos,
                        r,
                    ),
                forall|i0: int, j0: int|
                    0 <= i0 < j0 < n && i0 < i && discs_overlap_at(
                        self.nodes@[i0].pos,
                        self.nodes@[j0].pos,
                        r,
                    ) ==> #[trigger] cs@.contains(Contact { a: i0 as usize, b: j0 as usize }),
            decreases n - i,
        {
            let mut j: usize = i + 1;
            while j < n
                invariant
                    i < n,
                    i + 1 <= j <= n,
                    forall|k: int|
                        0 <= k < cs@.len() ==> (#[trigger] cs@[k]).a < cs@[k].b && cs@[k].b < n && (
                        cs@[k].a < i || (cs@[k].a == i && cs@[k].b < j)) && discs_overlap_at(
                            self.nodes@[cs@[k].a as int].pos,
                            self.nodes@[cs@[k].b as int].pos,
                            r,
                        ),
                    forall|i0: int, j0: int|
                        0 <= i0 < j0 < n && (i0 < i || (i0 == i && j0 < j)) && discs_overlap_at(
                            self.nodes@[i0].pos,
                            self.nodes@[j0].pos,
                            r,
                        ) ==> #[trigger] cs@.contains(Contact { a: i0 as usize, b: j0 as usize }),
                decreases n - j,
            {
                let pa = self.nodes[i].pos;
                let pb = self.nodes[j].pos;
                let dx = pa.x as i128 - pb.x as i128;
                let dy = pa.y as i128 - pb.y as i128;
                proof {
                    assert(0 <= dx * dx <= 0x4_0000_0000_0000 && 0 <= dy * dy
                        <= 0x4_0000_0000_0000) by (nonlinear_arith)
                        requires
                            -0x2000000 <= dx <= 0x2000000,
                            -0x2000000 <= dy <= 0x2000000,
                    ;
                    assert(dx * dx == (pa.x - pb.x) * (pa.x - pb.x) && dy * dy == (pa.y - pb.y) * (
                    pa.y - pb.y)) by (nonlinear_arith)
                        requires
                            dx == pa.x - pb.x,
                            dy == pa.y - pb.y,
                    ;
                }
                let d2 = dx * dx + dy * dy;
                proof {
                    assert(0 <= d2 * rd2 <= 0x100_0000_0000_0000_0000) by (nonlinear_arith)
                        requires
                            0 <= d2 <= 0x8_0000_0000_0000,
                            1 <= rd2 <= 0x100000,
                    ;
                }
                if d2 * rd2 < 4 * rn2 {
                    cs.push(Contact { a: i, b: j });
                }
                j = j + 1;
            }
            i = i + 1;
        }
        proof {
            assert forall|i0: int, j0: int| 0 <= i0 < j0 < self.nodes@.len() implies (
            #[trigger] cs@.contains(Contact { a: i0 as usize, b: j0 as usize })
                <==> discs_overlap_at(self.nodes@[i0].pos, self.nodes@[j0].pos, r)) by {
                let c = Contact { a: i0 as usize, b: j0 as usize };
                if cs@.contains(c) {
                    let k = choose|k: int| 0 <= k < cs@.len() && cs@[k] == c;
                    assert(discs_overlap_at(
                        self.nodes@[cs@[k].a as int].pos,
                        self.nodes@[cs@[k].b as int].pos,
                        r,
                    ));
                }
            }
        }
        cs
    }

    /// Pin node `i` to an interactive drag target, bypassing the
    /// spring/repulsion/damping pipeline for this write: the position is
    /// set directly and the velocity is left untouched. `None` — no world
    /// position available for the current input state — performs no
    /// mutation at all. The node keeps its edges and keeps taking part in
    /// contact detection.
    pub fn apply_override(&mut self, i: usize, target: Option<IVec2>)
        requires
            old(self).wf(),
            i < old(self).nodes@.len(),
            target matches Some(p) ==> in_world(p),
        ensures
            final(self).wf(),
            final(self).edges == old(self).edges,
            final(self).cfg == old(self).cfg,
            match target {
                Some(p) => final(self).nodes@ == override_at(old(self).nodes@, i as int, p),
                None => final(self).nodes@ == old(self).nodes@,
            },
    {
        match target {
            None => {},
            Some(p) => {
                let vel = self.nodes[i].vel;
                self.nodes.set(i, Node { pos: p, vel });
            },
        }
    }
}

} // verus!
