use vstd::prelude::*;
use crate::body::{Body, all_valid, MAX_COORD, MAX_MASS, MAX_BODIES, MAX_TOTAL_MASS, MAX_VEL};
use crate::math::{trunc_div, div_trunc, isqrt, sqrt_floor, lemma_trunc_div_abs};
use crate::quadtree::{
    Quadtree, Node, bounding_square, links_ok_at, payload_ok_at, mass_in,
    lemma_sums_split, lemma_sums_bounds, in_square, least_x, least_y, needed_side,
};

verus! {

/// Upper bound for the tuning constants, so that every product of the force
/// law fits the machine integers.
pub const MAX_PARAM: i64 = 0x10_0000;

/// Upper bound for the gravitational constant.
pub const MAX_GRAV: i64 = 0x400;

/// The tuning constants of a simulation. The opening angle `theta` is the
/// exact rational `theta_num / theta_den`, the time step the exact rational
/// `dt_num / dt_den`; keeping them as rationals keeps every step reproducible
/// bit for bit. The step is at most 1 (`dt_num <= dt_den`) so that one
/// integration step cannot overflow the velocity range.
#[derive(Clone, Copy, PartialEq, Eq, Structural, Debug)]
pub struct Params {
    pub theta_num: i64,
    pub theta_den: i64,
    pub eps: i64,
    pub grav: i64,
    pub dt_num: i64,
    pub dt_den: i64,
}

impl Params {
    pub open spec fn valid(self) -> bool {
        &&& 0 <= self.theta_num <= MAX_PARAM
        &&& 1 <= self.theta_den <= MAX_PARAM
        &&& 1 <= self.eps <= MAX_PARAM
        &&& 1 <= self.grav <= MAX_GRAV
        &&& 1 <= self.dt_num <= self.dt_den <= MAX_PARAM
    }

    pub fn new(theta_num: i64, theta_den: i64, eps: i64, grav: i64, dt_num: i64, dt_den: i64) -> (pr: Params)
        ensures
            pr == (Params { theta_num, theta_den, eps, grav, dt_num, dt_den }),
    {
        Params { theta_num, theta_den, eps, grav, dt_num, dt_den }
    }
}

/// Squared distance softened by `eps`, the only guard against the
/// singularity of the inverse-square law.
pub open spec fn soft_d2(dx: int, dy: int, eps: int) -> int {
    dx * dx + dy * dy + eps * eps
}

/// The x component of one softened gravitational contribution at `(px, py)`
/// from a point mass `m` at `(cx, cy)`:
/// `grav * m * dx / (dx^2 + dy^2 + eps^2)^(3/2)`, rounded toward zero.
pub open spec fn contrib_x(px: int, py: int, cx: int, cy: int, m: int, pr: Params) -> int {
    let dx = cx - px;
    let dy = cy - py;
    let d2 = soft_d2(dx, dy, pr.eps as int);
    trunc_div(pr.grav * m * dx, d2 * sqrt_floor(d2))
}

/// The y component of the same contribution.
pub open spec fn contrib_y(px: int, py: int, cx: int, cy: int, m: int, pr: Params) -> int {
    let dx = cx - px;
    let dy = cy - py;
    let d2 = soft_d2(dx, dy, pr.eps as int);
    trunc_div(pr.grav * m * dy, d2 * sqrt_floor(d2))
}

/// The Barnes-Hut opening criterion, `side / dist < theta`, compared by
/// cross-multiplied squares so that no rounding enters the decision.
pub open spec fn far_enough(nd: Node, px: int, py: int, pr: Params) -> bool {
    let dx = nd.com_x - px;
    let dy = nd.com_y - py;
    (nd.square.side * nd.square.side) * (pr.theta_den * pr.theta_den)
        < (pr.theta_num * pr.theta_num) * (dx * dx + dy * dy)
}

/// Enough structure to walk the arena: every `skip` makes progress.
pub open spec fn walk_ok(nodes: Seq<Node>) -> bool {
    forall|p: int| 0 <= p < nodes.len() ==> p < (#[trigger] nodes[p]).skip <= nodes.len()
}

/// What the iterative depth-first traversal accumulates over the arena slots
/// `[p, stop)`: a leaf, or a node far enough to approximate, contributes its
/// aggregate mass at its center of mass and its subtree is pruned; a near
/// internal node is entered at the next slot. A contribution from the query
/// body's own leaf has a zero numerator, so no self-force enters the sum.
pub open spec fn accel_from(nodes: Seq<Node>, p: int, stop: int, px: int, py: int, pr: Params) -> (int, int)
    decreases stop - p
        when 0 <= p && stop <= nodes.len() && walk_ok(nodes)
{
    if p >= stop {
        (0, 0)
    } else {
        let nd = nodes[p];
        let nxt = if nd.skip as int > stop { stop } else { nd.skip as int };
        if nd.leaf || far_enough(nd, px, py, pr) {
            let rest = accel_from(nodes, nxt, stop, px, py, pr);
            (contrib_x(px, py, nd.com_x as int, nd.com_y as int, nd.total_mass as int, pr) + rest.0,
             contrib_y(px, py, nd.com_x as int, nd.com_y as int, nd.total_mass as int, pr) + rest.1)
        } else {
            accel_from(nodes, p + 1, stop, px, py, pr)
        }
    }
}

/// A single contribution is bounded by `grav * m`, whatever the distance:
/// the softening keeps the denominator at least as large as the numerator's
/// distance factor.
proof fn lemma_contrib_bound(px: int, py: int, cx: int, cy: int, m: int, pr: Params)
    requires
        pr.valid(),
        0 < m,
    ensures
        -(pr.grav * m) <= contrib_x(px, py, cx, cy, m, pr) <= pr.grav * m,
        -(pr.grav * m) <= contrib_y(px, py, cx, cy, m, pr) <= pr.grav * m,
{
    let dx = cx - px;
    let dy = cy - py;
    let d2 = soft_d2(dx, dy, pr.eps as int);
    assert(d2 >= 1) by (nonlinear_arith)
        requires d2 == dx * dx + dy * dy + pr.eps * pr.eps, 1 <= pr.eps,
    ;
    crate::math::lemma_sqrt_floor(d2);
    let s = sqrt_floor(d2);
    assert(s >= 1) by (nonlinear_arith)
        requires d2 >= 1, s >= 0, d2 < (s + 1) * (s + 1),
    ;
    assert(dx * dx <= d2) by (nonlinear_arith)
        requires d2 == dx * dx + dy * dy + pr.eps * pr.eps,
    ;
    assert(dy * dy <= d2) by (nonlinear_arith)
        requires d2 == dx * dx + dy * dy + pr.eps * pr.eps,
    ;
    assert(-s <= dx <= s) by (nonlinear_arith)
        requires dx * dx <= d2, d2 < (s + 1) * (s + 1), s >= 0,
    ;
    assert(-s <= dy <= s) by (nonlinear_arith)
        requires dy * dy <= d2, d2 < (s + 1) * (s + 1), s >= 0,
    ;
    let gm = pr.grav * m;
    assert(0 < gm) by (nonlinear_arith)
        requires 0 < pr.grav, 0 < m, gm == pr.grav * m,
    ;
    assert(-(gm * (d2 * s)) <= gm * dx <= gm * (d2 * s)) by (nonlinear_arith)
        requires -s <= dx <= s, 0 < gm, 1 <= d2, 1 <= s,
    ;
    assert(-(gm * (d2 * s)) <= gm * dy <= gm * (d2 * s)) by (nonlinear_arith)
        requires -s <= dy <= s, 0 < gm, 1 <= d2, 1 <= s,
    ;
    assert(1 <= d2 * s) by (nonlinear_arith)
        requires 1 <= d2, 1 <= s,
    ;
    assert(pr.grav * m * dx == gm * dx) by (nonlinear_arith)
        requires gm == pr.grav * m,
    ;
    assert(pr.grav * m * dy == gm * dy) by (nonlinear_arith)
        requires gm == pr.grav * m,
    ;
    lemma_trunc_div_abs(gm * dx, d2 * s, gm);
    lemma_trunc_div_abs(gm * dy, d2 * s, gm);
}

/// Approximate gravitational acceleration of the body at index `i`, by one
/// iterative depth-first walk of the arena with subtree pruning through the
/// skip indices. The result is exactly the sum `accel_from` describes, and
/// is bounded by `grav` times the total mass.
pub fn acceleration(tree: &Quadtree, bodies: &Vec<Body>, i: usize, pr: &Params) -> (a: (i64, i64))
    requires
        tree.wf(bodies@),
        pr.valid(),
        i < bodies@.len(),
    ensures
        (a.0 as int, a.1 as int) == accel_from(
            tree.nodes@, 0, tree.nodes@.len() as int,
            bodies@[i as int].pos_x as int, bodies@[i as int].pos_y as int, *pr),
        -(pr.grav * MAX_TOTAL_MASS) <= a.0 <= pr.grav * MAX_TOTAL_MASS,
        -(pr.grav * MAX_TOTAL_MASS) <= a.1 <= pr.grav * MAX_TOTAL_MASS,
{
    let px = bodies[i].pos_x;
    let py = bodies[i].pos_y;
    let n = tree.nodes.len();
    let nb = bodies.len();
    let ghost nodes = tree.nodes@;
    let ghost order = tree.order@;
    proof {
        assert forall|p: int| 0 <= p < nodes.len() implies
            p < (#[trigger] nodes[p]).skip <= nodes.len() by {
            assert(links_ok_at(nodes, p, nodes.len() as int, 0, nb as int));
        }
    }
    let mut p: usize = 0;
    let mut ax: i64 = 0;
    let mut ay: i64 = 0;
    let ghost whole = accel_from(nodes, 0, n as int, px as int, py as int, *pr);
    while p < n
        invariant
            tree.wf(bodies@),
            pr.valid(),
            walk_ok(nodes),
            nodes == tree.nodes@,
            order == tree.order@,
            n == nodes.len(),
            nb == bodies@.len(),
            i < nb,
            px == bodies@[i as int].pos_x,
            py == bodies@[i as int].pos_y,
            p <= n,
            whole == accel_from(nodes, 0, n as int, px as int, py as int, *pr),
            whole.0 == ax + accel_from(nodes, p as int, n as int, px as int, py as int, *pr).0,
            whole.1 == ay + accel_from(nodes, p as int, n as int, px as int, py as int, *pr).1,
            -(pr.grav * mass_in(bodies@, order, 0, front(nodes, nb as int, p as int))) <= ax
                <= pr.grav * mass_in(bodies@, order, 0, front(nodes, nb as int, p as int)),
            -(pr.grav * mass_in(bodies@, order, 0, front(nodes, nb as int, p as int))) <= ay
                <= pr.grav * mass_in(bodies@, order, 0, front(nodes, nb as int, p as int)),
            0 <= mass_in(bodies@, order, 0, front(nodes, nb as int, p as int)) <= MAX_TOTAL_MASS,
        decreases n - p,
    {
        let nd = tree.nodes[p];
        proof {
            assert(links_ok_at(nodes, p as int, n as int, 0, nb as int));
            assert(payload_ok_at(nodes, bodies@, order, p as int));
            assert(bodies@[i as int].valid());
        }
        let dx = (nd.com_x as i128) - (px as i128);
        let dy = (nd.com_y as i128) - (py as i128);
        proof {
            assert(0 <= dx * dx <= 0x1_0000_0000_0000_0000) by (nonlinear_arith)
                requires -0x1_0000_0000 <= dx <= 0x1_0000_0000,
            ;
            assert(0 <= dy * dy <= 0x1_0000_0000_0000_0000) by (nonlinear_arith)
                requires -0x1_0000_0000 <= dy <= 0x1_0000_0000,
            ;
        }
        let d2r = dx * dx + dy * dy;
        let take = if nd.leaf {
            true
        } else {
            let side = nd.square.side as i128;
            let tden = pr.theta_den as i128;
            let tnum = pr.theta_num as i128;
            proof {
                assert(0 <= side * side <= 0x4_0000_0000_0000_0000) by (nonlinear_arith)
                    requires 0 <= side <= 0x2_0000_0000,
                ;
                assert(0 <= tden * tden <= 0x100_0000_0000) by (nonlinear_arith)
                    requires 0 <= tden <= 0x10_0000,
                ;
                assert(0 <= tnum * tnum <= 0x100_0000_0000) by (nonlinear_arith)
                    requires 0 <= tnum <= 0x10_0000,
                ;
                assert((side * side) * (tden * tden)
                    <= 0x4_0000_0000_0000_0000 * 0x100_0000_0000) by (nonlinear_arith)
                    requires
                        0 <= side * side <= 0x4_0000_0000_0000_0000,
                        0 <= tden * tden <= 0x100_0000_0000,
                ;
                assert((tnum * tnum) * d2r
                    <= 0x100_0000_0000 * 0x2_0000_0000_0000_0000) by (nonlinear_arith)
                    requires
                        0 <= tnum * tnum <= 0x100_0000_0000,
                        0 <= d2r <= 0x2_0000_0000_0000_0000,
                ;
                assert(0 <= (side * side) * (tden * tden)) by (nonlinear_arith)
                    requires 0 <= side * side, 0 <= tden * tden,
                ;
                assert(0 <= (tnum * tnum) * d2r) by (nonlinear_arith)
                    requires 0 <= tnum * tnum, 0 <= d2r,
                ;
            }
            (side * side) * (tden * tden) < (tnum * tnum) * d2r
        };
        let ghost fr0 = front(nodes, nb as int, p as int);
        if take {
            let eps = pr.eps as i128;
            proof {
                assert(1 <= eps * eps <= 0x100_0000_0000) by (nonlinear_arith)
                    requires 1 <= eps <= 0x10_0000,
                ;
            }
            let d2 = d2r + eps * eps;
            let s = isqrt(d2);
            proof {
                assert(0 <= (pr.grav as i128) * (nd.total_mass as i128)
                    <= 0x1000_0000_0000_0000) by (nonlinear_arith)
                    requires 0 < pr.grav <= 0x400, 0 < nd.total_mass <= 0x4_0000_0000_0000,
                ;
            }
            let gm = (pr.grav as i128) * (nd.total_mass as i128);
            proof {
                assert(d2 >= 1);
                assert(s >= 1) by (nonlinear_arith)
                    requires d2 >= 1, s >= 0, d2 < (s + 1) * (s + 1),
                ;
                assert(1 <= d2 * s <= 0x4_0000_0000_0000_0000 * 0x2_0000_0000) by (nonlinear_arith)
                    requires 1 <= d2 <= 0x4_0000_0000_0000_0000, 1 <= s <= 0x2_0000_0000,
                ;
            }
            let denom = d2 * s;
            proof {
                lemma_contrib_bound(px as int, py as int, nd.com_x as int, nd.com_y as int,
                    nd.total_mass as int, *pr);
                assert(-(gm * 0x1_0000_0000) <= gm * dx <= gm * 0x1_0000_0000) by (nonlinear_arith)
                    requires 0 <= gm, -0x1_0000_0000 <= dx <= 0x1_0000_0000,
                ;
                assert(-(gm * 0x1_0000_0000) <= gm * dy <= gm * 0x1_0000_0000) by (nonlinear_arith)
                    requires 0 <= gm, -0x1_0000_0000 <= dy <= 0x1_0000_0000,
                ;
                assert(gm * 0x1_0000_0000 <= 0x1000_0000_0000_0000 * 0x1_0000_0000) by (nonlinear_arith)
                    requires 0 <= gm <= 0x1000_0000_0000_0000,
                ;
            }
            let qx = div_trunc(gm * dx, denom);
            let qy = div_trunc(gm * dy, denom);
            proof {
                assert(gm * dx == pr.grav * nd.total_mass * ((nd.com_x - px) as int)) by (nonlinear_arith)
                    requires gm == pr.grav * nd.total_mass, dx == nd.com_x - px,
                ;
                assert(gm * dy == pr.grav * nd.total_mass * ((nd.com_y - py) as int)) by (nonlinear_arith)
                    requires gm == pr.grav * nd.total_mass, dy == nd.com_y - py,
                ;
                assert(qx == contrib_x(px as int, py as int, nd.com_x as int, nd.com_y as int, nd.total_mass as int, *pr));
                assert(qy == contrib_y(px as int, py as int, nd.com_x as int, nd.com_y as int, nd.total_mass as int, *pr));
                // the consumed mass grows by this node's run
                assert(nd.start == fr0);
                lemma_sums_split(bodies@, order, 0, nd.start as int, nd.end as int);
                lemma_sums_bounds(bodies@, order, 0, nd.start as int);
                lemma_sums_bounds(bodies@, order, nd.start as int, nd.end as int);
                lemma_sums_bounds(bodies@, order, 0, nd.end as int);
                lemma_sums_bounds(bodies@, order, nd.end as int, nb as int);
                lemma_sums_split(bodies@, order, 0, nd.end as int, nb as int);
                assert((nb as int) * MAX_MASS <= MAX_BODIES * MAX_MASS) by (nonlinear_arith)
                    requires 0 <= nb <= MAX_BODIES,
                ;
                let m0 = mass_in(bodies@, order, 0, nd.start as int);
                let m1 = mass_in(bodies@, order, nd.start as int, nd.end as int);
                assert(pr.grav * (m0 + m1) == pr.grav * m0 + pr.grav * m1) by (nonlinear_arith);
                assert(0 <= pr.grav * m0 <= 0x400 * 0x4_0000_0000_0000) by (nonlinear_arith)
                    requires 1 <= pr.grav <= 0x400, 0 <= m0 <= 0x4_0000_0000_0000,
                ;
                assert(0 < pr.grav * m1 <= 0x400 * 0x4_0000_0000_0000) by (nonlinear_arith)
                    requires 1 <= pr.grav <= 0x400, 0 < m1 <= 0x4_0000_0000_0000,
                ;
                assert(0 <= pr.grav * (m0 + m1) <= 0x400 * 0x4_0000_0000_0000) by (nonlinear_arith)
                    requires 1 <= pr.grav <= 0x400, 0 <= m0 + m1 <= 0x4_0000_0000_0000,
                ;
                // the next frontier is this node's end
                if nd.skip < n {
                    assert(links_ok_at(nodes, nd.skip as int, n as int, 0, nb as int));
                    assert(nodes[nd.skip as int].start == nd.end);
                }
            }
            ax = ax + (qx as i64);
            ay = ay + (qy as i64);
            p = nd.skip;
        } else {
            proof {
                if p + 1 < n {
                    assert(links_ok_at(nodes, p as int + 1, n as int, 0, nb as int));
                }
                assert(p as int + 1 < nd.skip);
                assert(nodes[p as int + 1].start == nd.start);
            }
            p = p + 1;
        }
    }
    proof {
        assert((pr.grav as int) * MAX_TOTAL_MASS >= pr.grav * mass_in(bodies@, order, 0, front(nodes, nb as int, n as int))) by (nonlinear_arith)
            requires
                0 <= mass_in(bodies@, order, 0, front(nodes, nb as int, n as int)) <= MAX_TOTAL_MASS,
                1 <= pr.grav,
        ;
    }
    (ax, ay)
}

/// The `order` slot the traversal has fully consumed up to: the start of the
/// run of the node at `p`, or the whole body set once the walk is done.
pub open spec fn front(nodes: Seq<Node>, nb: int, p: int) -> int {
    if p < nodes.len() {
        nodes[p].start as int
    } else {
        nb
    }
}

/// Total mass of `bodies[lo..hi)` in the body sequence's own order.
pub open spec fn mass_total(bodies: Seq<Body>, lo: int, hi: int) -> int
    decreases hi - lo,
{
    if lo >= hi {
        0
    } else {
        bodies[lo].mass + mass_total(bodies, lo + 1, hi)
    }
}

pub proof fn lemma_mass_total_split(bodies: Seq<Body>, lo: int, mid: int, hi: int)
    requires
        lo <= mid <= hi,
    ensures
        mass_total(bodies, lo, hi) == mass_total(bodies, lo, mid) + mass_total(bodies, mid, hi),
    decreases mid - lo,
{
    if lo < mid {
        lemma_mass_total_split(bodies, lo + 1, mid, hi);
    }
}

pub proof fn lemma_mass_total_bounds(bodies: Seq<Body>, lo: int, hi: int)
    requires
        0 <= lo <= hi <= bodies.len(),
        all_valid(bodies),
    ensures
        hi - lo <= mass_total(bodies, lo, hi) <= (hi - lo) * MAX_MASS,
    decreases hi - lo,
{
    if lo < hi {
        lemma_mass_total_bounds(bodies, lo + 1, hi);
        assert(bodies[lo].valid());
    }
}

/// Sequences with pointwise equal masses have equal total mass.
pub proof fn lemma_mass_total_pointwise(b1: Seq<Body>, b2: Seq<Body>, lo: int, hi: int)
    requires
        forall|k: int| lo <= k < hi ==> b1[k].mass == (#[trigger] b2[k]).mass,
    ensures
        mass_total(b1, lo, hi) == mass_total(b2, lo, hi),
    decreases hi - lo,
{
    if lo < hi {
        lemma_mass_total_pointwise(b1, b2, lo + 1, hi);
    }
}

/// What the O(n^2) reference accumulates: the same softened pairwise law,
/// summed over every body but the one at `i` itself, in index order.
pub open spec fn direct_from(bodies: Seq<Body>, i: int, j: int, pr: Params) -> (int, int)
    decreases bodies.len() - j
        when 0 <= j <= bodies.len()
{
    if j >= bodies.len() {
        (0, 0)
    } else {
        let rest = direct_from(bodies, i, j + 1, pr);
        if j == i {
            rest
        } else {
            (contrib_x(bodies[i].pos_x as int, bodies[i].pos_y as int,
                bodies[j].pos_x as int, bodies[j].pos_y as int, bodies[j].mass as int, pr) + rest.0,
             contrib_y(bodies[i].pos_x as int, bodies[i].pos_y as int,
                bodies[j].pos_x as int, bodies[j].pos_y as int, bodies[j].mass as int, pr) + rest.1)
        }
    }
}

/// One softened pairwise contribution, computed exactly.
fn contribution(px: i64, py: i64, cx: i64, cy: i64, m: i64, pr: &Params) -> (c: (i64, i64))
    requires
        pr.valid(),
        -MAX_COORD <= px <= MAX_COORD,
        -MAX_COORD <= py <= MAX_COORD,
        -MAX_COORD <= cx <= MAX_COORD,
        -MAX_COORD <= cy <= MAX_COORD,
        0 < m <= MAX_TOTAL_MASS,
    ensures
        c.0 == contrib_x(px as int, py as int, cx as int, cy as int, m as int, *pr),
        c.1 == contrib_y(px as int, py as int, cx as int, cy as int, m as int, *pr),
        -(pr.grav * m) <= c.0 <= pr.grav * m,
        -(pr.grav * m) <= c.1 <= pr.grav * m,
{
    let dx = (cx as i128) - (px as i128);
    let dy = (cy as i128) - (py as i128);
    proof {
        assert(0 <= dx * dx <= 0x1_0000_0000_0000_0000) by (nonlinear_arith)
            requires -0x1_0000_0000 <= dx <= 0x1_0000_0000,
        ;
        assert(0 <= dy * dy <= 0x1_0000_0000_0000_0000) by (nonlinear_arith)
            requires -0x1_0000_0000 <= dy <= 0x1_0000_0000,
        ;
    }
    let eps = pr.eps as i128;
    proof {
        assert(1 <= eps * eps <= 0x100_0000_0000) by (nonlinear_arith)
            requires 1 <= eps <= 0x10_0000,
        ;
    }
    let d2 = dx * dx + dy * dy + eps * eps;
    let s = isqrt(d2);
    proof {
        assert(0 < (pr.grav as i128) * (m as i128) <= 0x1000_0000_0000_0000) by (nonlinear_arith)
            requires 0 < pr.grav <= 0x400, 0 < m <= 0x4_0000_0000_0000,
        ;
    }
    let gm = (pr.grav as i128) * (m as i128);
    proof {
        assert(s >= 1) by (nonlinear_arith)
            requires d2 >= 1, s >= 0, d2 < (s + 1) * (s + 1),
        ;
        assert(1 <= d2 * s <= 0x4_0000_0000_0000_0000 * 0x2_0000_0000) by (nonlinear_arith)
            requires 1 <= d2 <= 0x4_0000_0000_0000_0000, 1 <= s <= 0x2_0000_0000,
        ;
    }
    let denom = d2 * s;
    proof {
        lemma_contrib_bound(px as int, py as int, cx as int, cy as int, m as int, *pr);
        assert(-(gm * 0x1_0000_0000) <= gm * dx <= gm * 0x1_0000_0000) by (nonlinear_arith)
            requires 0 <= gm, -0x1_0000_0000 <= dx <= 0x1_0000_0000,
        ;
        assert(-(gm * 0x1_0000_0000) <= gm * dy <= gm * 0x1_0000_0000) by (nonlinear_arith)
            requires 0 <= gm, -0x1_0000_0000 <= dy <= 0x1_0000_0000,
        ;
        assert(gm * 0x1_0000_0000 <= 0x1000_0000_0000_0000 * 0x1_0000_0000) by (nonlinear_arith)
            requires 0 <= gm <= 0x1000_0000_0000_0000,
        ;
    }
    let qx = div_trunc(gm * dx, denom);
    let qy = div_trunc(gm * dy, denom);
    proof {
        assert(gm * dx == pr.grav * m * ((cx - px) as int)) by (nonlinear_arith)
            requires gm == pr.grav * m, dx == cx - px,
        ;
        assert(gm * dy == pr.grav * m * ((cy - py) as int)) by (nonlinear_arith)
            requires gm == pr.grav * m, dy == cy - py,
        ;
        assert(0 < pr.grav * m <= 0x400 * 0x4_0000_0000_0000) by (nonlinear_arith)
            requires 0 < pr.grav <= 0x400, 0 < m <= 0x4_0000_0000_0000,
        ;
    }
    ((qx as i64), (qy as i64))
}

/// The O(n^2) reference acceleration: sum the softened pairwise law over
/// every other body directly, with no approximation. The traversal's result
/// converges to this as `theta` shrinks, and equals it at `theta == 0` for
/// bodies at pairwise distinct positions.
pub fn direct_acceleration(bodies: &Vec<Body>, i: usize, pr: &Params) -> (a: (i64, i64))
    requires
        all_valid(bodies@),
        bodies@.len() <= MAX_BODIES,
        pr.valid(),
        i < bodies@.len(),
    ensures
        (a.0 as int, a.1 as int) == direct_from(bodies@, i as int, 0, *pr),
{
    let n = bodies.len();
    let px = bodies[i].pos_x;
    let py = bodies[i].pos_y;
    proof {
        assert(bodies@[i as int].valid());
    }
    let mut j: usize = 0;
    let mut ax: i64 = 0;
    let mut ay: i64 = 0;
    let ghost whole = direct_from(bodies@, i as int, 0, *pr);
    while j < n
        invariant
            all_valid(bodies@),
            pr.valid(),
            n == bodies@.len() <= MAX_BODIES,
            i < n,
            j <= n,
            px == bodies@[i as int].pos_x,
            py == bodies@[i as int].pos_y,
            whole == direct_from(bodies@, i as int, 0, *pr),
            whole.0 == ax + direct_from(bodies@, i as int, j as int, *pr).0,
            whole.1 == ay + direct_from(bodies@, i as int, j as int, *pr).1,
            -(pr.grav * mass_total(bodies@, 0, j as int)) <= ax <= pr.grav * mass_total(bodies@, 0, j as int),
            -(pr.grav * mass_total(bodies@, 0, j as int)) <= ay <= pr.grav * mass_total(bodies@, 0, j as int),
            0 <= mass_total(bodies@, 0, j as int) <= MAX_TOTAL_MASS,
        decreases n - j,
    {
        proof {
            lemma_mass_total_split(bodies@, 0, j as int, j + 1 as int);
            assert(mass_total(bodies@, j + 1 as int, j + 1 as int) == 0);
            lemma_mass_total_bounds(bodies@, 0, j + 1 as int);
            assert((j + 1 - 0) * MAX_MASS <= MAX_BODIES * MAX_MASS) by (nonlinear_arith)
                requires 0 <= j + 1 <= MAX_BODIES,
            ;
            assert(bodies@[j as int].valid());
        }
        if j != i {
            let b = bodies[j];
            let c = contribution(px, py, b.pos_x, b.pos_y, b.mass, pr);
            proof {
                let mj = bodies@[j as int].mass as int;
                let m0 = mass_total(bodies@, 0, j as int);
                assert(pr.grav * (m0 + mj) == pr.grav * m0 + pr.grav * mj) by (nonlinear_arith);
                assert(0 < pr.grav * mj <= 0x400 * 0x4_0000_0000_0000) by (nonlinear_arith)
                    requires 1 <= pr.grav <= 0x400, 0 < mj <= 0x4_0000_0000_0000,
                ;
                assert(0 <= pr.grav * (m0 + mj) <= 0x400 * 0x4_0000_0000_0000) by (nonlinear_arith)
                    requires 1 <= pr.grav <= 0x400, 0 <= m0 + mj <= 0x4_0000_0000_0000,
                ;
                assert(0 <= pr.grav * m0 <= 0x400 * 0x4_0000_0000_0000) by (nonlinear_arith)
                    requires 1 <= pr.grav <= 0x400, 0 <= m0 <= 0x4_0000_0000_0000,
                ;
            }
            ax = ax + c.0;
            ay = ay + c.1;
        } else {
            proof {
                assert(pr.grav * mass_total(bodies@, 0, j as int)
                    <= pr.grav * mass_total(bodies@, 0, j + 1 as int)) by (nonlinear_arith)
                    requires
                        1 <= pr.grav,
                        mass_total(bodies@, 0, j as int) <= mass_total(bodies@, 0, j + 1 as int),
                ;
            }
        }
        j = j + 1;
    }
    (ax, ay)
}

/// How one step changes one body: the acceleration the tree walk assigns to
/// its old position is stored, the velocity advances by `acc * dt`, then the
/// position by the new velocity times `dt` (semi-implicit Euler); mass,
/// radius and display attribute are untouched.
pub open spec fn stepped(b0: Body, b1: Body, nodes: Seq<Node>, pr: Params) -> bool {
    let acc = accel_from(nodes, 0, nodes.len() as int, b0.pos_x as int, b0.pos_y as int, pr);
    &&& b1.mass == b0.mass
    &&& b1.radius == b0.radius
    &&& b1.color == b0.color
    &&& b1.acc_x == acc.0
    &&& b1.acc_y == acc.1
    &&& b1.vel_x == b0.vel_x + trunc_div(acc.0 * pr.dt_num, pr.dt_den as int)
    &&& b1.vel_y == b0.vel_y + trunc_div(acc.1 * pr.dt_num, pr.dt_den as int)
    &&& b1.pos_x == b0.pos_x + trunc_div(b1.vel_x * pr.dt_num, pr.dt_den as int)
    &&& b1.pos_y == b0.pos_y + trunc_div(b1.vel_y * pr.dt_num, pr.dt_den as int)
}

/// The simulation: it owns the body sequence and the transient tree of the
/// latest step, and advances in discrete steps of the fixed `dt`.
pub struct Simulation {
    pub bodies: Vec<Body>,
    pub quadtree: Quadtree,
    pub params: Params,
}

impl Simulation {
    /// The precondition of a step: every body within the supported ranges.
    /// A step may drive a body out of them; the caller checks again before
    /// the next step, as the originator of the bodies must.
    pub open spec fn ok(self) -> bool {
        &&& all_valid(self.bodies@)
        &&& self.bodies@.len() <= MAX_BODIES
        &&& self.params.valid()
    }

    pub fn new(bodies: Vec<Body>, params: Params) -> (s: Simulation)
        ensures
            s.bodies == bodies,
            s.params == params,
            s.quadtree.nodes@.len() == 0,
            s.quadtree.order@.len() == 0,
    {
        Simulation { bodies, quadtree: Quadtree::empty(), params }
    }

    /// Whether a step may be taken: the runtime check of `ok`.
    pub fn ready(&self) -> (r: bool)
        ensures
            r == self.ok(),
    {
        if self.bodies.len() > MAX_BODIES {
            return false;
        }
        let pr = self.params;
        if !(0 <= pr.theta_num && pr.theta_num <= MAX_PARAM && 1 <= pr.theta_den && pr.theta_den <= MAX_PARAM
            && 1 <= pr.eps && pr.eps <= MAX_PARAM && 1 <= pr.grav && pr.grav <= MAX_GRAV
            && 1 <= pr.dt_num && pr.dt_num <= pr.dt_den && pr.dt_den <= MAX_PARAM) {
            return false;
        }
        let n = self.bodies.len();
        let mut i: usize = 0;
        while i < n
            invariant
                i <= n == self.bodies@.len(),
                forall|k: int| 0 <= k < i ==> (#[trigger] self.bodies@[k]).valid(),
            decreases n - i,
        {
            let b = self.bodies[i];
            if !(-MAX_COORD <= b.pos_x && b.pos_x <= MAX_COORD && -MAX_COORD <= b.pos_y && b.pos_y <= MAX_COORD
                && -MAX_VEL <= b.vel_x && b.vel_x <= MAX_VEL && -MAX_VEL <= b.vel_y && b.vel_y <= MAX_VEL
                && 0 < b.mass && b.mass <= MAX_MASS) {
                return false;
            }
            i = i + 1;
        }
        true
    }

    /// One full step: rebuild the tree from the current positions inside a
    /// fresh bounding square, accumulate every body's acceleration against
    /// the finished tree, then integrate. The tree that remains is the one
    /// this step's forces were computed from, built from the pre-step
    /// positions. The total mass is conserved exactly.
    pub fn step(&mut self)
        requires
            old(self).ok(),
        ensures
            final(self).params == old(self).params,
            final(self).bodies@.len() == old(self).bodies@.len(),
            old(self).bodies@.len() == 0 ==> final(self).quadtree.nodes@.len() == 0
                && final(self).quadtree.order@.len() == 0,
            old(self).bodies@.len() > 0 ==> final(self).quadtree.wf(old(self).bodies@),
            // the tree was built inside the exact root square of the
            // pre-step positions: anchored at their least coordinates, with
            // the least power-of-two side that covers both spans
            old(self).bodies@.len() > 0 ==> ({
                let sq = final(self).quadtree.nodes@[0].square;
                let n0 = old(self).bodies@.len() as int;
                &&& sq.x == least_x(old(self).bodies@, n0)
                &&& sq.y == least_y(old(self).bodies@, n0)
                &&& sq.side >= needed_side(old(self).bodies@)
                &&& (sq.side == 1 || sq.side / 2 < needed_side(old(self).bodies@))
            }),
            old(self).bodies@.len() > 0 ==> forall|i: int| 0 <= i < old(self).bodies@.len() ==> in_square(
                final(self).quadtree.nodes@[0].square,
                (#[trigger] old(self).bodies@[i]).pos_x as int,
                old(self).bodies@[i].pos_y as int,
            ),
            forall|i: int| 0 <= i < old(self).bodies@.len() ==> stepped(
                old(self).bodies@[i],
                #[trigger] final(self).bodies@[i],
                final(self).quadtree.nodes@,
                old(self).params,
            ),
            mass_total(final(self).bodies@, 0, final(self).bodies@.len() as int)
                == mass_total(old(self).bodies@, 0, old(self).bodies@.len() as int),
    {
        let n = self.bodies.len();
        if n == 0 {
            self.quadtree = Quadtree::empty();
            return;
        }
        let square = bounding_square(&self.bodies);
        let tree = Quadtree::build(&self.bodies, square);
        self.quadtree = tree;
        let ghost bodies0 = self.bodies@;
        let ghost nodes = self.quadtree.nodes@;
        let pr = self.params;
        let mut accs: Vec<(i64, i64)> = Vec::new();
        let mut i: usize = 0;
        while i < n
            invariant
                n == self.bodies@.len(),
                self.bodies@ == bodies0,
                nodes == self.quadtree.nodes@,
                self.quadtree.wf(bodies0),
                pr == self.params,
                pr.valid(),
                accs@.len() == i <= n,
                forall|k: int| 0 <= k < i ==> {
                    &&& ((#[trigger] accs@[k]).0 as int, accs@[k].1 as int) == accel_from(
                        nodes, 0, nodes.len() as int,
                        bodies0[k].pos_x as int, bodies0[k].pos_y as int, pr)
                    &&& -(pr.grav * MAX_TOTAL_MASS) <= accs@[k].0 <= pr.grav * MAX_TOTAL_MASS
                    &&& -(pr.grav * MAX_TOTAL_MASS) <= accs@[k].1 <= pr.grav * MAX_TOTAL_MASS
                },
            decreases n - i,
        {
            let a = acceleration(&self.quadtree, &self.bodies, i, &pr);
            accs.push(a);
            i = i + 1;
        }
        let mut i: usize = 0;
        while i < n
            invariant
                n == self.bodies@.len() == bodies0.len(),
                nodes == self.quadtree.nodes@,
                self.quadtree.wf(bodies0),
                pr == self.params,
                pr.valid(),
                all_valid(bodies0),
                accs@.len() == n,
                i <= n,
                forall|k: int| 0 <= k < n ==> {
                    &&& ((#[trigger] accs@[k]).0 as int, accs@[k].1 as int) == accel_from(
                        nodes, 0, nodes.len() as int,
                        bodies0[k].pos_x as int, bodies0[k].pos_y as int, pr)
                    &&& -(pr.grav * MAX_TOTAL_MASS) <= accs@[k].0 <= pr.grav * MAX_TOTAL_MASS
                    &&& -(pr.grav * MAX_TOTAL_MASS) <= accs@[k].1 <= pr.grav * MAX_TOTAL_MASS
                },
                forall|k: int| 0 <= k < i ==> stepped(bodies0[k], #[trigger] self.bodies@[k], nodes, pr),
                forall|k: int| i <= k < n ==> #[trigger] self.bodies@[k] == bodies0[k],
            decreases n - i,
        {
            let b = self.bodies[i];
            let (ax, ay) = accs[i];
            proof {
                assert(self.bodies@[i as int] == bodies0[i as int]);
                assert(bodies0[i as int].valid());
                assert(pr.grav * MAX_TOTAL_MASS <= 0x400 * 0x4_0000_0000_0000) by (nonlinear_arith)
                    requires 1 <= pr.grav <= 0x400,
                ;
            }
            let dtn = pr.dt_num as i128;
            let dtd = pr.dt_den as i128;
            proof {
                assert(-(0x4000_0000_0000_0000 * 0x10_0000) <= (ax as i128) * dtn
                    <= 0x4000_0000_0000_0000 * 0x10_0000) by (nonlinear_arith)
                    requires
                        -0x4000_0000_0000_0000 <= ax <= 0x4000_0000_0000_0000,
                        1 <= dtn <= 0x10_0000,
                ;
                assert(-(0x4000_0000_0000_0000 * 0x10_0000) <= (ay as i128) * dtn
                    <= 0x4000_0000_0000_0000 * 0x10_0000) by (nonlinear_arith)
                    requires
                        -0x4000_0000_0000_0000 <= ay <= 0x4000_0000_0000_0000,
                        1 <= dtn <= 0x10_0000,
                ;
                // one step's velocity change is bounded by the acceleration
                assert(-(0x4000_0000_0000_0000 * dtd) <= (ax as i128) * dtn
                    <= 0x4000_0000_0000_0000 * dtd) by (nonlinear_arith)
                    requires
                        -0x4000_0000_0000_0000 <= ax <= 0x4000_0000_0000_0000,
                        1 <= dtn <= dtd,
                ;
                assert(-(0x4000_0000_0000_0000 * dtd) <= (ay as i128) * dtn
                    <= 0x4000_0000_0000_0000 * dtd) by (nonlinear_arith)
                    requires
                        -0x4000_0000_0000_0000 <= ay <= 0x4000_0000_0000_0000,
                        1 <= dtn <= dtd,
                ;
            }
            let dvx = div_trunc((ax as i128) * dtn, dtd);
            let dvy = div_trunc((ay as i128) * dtn, dtd);
            proof {
                lemma_trunc_div_abs((ax as i128) * dtn, dtd as int, 0x4000_0000_0000_0000);
                lemma_trunc_div_abs((ay as i128) * dtn, dtd as int, 0x4000_0000_0000_0000);
            }
            let vx = (b.vel_x as i128) + dvx;
            let vy = (b.vel_y as i128) + dvy;
            proof {
                assert(-(0x4000_0100_0000_0000 * dtd) <= vx * dtn <= 0x4000_0100_0000_0000 * dtd) by (nonlinear_arith)
                    requires
                        -0x4000_0100_0000_0000 <= vx <= 0x4000_0100_0000_0000,
                        1 <= dtn <= dtd,
                ;
                assert(-(0x4000_0100_0000_0000 * dtd) <= vy * dtn <= 0x4000_0100_0000_0000 * dtd) by (nonlinear_arith)
                    requires
                        -0x4000_0100_0000_0000 <= vy <= 0x4000_0100_0000_0000,
                        1 <= dtn <= dtd,
                ;
                assert(-(0x4000_0100_0000_0000 * 0x10_0000) <= vx * dtn <= 0x4000_0100_0000_0000 * 0x10_0000) by (nonlinear_arith)
                    requires
                        -0x4000_0100_0000_0000 <= vx <= 0x4000_0100_0000_0000,
                        1 <= dtn <= 0x10_0000,
                ;
                assert(-(0x4000_0100_0000_0000 * 0x10_0000) <= vy * dtn <= 0x4000_0100_0000_0000 * 0x10_0000) by (nonlinear_arith)
                    requires
                        -0x4000_0100_0000_0000 <= vy <= 0x4000_0100_0000_0000,
                        1 <= dtn <= 0x10_0000,
                ;
            }
            let dpx = div_trunc(vx * dtn, dtd);
            let dpy = div_trunc(vy * dtn, dtd);
            proof {
                lemma_trunc_div_abs(vx * dtn, dtd as int, 0x4000_0100_0000_0000);
                lemma_trunc_div_abs(vy * dtn, dtd as int, 0x4000_0100_0000_0000);
            }
            let npx = (b.pos_x as i128) + dpx;
            let npy = (b.pos_y as i128) + dpy;
            let nb = Body {
                pos_x: npx as i64,
                pos_y: npy as i64,
                vel_x: vx as i64,
                vel_y: vy as i64,
                acc_x: ax,
                acc_y: ay,
                mass: b.mass,
                radius: b.radius,
                color: b.color,
            };
            self.bodies.set(i, nb);
            i = i + 1;
        }
        proof {
            lemma_mass_total_pointwise(self.bodies@, bodies0, 0, n as int);
        }
    }
}

/// Publish the committed snapshot, then drain the spawn queue into the
/// simulation so the spawned bodies join the very next step. The snapshot
/// pair is of one body generation: the body sequence of the latest step and
/// the node arena of the tree those bodies' accelerations came from. Bodies
/// spawned now are not yet in any tree, so they appear first in the next
/// snapshot, paired with the first tree that saw them.
pub fn render(simulation: &mut Simulation, spawn: &mut Vec<Body>, bodies_out: &mut Vec<Body>, nodes_out: &mut Vec<Node>)
    ensures
        final(simulation).bodies@ == old(simulation).bodies@ + old(spawn)@,
        final(simulation).quadtree == old(simulation).quadtree,
        final(simulation).params == old(simulation).params,
        final(spawn)@.len() == 0,
        final(bodies_out)@ == old(simulation).bodies@,
        final(nodes_out)@ == old(simulation).quadtree.nodes@,
{
    bodies_out.clear();
    let nb = simulation.bodies.len();
    let mut i: usize = 0;
    while i < nb
        invariant
            i <= nb == simulation.bodies@.len(),
            bodies_out@ == simulation.bodies@.subrange(0, i as int),
            simulation == old(simulation),
        decreases nb - i,
    {
        let b = simulation.bodies[i];
        bodies_out.push(b);
        proof {
            assert(bodies_out@ =~= simulation.bodies@.subrange(0, i + 1 as int));
        }
        i = i + 1;
    }
    proof {
        assert(simulation.bodies@.subrange(0, nb as int) =~= simulation.bodies@);
    }
    nodes_out.clear();
    let nn = simulation.quadtree.nodes.len();
    let mut i: usize = 0;
    while i < nn
        invariant
            i <= nn == simulation.quadtree.nodes@.len(),
            nodes_out@ == simulation.quadtree.nodes@.subrange(0, i as int),
            simulation == old(simulation),
            bodies_out@ == old(simulation).bodies@,
        decreases nn - i,
    {
        let nd = simulation.quadtree.nodes[i];
        nodes_out.push(nd);
        proof {
            assert(nodes_out@ =~= simulation.quadtree.nodes@.subrange(0, i + 1 as int));
        }
        i = i + 1;
    }
    proof {
        assert(simulation.quadtree.nodes@.subrange(0, nn as int) =~= simulation.quadtree.nodes@);
    }
    let ns = spawn.len();
    let mut i: usize = 0;
    while i < ns
        invariant
            i <= ns == spawn@.len(),
            spawn@ == old(spawn)@,
            simulation.bodies@ == old(simulation).bodies@ + spawn@.subrange(0, i as int),
            simulation.quadtree == old(simulation).quadtree,
            simulation.params == old(simulation).params,
            bodies_out@ == old(simulation).bodies@,
            nodes_out@ == old(simulation).quadtree.nodes@,
        decreases ns - i,
    {
        let b = spawn[i];
        simulation.bodies.push(b);
        proof {
            assert(simulation.bodies@ =~= old(simulation).bodies@ + spawn@.subrange(0, i + 1 as int));
        }
        i = i + 1;
    }
    proof {
        assert(spawn@.subrange(0, ns as int) =~= spawn@);
    }
    spawn.clear();
}

} // verus!
