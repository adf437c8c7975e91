use vstd::prelude::*;
use crate::body::{Body, all_valid};
use crate::math::{trunc_div, sqrt_floor, lemma_trunc_div_exact, lemma_trunc_div_neg, lemma_sqrt_floor};
use crate::quadtree::{
    Quadtree, Node, links_ok_at, payload_ok_at, mass_in, moment_x, moment_y,
    lemma_sums_split,
};
use crate::simulation::{Params, accel_from, contrib_x, contrib_y, direct_from, walk_ok, soft_d2};

verus! {

/// Sum of the total masses of the sibling subtrees headed at `c`, then at
/// each `skip` in turn, up to `stop`: the children of an internal node `p`
/// are enumerated this way from `p + 1` to `skip(p)`.
pub open spec fn children_mass(nodes: Seq<Node>, c: int, stop: int) -> int
    decreases stop - c
        when 0 <= c && stop <= nodes.len() && walk_ok(nodes)
{
    if c >= stop {
        0
    } else {
        let nxt = if nodes[c].skip as int > stop { stop } else { nodes[c].skip as int };
        nodes[c].total_mass + children_mass(nodes, nxt, stop)
    }
}

/// A well-formed tree's arena can be walked.
pub proof fn lemma_wf_walk_ok(t: Quadtree, bodies: Seq<Body>)
    requires
        t.wf(bodies),
        bodies.len() > 0,
    ensures
        walk_ok(t.nodes@),
{
    assert forall|p: int| 0 <= p < t.nodes@.len() implies
        p < (#[trigger] t.nodes@[p]).skip <= t.nodes@.len() by {
        assert(links_ok_at(t.nodes@, p, t.nodes@.len() as int, 0, bodies.len() as int));
    }
}

/// The chain of sibling subtrees from `c` up to `skip(p)` covers exactly the
/// rest of the run of the internal node `p`, so its masses sum to the mass
/// of that rest.
proof fn lemma_chain_mass(t: Quadtree, bodies: Seq<Body>, p: int, c: int)
    requires
        t.wf(bodies),
        bodies.len() > 0,
        0 <= p < t.nodes@.len(),
        !t.nodes@[p].leaf,
        p < c <= t.nodes@[p].skip,
    ensures
        children_mass(t.nodes@, c, t.nodes@[p].skip as int) == mass_in(
            bodies, t.order@,
            if c < t.nodes@[p].skip { t.nodes@[c].start as int } else { t.nodes@[p].end as int },
            t.nodes@[p].end as int,
        ),
        c < t.nodes@[p].skip ==> t.nodes@[c].start <= t.nodes@[p].end,
    decreases t.nodes@[p].skip - c,
{
    lemma_wf_walk_ok(t, bodies);
    let nodes = t.nodes@;
    let n = bodies.len() as int;
    let stop = nodes[p].skip as int;
    assert(links_ok_at(nodes, p, nodes.len() as int, 0, n));
    if c < stop {
        assert(links_ok_at(nodes, c, nodes.len() as int, 0, n));
        assert(payload_ok_at(nodes, bodies, t.order@, c));
        assert(nodes[c].skip <= nodes[p].skip);
        let nxt = nodes[c].skip as int;
        lemma_chain_mass(t, bodies, p, nxt);
        let e_c = nodes[c].end as int;
        let e_p = nodes[p].end as int;
        if nxt == stop {
            if stop < nodes.len() {
                assert(nodes[stop].start == nodes[c].end);
                assert(nodes[stop].start == nodes[p].end);
            } else {
                assert(nodes[c].end == n);
                assert(nodes[p].end == n);
            }
            assert(e_c == e_p);
        } else {
            assert(nodes[nxt].start == nodes[c].end);
            assert(nodes[nxt].start <= e_p);
        }
        lemma_sums_split(bodies, t.order@, nodes[c].start as int, e_c, e_p);
    }
}

/// Law (tree mass aggregation): the total mass of every internal node is
/// exactly the sum of the total masses of its children subtrees.
pub proof fn lemma_mass_aggregation(t: Quadtree, bodies: Seq<Body>, p: int)
    requires
        t.wf(bodies),
        bodies.len() > 0,
        0 <= p < t.nodes@.len(),
        !t.nodes@[p].leaf,
    ensures
        t.nodes@[p].total_mass == children_mass(t.nodes@, p + 1, t.nodes@[p].skip as int),
{
    let nodes = t.nodes@;
    let n = bodies.len() as int;
    assert(links_ok_at(nodes, p, nodes.len() as int, 0, n));
    assert(payload_ok_at(nodes, bodies, t.order@, p));
    lemma_chain_mass(t, bodies, p, p + 1);
    assert(nodes[p + 1].start == nodes[p].start);
}

/// Law (self-force exclusion): a single isolated body gets zero
/// acceleration from the tree walk — its own leaf is elided by the zero
/// numerator, not approximated.
pub proof fn lemma_isolated_body(t: Quadtree, bodies: Seq<Body>, pr: Params)
    requires
        t.wf(bodies),
        bodies.len() == 1,
        pr.valid(),
    ensures
        accel_from(t.nodes@, 0, t.nodes@.len() as int,
            bodies[0].pos_x as int, bodies[0].pos_y as int, pr) == (0int, 0int),
{
    lemma_wf_walk_ok(t, bodies);
    let nodes = t.nodes@;
    let order = t.order@;
    assert(links_ok_at(nodes, 0, nodes.len() as int, 0, 1));
    let root = nodes[0];
    assert(root.leaf);
    assert(nodes.len() == 1);
    assert(payload_ok_at(nodes, bodies, order, 0));
    assert(order[0] < 1);
    let b = bodies[0];
    assert(b.valid());
    assert(mass_in(bodies, order, 1, 1) == 0);
    assert(moment_x(bodies, order, 1, 1) == 0);
    assert(moment_y(bodies, order, 1, 1) == 0);
    assert(root.total_mass == b.mass);
    assert(moment_x(bodies, order, 0, 1) == b.mass * b.pos_x);
    assert(moment_y(bodies, order, 0, 1) == b.mass * b.pos_y);
    assert(b.mass * b.pos_x == b.pos_x * b.mass) by (nonlinear_arith);
    assert(b.mass * b.pos_y == b.pos_y * b.mass) by (nonlinear_arith);
    lemma_trunc_div_exact(b.pos_x as int, b.mass as int);
    lemma_trunc_div_exact(b.pos_y as int, b.mass as int);
    assert(root.com_x == b.pos_x);
    assert(root.com_y == b.pos_y);
    let px = b.pos_x as int;
    let py = b.pos_y as int;
    let d2 = soft_d2(0, 0, pr.eps as int);
    assert(d2 == pr.eps * pr.eps);
    assert(d2 >= 1) by (nonlinear_arith)
        requires d2 == pr.eps * pr.eps, 1 <= pr.eps,
    ;
    lemma_sqrt_floor(d2);
    let s = sqrt_floor(d2);
    assert(s >= 1) by (nonlinear_arith)
        requires d2 >= 1, s >= 0, d2 < (s + 1) * (s + 1),
    ;
    assert(d2 * s >= 1) by (nonlinear_arith)
        requires d2 >= 1, s >= 1,
    ;
    assert(pr.grav * root.total_mass * 0 == 0) by (nonlinear_arith);
    assert(trunc_div(0, d2 * s) == 0) by {
        vstd::arithmetic::div_mod::lemma_div_of0(d2 * s);
    }
    assert(contrib_x(px, py, root.com_x as int, root.com_y as int, root.total_mass as int, pr) == 0);
    assert(contrib_y(px, py, root.com_x as int, root.com_y as int, root.total_mass as int, pr) == 0);
    assert(accel_from(nodes, 1, 1, px, py, pr) == (0int, 0int));
}

/// Law (symmetry): two bodies of equal mass placed symmetrically about the
/// origin pull on each other with accelerations equal in magnitude and
/// opposite in direction — exactly, component by component, under the
/// pairwise law that the tree walk evaluates when nothing is approximated.
pub proof fn lemma_symmetric_pair(bodies: Seq<Body>, pr: Params)
    requires
        bodies.len() == 2,
        all_valid(bodies),
        pr.valid(),
        bodies[1].pos_x as int == -(bodies[0].pos_x as int),
        bodies[1].pos_y as int == -(bodies[0].pos_y as int),
        bodies[1].mass == bodies[0].mass,
    ensures
        direct_from(bodies, 0, 0, pr).0 == -direct_from(bodies, 1, 0, pr).0,
        direct_from(bodies, 0, 0, pr).1 == -direct_from(bodies, 1, 0, pr).1,
{
    let x0 = bodies[0].pos_x as int;
    let y0 = bodies[0].pos_y as int;
    let m = bodies[0].mass as int;
    let g = pr.grav as int;
    let dx0 = -x0 - x0;
    let dy0 = -y0 - y0;
    let dx1 = x0 - -x0;
    let dy1 = y0 - -y0;
    assert(dx1 == -dx0 && dy1 == -dy0);
    assert(dx0 * dx0 == dx1 * dx1) by (nonlinear_arith)
        requires dx1 == -dx0,
    ;
    assert(dy0 * dy0 == dy1 * dy1) by (nonlinear_arith)
        requires dy1 == -dy0,
    ;
    let d2 = soft_d2(dx0, dy0, pr.eps as int);
    assert(soft_d2(dx1, dy1, pr.eps as int) == d2);
    let den = d2 * sqrt_floor(d2);
    assert(d2 >= 1) by (nonlinear_arith)
        requires d2 == dx0 * dx0 + dy0 * dy0 + pr.eps * pr.eps, 1 <= pr.eps,
    ;
    lemma_sqrt_floor(d2);
    assert(sqrt_floor(d2) >= 1) by (nonlinear_arith)
        requires d2 >= 1, sqrt_floor(d2) >= 0, d2 < (sqrt_floor(d2) + 1) * (sqrt_floor(d2) + 1),
    ;
    assert(den >= 1) by (nonlinear_arith)
        requires d2 >= 1, sqrt_floor(d2) >= 1, den == d2 * sqrt_floor(d2),
    ;
    assert(g * m * dx1 == -(g * m * dx0)) by (nonlinear_arith)
        requires dx1 == -dx0,
    ;
    assert(g * m * dy1 == -(g * m * dy0)) by (nonlinear_arith)
        requires dy1 == -dy0,
    ;
    lemma_trunc_div_neg(g * m * dx0, den);
    lemma_trunc_div_neg(g * m * dy0, den);
    assert(contrib_x(x0, y0, -x0, -y0, m, pr) == trunc_div(g * m * dx0, den));
    assert(contrib_x(-x0, -y0, x0, y0, m, pr) == trunc_div(-(g * m * dx0), den));
    // unfold the two direct sums over the two-body sequence
    assert(direct_from(bodies, 0, 2, pr) == (0int, 0int));
    assert(direct_from(bodies, 1, 2, pr) == (0int, 0int));
    assert(direct_from(bodies, 1, 1, pr) == direct_from(bodies, 1, 2, pr));
    assert(direct_from(bodies, 0, 1, pr).0 == contrib_x(x0, y0, -x0, -y0, m, pr));
    assert(direct_from(bodies, 1, 0, pr).0 == contrib_x(-x0, -y0, x0, y0, m, pr));
    assert(direct_from(bodies, 0, 0, pr).0 == direct_from(bodies, 0, 1, pr).0);
    assert(direct_from(bodies, 0, 1, pr).1 == contrib_y(x0, y0, -x0, -y0, m, pr));
    assert(direct_from(bodies, 1, 0, pr).1 == contrib_y(-x0, -y0, x0, y0, m, pr));
    assert(contrib_y(x0, y0, -x0, -y0, m, pr) == trunc_div(g * m * dy0, den));
    assert(contrib_y(-x0, -y0, x0, y0, m, pr) == trunc_div(-(g * m * dy0), den));
}

/// All bodies sit at pairwise distinct positions.
pub open spec fn distinct_positions(bodies: Seq<Body>) -> bool {
    forall|k: int, l: int| 0 <= k < l < bodies.len() ==> {
        ||| (#[trigger] bodies[k]).pos_x != (#[trigger] bodies[l]).pos_x
        ||| bodies[k].pos_y != bodies[l].pos_y
    }
}

/// The exact pairwise sum over the bodies listed by `order[lo..hi)`, in that
/// order: what the tree walk computes when it prunes nothing.
pub open spec fn direct_over(bodies: Seq<Body>, order: Seq<usize>, lo: int, hi: int, px: int, py: int, pr: Params) -> (int, int)
    decreases hi - lo,
{
    if lo >= hi {
        (0, 0)
    } else {
        let b = bodies[order[lo] as int];
        let rest = direct_over(bodies, order, lo + 1, hi, px, py, pr);
        (contrib_x(px, py, b.pos_x as int, b.pos_y as int, b.mass as int, pr) + rest.0,
         contrib_y(px, py, b.pos_x as int, b.pos_y as int, b.mass as int, pr) + rest.1)
    }
}

/// The walk over `[p, stop)`, a suffix of a sibling chain whose runs end at
/// `e`, adds up exactly the pairwise contributions of its run when `theta`
/// is zero: nothing is ever far, every leaf is a single body.
proof fn lemma_walk_is_direct(t: Quadtree, bodies: Seq<Body>, p: int, stop: int, px: int, py: int, pr: Params)
    requires
        t.wf(bodies),
        bodies.len() > 0,
        distinct_positions(bodies),
        pr.valid(),
        pr.theta_num == 0,
        0 <= p <= stop <= t.nodes@.len(),
        forall|q: int| p <= q < stop ==> (#[trigger] t.nodes@[q]).skip <= stop,
    ensures
        ({
            let nodes = t.nodes@;
            let n = bodies.len() as int;
            let e = if stop < nodes.len() { nodes[stop].start as int } else { n };
            let f = if p < stop { nodes[p].start as int } else { e };
            f <= e && accel_from(nodes, p, stop, px, py, pr)
                == direct_over(bodies, t.order@, f, e, px, py, pr)
        }),
    decreases stop - p,
{
    lemma_wf_walk_ok(t, bodies);
    let nodes = t.nodes@;
    let order = t.order@;
    let n = bodies.len() as int;
    let e = if stop < nodes.len() { nodes[stop].start as int } else { n };
    if stop < nodes.len() {
        assert(links_ok_at(nodes, stop, nodes.len() as int, 0, n));
        assert(e <= n);
    }
    if p < stop {
        assert(links_ok_at(nodes, p, nodes.len() as int, 0, n));
        assert(payload_ok_at(nodes, bodies, order, p));
        let nd = nodes[p];
        let s = nd.start as int;
        let sk = nd.skip as int;
        // the end of this node's run meets the start of what follows
        if sk == stop {
            if stop < nodes.len() {
                assert(nodes[stop].start == nd.end);
            } else {
                assert(nd.end == n);
            }
        } else {
            assert(nodes[sk].start == nd.end);
        }
        if nd.leaf {
            // a leaf is a single body here: coincident distinct bodies would
            // contradict pairwise distinct positions
            if nd.end - nd.start >= 2 {
                assert(crate::quadtree::all_same_pos(bodies, order, s, nd.end as int));
                assert(order[s] != order[s + 1]);
                assert(bodies[order[s] as int].pos_x == bodies[order[s + 1] as int].pos_x);
                assert(bodies[order[s] as int].pos_y == bodies[order[s + 1] as int].pos_y);
                assert(false);
            }
            assert(nd.end == s + 1);
            let b = bodies[order[s] as int];
            assert(b.valid());
            // the leaf's aggregate is that body exactly
            assert(crate::quadtree::mass_in(bodies, order, s + 1, s + 1) == 0);
            assert(crate::quadtree::moment_x(bodies, order, s + 1, s + 1) == 0);
            assert(crate::quadtree::moment_y(bodies, order, s + 1, s + 1) == 0);
            assert(nd.total_mass == b.mass);
            assert(crate::quadtree::moment_x(bodies, order, s, s + 1) == b.mass * b.pos_x);
            assert(crate::quadtree::moment_y(bodies, order, s, s + 1) == b.mass * b.pos_y);
            assert(b.mass * b.pos_x == b.pos_x * b.mass) by (nonlinear_arith);
            assert(b.mass * b.pos_y == b.pos_y * b.mass) by (nonlinear_arith);
            lemma_trunc_div_exact(b.pos_x as int, b.mass as int);
            lemma_trunc_div_exact(b.pos_y as int, b.mass as int);
            assert(nd.com_x == b.pos_x);
            assert(nd.com_y == b.pos_y);
            lemma_walk_is_direct(t, bodies, sk, stop, px, py, pr);
            assert(direct_over(bodies, order, s + 1, e, px, py, pr)
                == accel_from(nodes, sk, stop, px, py, pr));
        } else {
            // theta == 0: an internal node is never far, the walk descends
            assert(!crate::simulation::far_enough(nd, px, py, pr)) by (nonlinear_arith)
                requires
                    pr.theta_num == 0,
                    crate::simulation::far_enough(nd, px, py, pr) == (
                        (nd.square.side * nd.square.side) * (pr.theta_den * pr.theta_den)
                            < (pr.theta_num * pr.theta_num)
                                * ((nd.com_x - px) * (nd.com_x - px) + (nd.com_y - py) * (nd.com_y - py))),
                    nd.square.side >= 1,
                    pr.theta_den >= 1,
            ;
            assert(p + 1 < sk);
            lemma_walk_is_direct(t, bodies, p + 1, stop, px, py, pr);
            assert(nodes[p + 1].start == nd.start);
        }
    }
}

/// Law (convergence): at `theta == 0` the tree walk prunes nothing and
/// returns exactly the sum of the softened pairwise contributions of every
/// body, enumerated in the tree's order of its leaves; the term of the query
/// body's own position is zero by the zero numerator. This is the exact
/// O(n^2) sum the approximation converges to as `theta` shrinks.
pub proof fn lemma_exact_at_theta_zero(t: Quadtree, bodies: Seq<Body>, px: int, py: int, pr: Params)
    requires
        t.wf(bodies),
        bodies.len() > 0,
        distinct_positions(bodies),
        pr.valid(),
        pr.theta_num == 0,
    ensures
        accel_from(t.nodes@, 0, t.nodes@.len() as int, px, py, pr)
            == direct_over(bodies, t.order@, 0, bodies.len() as int, px, py, pr),
{
    let nodes = t.nodes@;
    let n = bodies.len() as int;
    assert forall|q: int| 0 <= q < nodes.len() implies (#[trigger] nodes[q]).skip <= nodes.len() by {
        assert(links_ok_at(nodes, q, nodes.len() as int, 0, n));
    }
    lemma_walk_is_direct(t, bodies, 0, nodes.len() as int, px, py, pr);
}

/// A sequence of distinct values below `m` cannot be longer than `m`.
proof fn lemma_distinct_bounded_len(s: Seq<usize>, m: int)
    requires
        crate::partition::distinct(s),
        crate::partition::bounded_below(s, m),
        0 <= m,
    ensures
        s.len() <= m,
    decreases m,
{
    if s.len() > 0 {
        assert(s[0] < m);
        if exists|k: int| 0 <= k < s.len() && #[trigger] s[k] == m - 1 {
            let k = choose|k: int| 0 <= k < s.len() && #[trigger] s[k] == m - 1;
            let s2 = s.remove(k);
            assert forall|a: int, b: int| 0 <= a < b < s2.len() implies s2[a] != s2[b] by {
                assert(s2[a] == if a < k { s[a] } else { s[a + 1] });
                assert(s2[b] == if b < k { s[b] } else { s[b + 1] });
            }
            assert forall|a: int| 0 <= a < s2.len() implies s2[a] < m - 1 by {
                assert(s2[a] == if a < k { s[a] } else { s[a + 1] });
            }
            lemma_distinct_bounded_len(s2, m - 1);
        } else {
            assert forall|a: int| 0 <= a < s.len() implies s[a] < m - 1 by {
                assert(s[a] < m);
                assert(s[a] != m - 1);
            }
            lemma_distinct_bounded_len(s, m - 1);
        }
    }
}

/// A sequence of `n` distinct values below `n` attains every one of them.
proof fn lemma_perm_onto(s: Seq<usize>, n: int, v: int)
    requires
        crate::partition::distinct(s),
        crate::partition::bounded_below(s, n),
        s.len() == n,
        0 <= v < n,
    ensures
        exists|k: int| 0 <= k < s.len() && #[trigger] s[k] == v,
{
    if !(exists|k: int| 0 <= k < s.len() && #[trigger] s[k] == v) {
        let t = s.map_values(|x: usize| if x > v { (x - 1) as usize } else { x });
        assert forall|a: int, b: int| 0 <= a < b < t.len() implies t[a] != t[b] by {
            assert(s[a] != v && s[b] != v && s[a] != s[b]);
        }
        assert forall|a: int| 0 <= a < t.len() implies t[a] < n - 1 by {
            assert(s[a] != v && s[a] < n);
        }
        lemma_distinct_bounded_len(t, n - 1);
        assert(false);
    }
}

/// Segments that hold the same values slot by slot sum the same.
proof fn lemma_direct_over_congr(bodies: Seq<Body>, o1: Seq<usize>, o2: Seq<usize>, a: int, b: int, len: int, px: int, py: int, pr: Params)
    requires
        len >= 0,
        forall|d: int| 0 <= d < len ==> o1[a + d] == #[trigger] o2[b + d],
    ensures
        direct_over(bodies, o1, a, a + len, px, py, pr) == direct_over(bodies, o2, b, b + len, px, py, pr),
    decreases len,
{
    if len > 0 {
        assert(o1[a + 0] == o2[b + 0]);
        assert forall|d: int| 0 <= d < len - 1 implies o1[a + 1 + d] == #[trigger] o2[b + 1 + d] by {
            assert(o1[a + (d + 1)] == o2[b + (d + 1)]);
        }
        lemma_direct_over_congr(bodies, o1, o2, a + 1, b + 1, len - 1, px, py, pr);
    }
}

/// Dropping one slot drops exactly its contribution.
proof fn lemma_direct_over_remove(bodies: Seq<Body>, o: Seq<usize>, lo: int, hi: int, j: int, px: int, py: int, pr: Params)
    requires
        0 <= lo <= j < hi <= o.len(),
    ensures
        ({
            let b = bodies[o[j] as int];
            let rest = direct_over(bodies, o.remove(j), lo, hi - 1, px, py, pr);
            direct_over(bodies, o, lo, hi, px, py, pr) == (
                contrib_x(px, py, b.pos_x as int, b.pos_y as int, b.mass as int, pr) + rest.0,
                contrib_y(px, py, b.pos_x as int, b.pos_y as int, b.mass as int, pr) + rest.1,
            )
        }),
    decreases j - lo,
{
    let o2 = o.remove(j);
    if j == lo {
        assert forall|d: int| 0 <= d < hi - 1 - lo implies o[lo + 1 + d] == #[trigger] o2[lo + d] by {}
        lemma_direct_over_congr(bodies, o, o2, lo + 1, lo, hi - 1 - lo, px, py, pr);
    } else {
        lemma_direct_over_remove(bodies, o, lo + 1, hi, j, px, py, pr);
        assert(o2[lo] == o[lo]);
    }
}

/// Two distinct-valued sequences of equal length holding the same values
/// sum the same contributions, in whatever order they list them.
proof fn lemma_direct_over_perm(bodies: Seq<Body>, o1: Seq<usize>, o2: Seq<usize>, px: int, py: int, pr: Params)
    requires
        o1.len() == o2.len(),
        crate::partition::distinct(o1),
        crate::partition::distinct(o2),
        forall|k: int| 0 <= k < o1.len() ==> exists|l: int| 0 <= l < o2.len() && #[trigger] o2[l] == #[trigger] o1[k],
    ensures
        direct_over(bodies, o1, 0, o1.len() as int, px, py, pr)
            == direct_over(bodies, o2, 0, o2.len() as int, px, py, pr),
    decreases o1.len(),
{
    let n = o1.len() as int;
    if n > 0 {
        let v = o1[n - 1];
        let l = choose|l: int| 0 <= l < o2.len() && #[trigger] o2[l] == v;
        let r1 = o1.remove(n - 1);
        let r2 = o2.remove(l);
        lemma_direct_over_remove(bodies, o1, 0, n, n - 1, px, py, pr);
        lemma_direct_over_remove(bodies, o2, 0, n, l, px, py, pr);
        assert forall|a: int, b: int| 0 <= a < b < r1.len() implies r1[a] != r1[b] by {
            assert(r1[a] == o1[a] && r1[b] == o1[b]);
        }
        assert forall|a: int, b: int| 0 <= a < b < r2.len() implies r2[a] != r2[b] by {
            assert(r2[a] == if a < l { o2[a] } else { o2[a + 1] });
            assert(r2[b] == if b < l { o2[b] } else { o2[b + 1] });
        }
        assert forall|k: int| 0 <= k < r1.len() implies
            exists|m2: int| 0 <= m2 < r2.len() && #[trigger] r2[m2] == #[trigger] r1[k] by {
            assert(r1[k] == o1[k]);
            assert(o1[k] != v);
            let l2 = choose|l2: int| 0 <= l2 < o2.len() && #[trigger] o2[l2] == o1[k];
            assert(l2 != l);
            if l2 < l {
                assert(r2[l2] == o2[l2]);
            } else {
                assert(r2[l2 - 1] == o2[l2]);
            }
        }
        lemma_direct_over_perm(bodies, r1, r2, px, py, pr);
    }
}

/// Law (convergence, completed): at `theta == 0` the tree walk for body `i`
/// equals the plain O(n^2) pairwise sum over the bodies in index order.
pub proof fn lemma_theta_zero_is_direct(t: Quadtree, bodies: Seq<Body>, i: int, pr: Params)
    requires
        t.wf(bodies),
        bodies.len() > 0,
        distinct_positions(bodies),
        pr.valid(),
        pr.theta_num == 0,
        0 <= i < bodies.len(),
    ensures
        accel_from(t.nodes@, 0, t.nodes@.len() as int,
            bodies[i].pos_x as int, bodies[i].pos_y as int, pr)
            == direct_from(bodies, i, 0, pr),
{
    let n = bodies.len() as int;
    let px = bodies[i].pos_x as int;
    let py = bodies[i].pos_y as int;
    lemma_exact_at_theta_zero(t, bodies, px, py, pr);
    let ident = Seq::new(n as nat, |k: int| k as usize);
    assert forall|a: int, b: int| 0 <= a < b < ident.len() implies ident[a] != ident[b] by {}
    assert forall|k: int| 0 <= k < t.order@.len() implies
        exists|l: int| 0 <= l < ident.len() && #[trigger] ident[l] == #[trigger] t.order@[k] by {
        assert(ident[t.order@[k] as int] == t.order@[k]);
    }
    lemma_direct_over_perm(bodies, t.order@, ident, px, py, pr);
    lemma_ident_is_direct(bodies, ident, i, 0, pr);
}

/// The identity enumeration gives the index-order sum: the term at the
/// query body's own index vanishes by its zero numerator.
proof fn lemma_ident_is_direct(bodies: Seq<Body>, ident: Seq<usize>, i: int, j: int, pr: Params)
    requires
        pr.valid(),
        all_valid(bodies),
        bodies.len() <= 0x10_0000,
        0 <= i < bodies.len(),
        0 <= j <= bodies.len(),
        ident == Seq::new(bodies.len(), |k: int| k as usize),
    ensures
        direct_over(bodies, ident, j, bodies.len() as int,
            bodies[i].pos_x as int, bodies[i].pos_y as int, pr) == direct_from(bodies, i, j, pr),
    decreases bodies.len() - j,
{
    let n = bodies.len() as int;
    if j < n {
        lemma_ident_is_direct(bodies, ident, i, j + 1, pr);
        assert(ident[j] == Seq::new(bodies.len(), |k: int| k as usize)[j]);
        assert(ident[j] == j);
        if j == i {
            let b = bodies[i];
            assert(b.valid());
            let d2 = soft_d2(0, 0, pr.eps as int);
            assert(d2 >= 1) by (nonlinear_arith)
                requires d2 == 0 * 0 + 0 * 0 + pr.eps * pr.eps, 1 <= pr.eps,
            ;
            lemma_sqrt_floor(d2);
            let s = sqrt_floor(d2);
            assert(s >= 1) by (nonlinear_arith)
                requires d2 >= 1, s >= 0, d2 < (s + 1) * (s + 1),
            ;
            assert(d2 * s >= 1) by (nonlinear_arith)
                requires d2 >= 1, s >= 1,
            ;
            assert(pr.grav * b.mass * 0 == 0) by (nonlinear_arith);
            assert(trunc_div(0, d2 * s) == 0) by {
                vstd::arithmetic::div_mod::lemma_div_of0(d2 * s);
            }
            assert(contrib_x(b.pos_x as int, b.pos_y as int, b.pos_x as int, b.pos_y as int, b.mass as int, pr) == 0);
            assert(contrib_y(b.pos_x as int, b.pos_y as int, b.pos_x as int, b.pos_y as int, b.mass as int, pr) == 0);
        }
    }
}

/// Law (symmetry, at the tree): with the opening angle at zero — exact,
/// leaf-only evaluation — the tree walk itself gives the two symmetric
/// bodies exactly opposite accelerations.
pub proof fn lemma_symmetric_pair_tree(t: Quadtree, bodies: Seq<Body>, pr: Params)
    requires
        t.wf(bodies),
        bodies.len() == 2,
        pr.valid(),
        pr.theta_num == 0,
        bodies[1].pos_x as int == -(bodies[0].pos_x as int),
        bodies[1].pos_y as int == -(bodies[0].pos_y as int),
        bodies[1].mass == bodies[0].mass,
        bodies[0].pos_x != 0 || bodies[0].pos_y != 0,
    ensures
        accel_from(t.nodes@, 0, t.nodes@.len() as int,
            bodies[0].pos_x as int, bodies[0].pos_y as int, pr).0
            == -accel_from(t.nodes@, 0, t.nodes@.len() as int,
                bodies[1].pos_x as int, bodies[1].pos_y as int, pr).0,
        accel_from(t.nodes@, 0, t.nodes@.len() as int,
            bodies[0].pos_x as int, bodies[0].pos_y as int, pr).1
            == -accel_from(t.nodes@, 0, t.nodes@.len() as int,
                bodies[1].pos_x as int, bodies[1].pos_y as int, pr).1,
{
    assert(distinct_positions(bodies)) by {
        assert(bodies[0].pos_x != bodies[1].pos_x || bodies[0].pos_y != bodies[1].pos_y);
    }
    lemma_theta_zero_is_direct(t, bodies, 0, pr);
    lemma_theta_zero_is_direct(t, bodies, 1, pr);
    lemma_symmetric_pair(bodies, pr);
}

} // verus!
