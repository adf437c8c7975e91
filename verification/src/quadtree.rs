use vstd::prelude::*;
use crate::body::{Body, all_valid, MAX_COORD, MAX_MASS, MAX_BODIES, MAX_TOTAL_MASS};
use crate::math::{trunc_div, div_trunc, lemma_trunc_div_abs};
use crate::partition::{
    quadrant, bounded_below, distinct, same_outside, values_from,
    lemma_values_from_refl, lemma_values_from_trans, lemma_values_from_widen,
    partition_quadrants,
};

verus! {

/// Largest side the root bounding square may need: it must cover a span of
/// `2 * MAX_COORD` rounded up to a power of two.
pub const MAX_SIDE: i64 = 0x2_0000_0000;

/// Axis-aligned square `[x, x+side) x [y, y+side)` with a power-of-two side,
/// so that its quadrants tile it exactly.
#[derive(Clone, Copy, PartialEq, Eq, Structural, Debug)]
pub struct Square {
    pub x: i64,
    pub y: i64,
    pub side: i64,
}

pub open spec fn is_pow2(n: int) -> bool
    decreases n,
{
    if n <= 0 {
        false
    } else if n == 1 {
        true
    } else {
        n % 2 == 0 && is_pow2(n / 2)
    }
}

pub open spec fn in_square(s: Square, px: int, py: int) -> bool {
    &&& s.x <= px < s.x + s.side
    &&& s.y <= py < s.y + s.side
}

pub open spec fn square_ok(s: Square) -> bool {
    &&& is_pow2(s.side as int)
    &&& 1 <= s.side <= MAX_SIDE
    &&& -MAX_COORD <= s.x
    &&& s.x + s.side <= MAX_COORD + MAX_SIDE
    &&& -MAX_COORD <= s.y
    &&& s.y + s.side <= MAX_COORD + MAX_SIDE
}

/// Runtime check of `in_square`, for callers outside the proof.
pub fn in_square_at(s: &Square, px: i64, py: i64) -> (r: bool)
    ensures
        r == in_square(*s, px as int, py as int),
{
    (s.x as i128) <= (px as i128) && (px as i128) < (s.x as i128) + (s.side as i128)
        && (s.y as i128) <= (py as i128) && (py as i128) < (s.y as i128) + (s.side as i128)
}

/// One node of the arena. The subtree of a node occupies the arena slots
/// `[p, skip)`; jumping to `skip` prunes it during traversal. `start..end`
/// is the run of `order` slots holding the indices of the bodies of the
/// subtree.
#[derive(Clone, Copy, PartialEq, Eq, Structural, Debug)]
pub struct Node {
    pub square: Square,
    pub com_x: i64,
    pub com_y: i64,
    pub total_mass: i64,
    pub start: usize,
    pub end: usize,
    pub skip: usize,
    pub leaf: bool,
}

/// Sum of the masses of the bodies listed by `order[lo..hi)`.
pub open spec fn mass_in(bodies: Seq<Body>, order: Seq<usize>, lo: int, hi: int) -> int
    decreases hi - lo,
{
    if lo >= hi {
        0
    } else {
        bodies[order[lo] as int].mass + mass_in(bodies, order, lo + 1, hi)
    }
}

/// Mass-weighted sum of the x coordinates of the same bodies.
pub open spec fn moment_x(bodies: Seq<Body>, order: Seq<usize>, lo: int, hi: int) -> int
    decreases hi - lo,
{
    if lo >= hi {
        0
    } else {
        bodies[order[lo] as int].mass * bodies[order[lo] as int].pos_x
            + moment_x(bodies, order, lo + 1, hi)
    }
}

/// Mass-weighted sum of the y coordinates of the same bodies.
pub open spec fn moment_y(bodies: Seq<Body>, order: Seq<usize>, lo: int, hi: int) -> int
    decreases hi - lo,
{
    if lo >= hi {
        0
    } else {
        bodies[order[lo] as int].mass * bodies[order[lo] as int].pos_y
            + moment_y(bodies, order, lo + 1, hi)
    }
}

/// All bodies listed by `order[lo..hi)` share one position.
pub open spec fn all_same_pos(bodies: Seq<Body>, order: Seq<usize>, lo: int, hi: int) -> bool {
    forall|k: int| lo <= k < hi ==> {
        &&& bodies[#[trigger] order[k] as int].pos_x == bodies[order[lo] as int].pos_x
        &&& bodies[order[k] as int].pos_y == bodies[order[lo] as int].pos_y
    }
}

pub proof fn lemma_sums_split(bodies: Seq<Body>, order: Seq<usize>, lo: int, mid: int, hi: int)
    requires
        lo <= mid <= hi,
    ensures
        mass_in(bodies, order, lo, hi) == mass_in(bodies, order, lo, mid) + mass_in(bodies, order, mid, hi),
        moment_x(bodies, order, lo, hi) == moment_x(bodies, order, lo, mid) + moment_x(bodies, order, mid, hi),
        moment_y(bodies, order, lo, hi) == moment_y(bodies, order, lo, mid) + moment_y(bodies, order, mid, hi),
    decreases mid - lo,
{
    if lo < mid {
        lemma_sums_split(bodies, order, lo + 1, mid, hi);
    }
}

/// The sums read only `order[lo..hi)`: equal slots there give equal sums.
pub proof fn lemma_sums_frame(bodies: Seq<Body>, o1: Seq<usize>, o2: Seq<usize>, lo: int, hi: int)
    requires
        forall|k: int| lo <= k < hi ==> o1[k] == #[trigger] o2[k],
    ensures
        mass_in(bodies, o1, lo, hi) == mass_in(bodies, o2, lo, hi),
        moment_x(bodies, o1, lo, hi) == moment_x(bodies, o2, lo, hi),
        moment_y(bodies, o1, lo, hi) == moment_y(bodies, o2, lo, hi),
    decreases hi - lo,
{
    if lo < hi {
        lemma_sums_frame(bodies, o1, o2, lo + 1, hi);
    }
}

/// With valid bodies the mass of a run is positive and bounded, and the
/// moments are bounded by `mass * MAX_COORD`.
pub proof fn lemma_sums_bounds(bodies: Seq<Body>, order: Seq<usize>, lo: int, hi: int)
    requires
        0 <= lo <= hi <= order.len(),
        bounded_below(order, bodies.len() as int),
        all_valid(bodies),
    ensures
        hi - lo <= mass_in(bodies, order, lo, hi) <= (hi - lo) * MAX_MASS,
        -(mass_in(bodies, order, lo, hi) * MAX_COORD) <= moment_x(bodies, order, lo, hi)
            <= mass_in(bodies, order, lo, hi) * MAX_COORD,
        -(mass_in(bodies, order, lo, hi) * MAX_COORD) <= moment_y(bodies, order, lo, hi)
            <= mass_in(bodies, order, lo, hi) * MAX_COORD,
    decreases hi - lo,
{
    if lo < hi {
        lemma_sums_bounds(bodies, order, lo + 1, hi);
        let b = bodies[order[lo] as int];
        assert(b.valid());
        assert(-(b.mass * MAX_COORD) <= b.mass * b.pos_x <= b.mass * MAX_COORD) by (nonlinear_arith)
            requires 0 < b.mass, -MAX_COORD <= b.pos_x <= MAX_COORD,
        ;
        assert(-(b.mass * MAX_COORD) <= b.mass * b.pos_y <= b.mass * MAX_COORD) by (nonlinear_arith)
            requires 0 < b.mass, -MAX_COORD <= b.pos_y <= MAX_COORD,
        ;
    }
}

/// Structural facts of the node at `p`, within an arena region ending at
/// `r1` whose bodies occupy `order[lo..hi)`: ranges nest, `skip` makes
/// progress, and consecutive subtrees tile the run.
pub open spec fn links_ok_at(nodes: Seq<Node>, p: int, r1: int, lo: int, hi: int) -> bool {
    let nd = nodes[p];
    &&& lo <= nd.start < nd.end <= hi
    &&& p < nd.skip <= r1
    &&& (nd.leaf <==> nd.skip == p + 1)
    &&& (!nd.leaf ==> nd.end - nd.start >= 2)
    &&& (nd.skip < r1 ==> nodes[nd.skip as int].start == nd.end)
    &&& (nd.skip == r1 ==> nd.end == hi)
    &&& (p + 1 < nd.skip ==> nodes[p + 1].start == nd.start)
}

pub open spec fn region_links_ok(nodes: Seq<Node>, r0: int, r1: int, lo: int, hi: int) -> bool {
    forall|p: int| r0 <= p < r1 ==> #[trigger] links_ok_at(nodes, p, r1, lo, hi)
}

/// Subtrees nest: a node inside the subtree of `p` never skips past the end
/// of that subtree.
pub open spec fn nesting_ok(nodes: Seq<Node>, r0: int, r1: int) -> bool {
    forall|p: int, q: int|
        r0 <= p < r1 && p < q && q < (#[trigger] nodes[p]).skip ==>
            (#[trigger] nodes[q]).skip <= nodes[p].skip
}

/// Mass-weighted sum of the centers of mass of the sibling subtrees headed
/// at `c`, then at each `skip` in turn, up to `stop`: the x moment an
/// internal node's center of mass is aggregated from, bottom-up.
pub open spec fn chain_moment_x(nodes: Seq<Node>, c: int, stop: int) -> int
    decreases stop - c
        when 0 <= c <= stop <= nodes.len()
            && forall|q: int| c <= q < stop ==> q < (#[trigger] nodes[q]).skip
{
    if c >= stop {
        0
    } else {
        let nxt = if nodes[c].skip as int > stop { stop } else { nodes[c].skip as int };
        nodes[c].total_mass * nodes[c].com_x + chain_moment_x(nodes, nxt, stop)
    }
}

/// The y moment of the same chain.
pub open spec fn chain_moment_y(nodes: Seq<Node>, c: int, stop: int) -> int
    decreases stop - c
        when 0 <= c <= stop <= nodes.len()
            && forall|q: int| c <= q < stop ==> q < (#[trigger] nodes[q]).skip
{
    if c >= stop {
        0
    } else {
        let nxt = if nodes[c].skip as int > stop { stop } else { nodes[c].skip as int };
        nodes[c].total_mass * nodes[c].com_y + chain_moment_y(nodes, nxt, stop)
    }
}

/// The chain moments read only the slots `[c, stop)`.
pub proof fn lemma_chain_frame(n1: Seq<Node>, n2: Seq<Node>, c: int, stop: int)
    requires
        0 <= c <= stop <= n1.len(),
        stop <= n2.len(),
        forall|q: int| c <= q < stop ==> n1[q] == #[trigger] n2[q],
        forall|q: int| c <= q < stop ==> q < (#[trigger] n1[q]).skip,
    ensures
        chain_moment_x(n1, c, stop) == chain_moment_x(n2, c, stop),
        chain_moment_y(n1, c, stop) == chain_moment_y(n2, c, stop),
    decreases stop - c,
{
    if c < stop {
        let nxt = if n1[c].skip as int > stop { stop } else { n1[c].skip as int };
        lemma_chain_frame(n1, n2, nxt, stop);
    }
}

/// Appending one more subtree, headed at `mid` and ending at `stop`, to a
/// chain that ends at `mid` appends exactly its aggregate to the moments.
pub proof fn lemma_chain_extend(nodes: Seq<Node>, c: int, mid: int, stop: int)
    requires
        0 <= c <= mid < stop <= nodes.len(),
        forall|q: int| c <= q < mid ==> q < (#[trigger] nodes[q]).skip <= mid,
        nodes[mid].skip == stop,
        forall|q: int| mid < q < stop ==> q < (#[trigger] nodes[q]).skip,
    ensures
        chain_moment_x(nodes, c, stop) == chain_moment_x(nodes, c, mid)
            + nodes[mid].total_mass * nodes[mid].com_x,
        chain_moment_y(nodes, c, stop) == chain_moment_y(nodes, c, mid)
            + nodes[mid].total_mass * nodes[mid].com_y,
    decreases mid - c,
{
    if c == mid {
        assert(chain_moment_x(nodes, stop, stop) == 0);
        assert(chain_moment_y(nodes, stop, stop) == 0);
    } else {
        let nxt = nodes[c].skip as int;
        lemma_chain_extend(nodes, nxt, mid, stop);
    }
}

/// Aggregate facts of the node at `p`: its mass is the mass of its run, its
/// center of mass is bounded (and exact for a leaf), its bodies lie in its
/// square, and a leaf holds one body or only coincident ones.
pub open spec fn payload_ok_at(nodes: Seq<Node>, bodies: Seq<Body>, order: Seq<usize>, p: int) -> bool {
    let nd = nodes[p];
    let s = nd.start as int;
    let e = nd.end as int;
    &&& nd.total_mass == mass_in(bodies, order, s, e)
    &&& 0 < nd.total_mass <= MAX_TOTAL_MASS
    &&& -MAX_COORD <= nd.com_x <= MAX_COORD
    &&& -MAX_COORD <= nd.com_y <= MAX_COORD
    &&& square_ok(nd.square)
    &&& forall|k: int| s <= k < e ==> in_square(
            nd.square,
            bodies[#[trigger] order[k] as int].pos_x as int,
            bodies[order[k] as int].pos_y as int,
        )
    &&& (nd.leaf ==> e - s == 1 || all_same_pos(bodies, order, s, e))
    &&& (nd.leaf ==> {
        &&& nd.com_x == trunc_div(moment_x(bodies, order, s, e), nd.total_mass as int)
        &&& nd.com_y == trunc_div(moment_y(bodies, order, s, e), nd.total_mass as int)
    })
    &&& (!nd.leaf ==> {
        &&& nd.com_x == trunc_div(chain_moment_x(nodes, p + 1, nd.skip as int), nd.total_mass as int)
        &&& nd.com_y == trunc_div(chain_moment_y(nodes, p + 1, nd.skip as int), nd.total_mass as int)
    })
}

pub open spec fn region_payload_ok(nodes: Seq<Node>, bodies: Seq<Body>, order: Seq<usize>, r0: int, r1: int) -> bool {
    forall|p: int| r0 <= p < r1 ==> #[trigger] payload_ok_at(nodes, bodies, order, p)
}

/// The quadtree: a flat arena of nodes in depth-first order plus the
/// reordered sequence of body indices the nodes' runs point into. It is
/// rebuilt from scratch every step.
pub struct Quadtree {
    pub nodes: Vec<Node>,
    pub order: Vec<usize>,
}

impl Quadtree {
    /// Well-formedness with respect to the body sequence the tree was built
    /// from: only positions and masses of `bodies` matter here.
    pub open spec fn wf(self, bodies: Seq<Body>) -> bool {
        &&& self.order@.len() == bodies.len()
        &&& bodies.len() <= MAX_BODIES
        &&& all_valid(bodies)
        &&& bounded_below(self.order@, bodies.len() as int)
        &&& distinct(self.order@)
        &&& (bodies.len() == 0 ==> self.nodes@.len() == 0)
        &&& (bodies.len() > 0 ==> {
            &&& self.nodes@.len() >= 1
            &&& self.nodes@[0].start == 0
            &&& self.nodes@[0].end == bodies.len()
            &&& self.nodes@[0].skip == self.nodes@.len()
            &&& region_links_ok(self.nodes@, 0, self.nodes@.len() as int, 0, bodies.len() as int)
            &&& nesting_ok(self.nodes@, 0, self.nodes@.len() as int)
            &&& region_payload_ok(self.nodes@, bodies, self.order@, 0, self.nodes@.len() as int)
        })
    }

    pub fn empty() -> (t: Quadtree)
        ensures
            t.nodes@.len() == 0,
            t.order@.len() == 0,
    {
        Quadtree { nodes: Vec::new(), order: Vec::new() }
    }

    /// Build the tree for `bodies`, all of which must lie in `square`.
    pub fn build(bodies: &Vec<Body>, square: Square) -> (t: Quadtree)
        requires
            all_valid(bodies@),
            bodies@.len() <= MAX_BODIES,
            square_ok(square),
            forall|i: int| 0 <= i < bodies@.len() ==> in_square(
                square,
                (#[trigger] bodies@[i]).pos_x as int,
                bodies@[i].pos_y as int,
            ),
        ensures
            t.wf(bodies@),
            bodies@.len() > 0 ==> t.nodes@[0].square == square,
    {
        let n = bodies.len();
        let mut order: Vec<usize> = Vec::new();
        let mut i: usize = 0;
        while i < n
            invariant
                i <= n == bodies.len(),
                order@.len() == i,
                forall|k: int| 0 <= k < i ==> #[trigger] order@[k] == k,
            decreases n - i,
        {
            order.push(i);
            i = i + 1;
        }
        let mut nodes: Vec<Node> = Vec::new();
        if n == 0 {
            return Quadtree { nodes, order };
        }
        assert forall|k: int| 0 <= k < n implies in_square(
            square,
            bodies@[#[trigger] order@[k] as int].pos_x as int,
            bodies@[order@[k] as int].pos_y as int,
        ) by {
            assert(order@[k] == k);
        }
        build_node(bodies, &mut order, &mut nodes, 0, n, square);
        Quadtree { nodes, order }
    }
}

/// Least x coordinate among `bodies[0..k)`.
pub open spec fn least_x(bodies: Seq<Body>, k: int) -> int
    decreases k,
{
    if k <= 1 {
        bodies[0].pos_x as int
    } else {
        let m = least_x(bodies, k - 1);
        if bodies[k - 1].pos_x < m {
            bodies[k - 1].pos_x as int
        } else {
            m
        }
    }
}

/// Greatest x coordinate among `bodies[0..k)`.
pub open spec fn greatest_x(bodies: Seq<Body>, k: int) -> int
    decreases k,
{
    if k <= 1 {
        bodies[0].pos_x as int
    } else {
        let m = greatest_x(bodies, k - 1);
        if bodies[k - 1].pos_x > m {
            bodies[k - 1].pos_x as int
        } else {
            m
        }
    }
}

/// Least y coordinate among `bodies[0..k)`.
pub open spec fn least_y(bodies: Seq<Body>, k: int) -> int
    decreases k,
{
    if k <= 1 {
        bodies[0].pos_y as int
    } else {
        let m = least_y(bodies, k - 1);
        if bodies[k - 1].pos_y < m {
            bodies[k - 1].pos_y as int
        } else {
            m
        }
    }
}

/// Greatest y coordinate among `bodies[0..k)`.
pub open spec fn greatest_y(bodies: Seq<Body>, k: int) -> int
    decreases k,
{
    if k <= 1 {
        bodies[0].pos_y as int
    } else {
        let m = greatest_y(bodies, k - 1);
        if bodies[k - 1].pos_y > m {
            bodies[k - 1].pos_y as int
        } else {
            m
        }
    }
}

/// The side the root square must cover: the larger span plus one, so every
/// body is strictly inside the half-open square.
pub open spec fn needed_side(bodies: Seq<Body>) -> int {
    let n = bodies.len() as int;
    let sx = greatest_x(bodies, n) - least_x(bodies, n);
    let sy = greatest_y(bodies, n) - least_y(bodies, n);
    if sx > sy {
        sx + 1
    } else {
        sy + 1
    }
}

/// The root bounding square for a step, pinned exactly: anchored at the
/// least coordinates of the body set, with the least power-of-two side that
/// covers both spans. Every body lies inside it, and equal body sets give
/// the identical square.
pub fn bounding_square(bodies: &Vec<Body>) -> (sq: Square)
    requires
        all_valid(bodies@),
        bodies@.len() >= 1,
    ensures
        square_ok(sq),
        forall|i: int| 0 <= i < bodies@.len() ==> in_square(
            sq,
            (#[trigger] bodies@[i]).pos_x as int,
            bodies@[i].pos_y as int,
        ),
        sq.x == least_x(bodies@, bodies@.len() as int),
        sq.y == least_y(bodies@, bodies@.len() as int),
        sq.side >= needed_side(bodies@),
        sq.side == 1 || sq.side / 2 < needed_side(bodies@),
{
    let n = bodies.len();
    let b0 = bodies[0];
    let mut min_x = b0.pos_x;
    let mut max_x = b0.pos_x;
    let mut min_y = b0.pos_y;
    let mut max_y = b0.pos_y;
    let mut i: usize = 1;
    while i < n
        invariant
            1 <= i <= n == bodies@.len(),
            all_valid(bodies@),
            -MAX_COORD <= min_x <= max_x <= MAX_COORD,
            -MAX_COORD <= min_y <= max_y <= MAX_COORD,
            min_x == least_x(bodies@, i as int),
            max_x == greatest_x(bodies@, i as int),
            min_y == least_y(bodies@, i as int),
            max_y == greatest_y(bodies@, i as int),
            forall|k: int| 0 <= k < i ==> {
                &&& min_x <= (#[trigger] bodies@[k]).pos_x <= max_x
                &&& min_y <= bodies@[k].pos_y <= max_y
            },
        decreases n - i,
    {
        let b = bodies[i];
        assert(b.valid());
        if b.pos_x < min_x {
            min_x = b.pos_x;
        }
        if b.pos_x > max_x {
            max_x = b.pos_x;
        }
        if b.pos_y < min_y {
            min_y = b.pos_y;
        }
        if b.pos_y > max_y {
            max_y = b.pos_y;
        }
        i = i + 1;
    }
    let span_x = max_x - min_x;
    let span_y = max_y - min_y;
    let need = if span_x > span_y {
        span_x + 1
    } else {
        span_y + 1
    };
    let mut side: i64 = 1;
    while side < need
        invariant
            is_pow2(side as int),
            1 <= side,
            need <= 2 * MAX_COORD + 1,
            side <= MAX_SIDE,
            side < need ==> side < MAX_SIDE,
            side == 1 || side / 2 < need,
        decreases MAX_SIDE - side,
    {
        assert(2 * side <= MAX_SIDE);
        side = side * 2;
    }
    assert(need == needed_side(bodies@));
    Square { x: min_x, y: min_y, side }
}

/// Append the subtree for the bodies listed by `order[lo..hi)`, all inside
/// `square`, to the arena: the node built first covers the whole run and its
/// `skip` is the arena length when the call returns.
fn build_node(bodies: &Vec<Body>, order: &mut Vec<usize>, nodes: &mut Vec<Node>, lo: usize, hi: usize, square: Square)
    requires
        all_valid(bodies@),
        bodies@.len() <= MAX_BODIES,
        lo < hi <= old(order)@.len() <= bodies@.len(),
        bounded_below(old(order)@, bodies@.len() as int),
        distinct(old(order)@),
        square_ok(square),
        forall|k: int| lo <= k < hi ==> in_square(
            square,
            bodies@[#[trigger] old(order)@[k] as int].pos_x as int,
            bodies@[old(order)@[k] as int].pos_y as int,
        ),
    ensures
        final(order)@.len() == old(order)@.len(),
        same_outside(old(order)@, final(order)@, lo as int, hi as int),
        values_from(old(order)@, final(order)@, lo as int, hi as int),
        bounded_below(final(order)@, bodies@.len() as int),
        distinct(final(order)@),
        final(nodes)@.len() > old(nodes)@.len(),
        forall|p: int| 0 <= p < old(nodes)@.len() ==> #[trigger] final(nodes)@[p] == old(nodes)@[p],
        final(nodes)@[old(nodes)@.len() as int].start == lo,
        final(nodes)@[old(nodes)@.len() as int].end == hi,
        final(nodes)@[old(nodes)@.len() as int].skip == final(nodes)@.len(),
        final(nodes)@[old(nodes)@.len() as int].square == square,
        region_links_ok(final(nodes)@, old(nodes)@.len() as int, final(nodes)@.len() as int, lo as int, hi as int),
        nesting_ok(final(nodes)@, old(nodes)@.len() as int, final(nodes)@.len() as int),
        region_payload_ok(final(nodes)@, bodies@, final(order)@, old(nodes)@.len() as int, final(nodes)@.len() as int),
    decreases square.side,
{
    let ghost r0 = nodes@.len() as int;
    // Are all bodies of the run coincident?
    let first = bodies[order[lo]];
    let mut same = true;
    let mut k = lo + 1;
    while k < hi
        invariant
            lo < hi <= order@.len() <= bodies@.len(),
            lo + 1 <= k <= hi,
            bounded_below(order@, bodies@.len() as int),
            same <==> all_same_pos(bodies@, order@, lo as int, k as int),
            first == bodies@[order@[lo as int] as int],
        decreases hi - k,
    {
        let b = bodies[order[k]];
        if b.pos_x != first.pos_x || b.pos_y != first.pos_y {
            same = false;
        }
        k = k + 1;
    }
    if hi - lo == 1 || same {
        // A leaf: one body, or only coincident bodies. Its mass is the mass
        // of the run; its center of mass the mass-weighted mean position.
        let mut m: i64 = 0;
        let mut mx: i128 = 0;
        let mut my: i128 = 0;
        let mut k = lo;
        while k < hi
            invariant
                lo <= k <= hi <= order@.len() <= bodies@.len(),
                bodies@.len() <= MAX_BODIES,
                all_valid(bodies@),
                bounded_below(order@, bodies@.len() as int),
                m == mass_in(bodies@, order@, lo as int, k as int),
                mx == moment_x(bodies@, order@, lo as int, k as int),
                my == moment_y(bodies@, order@, lo as int, k as int),
                k - lo <= m <= (k - lo) * MAX_MASS,
                -(m * MAX_COORD) <= mx <= m * MAX_COORD,
                -(m * MAX_COORD) <= my <= m * MAX_COORD,
            decreases hi - k,
        {
            let idx = order[k];
            let b = bodies[idx];
            assert(b.valid());
            proof {
                lemma_sums_split(bodies@, order@, lo as int, k as int, k + 1 as int);
                assert(mass_in(bodies@, order@, k as int + 1, k as int + 1) == 0);
                assert(moment_x(bodies@, order@, k as int + 1, k as int + 1) == 0);
                assert(moment_y(bodies@, order@, k as int + 1, k as int + 1) == 0);
                assert(mass_in(bodies@, order@, k as int, k + 1) == b.mass);
                assert(moment_x(bodies@, order@, k as int, k + 1) == b.mass * b.pos_x);
                assert(moment_y(bodies@, order@, k as int, k + 1) == b.mass * b.pos_y);
                assert(-(b.mass * MAX_COORD) <= b.mass * b.pos_x <= b.mass * MAX_COORD) by (nonlinear_arith)
                    requires 0 < b.mass, -MAX_COORD <= b.pos_x <= MAX_COORD,
                ;
                assert(-(b.mass * MAX_COORD) <= b.mass * b.pos_y <= b.mass * MAX_COORD) by (nonlinear_arith)
                    requires 0 < b.mass, -MAX_COORD <= b.pos_y <= MAX_COORD,
                ;
            }
            proof {
                assert((k + 1 - lo) * MAX_MASS <= MAX_BODIES * MAX_MASS) by (nonlinear_arith)
                    requires 0 <= k + 1 - lo <= MAX_BODIES,
                ;
            }
            m = m + b.mass;
            mx = mx + (b.mass as i128) * (b.pos_x as i128);
            my = my + (b.mass as i128) * (b.pos_y as i128);
            k = k + 1;
        }
        proof {
            assert((hi - lo) * MAX_MASS <= MAX_BODIES * MAX_MASS) by (nonlinear_arith)
                requires 0 <= hi - lo <= MAX_BODIES,
            ;
        }
        assert(0 < m <= MAX_TOTAL_MASS);
        let cx = div_trunc(mx, m as i128);
        let cy = div_trunc(my, m as i128);
        proof {
            lemma_trunc_div_abs(mx as int, m as int, MAX_COORD as int);
            lemma_trunc_div_abs(my as int, m as int, MAX_COORD as int);
        }
        let at = nodes.len();
        nodes.push(Node {
            square,
            com_x: 0,
            com_y: 0,
            total_mass: m,
            start: lo,
            end: hi,
            skip: 0,
            leaf: true,
        });
        let ln = nodes.len();
        nodes.set(at, Node {
            square,
            com_x: cx as i64,
            com_y: cy as i64,
            total_mass: m,
            start: lo,
            end: hi,
            skip: ln,
            leaf: true,
        });
        proof {
            lemma_values_from_refl(order@, lo as int, hi as int);
            assert forall|p: int| r0 <= p < nodes@.len() implies
                #[trigger] links_ok_at(nodes@, p, nodes@.len() as int, lo as int, hi as int) by {
                assert(p == r0);
            }
            assert forall|p: int| r0 <= p < nodes@.len() implies
                #[trigger] payload_ok_at(nodes@, bodies@, order@, p) by {
                assert(p == r0);
            }
        }
    } else {
        // An internal node: split the run by quadrant and recurse into the
        // non-empty quadrants; aggregate mass and center of mass bottom-up
        // from the children, as the mass-weighted mean of their centers.
        proof {
            // A one-point square would force coincidence, so the side halves
            // exactly.
            if square.side < 2 {
                assert(all_same_pos(bodies@, order@, lo as int, hi as int)) by {
                    assert forall|k: int| lo <= k < hi implies {
                        &&& bodies@[#[trigger] order@[k] as int].pos_x == bodies@[order@[lo as int] as int].pos_x
                        &&& bodies@[order@[k] as int].pos_y == bodies@[order@[lo as int] as int].pos_y
                    } by {
                        assert(in_square(square, bodies@[order@[k] as int].pos_x as int, bodies@[order@[k] as int].pos_y as int));
                        assert(in_square(square, bodies@[order@[lo as int] as int].pos_x as int, bodies@[order@[lo as int] as int].pos_y as int));
                    }
                }
            }
            assert(square.side >= 2);
        }
        let half = ((square.side as u64) / 2) as i64;
        proof {
            assert(square.side % 2 == 0);
            assert(half + half == square.side);
            assert(is_pow2(half as int));
        }
        let cx = square.x + half;
        let cy = square.y + half;
        let ghost o_in = order@;
        let (b1, b2, b3) = partition_quadrants(order, bodies, lo, hi, cx, cy);
        let ghost o_p = order@;
        proof {
            // Containment carries over the rearrangement.
            assert forall|k: int| lo <= k < hi implies in_square(
                square,
                bodies@[#[trigger] order@[k] as int].pos_x as int,
                bodies@[order@[k] as int].pos_y as int,
            ) by {
                let l = choose|l: int| lo <= l < hi && #[trigger] o_in[l] == order@[k];
            }
        }
        let parent = nodes.len();
        nodes.push(Node {
            square,
            com_x: 0,
            com_y: 0,
            total_mass: 1,
            start: lo,
            end: hi,
            skip: 0,
            leaf: true,
        });
        let mut m: i64 = 0;
        let mut mx: i128 = 0;
        let mut my: i128 = 0;
        let mut q: usize = 0;
        let ghost mut fr: int = lo as int;
        while q < 4
            invariant
                all_valid(bodies@),
                bodies@.len() <= MAX_BODIES,
                lo < hi <= order@.len() <= bodies@.len(),
                lo <= b1 <= b2 <= b3 <= hi,
                q <= 4,
                square_ok(square),
                square.side >= 2,
                half == square.side / 2,
                half + half == square.side,
                is_pow2(half as int),
                1 <= half,
                cx == square.x + half,
                cy == square.y + half,
                fr == (if q == 0 { lo as int } else if q == 1 { b1 as int }
                    else if q == 2 { b2 as int } else if q == 3 { b3 as int } else { hi as int }),
                lo as int <= fr <= hi as int,
                order@.len() == o_p.len() == old(order)@.len(),
                bounded_below(order@, bodies@.len() as int),
                distinct(order@),
                same_outside(old(order)@, order@, lo as int, hi as int),
                values_from(old(order)@, order@, lo as int, hi as int),
                forall|k: int| fr <= k < hi ==> #[trigger] order@[k] == o_p[k],
                forall|k: int| lo <= k < b1 ==> quadrant(bodies@[#[trigger] o_p[k] as int], cx as int, cy as int) == 0,
                forall|k: int| b1 <= k < b2 ==> quadrant(bodies@[#[trigger] o_p[k] as int], cx as int, cy as int) == 1,
                forall|k: int| b2 <= k < b3 ==> quadrant(bodies@[#[trigger] o_p[k] as int], cx as int, cy as int) == 2,
                forall|k: int| b3 <= k < hi ==> quadrant(bodies@[#[trigger] o_p[k] as int], cx as int, cy as int) == 3,
                forall|k: int| lo <= k < hi ==> in_square(
                    square,
                    bodies@[#[trigger] o_p[k] as int].pos_x as int,
                    bodies@[o_p[k] as int].pos_y as int,
                ),
                nodes@.len() >= parent + 1,
                parent as int == r0,
                r0 == old(nodes)@.len(),
                forall|p: int| 0 <= p < r0 ==> #[trigger] nodes@[p] == old(nodes)@[p],
                nodes@.len() > parent + 1 ==> nodes@[parent as int + 1].start == lo,
                nodes@.len() == parent + 1 ==> fr == lo as int,
                region_links_ok(nodes@, r0 + 1, nodes@.len() as int, lo as int, fr),
                nesting_ok(nodes@, r0 + 1, nodes@.len() as int),
                region_payload_ok(nodes@, bodies@, order@, r0 + 1, nodes@.len() as int),
                m == mass_in(bodies@, order@, lo as int, fr),
                mx == chain_moment_x(nodes@, r0 + 1, nodes@.len() as int),
                my == chain_moment_y(nodes@, r0 + 1, nodes@.len() as int),
                0 <= m <= MAX_TOTAL_MASS,
                -(m * MAX_COORD) <= mx <= m * MAX_COORD,
                -(m * MAX_COORD) <= my <= m * MAX_COORD,
            decreases 4 - q,
        {
            let (qlo, qhi) = match q {
                0 => (lo, b1),
                1 => (b1, b2),
                2 => (b2, b3),
                _ => (b3, hi),
            };
            assert(qlo as int == fr);
            if qlo < qhi {
                let (dxo, dyo) = match q {
                    0 => (0i64, 0i64),
                    1 => (half, 0i64),
                    2 => (0i64, half),
                    _ => (half, half),
                };
                let child_sq = Square { x: square.x + dxo, y: square.y + dyo, side: half };
                proof {
                    assert(square_ok(child_sq));
                    assert forall|k: int| qlo <= k < qhi implies in_square(
                        child_sq,
                        bodies@[#[trigger] order@[k] as int].pos_x as int,
                        bodies@[order@[k] as int].pos_y as int,
                    ) by {
                        assert(order@[k] == o_p[k]);
                        assert(quadrant(bodies@[o_p[k] as int], cx as int, cy as int) == q as int);
                        assert(in_square(square, bodies@[o_p[k] as int].pos_x as int, bodies@[o_p[k] as int].pos_y as int));
                    }
                }
                let ghost o_before = order@;
                let ghost nodes_before = nodes@;
                let ghost r_before = nodes@.len() as int;
                let head = nodes.len();
                build_node(bodies, order, nodes, qlo, qhi, child_sq);
                let child = nodes[head];
                let ghost r_after = nodes@.len() as int;
                proof {
                    // The child's run keeps its mass under the new order.
                    assert(payload_ok_at(nodes@, bodies@, order@, r_before));
                    assert(child.total_mass == mass_in(bodies@, order@, qlo as int, qhi as int));
                    lemma_sums_frame(bodies@, o_before, order@, lo as int, qlo as int);
                    lemma_sums_split(bodies@, order@, lo as int, qlo as int, qhi as int);
                    lemma_sums_bounds(bodies@, order@, lo as int, qhi as int);
                    assert((qhi - lo) * MAX_MASS <= MAX_BODIES * MAX_MASS) by (nonlinear_arith)
                        requires 0 <= qhi - lo <= MAX_BODIES,
                    ;
                }
                m = m + child.total_mass;
                proof {
                    assert(-(child.total_mass * MAX_COORD) <= child.total_mass * child.com_x
                        <= child.total_mass * MAX_COORD) by (nonlinear_arith)
                        requires
                            0 < child.total_mass,
                            -MAX_COORD <= child.com_x <= MAX_COORD,
                    ;
                    assert(-(child.total_mass * MAX_COORD) <= child.total_mass * child.com_y
                        <= child.total_mass * MAX_COORD) by (nonlinear_arith)
                        requires
                            0 < child.total_mass,
                            -MAX_COORD <= child.com_y <= MAX_COORD,
                    ;
                }
                mx = mx + (child.total_mass as i128) * (child.com_x as i128);
                my = my + (child.total_mass as i128) * (child.com_y as i128);
                proof {
                    // Order bookkeeping across the child build.
                    lemma_values_from_widen(o_before, order@, qlo as int, qhi as int, lo as int, hi as int);
                    lemma_values_from_trans(old(order)@, o_before, order@, lo as int, hi as int);
                    assert forall|k: int| qhi <= k < hi implies #[trigger] order@[k] == o_p[k] by {
                        assert(order@[k] == o_before[k]);
                    }
                    // The assembled regions: earlier children plus the new one.
                    assert forall|p: int| r0 + 1 <= p < r_after implies
                        #[trigger] links_ok_at(nodes@, p, r_after, lo as int, qhi as int) by {
                        if p < r_before {
                            assert(links_ok_at(nodes_before, p, r_before, lo as int, qlo as int));
                            assert(nodes@[p] == nodes_before[p]);
                            let sk = nodes@[p].skip as int;
                            if sk < r_before {
                                assert(nodes@[sk] == nodes_before[sk]);
                            } else {
                                assert(sk == r_before);
                                assert(nodes@[sk].start == qlo);
                            }
                            if p + 1 < nodes@[p].skip {
                                assert(nodes@[p + 1] == nodes_before[p + 1]);
                            }
                        } else {
                            assert(links_ok_at(nodes@, p, r_after, qlo as int, qhi as int));
                        }
                    }
                    assert forall|p: int, q: int|
                        r0 + 1 <= p < r_after && p < q && q < (#[trigger] nodes@[p]).skip implies
                        (#[trigger] nodes@[q]).skip <= nodes@[p].skip by {
                        if p < r_before {
                            assert(links_ok_at(nodes_before, p, r_before, lo as int, qlo as int));
                            assert(nodes@[p] == nodes_before[p]);
                            assert(q < r_before);
                            assert(nodes@[q] == nodes_before[q]);
                        }
                    }
                    assert forall|q2: int| r0 + 1 <= q2 < r_before implies
                        q2 < (#[trigger] nodes_before[q2]).skip <= r_before by {
                        assert(links_ok_at(nodes_before, q2, r_before, lo as int, qlo as int));
                    }
                    assert forall|q2: int| r0 + 1 <= q2 < r_before implies
                        nodes_before[q2] == #[trigger] nodes@[q2] by {}
                    assert forall|p: int| r0 + 1 <= p < r_after implies
                        #[trigger] payload_ok_at(nodes@, bodies@, order@, p) by {
                        if p < r_before {
                            assert(payload_ok_at(nodes_before, bodies@, o_before, p));
                            assert(links_ok_at(nodes_before, p, r_before, lo as int, qlo as int));
                            assert(nodes@[p] == nodes_before[p]);
                            let s = nodes@[p].start as int;
                            let e = nodes@[p].end as int;
                            assert(e <= qlo);
                            assert forall|k: int| s <= k < e implies o_before[k] == #[trigger] order@[k] by {
                                assert(!(qlo as int <= k < qhi as int));
                            }
                            lemma_sums_frame(bodies@, o_before, order@, s, e);
                            if !nodes@[p].leaf {
                                let skp = nodes_before[p].skip as int;
                                assert forall|q2: int| p + 1 <= q2 < skp implies
                                    q2 < (#[trigger] nodes_before[q2]).skip by {
                                    assert(links_ok_at(nodes_before, q2, r_before, lo as int, qlo as int));
                                }
                                lemma_chain_frame(nodes_before, nodes@, p + 1, skp);
                            }
                        } else {
                            assert(payload_ok_at(nodes@, bodies@, order@, p));
                        }
                    }
                    // the chain of children grows by exactly the new head
                    lemma_chain_frame(nodes_before, nodes@, r0 + 1, r_before);
                    assert forall|q2: int| r_before < q2 < r_after implies
                        q2 < (#[trigger] nodes@[q2]).skip by {
                        assert(links_ok_at(nodes@, q2, r_after, qlo as int, qhi as int));
                    }
                    assert(nodes@[r_before].skip == r_after);
                    assert forall|q2: int| r0 + 1 <= q2 < r_before implies
                        q2 < (#[trigger] nodes@[q2]).skip <= r_before by {
                        assert(nodes@[q2] == nodes_before[q2]);
                    }
                    lemma_chain_extend(nodes@, r0 + 1, r_before, r_after);
                    assert(nodes@[r_before] == child);
                    if r_before == r0 + 1 {
                        assert(nodes@[r0 + 1].start == qlo == lo);
                    } else {
                        assert(nodes@[r0 + 1] == nodes_before[r0 + 1]);
                    }
                    fr = qhi as int;
                }
            } else {
                proof {
                    fr = qhi as int;
                }
            }
            q = q + 1;
        }
        let total = nodes.len();
        proof {
            assert(total > parent + 1);
            lemma_sums_bounds(bodies@, order@, lo as int, hi as int);
        }
        assert(1 <= m);
        let ccx = div_trunc(mx, m as i128);
        let ccy = div_trunc(my, m as i128);
        proof {
            lemma_trunc_div_abs(mx as int, m as int, MAX_COORD as int);
            lemma_trunc_div_abs(my as int, m as int, MAX_COORD as int);
        }
        let ghost nodes_pre = nodes@;
        nodes.set(parent, Node {
            square,
            com_x: ccx as i64,
            com_y: ccy as i64,
            total_mass: m,
            start: lo,
            end: hi,
            skip: total,
            leaf: false,
        });
        proof {
            assert forall|p: int| r0 <= p < total implies
                #[trigger] links_ok_at(nodes@, p, total as int, lo as int, hi as int) by {
                if p == r0 {
                    assert(nodes@[r0 + 1].start == lo);
                } else {
                    assert(links_ok_at(nodes_pre, p, total as int, lo as int, hi as int));
                    assert(nodes@[p] == nodes_pre[p]);
                    let sk = nodes@[p].skip as int;
                    if sk < total {
                        assert(nodes@[sk] == nodes_pre[sk]);
                    }
                    if p + 1 < nodes@[p].skip {
                        assert(nodes@[p + 1] == nodes_pre[p + 1]);
                    }
                }
            }
            assert forall|p: int, q: int|
                r0 <= p < total && p < q && q < (#[trigger] nodes@[p]).skip implies
                (#[trigger] nodes@[q]).skip <= nodes@[p].skip by {
                if p > r0 {
                    assert(nodes@[p] == nodes_pre[p]);
                    assert(links_ok_at(nodes_pre, p, total as int, lo as int, hi as int));
                }
                assert(q < total);
                assert(nodes@[q] == nodes_pre[q]);
                assert(links_ok_at(nodes_pre, q, total as int, lo as int, hi as int));
            }
            assert forall|q2: int| r0 + 1 <= q2 < total implies
                q2 < (#[trigger] nodes_pre[q2]).skip <= total by {
                assert(links_ok_at(nodes_pre, q2, total as int, lo as int, hi as int));
            }
            assert forall|q2: int| r0 + 1 <= q2 < total implies
                nodes_pre[q2] == #[trigger] nodes@[q2] by {}
            assert forall|p: int| r0 <= p < total implies
                #[trigger] payload_ok_at(nodes@, bodies@, order@, p) by {
                if p == r0 {
                    assert forall|k: int| lo <= k < hi implies in_square(
                        nodes@[p].square,
                        bodies@[#[trigger] order@[k] as int].pos_x as int,
                        bodies@[order@[k] as int].pos_y as int,
                    ) by {
                        let l = choose|l: int| lo <= l < hi && #[trigger] old(order)@[l] == order@[k];
                    }
                    lemma_chain_frame(nodes_pre, nodes@, r0 + 1, total as int);
                } else {
                    assert(payload_ok_at(nodes_pre, bodies@, order@, p));
                    assert(nodes@[p] == nodes_pre[p]);
                    if !nodes@[p].leaf {
                        let skp = nodes_pre[p].skip as int;
                        lemma_chain_frame(nodes_pre, nodes@, p + 1, skp);
                    }
                }
            }
        }
    }
}

} // verus!
