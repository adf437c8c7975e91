use vstd::prelude::*;
use crate::body::Body;

verus! {

/// Which quadrant of the square centered at `(cx, cy)` a body falls in:
/// 0 = low-y/low-x, 1 = low-y/high-x, 2 = high-y/low-x, 3 = high-y/high-x.
/// A body exactly on a splitting axis goes to the high side, so the
/// assignment is deterministic.
pub open spec fn quadrant(b: Body, cx: int, cy: int) -> int {
    (if b.pos_y >= cy { 2int } else { 0int }) + (if b.pos_x >= cx { 1int } else { 0int })
}

/// Every slot holds an index below `n`.
pub open spec fn bounded_below(s: Seq<usize>, n: int) -> bool {
    forall|k: int| 0 <= k < s.len() ==> s[k] < n
}

/// No index occurs twice.
pub open spec fn distinct(s: Seq<usize>) -> bool {
    forall|k: int, l: int| 0 <= k < l < s.len() ==> s[k] != s[l]
}

/// Positions outside `[lo, hi)` are untouched.
pub open spec fn same_outside(s1: Seq<usize>, s2: Seq<usize>, lo: int, hi: int) -> bool {
    &&& s1.len() == s2.len()
    &&& forall|k: int| 0 <= k < s1.len() && !(lo <= k < hi) ==> s2[k] == s1[k]
}

/// The value `v` stands somewhere in `s[lo..hi)`.
pub open spec fn appears_in(v: usize, s: Seq<usize>, lo: int, hi: int) -> bool {
    exists|l: int| lo <= l < hi && #[trigger] s[l] == v
}

/// Exhibiting a slot proves `appears_in`.
pub proof fn lemma_appears_at(v: usize, s: Seq<usize>, lo: int, hi: int, l: int)
    requires
        lo <= l < hi,
        s[l] == v,
    ensures
        appears_in(v, s, lo, hi),
{
}

/// Each value of `s2`'s segment `[lo, hi)` already stood somewhere in
/// `s1`'s: the segment was only rearranged, nothing new came in.
pub open spec fn values_from(s1: Seq<usize>, s2: Seq<usize>, lo: int, hi: int) -> bool {
    forall|k: int| lo <= k < hi ==> appears_in(#[trigger] s2[k], s1, lo, hi)
}

pub proof fn lemma_values_from_refl(s: Seq<usize>, lo: int, hi: int)
    ensures
        values_from(s, s, lo, hi),
{
    assert forall|k: int| lo <= k < hi implies appears_in(#[trigger] s[k], s, lo, hi) by {
        lemma_appears_at(s[k], s, lo, hi, k);
    }
}

pub proof fn lemma_values_from_trans(s1: Seq<usize>, s2: Seq<usize>, s3: Seq<usize>, lo: int, hi: int)
    requires
        values_from(s1, s2, lo, hi),
        values_from(s2, s3, lo, hi),
    ensures
        values_from(s1, s3, lo, hi),
{
    assert forall|k: int| lo <= k < hi implies appears_in(#[trigger] s3[k], s1, lo, hi) by {
        let a = choose|a: int| lo <= a < hi && #[trigger] s2[a] == s3[k];
        let b = choose|b: int| lo <= b < hi && #[trigger] s1[b] == s2[a];
        lemma_appears_at(s3[k], s1, lo, hi, b);
    }
}

/// A rearrangement of an inner segment, leaving the rest alone, rearranges
/// any enclosing segment too.
pub proof fn lemma_values_from_widen(s1: Seq<usize>, s2: Seq<usize>, lo: int, hi: int, lo2: int, hi2: int)
    requires
        values_from(s1, s2, lo, hi),
        same_outside(s1, s2, lo, hi),
        lo2 <= lo <= hi <= hi2,
        0 <= lo2,
        hi2 <= s1.len(),
    ensures
        values_from(s1, s2, lo2, hi2),
{
    assert forall|k: int| lo2 <= k < hi2 implies appears_in(#[trigger] s2[k], s1, lo2, hi2) by {
        if lo <= k < hi {
            let a = choose|a: int| lo <= a < hi && #[trigger] s1[a] == s2[k];
            lemma_appears_at(s2[k], s1, lo2, hi2, a);
        } else {
            lemma_appears_at(s2[k], s1, lo2, hi2, k);
        }
    }
}

/// Exchanging two slots of a segment rearranges it and keeps distinctness.
pub proof fn lemma_swap_segment(s1: Seq<usize>, s2: Seq<usize>, lo: int, hi: int, a: int, b: int)
    requires
        0 <= lo <= a <= b < hi <= s1.len(),
        s2 == s1.update(a, s1[b]).update(b, s1[a]),
    ensures
        values_from(s1, s2, lo, hi),
        same_outside(s1, s2, lo, hi),
        distinct(s1) ==> distinct(s2),
        forall|n: int| bounded_below(s1, n) ==> bounded_below(s2, n),
{
    assert forall|k: int| lo <= k < hi implies appears_in(#[trigger] s2[k], s1, lo, hi) by {
        if k == a {
            lemma_appears_at(s2[k], s1, lo, hi, b);
        } else if k == b {
            lemma_appears_at(s2[k], s1, lo, hi, a);
        } else {
            lemma_appears_at(s2[k], s1, lo, hi, k);
        }
    }
    assert forall|k: int, l: int| 0 <= k < l < s2.len() && distinct(s1) implies s2[k] != s2[l] by {
        assert(s2[k] == if k == a { s1[b] } else if k == b { s1[a] } else { s1[k] });
        assert(s2[l] == if l == a { s1[b] } else if l == b { s1[a] } else { s1[l] });
    }
    assert forall|n: int| bounded_below(s1, n) implies bounded_below(s2, n) by {
        assert forall|k: int| 0 <= k < s2.len() && bounded_below(s1, n) implies s2[k] < n by {
            assert(s2[k] == if k == a { s1[b] } else if k == b { s1[a] } else { s1[k] });
        }
    }
}

/// The coordinate the current split compares against.
pub open spec fn axis_key(b: Body, by_y: bool) -> int {
    if by_y {
        b.pos_y as int
    } else {
        b.pos_x as int
    }
}

/// One in-place binary partition pass over `order[lo..hi)`: bodies whose key
/// is below `c` end up first. The 2-D partition applies it once per axis.
fn partition_half(order: &mut Vec<usize>, bodies: &Vec<Body>, lo: usize, hi: usize, by_y: bool, c: i64) -> (mid: usize)
    requires
        lo <= hi <= old(order).len(),
        bounded_below(old(order)@, bodies.len() as int),
        distinct(old(order)@),
    ensures
        lo <= mid <= hi,
        final(order).len() == old(order).len(),
        same_outside(old(order)@, final(order)@, lo as int, hi as int),
        values_from(old(order)@, final(order)@, lo as int, hi as int),
        bounded_below(final(order)@, bodies.len() as int),
        distinct(final(order)@),
        forall|k: int| lo <= k < mid ==> axis_key(bodies@[#[trigger] final(order)@[k] as int], by_y) < c,
        forall|k: int| mid <= k < hi ==> axis_key(bodies@[#[trigger] final(order)@[k] as int], by_y) >= c,
{
    let mut mid = lo;
    let mut j = lo;
    proof {
        lemma_values_from_refl(order@, lo as int, hi as int);
    }
    while j < hi
        invariant
            lo <= mid <= j <= hi <= order.len(),
            order.len() == old(order).len(),
            bounded_below(order@, bodies.len() as int),
            distinct(order@),
            same_outside(old(order)@, order@, lo as int, hi as int),
            values_from(old(order)@, order@, lo as int, hi as int),
            forall|k: int| lo <= k < mid ==> axis_key(bodies@[#[trigger] order@[k] as int], by_y) < c,
            forall|k: int| mid <= k < j ==> axis_key(bodies@[#[trigger] order@[k] as int], by_y) >= c,
        decreases hi - j,
    {
        let idx_j = order[j];
        let b = &bodies[idx_j];
        let key = if by_y {
            b.pos_y
        } else {
            b.pos_x
        };
        if key < c {
            let ghost pre = order@;
            let vm = order[mid];
            order.set(mid, idx_j);
            order.set(j, vm);
            proof {
                assert(order@ =~= pre.update(mid as int, pre[j as int]).update(j as int, pre[mid as int]));
                lemma_swap_segment(pre, order@, lo as int, hi as int, mid as int, j as int);
                lemma_values_from_trans(old(order)@, pre, order@, lo as int, hi as int);
            }
            mid = mid + 1;
        }
        j = j + 1;
    }
    mid
}

/// Reorder `order[lo..hi)` in place so that the bodies of each quadrant of
/// the square centered at `(cx, cy)` form one contiguous run, in quadrant
/// order; the three returned offsets bound the four runs
/// `[lo, r.0) [r.0, r.1) [r.1, r.2) [r.2, hi)`. A run of an empty quadrant is
/// empty. One binary partition per axis, so the cost is linear in the range.
pub fn partition_quadrants(order: &mut Vec<usize>, bodies: &Vec<Body>, lo: usize, hi: usize, cx: i64, cy: i64) -> (r: (usize, usize, usize))
    requires
        lo <= hi <= old(order).len(),
        bounded_below(old(order)@, bodies.len() as int),
        distinct(old(order)@),
    ensures
        lo <= r.0 <= r.1 <= r.2 <= hi,
        final(order).len() == old(order).len(),
        same_outside(old(order)@, final(order)@, lo as int, hi as int),
        values_from(old(order)@, final(order)@, lo as int, hi as int),
        bounded_below(final(order)@, bodies.len() as int),
        distinct(final(order)@),
        forall|k: int| lo <= k < r.0 ==> quadrant(bodies@[#[trigger] final(order)@[k] as int], cx as int, cy as int) == 0,
        forall|k: int| r.0 <= k < r.1 ==> quadrant(bodies@[#[trigger] final(order)@[k] as int], cx as int, cy as int) == 1,
        forall|k: int| r.1 <= k < r.2 ==> quadrant(bodies@[#[trigger] final(order)@[k] as int], cx as int, cy as int) == 2,
        forall|k: int| r.2 <= k < hi ==> quadrant(bodies@[#[trigger] final(order)@[k] as int], cx as int, cy as int) == 3,
{
    let ghost o0 = order@;
    let m = partition_half(order, bodies, lo, hi, true, cy);
    let ghost o1 = order@;
    let b0 = partition_half(order, bodies, lo, m, false, cx);
    let ghost o2 = order@;
    let b2 = partition_half(order, bodies, m, hi, false, cx);
    proof {
        // The x-passes only rearranged within one y-half each, so the y-split
        // survives them.
        assert forall|k: int| lo <= k < m implies
            axis_key(bodies@[#[trigger] order@[k] as int], true) < cy by {
            assert(order@[k] == o2[k]);
            let l = choose|l: int| lo <= l < m && #[trigger] o1[l] == o2[k];
            assert(axis_key(bodies@[o1[l] as int], true) < cy);
        }
        assert forall|k: int| m <= k < hi implies
            axis_key(bodies@[#[trigger] order@[k] as int], true) >= cy by {
            let l = choose|l: int| m <= l < hi && #[trigger] o2[l] == order@[k];
            assert(o2[l] == o1[l]);
            assert(axis_key(bodies@[o1[l] as int], true) >= cy);
        }
        lemma_values_from_widen(o1, o2, lo as int, m as int, lo as int, hi as int);
        lemma_values_from_widen(o2, order@, m as int, hi as int, lo as int, hi as int);
        lemma_values_from_trans(o0, o1, o2, lo as int, hi as int);
        lemma_values_from_trans(o0, o2, order@, lo as int, hi as int);
    }
    (b0, m, b2)
}

} // verus!
