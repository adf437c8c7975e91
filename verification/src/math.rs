use vstd::prelude::*;
use vstd::arithmetic::div_mod::{lemma_div_is_ordered, lemma_div_by_multiple, lemma_div_pos_is_pos, lemma_div_multiples_vanish};

verus! {

/// Division that rounds toward zero, the semantics of `/` on the machine
/// integers; in ghost code `/` is Euclidean, so the rounding is made explicit.
pub open spec fn trunc_div(n: int, d: int) -> int {
    if n >= 0 {
        n / d
    } else {
        -((-n) / d)
    }
}

pub proof fn lemma_trunc_div_le(n: int, d: int, b: int)
    requires
        d >= 1,
        b >= 0,
        n <= b * d,
    ensures
        trunc_div(n, d) <= b,
{
    if n >= 0 {
        lemma_div_is_ordered(n, b * d, d);
        lemma_div_by_multiple(b, d);
    } else {
        lemma_div_pos_is_pos(-n, d);
    }
}

pub proof fn lemma_trunc_div_ge(n: int, d: int, a: int)
    requires
        d >= 1,
        a <= 0,
        n >= a * d,
    ensures
        trunc_div(n, d) >= a,
{
    if n >= 0 {
        lemma_div_pos_is_pos(n, d);
    } else {
        assert(-n <= (-a) * d) by (nonlinear_arith)
            requires n >= a * d,
        ;
        lemma_div_is_ordered(-n, (-a) * d, d);
        lemma_div_by_multiple(-a, d);
    }
}

/// `|n| <= b * d` bounds the truncated quotient by `b`.
pub proof fn lemma_trunc_div_abs(n: int, d: int, b: int)
    requires
        d >= 1,
        b >= 0,
        -(b * d) <= n <= b * d,
    ensures
        -b <= trunc_div(n, d) <= b,
{
    lemma_trunc_div_le(n, d, b);
    assert(n >= (-b) * d) by (nonlinear_arith)
        requires n >= -(b * d),
    ;
    lemma_trunc_div_ge(n, d, -b);
}

pub proof fn lemma_trunc_div_exact(x: int, d: int)
    requires
        d >= 1,
    ensures
        trunc_div(x * d, d) == x,
{
    if x >= 0 {
        assert(x * d >= 0) by (nonlinear_arith)
            requires x >= 0, d >= 1,
        ;
        lemma_div_by_multiple(x, d);
    } else {
        assert(x * d < 0) by (nonlinear_arith)
            requires x < 0, d >= 1,
        ;
        assert(-(x * d) == (-x) * d) by (nonlinear_arith);
        lemma_div_by_multiple(-x, d);
    }
}

pub proof fn lemma_trunc_div_neg(n: int, d: int)
    requires
        d >= 1,
    ensures
        trunc_div(-n, d) == -trunc_div(n, d),
{
    if n == 0 {
        assert(trunc_div(0, d) == 0) by {
            vstd::arithmetic::div_mod::lemma_div_of0(d);
        }
    }
}

/// Truncating division on machine integers, via unsigned division so that the
/// result is pinned to `trunc_div`.
pub fn div_trunc(n: i128, d: i128) -> (q: i128)
    requires
        d >= 1,
        n > -0x8000_0000_0000_0000_0000_0000_0000_0000,
    ensures
        q == trunc_div(n as int, d as int),
{
    if n >= 0 {
        (((n as u128) / (d as u128)) as i128)
    } else {
        let m = (-n) as u128;
        let r = m / (d as u128);
        assert(r <= m) by {
            lemma_div_is_ordered(0, m as int, d as int);
            vstd::arithmetic::div_mod::lemma_div_nonincreasing(m as int, d as int);
        }
        -(r as i128)
    }
}

/// The integer square root, defined by counting up; `lemma_sqrt_floor` gives
/// its characterization.
pub open spec fn sqrt_floor(v: int) -> int
    decreases v,
{
    if v <= 0 {
        0
    } else {
        let r = sqrt_floor(v - 1);
        if (r + 1) * (r + 1) <= v {
            r + 1
        } else {
            r
        }
    }
}

pub proof fn lemma_sqrt_floor(v: int)
    requires
        v >= 0,
    ensures
        0 <= sqrt_floor(v),
        sqrt_floor(v) * sqrt_floor(v) <= v,
        v < (sqrt_floor(v) + 1) * (sqrt_floor(v) + 1),
    decreases v,
{
    if v > 0 {
        lemma_sqrt_floor(v - 1);
        let r = sqrt_floor(v - 1);
        if (r + 1) * (r + 1) <= v {
            assert(v < (r + 2) * (r + 2)) by (nonlinear_arith)
                requires v - 1 < (r + 1) * (r + 1), r >= 0,
            ;
        }
    }
}

/// Any root with the bracketing property is the integer square root.
pub proof fn lemma_sqrt_floor_unique(v: int, r: int)
    requires
        v >= 0,
        r >= 0,
        r * r <= v,
        v < (r + 1) * (r + 1),
    ensures
        r == sqrt_floor(v),
{
    lemma_sqrt_floor(v);
    let s = sqrt_floor(v);
    if r < s {
        assert((r + 1) * (r + 1) <= s * s) by (nonlinear_arith)
            requires 0 <= r, r + 1 <= s,
        ;
    }
    if s < r {
        assert((s + 1) * (s + 1) <= r * r) by (nonlinear_arith)
            requires 0 <= s, s + 1 <= r,
        ;
    }
}

/// Binary-search integer square root for the softened distance cube.
pub fn isqrt(v: i128) -> (r: i128)
    requires
        0 <= v < 0x4_0000_0000_0000_0000,
    ensures
        r == sqrt_floor(v as int),
        0 <= r <= 0x2_0000_0000,
        r * r <= v < (r + 1) * (r + 1),
{
    let mut lo: i128 = 0;
    let mut hi: i128 = 0x2_0000_0000;
    assert(hi * hi > v);
    while lo + 1 < hi
        invariant
            0 <= lo < hi <= 0x2_0000_0000,
            lo * lo <= v,
            v < hi * hi,
        decreases hi - lo,
    {
        let mid = (((lo + hi) as u128) / 2) as i128;
        assert(lo < mid < hi);
        assert(mid * mid < 0x4_0000_0000_0000_0000) by (nonlinear_arith)
            requires 0 <= mid < 0x2_0000_0000,
        ;
        if mid * mid <= v {
            lo = mid;
        } else {
            hi = mid;
        }
    }
    proof {
        lemma_sqrt_floor_unique(v as int, lo as int);
    }
    lo
}

} // verus!
