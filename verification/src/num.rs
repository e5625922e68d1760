//! Integer numeric primitives: exact integer square, fifth and tenth roots
//! (used for the fractional powers of the scoring formulas) and truncating
//! signed division (the counterpart of a hardware `as`-style cast).

use vstd::prelude::*;

verus! {

/// `x` squared.
pub open spec fn sq(x: int) -> int {
    x * x
}

/// `x` to the fifth power.
pub open spec fn p5(x: int) -> int {
    x * x * x * x * x
}

/// `x` to the tenth power.
pub open spec fn p10(x: int) -> int {
    p5(x) * p5(x)
}

/// Truncating division (rounds toward zero), the behaviour of Rust's `/` on
/// signed machine integers.
pub open spec fn tdiv(a: int, b: int) -> int {
    if a >= 0 {
        if b >= 0 {
            a / b
        } else {
            -(a / (-b))
        }
    } else {
        if b >= 0 {
            -((-a) / b)
        } else {
            (-a) / (-b)
        }
    }
}

/// Floor of the square root: the unique `r` with `r*r <= v < (r+1)*(r+1)`.
pub fn isqrt(v: u128) -> (r: u128)
    ensures
        sq(r as int) <= v < sq(r as int + 1),
        r < 0x1_0000_0000_0000_0000,
{
    let mut lo: u128 = 0;
    let mut hi: u128 = 0x1_0000_0000_0000_0000;
    assert(sq(hi as int) > u128::MAX) by (nonlinear_arith)
        requires
            hi == 0x1_0000_0000_0000_0000,
    ;
    while hi - lo > 1
        invariant
            lo < hi <= 0x1_0000_0000_0000_0000,
            sq(lo as int) <= v,
            v < sq(hi as int),
        decreases hi - lo,
    {
        let mid = lo + (hi - lo) / 2;
        assert(lo < mid < hi);
        assert(mid * mid <= u128::MAX) by (nonlinear_arith)
            requires
                mid < 0x1_0000_0000_0000_0000,
        ;
        if mid * mid <= v {
            lo = mid;
        } else {
            hi = mid;
        }
    }
    lo
}

/// Floor of the fifth root: the unique `r` with `p5(r) <= v < p5(r+1)`.
pub fn iroot5(v: u128) -> (r: u128)
    requires
        v < p5(0x2000000),
    ensures
        p5(r as int) <= v < p5(r as int + 1),
        r < 0x2000000,
{
    let mut lo: u128 = 0;
    let mut hi: u128 = 0x2000000;
    while hi - lo > 1
        invariant
            lo < hi <= 0x2000000,
            p5(lo as int) <= v,
            v < p5(hi as int),
        decreases hi - lo,
    {
        let mid = lo + (hi - lo) / 2;
        assert(lo < mid < hi);
        assert(mid * mid < 0x4000000000000) by (nonlinear_arith)
            requires
                mid < 0x2000000,
        ;
        let m2 = mid * mid;
        assert(m2 * m2 < 0x10000000000000000000000000) by (nonlinear_arith)
            requires
                m2 < 0x4000000000000,
        ;
        let m4 = m2 * m2;
        assert(m4 * mid < 0x20000000000000000000000000000000) by (nonlinear_arith)
            requires
                m4 < 0x10000000000000000000000000,
                mid < 0x2000000,
        ;
        let m5 = m4 * mid;
        assert(m5 == p5(mid as int)) by (nonlinear_arith)
            requires
                m2 == mid * mid,
                m4 == m2 * m2,
                m5 == m4 * mid,
        ;
        if m5 <= v {
            lo = mid;
        } else {
            hi = mid;
        }
    }
    lo
}

/// Floor of the tenth root: the unique `r` with `p10(r) <= v < p10(r+1)`.
pub fn iroot10(v: u128) -> (r: u128)
    requires
        v < p10(0x1000),
    ensures
        p10(r as int) <= v < p10(r as int + 1),
        r < 0x1000,
{
    let mut lo: u128 = 0;
    let mut hi: u128 = 0x1000;
    while hi - lo > 1
        invariant
            lo < hi <= 0x1000,
            p10(lo as int) <= v,
            v < p10(hi as int),
        decreases hi - lo,
    {
        let mid = lo + (hi - lo) / 2;
        assert(lo < mid < hi);
        assert(mid * mid < 0x1000000) by (nonlinear_arith)
            requires
                mid < 0x1000,
        ;
        let m2 = mid * mid;
        assert(m2 * m2 < 0x1000000000000) by (nonlinear_arith)
            requires
                m2 < 0x1000000,
        ;
        let m4 = m2 * m2;
        assert(m4 * mid < 0x1000000000000000) by (nonlinear_arith)
            requires
                m4 < 0x1000000000000,
                mid < 0x1000,
        ;
        let m5 = m4 * mid;
        assert(m5 * m5 < 0x1000000000000000000000000000000) by (nonlinear_arith)
            requires
                m5 < 0x1000000000000000,
        ;
        assert(m5 == p5(mid as int) && m5 * m5 == p10(mid as int)) by (nonlinear_arith)
            requires
                m2 == mid * mid,
                m4 == m2 * m2,
                m5 == m4 * mid,
        ;
        if m5 * m5 <= v {
            lo = mid;
        } else {
            hi = mid;
        }
    }
    lo
}

/// Truncating signed division on `i128`, computed through unsigned
/// magnitudes so the rounding direction is explicit.
pub fn div_round_to_zero(a: i128, b: i128) -> (r: i128)
    requires
        b != 0,
        -0x40000000000000000000000000000000 < a < 0x40000000000000000000000000000000,
        -0x40000000000000000000000000000000 < b < 0x40000000000000000000000000000000,
    ensures
        r == tdiv(a as int, b as int),
        a >= 0 ==> -a <= r <= a,
        a < 0 ==> a <= r <= -a,
{
    let neg_a = a < 0;
    let neg_b = b < 0;
    let ma: u128 = if neg_a {
        (-a) as u128
    } else {
        a as u128
    };
    let mb: u128 = if neg_b {
        (-b) as u128
    } else {
        b as u128
    };
    let q = ma / mb;
    assert(q <= ma) by {
        vstd::arithmetic::div_mod::lemma_div_is_ordered_by_denominator(ma as int, 1, mb as int);
    }
    if neg_a != neg_b {
        -(q as i128)
    } else {
        q as i128
    }
}

/// Floor of the fifth root, defined by counting up.
pub open spec fn root5_floor(n: nat) -> nat
    decreases n,
{
    if n == 0 {
        0
    } else {
        let s = root5_floor((n - 1) as nat);
        if p5(s as int + 1) <= n {
            s + 1
        } else {
            s
        }
    }
}

/// `root5_floor` really is the floor of the fifth root.
pub proof fn lemma_root5_floor(n: nat)
    ensures
        p5(root5_floor(n) as int) <= n < p5(root5_floor(n) as int + 1),
    decreases n,
{
    if n == 0 {
        assert(root5_floor(0) == 0);
    } else {
        lemma_root5_floor((n - 1) as nat);
        let s = root5_floor((n - 1) as nat);
        assert(p5(s as int + 1) >= p5(s as int) + 1 && p5(s as int + 2) > p5(s as int + 1))
            by (nonlinear_arith)
            requires
                s >= 0,
        ;
    }
    assert(p5(root5_floor(n) as int) <= n);
    assert(n < p5(root5_floor(n) as int + 1));
}

/// Any integer in the fifth-root window is `root5_floor`.
pub proof fn lemma_root5_unique(n: nat, r: nat)
    requires
        p5(r as int) <= n < p5(r as int + 1),
    ensures
        r == root5_floor(n),
{
    lemma_root5_floor(n);
    let s = root5_floor(n);
    if r < s {
        assert(p5(r as int + 1) <= p5(s as int)) by (nonlinear_arith)
            requires
                0 <= r,
                r as int + 1 <= s,
        ;
    }
    if r > s {
        assert(p5(s as int + 1) <= p5(r as int)) by (nonlinear_arith)
            requires
                0 <= s,
                s as int + 1 <= r,
        ;
    }
}

/// Floor of the tenth root, defined by counting up.
pub open spec fn root10_floor(n: nat) -> nat
    decreases n,
{
    if n == 0 {
        0
    } else {
        let s = root10_floor((n - 1) as nat);
        if p10(s as int + 1) <= n {
            s + 1
        } else {
            s
        }
    }
}

/// `root10_floor` really is the floor of the tenth root.
pub proof fn lemma_root10_floor(n: nat)
    ensures
        p10(root10_floor(n) as int) <= n < p10(root10_floor(n) as int + 1),
    decreases n,
{
    if n == 0 {
        assert(root10_floor(0) == 0);
    } else {
        lemma_root10_floor((n - 1) as nat);
        let s = root10_floor((n - 1) as nat);
        assert(p10(s as int + 1) >= p10(s as int) + 1 && p10(s as int + 2) > p10(s as int + 1))
            by (nonlinear_arith)
            requires
                s >= 0,
        ;
    }
    assert(p10(root10_floor(n) as int) <= n);
    assert(n < p10(root10_floor(n) as int + 1));
}

/// Any integer in the tenth-root window is `root10_floor`.
pub proof fn lemma_root10_unique(n: nat, r: nat)
    requires
        p10(r as int) <= n < p10(r as int + 1),
    ensures
        r == root10_floor(n),
{
    lemma_root10_floor(n);
    let s = root10_floor(n);
    if r < s {
        assert(p10(r as int + 1) <= p10(s as int)) by (nonlinear_arith)
            requires
                0 <= r,
                r as int + 1 <= s,
        ;
    }
    if r > s {
        assert(p10(s as int + 1) <= p10(r as int)) by (nonlinear_arith)
            requires
                0 <= s,
                s as int + 1 <= r,
        ;
    }
}

/// A truncating quotient is bounded by `m` whenever the dividend is within
/// `m` times the (positive) divisor.
pub proof fn lemma_tdiv_bounds(a: int, b: int, m: int)
    requires
        b > 0,
        0 <= m,
        -(m * b) <= a <= m * b,
    ensures
        -m <= tdiv(a, b) <= m,
{
    assert(m * b == b * m) by (nonlinear_arith);
    if a >= 0 {
        vstd::arithmetic::div_mod::lemma_div_is_ordered(a, m * b, b);
        vstd::arithmetic::div_mod::lemma_div_multiples_vanish(m, b);
        vstd::arithmetic::div_mod::lemma_div_pos_is_pos(a, b);
    } else {
        vstd::arithmetic::div_mod::lemma_div_is_ordered(-a, m * b, b);
        vstd::arithmetic::div_mod::lemma_div_multiples_vanish(m, b);
        vstd::arithmetic::div_mod::lemma_div_pos_is_pos(-a, b);
    }
}

} // verus!
