//! Perspective resampling.
//!
//! A homography is fitted that carries the output rectangle's corners
//! `(0,h), (0,0), (w,0), (w,h)` onto the four corners of the requested
//! quad; every output pixel is inverse-mapped through it and bilinearly
//! sampled from the source; samples that fall outside the source are
//! written as opaque white. Matrices are held in `i128` fixed point and
//! renormalized by powers of two between products (a homography is only
//! defined up to scale).

use vstd::prelude::*;

use crate::geom::{Point, Quad};
use crate::image::RGBAImage;
use crate::num::tdiv;
use crate::FP;

verus! {

/// Row-major 3x3 matrix.
#[derive(Clone, Copy, PartialEq, Eq, Structural)]
pub struct Mat3 {
    pub m0: i128,
    pub m1: i128,
    pub m2: i128,
    pub m3: i128,
    pub m4: i128,
    pub m5: i128,
    pub m6: i128,
    pub m7: i128,
    pub m8: i128,
}

/// Entry magnitude below which a matrix needs no renormalization.
pub const MAT_LIMIT: i128 = 0x1_0000_0000_0000;

/// Absolute value.
pub open spec fn iabs128(x: int) -> int {
    if x >= 0 {
        x
    } else {
        -x
    }
}

/// The largest entry magnitude of a matrix.
pub open spec fn mat_max(m: Mat3) -> int {
    let a = iabs128(m.m0 as int);
    let b = if iabs128(m.m1 as int) > a {
        iabs128(m.m1 as int)
    } else {
        a
    };
    let c = if iabs128(m.m2 as int) > b {
        iabs128(m.m2 as int)
    } else {
        b
    };
    let d = if iabs128(m.m3 as int) > c {
        iabs128(m.m3 as int)
    } else {
        c
    };
    let e = if iabs128(m.m4 as int) > d {
        iabs128(m.m4 as int)
    } else {
        d
    };
    let f = if iabs128(m.m5 as int) > e {
        iabs128(m.m5 as int)
    } else {
        e
    };
    let g = if iabs128(m.m6 as int) > f {
        iabs128(m.m6 as int)
    } else {
        f
    };
    let h = if iabs128(m.m7 as int) > g {
        iabs128(m.m7 as int)
    } else {
        g
    };
    if iabs128(m.m8 as int) > h {
        iabs128(m.m8 as int)
    } else {
        h
    }
}

/// The power-of-two divisor that brings a magnitude under `MAT_LIMIT`.
pub open spec fn norm_div(mx: int) -> int
    decreases mx,
{
    if mx < MAT_LIMIT {
        1
    } else {
        2 * norm_div(mx / 2)
    }
}

/// Every entry divided (toward zero) by `d`.
pub open spec fn mat_div(m: Mat3, d: int) -> Mat3 {
    Mat3 {
        m0: tdiv(m.m0 as int, d) as i128,
        m1: tdiv(m.m1 as int, d) as i128,
        m2: tdiv(m.m2 as int, d) as i128,
        m3: tdiv(m.m3 as int, d) as i128,
        m4: tdiv(m.m4 as int, d) as i128,
        m5: tdiv(m.m5 as int, d) as i128,
        m6: tdiv(m.m6 as int, d) as i128,
        m7: tdiv(m.m7 as int, d) as i128,
        m8: tdiv(m.m8 as int, d) as i128,
    }
}

/// The renormalized matrix: all entries brought under `MAT_LIMIT` by one
/// power-of-two division.
pub open spec fn mat_norm(m: Mat3) -> Mat3 {
    mat_div(m, norm_div(mat_max(m)))
}

/// The adjugate (transposed cofactor matrix).
pub open spec fn mat_adj(m: Mat3) -> Mat3 {
    Mat3 {
        m0: (m.m4 * m.m8 - m.m5 * m.m7) as i128,
        m1: (m.m2 * m.m7 - m.m1 * m.m8) as i128,
        m2: (m.m1 * m.m5 - m.m2 * m.m4) as i128,
        m3: (m.m5 * m.m6 - m.m3 * m.m8) as i128,
        m4: (m.m0 * m.m8 - m.m2 * m.m6) as i128,
        m5: (m.m2 * m.m3 - m.m0 * m.m5) as i128,
        m6: (m.m3 * m.m7 - m.m4 * m.m6) as i128,
        m7: (m.m1 * m.m6 - m.m0 * m.m7) as i128,
        m8: (m.m0 * m.m4 - m.m1 * m.m3) as i128,
    }
}

/// Matrix product.
pub open spec fn mat_mul(a: Mat3, b: Mat3) -> Mat3 {
    Mat3 {
        m0: (a.m0 * b.m0 + a.m1 * b.m3 + a.m2 * b.m6) as i128,
        m1: (a.m0 * b.m1 + a.m1 * b.m4 + a.m2 * b.m7) as i128,
        m2: (a.m0 * b.m2 + a.m1 * b.m5 + a.m2 * b.m8) as i128,
        m3: (a.m3 * b.m0 + a.m4 * b.m3 + a.m5 * b.m6) as i128,
        m4: (a.m3 * b.m1 + a.m4 * b.m4 + a.m5 * b.m7) as i128,
        m5: (a.m3 * b.m2 + a.m4 * b.m5 + a.m5 * b.m8) as i128,
        m6: (a.m6 * b.m0 + a.m7 * b.m3 + a.m8 * b.m6) as i128,
        m7: (a.m6 * b.m1 + a.m7 * b.m4 + a.m8 * b.m7) as i128,
        m8: (a.m6 * b.m2 + a.m7 * b.m5 + a.m8 * b.m8) as i128,
    }
}

/// All entries within `b` in magnitude.
pub open spec fn mat_bounded(m: Mat3, b: int) -> bool {
    &&& -b <= m.m0 <= b
    &&& -b <= m.m1 <= b
    &&& -b <= m.m2 <= b
    &&& -b <= m.m3 <= b
    &&& -b <= m.m4 <= b
    &&& -b <= m.m5 <= b
    &&& -b <= m.m6 <= b
    &&& -b <= m.m7 <= b
    &&& -b <= m.m8 <= b
}

/// The matrix sending the projective basis onto the quad's four corners
/// (columns scaled so the fourth corner is reached too), renormalized.
pub open spec fn basis_of(q: Quad) -> Mat3 {
    let m = Mat3 {
        m0: q.a.x as i128,
        m1: q.b.x as i128,
        m2: q.c.x as i128,
        m3: q.a.y as i128,
        m4: q.b.y as i128,
        m5: q.c.y as i128,
        m6: FP as i128,
        m7: FP as i128,
        m8: FP as i128,
    };
    let adj = mat_adj(m);
    let c0 = adj.m0 * q.d.x + adj.m1 * q.d.y + adj.m2 * FP;
    let c1 = adj.m3 * q.d.x + adj.m4 * q.d.y + adj.m5 * FP;
    let c2 = adj.m6 * q.d.x + adj.m7 * q.d.y + adj.m8 * FP;
    let dn = norm_div(
        if iabs128(c0) > iabs128(c1) {
            if iabs128(c0) > iabs128(c2) {
                iabs128(c0)
            } else {
                iabs128(c2)
            }
        } else {
            if iabs128(c1) > iabs128(c2) {
                iabs128(c1)
            } else {
                iabs128(c2)
            }
        },
    );
    let cs = Mat3 {
        m0: tdiv(c0, dn) as i128,
        m1: 0,
        m2: 0,
        m3: 0,
        m4: tdiv(c1, dn) as i128,
        m5: 0,
        m6: 0,
        m7: 0,
        m8: tdiv(c2, dn) as i128,
    };
    mat_norm(mat_mul(m, cs))
}

/// The rectangle quad `(0,h), (0,0), (w,0), (w,h)` in fixed point.
pub open spec fn rect_quad(w: int, h: int) -> Quad {
    Quad {
        a: Point { x: 0, y: (h * FP) as i64 },
        b: Point { x: 0, y: 0 },
        c: Point { x: (w * FP) as i64, y: 0 },
        d: Point { x: (w * FP) as i64, y: (h * FP) as i64 },
    }
}

/// The inverse-mapping homography for an output rectangle of size
/// `(w, h)` onto `quad`.
pub open spec fn projector_of(quad: Quad, w: int, h: int) -> Mat3 {
    mat_norm(mat_mul(basis_of(quad), mat_norm(mat_adj(basis_of(rect_quad(w, h))))))
}

/// Product of two magnitude-bounded values is bounded by the product of
/// the bounds.
proof fn lemma_mul_bound(x: int, y: int, bx: int, by: int)
    by (nonlinear_arith)
    requires
        -bx <= x <= bx,
        -by <= y <= by,
        0 <= bx,
        0 <= by,
    ensures
        -(bx * by) <= x * y <= bx * by,
{
}

/// A truncating quotient is no larger in magnitude than any bound on the
/// dividend, divided.
proof fn lemma_tdiv_mag(e: int, mx: int, d: int)
    requires
        d >= 1,
        -mx <= e <= mx,
        0 <= mx,
    ensures
        -(mx / d) <= tdiv(e, d) <= mx / d,
{
    if e >= 0 {
        vstd::arithmetic::div_mod::lemma_div_is_ordered(e, mx, d);
        vstd::arithmetic::div_mod::lemma_div_pos_is_pos(e, d);
    } else {
        vstd::arithmetic::div_mod::lemma_div_is_ordered(-e, mx, d);
        vstd::arithmetic::div_mod::lemma_div_pos_is_pos(-e, d);
    }
}

/// `norm_div` really brings its argument under the limit, and never
/// exceeds the argument itself.
proof fn lemma_norm_div(mx: int)
    requires
        0 <= mx,
    ensures
        norm_div(mx) >= 1,
        mx / norm_div(mx) < MAT_LIMIT,
        norm_div(mx) <= if mx >= MAT_LIMIT {
            mx
        } else {
            1
        },
    decreases mx,
{
    if mx < MAT_LIMIT {
    } else {
        lemma_norm_div(mx / 2);
        let d = norm_div(mx / 2);
        vstd::arithmetic::div_mod::lemma_div_denominator(mx, 2, d);
        assert(2 * d == d * 2) by (nonlinear_arith);
        assert(mx / (2 * d) == (mx / 2) / d);
        if mx / 2 >= MAT_LIMIT {
            assert(2 * d <= 2 * (mx / 2)) by (nonlinear_arith)
                requires
                    d <= mx / 2,
            ;
        }
    }
}

/// Computes `mat_adj(m)`.
fn mat_adj_exec(m: Mat3, Ghost(b): Ghost<int>) -> (r: Mat3)
    requires
        0 <= b <= 0x1_0000_0000_0000,
        mat_bounded(m, b),
    ensures
        r == mat_adj(m),
        mat_bounded(r, 2 * (b * b)),
{
    proof {
        assert(b * b <= 0x1_0000_0000_0000 * 0x1_0000_0000_0000) by (nonlinear_arith)
            requires
                0 <= b <= 0x1_0000_0000_0000,
        ;
        lemma_mul_bound(m.m4 as int, m.m8 as int, b, b);
        lemma_mul_bound(m.m5 as int, m.m7 as int, b, b);
        lemma_mul_bound(m.m2 as int, m.m7 as int, b, b);
        lemma_mul_bound(m.m1 as int, m.m8 as int, b, b);
        lemma_mul_bound(m.m1 as int, m.m5 as int, b, b);
        lemma_mul_bound(m.m2 as int, m.m4 as int, b, b);
        lemma_mul_bound(m.m5 as int, m.m6 as int, b, b);
        lemma_mul_bound(m.m3 as int, m.m8 as int, b, b);
        lemma_mul_bound(m.m0 as int, m.m8 as int, b, b);
        lemma_mul_bound(m.m2 as int, m.m6 as int, b, b);
        lemma_mul_bound(m.m2 as int, m.m3 as int, b, b);
        lemma_mul_bound(m.m0 as int, m.m5 as int, b, b);
        lemma_mul_bound(m.m3 as int, m.m7 as int, b, b);
        lemma_mul_bound(m.m4 as int, m.m6 as int, b, b);
        lemma_mul_bound(m.m1 as int, m.m6 as int, b, b);
        lemma_mul_bound(m.m0 as int, m.m7 as int, b, b);
        lemma_mul_bound(m.m0 as int, m.m4 as int, b, b);
        lemma_mul_bound(m.m1 as int, m.m3 as int, b, b);
    }
    Mat3 {
        m0: m.m4 * m.m8 - m.m5 * m.m7,
        m1: m.m2 * m.m7 - m.m1 * m.m8,
        m2: m.m1 * m.m5 - m.m2 * m.m4,
        m3: m.m5 * m.m6 - m.m3 * m.m8,
        m4: m.m0 * m.m8 - m.m2 * m.m6,
        m5: m.m2 * m.m3 - m.m0 * m.m5,
        m6: m.m3 * m.m7 - m.m4 * m.m6,
        m7: m.m1 * m.m6 - m.m0 * m.m7,
        m8: m.m0 * m.m4 - m.m1 * m.m3,
    }
}

/// Computes `mat_mul(a, b)`.
fn mat_mul_exec(a: Mat3, b: Mat3, Ghost(ba): Ghost<int>, Ghost(bb): Ghost<int>) -> (r: Mat3)
    requires
        0 <= ba <= 0x1_0000_0000_0000,
        0 <= bb <= 0x1_0000_0000_0000,
        mat_bounded(a, ba),
        mat_bounded(b, bb),
    ensures
        r == mat_mul(a, b),
        mat_bounded(r, 3 * (ba * bb)),
{
    proof {
        assert(ba * bb <= 0x1_0000_0000_0000 * 0x1_0000_0000_0000) by (nonlinear_arith)
            requires
                0 <= ba <= 0x1_0000_0000_0000,
                0 <= bb <= 0x1_0000_0000_0000,
        ;
        lemma_mul_bound(a.m0 as int, b.m0 as int, ba, bb);
        lemma_mul_bound(a.m1 as int, b.m3 as int, ba, bb);
        lemma_mul_bound(a.m2 as int, b.m6 as int, ba, bb);
        lemma_mul_bound(a.m0 as int, b.m1 as int, ba, bb);
        lemma_mul_bound(a.m1 as int, b.m4 as int, ba, bb);
        lemma_mul_bound(a.m2 as int, b.m7 as int, ba, bb);
        lemma_mul_bound(a.m0 as int, b.m2 as int, ba, bb);
        lemma_mul_bound(a.m1 as int, b.m5 as int, ba, bb);
        lemma_mul_bound(a.m2 as int, b.m8 as int, ba, bb);
        lemma_mul_bound(a.m3 as int, b.m0 as int, ba, bb);
        lemma_mul_bound(a.m4 as int, b.m3 as int, ba, bb);
        lemma_mul_bound(a.m5 as int, b.m6 as int, ba, bb);
        lemma_mul_bound(a.m3 as int, b.m1 as int, ba, bb);
        lemma_mul_bound(a.m4 as int, b.m4 as int, ba, bb);
        lemma_mul_bound(a.m5 as int, b.m7 as int, ba, bb);
        lemma_mul_bound(a.m3 as int, b.m2 as int, ba, bb);
        lemma_mul_bound(a.m4 as int, b.m5 as int, ba, bb);
        lemma_mul_bound(a.m5 as int, b.m8 as int, ba, bb);
        lemma_mul_bound(a.m6 as int, b.m0 as int, ba, bb);
        lemma_mul_bound(a.m7 as int, b.m3 as int, ba, bb);
        lemma_mul_bound(a.m8 as int, b.m6 as int, ba, bb);
        lemma_mul_bound(a.m6 as int, b.m1 as int, ba, bb);
        lemma_mul_bound(a.m7 as int, b.m4 as int, ba, bb);
        lemma_mul_bound(a.m8 as int, b.m7 as int, ba, bb);
        lemma_mul_bound(a.m6 as int, b.m2 as int, ba, bb);
        lemma_mul_bound(a.m7 as int, b.m5 as int, ba, bb);
        lemma_mul_bound(a.m8 as int, b.m8 as int, ba, bb);
    }
    Mat3 {
        m0: a.m0 * b.m0 + a.m1 * b.m3 + a.m2 * b.m6,
        m1: a.m0 * b.m1 + a.m1 * b.m4 + a.m2 * b.m7,
        m2: a.m0 * b.m2 + a.m1 * b.m5 + a.m2 * b.m8,
        m3: a.m3 * b.m0 + a.m4 * b.m3 + a.m5 * b.m6,
        m4: a.m3 * b.m1 + a.m4 * b.m4 + a.m5 * b.m7,
        m5: a.m3 * b.m2 + a.m4 * b.m5 + a.m5 * b.m8,
        m6: a.m6 * b.m0 + a.m7 * b.m3 + a.m8 * b.m6,
        m7: a.m6 * b.m1 + a.m7 * b.m4 + a.m8 * b.m7,
        m8: a.m6 * b.m2 + a.m7 * b.m5 + a.m8 * b.m8,
    }
}

/// Computes the power-of-two divisor `norm_div(mx)`.
fn norm_div_exec(mx: i128) -> (d: i128)
    requires
        0 <= mx < 0x4000_0000_0000_0000_0000_0000_0000_0000,
    ensures
        d == norm_div(mx as int),
        1 <= d,
        mx / d < MAT_LIMIT,
        d <= if mx >= MAT_LIMIT {
            mx as int
        } else {
            1
        },
{
    proof {
        lemma_norm_div(mx as int);
    }
    let mut cur = mx;
    let mut d: i128 = 1;
    while cur >= MAT_LIMIT
        invariant
            0 <= mx < 0x4000_0000_0000_0000_0000_0000_0000_0000,
            0 <= cur,
            1 <= d,
            cur == mx / d,
            d * norm_div(cur as int) == norm_div(mx as int),
            1 <= norm_div(mx as int) <= 0x4000_0000_0000_0000_0000_0000_0000_0000,
        decreases cur,
    {
        proof {
            assert(norm_div(cur as int) == 2 * norm_div(cur as int / 2));
            lemma_norm_div(cur as int / 2);
            assert(d * (2 * norm_div(cur as int / 2)) == (d * 2) * norm_div(cur as int / 2))
                by (nonlinear_arith);
            assert(d * 2 <= d * norm_div(cur as int)) by (nonlinear_arith)
                requires
                    norm_div(cur as int) >= 2,
                    d >= 1,
            ;
            assert(d * norm_div(cur as int) <= 0x4000_0000_0000_0000_0000_0000_0000_0000);
            vstd::arithmetic::div_mod::lemma_div_denominator(mx as int, d as int, 2);
            assert(mx as int / (d as int * 2) == (mx as int / (d as int)) / 2);
            assert(d * 2 == 2 * d) by (nonlinear_arith);
            assert(cur as int / 2 >= 0) by {
                vstd::arithmetic::div_mod::lemma_div_pos_is_pos(cur as int, 2);
            }
        }
        cur = cur / 2;
        d = d * 2;
    }
    proof {
        assert(norm_div(cur as int) == 1);
        assert(d * 1 == d) by (nonlinear_arith);
    }
    d
}

/// Computes `mat_max(m)`.
#[verifier::spinoff_prover]
fn mat_max_exec(m: Mat3) -> (mx: i128)
    requires
        mat_bounded(m, 0x2000_0000_0000_0000_0000_0000_0000_0000),
    ensures
        mx == mat_max(m),
        0 <= mx,
{
    let a0 = if m.m0 >= 0 {
        m.m0
    } else {
        -m.m0
    };
    let a1 = if m.m1 >= 0 {
        m.m1
    } else {
        -m.m1
    };
    let a2 = if m.m2 >= 0 {
        m.m2
    } else {
        -m.m2
    };
    let a3 = if m.m3 >= 0 {
        m.m3
    } else {
        -m.m3
    };
    let a4 = if m.m4 >= 0 {
        m.m4
    } else {
        -m.m4
    };
    let a5 = if m.m5 >= 0 {
        m.m5
    } else {
        -m.m5
    };
    let a6 = if m.m6 >= 0 {
        m.m6
    } else {
        -m.m6
    };
    let a7 = if m.m7 >= 0 {
        m.m7
    } else {
        -m.m7
    };
    let a8 = if m.m8 >= 0 {
        m.m8
    } else {
        -m.m8
    };
    let mut mx = a0;
    if a1 > mx {
        mx = a1;
    }
    if a2 > mx {
        mx = a2;
    }
    if a3 > mx {
        mx = a3;
    }
    if a4 > mx {
        mx = a4;
    }
    if a5 > mx {
        mx = a5;
    }
    if a6 > mx {
        mx = a6;
    }
    if a7 > mx {
        mx = a7;
    }
    if a8 > mx {
        mx = a8;
    }
    mx
}

/// A bound on all entries bounds the maximum entry magnitude.
proof fn lemma_mat_max_le(m: Mat3, b: int)
    requires
        0 <= b,
        mat_bounded(m, b),
    ensures
        mat_max(m) <= b,
        mat_bounded(m, mat_max(m)),
{
}

/// Computes `mat_norm(m)`.
#[verifier::rlimit(100)]
#[verifier::spinoff_prover]
fn mat_norm_exec(m: Mat3, Ghost(b): Ghost<int>) -> (r: Mat3)
    requires
        0 <= b <= 0x2000_0000_0000_0000_0000_0000_0000_0000,
        mat_bounded(m, b),
    ensures
        r == mat_norm(m),
        mat_bounded(r, MAT_LIMIT - 1),
{
    let mx = mat_max_exec(m);
    proof {
        lemma_mat_max_le(m, b);
    }
    let d = norm_div_exec(mx);
    proof {
        lemma_tdiv_mag(m.m0 as int, mx as int, d as int);
        lemma_tdiv_mag(m.m1 as int, mx as int, d as int);
        lemma_tdiv_mag(m.m2 as int, mx as int, d as int);
        lemma_tdiv_mag(m.m3 as int, mx as int, d as int);
        lemma_tdiv_mag(m.m4 as int, mx as int, d as int);
        lemma_tdiv_mag(m.m5 as int, mx as int, d as int);
        lemma_tdiv_mag(m.m6 as int, mx as int, d as int);
        lemma_tdiv_mag(m.m7 as int, mx as int, d as int);
        lemma_tdiv_mag(m.m8 as int, mx as int, d as int);
    }
    let r = Mat3 {
        m0: crate::num::div_round_to_zero(m.m0, d),
        m1: crate::num::div_round_to_zero(m.m1, d),
        m2: crate::num::div_round_to_zero(m.m2, d),
        m3: crate::num::div_round_to_zero(m.m3, d),
        m4: crate::num::div_round_to_zero(m.m4, d),
        m5: crate::num::div_round_to_zero(m.m5, d),
        m6: crate::num::div_round_to_zero(m.m6, d),
        m7: crate::num::div_round_to_zero(m.m7, d),
        m8: crate::num::div_round_to_zero(m.m8, d),
    };
    r
}

/// Computes `basis_of(q)`.
fn basis_exec(q: Quad) -> (r: Mat3)
    requires
        q.bounded(),
    ensures
        r == basis_of(q),
        mat_bounded(r, MAT_LIMIT - 1),
{
    let m = Mat3 {
        m0: q.a.x as i128,
        m1: q.b.x as i128,
        m2: q.c.x as i128,
        m3: q.a.y as i128,
        m4: q.b.y as i128,
        m5: q.c.y as i128,
        m6: FP as i128,
        m7: FP as i128,
        m8: FP as i128,
    };
    assert(mat_bounded(m, 0x100_0000_0000));
    let adj = mat_adj_exec(m, Ghost(0x100_0000_0000int));
    proof {
        lemma_mul_bound(adj.m0 as int, q.d.x as int, 0x20000_0000_0000_0000_0000,
            0x100_0000_0000);
        lemma_mul_bound(adj.m1 as int, q.d.y as int, 0x20000_0000_0000_0000_0000,
            0x100_0000_0000);
        lemma_mul_bound(adj.m2 as int, FP as int, 0x20000_0000_0000_0000_0000, 0x100_0000_0000);
        lemma_mul_bound(adj.m3 as int, q.d.x as int, 0x20000_0000_0000_0000_0000,
            0x100_0000_0000);
        lemma_mul_bound(adj.m4 as int, q.d.y as int, 0x20000_0000_0000_0000_0000,
            0x100_0000_0000);
        lemma_mul_bound(adj.m5 as int, FP as int, 0x20000_0000_0000_0000_0000, 0x100_0000_0000);
        lemma_mul_bound(adj.m6 as int, q.d.x as int, 0x20000_0000_0000_0000_0000,
            0x100_0000_0000);
        lemma_mul_bound(adj.m7 as int, q.d.y as int, 0x20000_0000_0000_0000_0000,
            0x100_0000_0000);
        lemma_mul_bound(adj.m8 as int, FP as int, 0x20000_0000_0000_0000_0000, 0x100_0000_0000);
    }
    let c0: i128 = adj.m0 * (q.d.x as i128) + adj.m1 * (q.d.y as i128) + adj.m2 * (FP as i128);
    let c1: i128 = adj.m3 * (q.d.x as i128) + adj.m4 * (q.d.y as i128) + adj.m5 * (FP as i128);
    let c2: i128 = adj.m6 * (q.d.x as i128) + adj.m7 * (q.d.y as i128) + adj.m8 * (FP as i128);
    let b0 = if c0 >= 0 {
        c0
    } else {
        -c0
    };
    let b1 = if c1 >= 0 {
        c1
    } else {
        -c1
    };
    let b2 = if c2 >= 0 {
        c2
    } else {
        -c2
    };
    let cm = if b0 > b1 {
        if b0 > b2 {
            b0
        } else {
            b2
        }
    } else {
        if b1 > b2 {
            b1
        } else {
            b2
        }
    };
    let dn = norm_div_exec(cm);
    proof {
        lemma_tdiv_mag(c0 as int, cm as int, dn as int);
        lemma_tdiv_mag(c1 as int, cm as int, dn as int);
        lemma_tdiv_mag(c2 as int, cm as int, dn as int);
    }
    let cs = Mat3 {
        m0: crate::num::div_round_to_zero(c0, dn),
        m1: 0,
        m2: 0,
        m3: 0,
        m4: crate::num::div_round_to_zero(c1, dn),
        m5: 0,
        m6: 0,
        m7: 0,
        m8: crate::num::div_round_to_zero(c2, dn),
    };
    assert(mat_bounded(cs, MAT_LIMIT - 1));
    let mm = mat_mul_exec(m, cs, Ghost(0x100_0000_0000int), Ghost((MAT_LIMIT - 1) as int));
    let r = mat_norm_exec(mm, Ghost(3 * (0x100_0000_0000 * (MAT_LIMIT - 1)) as int));
    r
}

/// Computes `projector_of(quad, w, h)`.
pub fn projector_exec(quad: Quad, w: usize, h: usize) -> (r: Mat3)
    requires
        quad.bounded(),
        1 <= w <= 16384,
        1 <= h <= 16384,
    ensures
        r == projector_of(quad, w as int, h as int),
        mat_bounded(r, MAT_LIMIT - 1),
{
    let dst = basis_exec(quad);
    let wq: i64 = (w as i64) * FP;
    let hq: i64 = (h as i64) * FP;
    let rq = Quad {
        a: Point { x: 0, y: hq },
        b: Point { x: 0, y: 0 },
        c: Point { x: wq, y: 0 },
        d: Point { x: wq, y: hq },
    };
    assert(rq == rect_quad(w as int, h as int));
    let src = basis_exec(rq);
    let sadj = mat_adj_exec(src, Ghost((MAT_LIMIT - 1) as int));
    let sn = mat_norm_exec(sadj, Ghost(2 * (((MAT_LIMIT - 1) as int) * ((MAT_LIMIT - 1) as int))));
    let pm = mat_mul_exec(dst, sn, Ghost((MAT_LIMIT - 1) as int), Ghost((MAT_LIMIT - 1) as int));
    let r = mat_norm_exec(pm, Ghost(3 * (((MAT_LIMIT - 1) as int) * ((MAT_LIMIT - 1) as int))));
    r
}

/// The RGB sample the resampler writes at output pixel `(x, y)`: the
/// pixel is inverse-mapped through `pm`; a point outside the source (or a
/// degenerate projection) samples opaque white, an inside point is
/// bilinearly interpolated from its four neighbouring source pixels (the
/// neighbours clamped to the last row and column).
pub open spec fn sample_at(src: RGBAImage, pm: Mat3, x: int, y: int) -> (int, int, int) {
    let w = src.width as int;
    let h = src.height as int;
    let d = src.data@;
    let v0 = pm.m0 * (x * FP) + pm.m1 * (y * FP) + pm.m2 * FP;
    let v1 = pm.m3 * (x * FP) + pm.m4 * (y * FP) + pm.m5 * FP;
    let v2 = pm.m6 * (x * FP) + pm.m7 * (y * FP) + pm.m8 * FP;
    if v2 == 0 {
        (255, 255, 255)
    } else {
        let sx = tdiv(v0 * FP, v2);
        let sy = tdiv(v1 * FP, v2);
        if sx < 0 || sy < 0 || sx / (FP as int) >= w || sy / (FP as int) >= h {
            (255, 255, 255)
        } else {
            let xf = sx / (FP as int);
            let yf = sy / (FP as int);
            let xt = sx - xf * FP;
            let yt = sy - yf * FP;
            let xc = if xf + 1 < w {
                xf + 1
            } else {
                w - 1
            };
            let yc = if yf + 1 < h {
                yf + 1
            } else {
                h - 1
            };
            let b00 = 4 * (yf * w + xf);
            let b01 = 4 * (yf * w + xc);
            let b10 = 4 * (yc * w + xf);
            let b11 = 4 * (yc * w + xc);
            let r = (((d[b00] * (FP - xt) + d[b01] * xt) * (FP - yt) + (d[b10] * (FP - xt)
                + d[b11] * xt) * yt) / (FP * FP));
            let g = (((d[b00 + 1] * (FP - xt) + d[b01 + 1] * xt) * (FP - yt) + (d[b10 + 1] * (FP
                - xt) + d[b11 + 1] * xt) * yt) / (FP * FP));
            let b = (((d[b00 + 2] * (FP - xt) + d[b01 + 2] * xt) * (FP - yt) + (d[b10 + 2] * (FP
                - xt) + d[b11 + 2] * xt) * yt) / (FP * FP));
            (r, g, b)
        }
    }
}

/// Output pixel `p` of `d` carries the sampled RGB triple and full alpha.
pub open spec fn px_ok(d: Seq<u8>, src: RGBAImage, pm: Mat3, w: int, p: int) -> bool {
    &&& d[4 * p] == sample_at(src, pm, p % w, p / w).0
    &&& d[4 * p + 1] == sample_at(src, pm, p % w, p / w).1
    &&& d[4 * p + 2] == sample_at(src, pm, p % w, p / w).2
    &&& d[4 * p + 3] == 255
}

/// Computes one output pixel's RGB triple.
#[verifier::rlimit(100)]
#[verifier::spinoff_prover]
fn sample_exec(source: &RGBAImage, pm: Mat3, x: usize, y: usize) -> (r: (u8, u8, u8))
    requires
        source.wf(),
        mat_bounded(pm, MAT_LIMIT - 1),
        x <= 16384,
        y <= 16384,
    ensures
        r.0 == sample_at(*source, pm, x as int, y as int).0,
        r.1 == sample_at(*source, pm, x as int, y as int).1,
        r.2 == sample_at(*source, pm, x as int, y as int).2,
{
    let w = source.width;
    let h = source.height;
    let xq: i128 = (x as i128) * (FP as i128);
    let yq: i128 = (y as i128) * (FP as i128);
    proof {
        lemma_mul_bound(pm.m0 as int, xq as int, MAT_LIMIT as int, 0x40000000);
        lemma_mul_bound(pm.m1 as int, yq as int, MAT_LIMIT as int, 0x40000000);
        lemma_mul_bound(pm.m3 as int, xq as int, MAT_LIMIT as int, 0x40000000);
        lemma_mul_bound(pm.m4 as int, yq as int, MAT_LIMIT as int, 0x40000000);
        lemma_mul_bound(pm.m6 as int, xq as int, MAT_LIMIT as int, 0x40000000);
        lemma_mul_bound(pm.m7 as int, yq as int, MAT_LIMIT as int, 0x40000000);
        lemma_mul_bound(pm.m2 as int, FP as int, MAT_LIMIT as int, 0x10000);
        lemma_mul_bound(pm.m5 as int, FP as int, MAT_LIMIT as int, 0x10000);
        lemma_mul_bound(pm.m8 as int, FP as int, MAT_LIMIT as int, 0x10000);
    }
    let v0: i128 = pm.m0 * xq + pm.m1 * yq + pm.m2 * (FP as i128);
    let v1: i128 = pm.m3 * xq + pm.m4 * yq + pm.m5 * (FP as i128);
    let v2: i128 = pm.m6 * xq + pm.m7 * yq + pm.m8 * (FP as i128);
    if v2 == 0 {
        return (255, 255, 255);
    }
    let sx: i128 = crate::num::div_round_to_zero(v0 * (FP as i128), v2);
    let sy: i128 = crate::num::div_round_to_zero(v1 * (FP as i128), v2);
    if sx < 0 || sy < 0 || sx / (FP as i128) >= w as i128 || sy / (FP as i128) >= h as i128 {
        return (255, 255, 255);
    }
    let xf: i128 = sx / (FP as i128);
    let yf: i128 = sy / (FP as i128);
    assert(0 <= xf < w && 0 <= yf < h) by {
        vstd::arithmetic::div_mod::lemma_div_pos_is_pos(sx as int, FP as int);
        vstd::arithmetic::div_mod::lemma_div_pos_is_pos(sy as int, FP as int);
    }
    let xt: i64 = (sx - xf * (FP as i128)) as i64;
    let yt: i64 = (sy - yf * (FP as i128)) as i64;
    proof {
        vstd::arithmetic::div_mod::lemma_fundamental_div_mod(sx as int, FP as int);
        vstd::arithmetic::div_mod::lemma_mod_bound(sx as int, FP as int);
        vstd::arithmetic::div_mod::lemma_fundamental_div_mod(sy as int, FP as int);
        vstd::arithmetic::div_mod::lemma_mod_bound(sy as int, FP as int);
    }
    assert(0 <= xt < FP && 0 <= yt < FP);
    let xfu = xf as usize;
    let yfu = yf as usize;
    let xc: usize = if xfu + 1 < w {
        xfu + 1
    } else {
        w - 1
    };
    let yc: usize = if yfu + 1 < h {
        yfu + 1
    } else {
        h - 1
    };
    proof {
        assert(4 * ((yf as int) * w + xf) + 3 < 4 * (w * h) && 4 * ((yf as int) * w + xc) + 3 < 4
            * (w * h) && 4 * ((yc as int) * w + xf) + 3 < 4 * (w * h) && 4 * ((yc as int) * w
            + xc) + 3 < 4 * (w * h) && 0 <= (yf as int) * w + xf && 0 <= (yc as int) * w + xf
            && (w as int) * (h as int) <= 16384 * 16384) by (nonlinear_arith)
            requires
                0 <= xf < w,
                0 <= yf < h,
                0 <= xc < w,
                0 <= yc < h,
                w <= 16384,
                h <= 16384,
        ;
    }
    let b00: usize = 4 * (yfu * w + xfu);
    let b01: usize = 4 * (yfu * w + xc);
    let b10: usize = 4 * (yc * w + xfu);
    let b11: usize = 4 * (yc * w + xc);
    let xtr: i64 = FP - xt;
    let ytr: i64 = FP - yt;
    let d = &source.data;
    let rr = bilerp(d[b00], d[b01], d[b10], d[b11], xt, xtr, yt, ytr);
    let gg = bilerp(d[b00 + 1], d[b01 + 1], d[b10 + 1], d[b11 + 1], xt, xtr, yt, ytr);
    let bb = bilerp(d[b00 + 2], d[b01 + 2], d[b10 + 2], d[b11 + 2], xt, xtr, yt, ytr);
    (rr, gg, bb)
}

/// Bilinear interpolation of four byte samples with Q16.16 weights.
fn bilerp(s00: u8, s01: u8, s10: u8, s11: u8, xt: i64, xtr: i64, yt: i64, ytr: i64) -> (r: u8)
    requires
        0 <= xt < FP,
        0 <= yt < FP,
        xtr == FP - xt,
        ytr == FP - yt,
    ensures
        r == ((s00 * xtr + s01 * xt) * ytr + (s10 * xtr + s11 * xt) * yt) / (FP * FP),
{
    proof {
        assert(0 <= s00 * xtr && s00 * xtr <= 255 * 65536 && 0 <= s01 * xt && s01 * xt <= 255
            * 65536 && 0 <= s10 * xtr && s10 * xtr <= 255 * 65536 && 0 <= s11 * xt && s11 * xt
            <= 255 * 65536) by (nonlinear_arith)
            requires
                0 <= xt <= 65536,
                0 <= xtr <= 65536,
                0 <= s00 < 256,
                0 <= s01 < 256,
                0 <= s10 < 256,
                0 <= s11 < 256,
        ;
        assert(s00 * xtr + s01 * xt <= 255 * 65536) by (nonlinear_arith)
            requires
                0 <= xt,
                0 <= xtr,
                xtr + xt == 65536,
                0 <= s00 < 256,
                0 <= s01 < 256,
        ;
        assert(s10 * xtr + s11 * xt <= 255 * 65536) by (nonlinear_arith)
            requires
                0 <= xt,
                0 <= xtr,
                xtr + xt == 65536,
                0 <= s10 < 256,
                0 <= s11 < 256,
        ;
    }
    let a: i64 = (s00 as i64) * xtr + (s01 as i64) * xt;
    let b: i64 = (s10 as i64) * xtr + (s11 as i64) * xt;
    proof {
        assert(0 <= a * ytr && a * ytr <= 255 * 65536 * 65536 && 0 <= b * yt && b * yt <= 255
            * 65536 * 65536 && a * ytr + b * yt <= 255 * 65536 * 65536) by (nonlinear_arith)
            requires
                0 <= a <= 255 * 65536,
                0 <= b <= 255 * 65536,
                0 <= yt,
                0 <= ytr,
                ytr + yt == 65536,
        ;
        vstd::arithmetic::div_mod::lemma_div_is_ordered(
            (a * ytr + b * yt) as int,
            255int * 65536 * 65536,
            65536int * 65536,
        );
        vstd::arithmetic::div_mod::lemma_div_pos_is_pos((a * ytr + b * yt) as int, 65536int * 65536);
    }
    let v: i64 = (a * ytr + b * yt) / (65536 * 65536);
    v as u8
}

/// Resamples `source` through the inverse homography of `quad`: each
/// output pixel of the `width x height` result is mapped into the source
/// and bilinearly sampled; pixels mapping outside the source come out
/// opaque white, and every pixel has full alpha.
pub fn perspective(source: &RGBAImage, quad: Quad, width: usize, height: usize) -> (r: RGBAImage)
    requires
        source.wf(),
        quad.bounded(),
        1 <= width <= 16384,
        1 <= height <= 16384,
    ensures
        r.width == width,
        r.height == height,
        r.data@.len() == 4 * (width * height),
        forall|p: int|
            0 <= p < width * height ==> #[trigger] px_ok(
                r.data@,
                *source,
                projector_of(quad, width as int, height as int),
                width as int,
                p,
            ),
{
    let pm = projector_exec(quad, width, height);
    let mut data: Vec<u8> = Vec::new();
    let mut y: usize = 0;
    assert(width * height <= 16384 * 16384) by (nonlinear_arith)
        requires
            width <= 16384,
            height <= 16384,
    ;
    while y < height
        invariant
            source.wf(),
            mat_bounded(pm, MAT_LIMIT - 1),
            pm == projector_of(quad, width as int, height as int),
            1 <= width <= 16384,
            1 <= height <= 16384,
            width * height <= 16384 * 16384,
            y <= height,
            data@.len() == 4 * (y * width),
            forall|p: int|
                0 <= p < y * width ==> #[trigger] px_ok(data@, *source, pm, width as int, p),
        decreases height - y,
    {
        assert(y * width + width <= height * width && height * width == width * height)
            by (nonlinear_arith)
            requires
                y < height,
                0 <= width,
                0 <= height,
        ;
        let mut x: usize = 0;
        while x < width
            invariant
                source.wf(),
                mat_bounded(pm, MAT_LIMIT - 1),
                pm == projector_of(quad, width as int, height as int),
                1 <= width <= 16384,
                1 <= height <= 16384,
                width * height <= 16384 * 16384,
                y < height,
                x <= width,
                y * width + width <= width * height,
                data@.len() == 4 * (y * width + x),
                forall|p: int|
                    0 <= p < y * width + x ==> #[trigger] px_ok(data@, *source, pm, width as int, p),
            decreases width - x,
        {
            let ghost p = (y * width + x) as int;
            let ghost d0 = data@;
            let (rr, gg, bb) = sample_exec(source, pm, x, y);
            data.push(rr);
            data.push(gg);
            data.push(bb);
            data.push(255);
            proof {
                vstd::arithmetic::div_mod::lemma_fundamental_div_mod_converse(
                    p,
                    width as int,
                    y as int,
                    x as int,
                );
                assert(px_ok(data@, *source, pm, width as int, p));
                assert forall|q: int| 0 <= q < p implies #[trigger] px_ok(
                    data@,
                    *source,
                    pm,
                    width as int,
                    q,
                ) by {
                    assert(px_ok(d0, *source, pm, width as int, q));
                    assert(4 * q + 3 < d0.len());
                }
            }
            x = x + 1;
        }
        assert((y + 1) * width == y * width + width) by (nonlinear_arith);
        y = y + 1;
    }
    assert(height * width == width * height) by (nonlinear_arith);
    RGBAImage { data, width, height }
}

} // verus!
