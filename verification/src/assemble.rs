//! Quad assembly: enumerates four-line configurations with document
//! topology and scores each candidate.
//!
//! Two lines in Hough normal form intersect where
//! `sin(p)*x + cos(p)*y = 2*bp - diag` meets the same equation for `q`. A
//! corner counts as inside-ish when it falls within a disk of radius
//! `sqrt(0.55)` around the image centre in normalized coordinates. A valid
//! quad has four of the six pairwise intersections inside (the corners)
//! and two outside (the near-parallel side pairs). Each candidate's score
//! multiplies edge evidence gathered along its sides, a right-angle factor
//! and the geometric strength of its four lines.

use vstd::prelude::*;

use crate::detect::GradientVotesResult;
use crate::geom::{sqrt_floor, Point, Quad, ScoredQuad};
use crate::lines::Line;
use crate::num::{p10, p5, root10_floor, root5_floor, sq, tdiv};
use crate::trig::{cos_bin, sin_bin};

verus! {

/// Normalized squared-radius bound of the inside-ish disk:
/// `0.55 * (2 * 2^16)^2`.
pub const DISK_LIMIT: i64 = 9448928051;

/// Coordinate magnitude beyond which an intersection is rejected outright
/// (the disk test would reject it anyway for any plausible image).
pub const ISECT_LIMIT: i64 = 0x1_0000_0000;

/// The intersection of two lines in fixed point, with its inside-ish flag.
/// Pairs that are parallel in table arithmetic (`denom == 0`), lie on a
/// horizontal-normal line (`sin == 0`), or land far outside the image are
/// reported as outside with a zero point.
pub open spec fn isect(l1: Line, l2: Line, diag: int, w: int, h: int) -> (Point, bool) {
    let a = cos_bin(l1.angle as int);
    let b = -sin_bin(l1.angle as int);
    let c = (2 * l1.bin - diag) * 65536;
    let d = cos_bin(l2.angle as int);
    let e = -sin_bin(l2.angle as int);
    let f = (2 * l2.bin - diag) * 65536;
    let denom = a * e - d * b;
    if denom == 0 || a == 0 {
        (Point { x: 0, y: 0 }, false)
    } else {
        let y = tdiv((a * f - d * c) * 65536, denom);
        let x = tdiv(c * 65536 - y * b, a);
        if x < -ISECT_LIMIT || x > ISECT_LIMIT || y < -ISECT_LIMIT || y > ISECT_LIMIT {
            (Point { x: 0, y: 0 }, false)
        } else {
            let xr = tdiv((2 * x - w * 65536) * 65536, w * 65536);
            let yr = tdiv((2 * y - h * 65536) * 65536, h * 65536);
            if xr * xr + yr * yr <= DISK_LIMIT {
                (Point { x: x as i64, y: y as i64 }, true)
            } else {
                (Point { x: 0, y: 0 }, false)
            }
        }
    }
}

/// Computes `isect(l1, l2, diag, w, h)`.
fn isect_exec(gv: &GradientVotesResult, l1: Line, l2: Line) -> (r: (Point, bool))
    requires
        gv.wf(),
        l1.bin <= 23200,
        l2.bin <= 23200,
    ensures
        r == isect(l1, l2, gv.diag as int, gv.width as int, gv.height as int),
        r.1 ==> -ISECT_LIMIT <= r.0.x <= ISECT_LIMIT && -ISECT_LIMIT <= r.0.y <= ISECT_LIMIT,
        !r.1 ==> r.0.x == 0 && r.0.y == 0,
{
    proof {
        crate::trig::lemma_bin_bounds(l1.angle as int);
        crate::trig::lemma_bin_bounds(l2.angle as int);
    }
    let a: i64 = gv.cos_t[l1.angle as usize];
    let b: i64 = -gv.sin_t[l1.angle as usize];
    let c: i64 = (2 * (l1.bin as i64) - (gv.diag as i64)) * 65536;
    let d: i64 = gv.cos_t[l2.angle as usize];
    let e: i64 = -gv.sin_t[l2.angle as usize];
    let f: i64 = (2 * (l2.bin as i64) - (gv.diag as i64)) * 65536;
    assert(-65536 <= a <= 65536 && -65536 <= b <= 65536 && -65536 <= d <= 65536 && -65536 <= e
        <= 65536 && -3100000000 <= c <= 3100000000 && -3100000000 <= f <= 3100000000);
    assert(-65536 * 65536 <= a * e <= 65536 * 65536 && -65536 * 65536 <= d * b <= 65536 * 65536)
        by (nonlinear_arith)
        requires
            -65536 <= a <= 65536,
            -65536 <= b <= 65536,
            -65536 <= d <= 65536,
            -65536 <= e <= 65536,
    ;
    let denom: i64 = a * e - d * b;
    if denom == 0 || a == 0 {
        return (Point { x: 0, y: 0 }, false);
    }
    proof {
        assert(-0x1000000000000 <= (a as i128) * (f as i128) <= 0x1000000000000
            && -0x1000000000000 <= (d as i128) * (c as i128) <= 0x1000000000000)
            by (nonlinear_arith)
            requires
                -65536 <= a <= 65536,
                -65536 <= d <= 65536,
                -3100000000 <= c <= 3100000000,
                -3100000000 <= f <= 3100000000,
        ;
    }
    let ynum: i128 = ((a as i128) * (f as i128) - (d as i128) * (c as i128)) * 65536;
    let y: i128 = crate::num::div_round_to_zero(ynum, denom as i128);
    assert(-0x20000000000000000000 <= y <= 0x20000000000000000000);
    proof {
        assert(-0x200000000000000000000000000 <= y * (b as i128) <= 0x200000000000000000000000000)
            by (nonlinear_arith)
            requires
                -0x20000000000000000000 <= y <= 0x20000000000000000000,
                -65536 <= b <= 65536,
        ;
    }
    let xnum: i128 = (c as i128) * 65536 - y * (b as i128);
    let x: i128 = crate::num::div_round_to_zero(xnum, a as i128);
    if x < -(ISECT_LIMIT as i128) || x > ISECT_LIMIT as i128 || y < -(ISECT_LIMIT as i128) || y
        > ISECT_LIMIT as i128 {
        return (Point { x: 0, y: 0 }, false);
    }
    let wq: i128 = (gv.width as i128) * 65536;
    let hq: i128 = (gv.height as i128) * 65536;
    assert(0x50000 <= wq <= 0x40000000 && 0x50000 <= hq <= 0x40000000);
    proof {
        assert(-(0x300000000 * wq) <= (2 * x - wq) * 65536 <= 0x300000000 * wq && -(0x300000000
            * hq) <= (2 * y - hq) * 65536 <= 0x300000000 * hq) by (nonlinear_arith)
            requires
                -0x1_0000_0000 <= x <= 0x1_0000_0000,
                -0x1_0000_0000 <= y <= 0x1_0000_0000,
                0x50000 <= wq <= 0x40000000,
                0x50000 <= hq <= 0x40000000,
        ;
        crate::num::lemma_tdiv_bounds(((2 * x - wq) * 65536) as int, wq as int, 0x300000000);
        crate::num::lemma_tdiv_bounds(((2 * y - hq) * 65536) as int, hq as int, 0x300000000);
    }
    let xr: i128 = crate::num::div_round_to_zero((2 * x - wq) * 65536, wq);
    let yr: i128 = crate::num::div_round_to_zero((2 * y - hq) * 65536, hq);
    assert(-0x300000000 <= xr <= 0x300000000 && -0x300000000 <= yr <= 0x300000000);
    proof {
        assert(0 <= xr * xr <= 0x300000000 * 0x300000000 && 0 <= yr * yr <= 0x300000000
            * 0x300000000) by (nonlinear_arith)
            requires
                -0x300000000 <= xr <= 0x300000000,
                -0x300000000 <= yr <= 0x300000000,
        ;
    }
    if xr * xr + yr * yr <= DISK_LIMIT as i128 {
        (Point { x: x as i64, y: y as i64 }, true)
    } else {
        (Point { x: 0, y: 0 }, false)
    }
}

/// Absolute value.
pub open spec fn iabs(x: int) -> int {
    if x >= 0 {
        x
    } else {
        -x
    }
}

/// The summed gradient evidence along a Bresenham traversal from `(x, y)`
/// to `(xf, yf)`: every in-bounds pixel contributes its gradient magnitude
/// minus the mean. The step that moves neither coordinate ends the
/// traversal (with these error terms it never occurs, but it makes the
/// traversal total).
pub open spec fn bres_acc(
    gb: Seq<i64>,
    w: int,
    h: int,
    avg: int,
    x: int,
    y: int,
    xf: int,
    yf: int,
    dx: int,
    dy: int,
    err: int,
) -> int
    decreases iabs(xf - x) + iabs(yf - y),
{
    if x == xf && y == yf {
        0
    } else {
        let c = if 0 <= x < w && 0 <= y < h {
            gb[y * w + x] - avg
        } else {
            0
        };
        let e2 = 2 * err;
        let mx = x != xf && e2 >= dy;
        let my = y != yf && e2 <= dx;
        if !mx && !my {
            c
        } else {
            let nx = if mx {
                if x < xf {
                    x + 1
                } else {
                    x - 1
                }
            } else {
                x
            };
            let e1 = if mx {
                err + dy
            } else {
                err
            };
            let ny = if my {
                if y < yf {
                    y + 1
                } else {
                    y - 1
                }
            } else {
                y
            };
            let en = if my {
                e1 + dx
            } else {
                e1
            };
            c + bres_acc(gb, w, h, avg, nx, ny, xf, yf, dx, dy, en)
        }
    }
}

/// The edge evidence of one quad side: the traversal sum, scaled by 2^12
/// and divided by `len^0.6` (computed as the fifth root of
/// `len^3 * 2^20`), clamped below at zero.
pub open spec fn seg_score(gb: Seq<i64>, w: int, h: int, avg: int, a: Point, b: Point) -> int {
    let x0 = tdiv(a.x as int, 65536);
    let y0 = tdiv(a.y as int, 65536);
    let xf = tdiv(b.x as int, 65536);
    let yf = tdiv(b.y as int, 65536);
    let dx = iabs(xf - x0);
    let dy = -iabs(yf - y0);
    let acc = bres_acc(gb, w, h, avg, x0, y0, xf, yf, dx, dy, dx + dy);
    let len = dx - dy;
    if len == 0 || acc <= 0 {
        0
    } else {
        acc * 4096 / (root5_floor((len * len * len * 0x100000) as nat) as int)
    }
}

/// Computes `seg_score` for one side.
#[verifier::rlimit(100)]
#[verifier::spinoff_prover]
fn seg_score_exec(gv: &GradientVotesResult, a: Point, b: Point) -> (r: i64)
    requires
        gv.wf(),
        -ISECT_LIMIT <= a.x <= ISECT_LIMIT,
        -ISECT_LIMIT <= a.y <= ISECT_LIMIT,
        -ISECT_LIMIT <= b.x <= ISECT_LIMIT,
        -ISECT_LIMIT <= b.y <= ISECT_LIMIT,
    ensures
        r == seg_score(
            gv.grad_buf@,
            gv.width as int,
            gv.height as int,
            gv.avg_grad as int,
            a,
            b,
        ),
        0 <= r <= 0x200000000000,
{
    let ghost gb = gv.grad_buf@;
    let ghost wi = gv.width as int;
    let ghost hi = gv.height as int;
    let ghost avgi = gv.avg_grad as int;
    let gn = gv.grad_buf.len();
    let x0: i64 = a.x / 65536;
    let y0: i64 = a.y / 65536;
    let xf: i64 = b.x / 65536;
    let yf: i64 = b.y / 65536;
    assert(x0 == tdiv(a.x as int, 65536) && y0 == tdiv(a.y as int, 65536) && xf == tdiv(
        b.x as int,
        65536,
    ) && yf == tdiv(b.y as int, 65536));
    assert(-65536 <= x0 <= 65536 && -65536 <= y0 <= 65536 && -65536 <= xf <= 65536 && -65536 <= yf
        <= 65536);
    let dx: i64 = if xf >= x0 {
        xf - x0
    } else {
        x0 - xf
    };
    let dy: i64 = if yf >= y0 {
        y0 - yf
    } else {
        yf - y0
    };
    let mut x = x0;
    let mut y = y0;
    let mut err: i64 = dx + dy;
    let mut acc: i64 = 0;
    let ghost total = bres_acc(gb, wi, hi, avgi, x0 as int, y0 as int, xf as int, yf as int,
        dx as int, dy as int, (dx + dy) as int);
    let mut steps: i64 = 0;
    while !(x == xf && y == yf)
        invariant_except_break
            gv.wf(),
            gb == gv.grad_buf@,
            wi == gv.width as int,
            hi == gv.height as int,
            avgi == gv.avg_grad as int,
            gn == gb.len(),
            -65536 <= x0 <= 65536,
            -65536 <= y0 <= 65536,
            -65536 <= xf <= 65536,
            -65536 <= yf <= 65536,
            0 <= dx <= 131072,
            -131072 <= dy <= 0,
            if x0 <= xf {
                x0 <= x <= xf
            } else {
                xf <= x <= x0
            },
            if y0 <= yf {
                y0 <= y <= yf
            } else {
                yf <= y <= y0
            },
            -0x100000000 <= err <= 0x100000000,
            0 <= steps,
            steps + iabs(xf as int - x) + iabs(yf as int - y) <= iabs(xf as int - x0) + iabs(
                yf as int - y0,
            ),
            -131072 * steps <= acc <= 131072 * steps,
            total == acc + bres_acc(gb, wi, hi, avgi, x as int, y as int, xf as int, yf as int,
                dx as int, dy as int, err as int),
        ensures
            total == acc,
            -0x9_0000_0000 <= acc <= 0x9_0000_0000,
        decreases iabs(xf as int - x) + iabs(yf as int - y),
    {
        let c: i64 = if 0 <= x && 0 <= y && x < gv.width as i64 && y < gv.height as i64 {
            proof {
                assert(0 <= (y as int) * wi + x < hi * wi) by (nonlinear_arith)
                    requires
                        0 <= x < wi,
                        0 <= y < hi,
                ;
                assert(hi * wi == gb.len());
            }
            gv.grad_buf[(y as usize) * gv.width + (x as usize)] - gv.avg_grad
        } else {
            0
        };
        assert(-131072 <= c <= 131072);
        let e2 = 2 * err;
        let mx = x != xf && e2 >= dy;
        let my = y != yf && e2 <= dx;
        if !mx && !my {
            acc = acc + c;
            proof {
                assert(total == acc);
            }
            break ;
        }
        if mx {
            if x < xf {
                x = x + 1;
            } else {
                x = x - 1;
            }
            err = err + dy;
        }
        if my {
            if y < yf {
                y = y + 1;
            } else {
                y = y - 1;
            }
            err = err + dx;
        }
        acc = acc + c;
        steps = steps + 1;
    }
    let len: i64 = dx - dy;
    if len == 0 || acc <= 0 {
        return 0;
    }
    proof {
        assert(1 <= len <= 262144);
        assert(1 <= len * len && len * len <= 262144 * 262144 && 1 <= len * len * len && len * len
            * len <= 262144 * 262144 * 262144 && 0x100000 <= len * len * len * 0x100000 && len
            * len * len * 0x100000 <= 262144 * 262144 * 262144 * 0x100000) by (nonlinear_arith)
            requires
                1 <= len <= 262144,
        ;
        assert(262144 * 262144 * 262144 * 0x100000 < p5(0x2000000)) by (nonlinear_arith);
    }
    let lv: u128 = (len as u128) * (len as u128) * (len as u128) * 0x100000;
    assert(lv == len * len * len * 0x100000);
    let l06 = crate::num::iroot5(lv);
    proof {
        crate::num::lemma_root5_unique(lv as nat, l06 as nat);
        assert(l06 >= 16) by {
            assert(p5(16) == 0x100000) by (nonlinear_arith);
            if l06 < 16 {
                assert(p5(l06 as int + 1) <= p5(16)) by (nonlinear_arith)
                    requires
                        1 <= l06 as int + 1 <= 16,
                ;
                assert(lv < p5(l06 as int + 1));
                assert(false);
            }
        }
        assert(acc * 4096 <= 0x9_0000_0000 * 4096) by (nonlinear_arith)
            requires
                0 < acc <= 0x9_0000_0000,
        ;
        vstd::arithmetic::div_mod::lemma_div_is_ordered(
            (acc * 4096) as int,
            0x9_0000_0000int * 4096,
            l06 as int,
        );
        vstd::arithmetic::div_mod::lemma_div_is_ordered_by_denominator(
            0x9_0000_0000int * 4096,
            16,
            l06 as int,
        );
        vstd::arithmetic::div_mod::lemma_div_pos_is_pos((acc * 4096) as int, l06 as int);
    }
    let r = acc * 4096 / (l06 as i64);
    r
}

/// The deviation of two lines from perpendicular, squared and offset:
/// `err^2 + 3` where `err` is how far the cyclic orientation gap is from a
/// half-turn of the orientation circle (128 bins).
pub open spec fn right_err(l1: Line, l2: Line) -> int {
    let d = (l1.angle - l2.angle) % 256;
    let e = iabs(d - 128);
    e * e + 3
}

/// Computes `right_err(l1, l2)`.
fn right_err_exec(l1: Line, l2: Line) -> (r: i64)
    ensures
        r == right_err(l1, l2),
        3 <= r <= 16387,
{
    let d: i64 = if l1.angle >= l2.angle {
        (l1.angle - l2.angle) as i64
    } else {
        256 - ((l2.angle - l1.angle) as i64)
    };
    assert(d == (l1.angle - l2.angle) % 256);
    let e: i64 = if d >= 128 {
        d - 128
    } else {
        128 - d
    };
    assert(0 <= e * e <= 16384) by (nonlinear_arith)
        requires
            0 <= e <= 128,
    ;
    e * e + 3
}

/// One corner passes the inside-ish disk test (with the coordinate guard
/// that the intersection primitive applies first).
pub open spec fn inside_disk(p: Point, w: int, h: int) -> bool {
    &&& -ISECT_LIMIT <= p.x <= ISECT_LIMIT
    &&& -ISECT_LIMIT <= p.y <= ISECT_LIMIT
    &&& {
        let xr = tdiv((2 * p.x - w * 65536) * 65536, w * 65536);
        let yr = tdiv((2 * p.y - h * 65536) * 65536, h * 65536);
        xr * xr + yr * yr <= DISK_LIMIT
    }
}

/// The score of one assembled quad: squared edge evidence, divided by the
/// right-angle penalty `(e12^2+e23^2+e34^2+e41^2)^0.1` and multiplied by
/// the line-strength factor `(s1*s2*s3*s4)^0.1`, everything in integer
/// root arithmetic.
pub open spec fn quad_score(
    gb: Seq<i64>,
    w: int,
    h: int,
    avg: int,
    q: Quad,
    l1: Line,
    l2: Line,
    l3: Line,
    l4: Line,
) -> int {
    let et = seg_score(gb, w, h, avg, q.a, q.b) + seg_score(gb, w, h, avg, q.b, q.c) + seg_score(
        gb,
        w,
        h,
        avg,
        q.c,
        q.d,
    ) + seg_score(gb, w, h, avg, q.d, q.a);
    let edge_sq = et * et;
    let e12 = right_err(l1, l2);
    let e23 = right_err(l2, l3);
    let e34 = right_err(l3, l4);
    let e41 = right_err(l4, l1);
    let sarg = e12 * e12 + e23 * e23 + e34 * e34 + e41 * e41;
    let adenom = root10_floor((sarg * 0x100_0000_0000) as nat) as int;
    let q1 = sqrt_floor((l1.score * l2.score) as nat) as int;
    let q2 = sqrt_floor((l3.score * l4.score) as nat) as int;
    let lf = root5_floor((q1 * q2 * 0x100000) as nat) as int;
    edge_sq * lf / adenom
}

/// Computes `quad_score`.
#[verifier::rlimit(100)]
#[verifier::spinoff_prover]
fn quad_score_exec(gv: &GradientVotesResult, q: Quad, l1: Line, l2: Line, l3: Line, l4: Line) -> (r:
    i128)
    requires
        gv.wf(),
        inside_disk(q.a, gv.width as int, gv.height as int),
        inside_disk(q.b, gv.width as int, gv.height as int),
        inside_disk(q.c, gv.width as int, gv.height as int),
        inside_disk(q.d, gv.width as int, gv.height as int),
        0 <= l1.score <= 0x4000_0000_0000,
        0 <= l2.score <= 0x4000_0000_0000,
        0 <= l3.score <= 0x4000_0000_0000,
        0 <= l4.score <= 0x4000_0000_0000,
    ensures
        r == quad_score(
            gv.grad_buf@,
            gv.width as int,
            gv.height as int,
            gv.avg_grad as int,
            q,
            l1,
            l2,
            l3,
            l4,
        ),
        0 <= r,
{
    let s1 = seg_score_exec(gv, q.a, q.b);
    let s2 = seg_score_exec(gv, q.b, q.c);
    let s3 = seg_score_exec(gv, q.c, q.d);
    let s4 = seg_score_exec(gv, q.d, q.a);
    let et: i64 = s1 + s2 + s3 + s4;
    assert(0 <= et <= 0x800000000000);
    proof {
        assert(0 <= (et as i128) * (et as i128) <= 0x800000000000 * 0x800000000000)
            by (nonlinear_arith)
            requires
                0 <= et <= 0x800000000000,
        ;
    }
    let edge_sq: i128 = (et as i128) * (et as i128);
    let e12 = right_err_exec(l1, l2);
    let e23 = right_err_exec(l2, l3);
    let e34 = right_err_exec(l3, l4);
    let e41 = right_err_exec(l4, l1);
    proof {
        assert(9 <= e12 * e12 <= 16387 * 16387 && 9 <= e23 * e23 <= 16387 * 16387 && 9 <= e34
            * e34 <= 16387 * 16387 && 9 <= e41 * e41 <= 16387 * 16387) by (nonlinear_arith)
            requires
                3 <= e12 <= 16387,
                3 <= e23 <= 16387,
                3 <= e34 <= 16387,
                3 <= e41 <= 16387,
        ;
    }
    let sarg: i64 = e12 * e12 + e23 * e23 + e34 * e34 + e41 * e41;
    assert(36 <= sarg <= 1074200000);
    proof {
        assert(36 * 0x100_0000_0000 <= (sarg as i128) * 0x100_0000_0000 && (sarg as i128)
            * 0x100_0000_0000 <= 1074200000 * 0x100_0000_0000) by (nonlinear_arith)
            requires
                36 <= sarg <= 1074200000,
        ;
        assert(1074200000 * 0x100_0000_0000 < p10(0x1000)) by (nonlinear_arith);
    }
    let av: u128 = (sarg as u128) * 0x100_0000_0000;
    let adenom = crate::num::iroot10(av);
    proof {
        crate::num::lemma_root10_unique(av as nat, adenom as nat);
        assert(adenom >= 1) by {
            assert(p10(1) == 1) by (nonlinear_arith);
            if adenom == 0 {
                assert(av < p10(1));
            }
        }
    }
    proof {
        assert(0 <= (l1.score as u128) * (l2.score as u128) <= 0x4000_0000_0000
            * 0x4000_0000_0000 && 0 <= (l3.score as u128) * (l4.score as u128) <= 0x4000_0000_0000
            * 0x4000_0000_0000) by (nonlinear_arith)
            requires
                0 <= l1.score <= 0x4000_0000_0000,
                0 <= l2.score <= 0x4000_0000_0000,
                0 <= l3.score <= 0x4000_0000_0000,
                0 <= l4.score <= 0x4000_0000_0000,
        ;
    }
    let p12: u128 = (l1.score as u128) * (l2.score as u128);
    let p34: u128 = (l3.score as u128) * (l4.score as u128);
    let q1 = crate::num::isqrt(p12);
    let q2 = crate::num::isqrt(p34);
    proof {
        crate::geom::lemma_sqrt_unique(p12 as nat, q1 as nat);
        crate::geom::lemma_sqrt_unique(p34 as nat, q2 as nat);
        assert(q1 <= 0x4000_0000_0000 && q2 <= 0x4000_0000_0000) by (nonlinear_arith)
            requires
                q1 as int * q1 as int <= p12,
                q2 as int * q2 as int <= p34,
                p12 <= 0x4000_0000_0000 * 0x4000_0000_0000,
                p34 <= 0x4000_0000_0000 * 0x4000_0000_0000,
                0 <= q1,
                0 <= q2,
        ;
        assert(0 <= q1 * q2 && q1 * q2 <= 0x4000_0000_0000 * 0x4000_0000_0000 && q1 * q2 * 0x100000
            <= 0x4000_0000_0000 * 0x4000_0000_0000 * 0x100000) by (nonlinear_arith)
            requires
                0 <= q1 <= 0x4000_0000_0000,
                0 <= q2 <= 0x4000_0000_0000,
        ;
        assert(0x4000_0000_0000 * 0x4000_0000_0000 * 0x100000 < p5(0x2000000))
            by (nonlinear_arith);
    }
    let lv: u128 = q1 * q2 * 0x100000;
    let lf = crate::num::iroot5(lv);
    proof {
        crate::num::lemma_root5_unique(lv as nat, lf as nat);
        assert(0 <= edge_sq * (lf as i128) <= 0x800000000000 * 0x800000000000 * 0x2000000)
            by (nonlinear_arith)
            requires
                0 <= edge_sq <= 0x800000000000 * 0x800000000000,
                0 <= lf < 0x2000000,
        ;
        vstd::arithmetic::div_mod::lemma_div_pos_is_pos(
            (edge_sq * (lf as i128)) as int,
            adenom as int,
        );
    }
    let r: i128 = edge_sq * (lf as i128) / (adenom as i128);
    r
}

/// `sq` is a positively scored quad whose corners all pass the inside-ish
/// test.
pub open spec fn sq_ok(sq: ScoredQuad, w: int, h: int) -> bool {
    &&& sq.score > 0
    &&& inside_disk(sq.quad.a, w, h)
    &&& inside_disk(sq.quad.b, w, h)
    &&& inside_disk(sq.quad.c, w, h)
    &&& inside_disk(sq.quad.d, w, h)
}

/// The candidate (none or one) that four lines assemble into: the six
/// pairwise intersections must realize one of the three valid topologies,
/// which fixes the corner order and the adjacent-line cycle; zero-scored
/// candidates are dropped.
pub open spec fn quad_case(
    gb: Seq<i64>,
    w: int,
    h: int,
    avg: int,
    diag: int,
    l1: Line,
    l2: Line,
    l3: Line,
    l4: Line,
) -> Seq<ScoredQuad> {
    let r12 = isect(l1, l2, diag, w, h);
    let r13 = isect(l1, l3, diag, w, h);
    let r23 = isect(l2, l3, diag, w, h);
    let r14 = isect(l1, l4, diag, w, h);
    let r24 = isect(l2, l4, diag, w, h);
    let r34 = isect(l3, l4, diag, w, h);
    if r12.1 && r13.1 && !r23.1 && !r14.1 && r24.1 && r34.1 {
        let q = Quad { a: r12.0, b: r13.0, c: r34.0, d: r24.0 };
        let sc = quad_score(gb, w, h, avg, q, l1, l3, l4, l2);
        if 0 < sc < 0x8000_0000_0000_0000_0000_0000_0000_0000 {
            seq![ScoredQuad { quad: q, score: sc as i128 }]
        } else {
            Seq::empty()
        }
    } else if r12.1 && !r13.1 && r23.1 && r14.1 && !r24.1 && r34.1 {
        let q = Quad { a: r12.0, b: r23.0, c: r34.0, d: r14.0 };
        let sc = quad_score(gb, w, h, avg, q, l2, l3, l4, l1);
        if 0 < sc < 0x8000_0000_0000_0000_0000_0000_0000_0000 {
            seq![ScoredQuad { quad: q, score: sc as i128 }]
        } else {
            Seq::empty()
        }
    } else if !r12.1 && r13.1 && r23.1 && r14.1 && r24.1 && !r34.1 {
        let q = Quad { a: r13.0, b: r23.0, c: r24.0, d: r14.0 };
        let sc = quad_score(gb, w, h, avg, q, l3, l2, l4, l1);
        if 0 < sc < 0x8000_0000_0000_0000_0000_0000_0000_0000 {
            seq![ScoredQuad { quad: q, score: sc as i128 }]
        } else {
            Seq::empty()
        }
    } else {
        Seq::empty()
    }
}

/// The candidates from quadruples `(i, j, k, m')` with `m' >= m`.
pub open spec fn docs_m(
    gb: Seq<i64>,
    w: int,
    h: int,
    avg: int,
    diag: int,
    ls: Seq<Line>,
    i: int,
    j: int,
    k: int,
    m: int,
) -> Seq<ScoredQuad>
    decreases ls.len() - m,
{
    if m >= ls.len() || m < 0 {
        Seq::empty()
    } else {
        quad_case(gb, w, h, avg, diag, ls[i], ls[j], ls[k], ls[m]) + docs_m(
            gb,
            w,
            h,
            avg,
            diag,
            ls,
            i,
            j,
            k,
            m + 1,
        )
    }
}

/// The candidates from quadruples `(i, j, k', _)` with `k' >= k`.
pub open spec fn docs_k(
    gb: Seq<i64>,
    w: int,
    h: int,
    avg: int,
    diag: int,
    ls: Seq<Line>,
    i: int,
    j: int,
    k: int,
) -> Seq<ScoredQuad>
    decreases ls.len() - k,
{
    if k >= ls.len() || k < 0 {
        Seq::empty()
    } else {
        docs_m(gb, w, h, avg, diag, ls, i, j, k, k + 1) + docs_k(
            gb,
            w,
            h,
            avg,
            diag,
            ls,
            i,
            j,
            k + 1,
        )
    }
}

/// The candidates from quadruples `(i, j', _, _)` with `j' >= j`.
pub open spec fn docs_j(
    gb: Seq<i64>,
    w: int,
    h: int,
    avg: int,
    diag: int,
    ls: Seq<Line>,
    i: int,
    j: int,
) -> Seq<ScoredQuad>
    decreases ls.len() - j,
{
    if j >= ls.len() || j < 0 {
        Seq::empty()
    } else {
        docs_k(gb, w, h, avg, diag, ls, i, j, j + 1) + docs_j(gb, w, h, avg, diag, ls, i, j + 1)
    }
}

/// The candidates from quadruples `(i', _, _, _)` with `i' >= i`.
pub open spec fn docs_i(
    gb: Seq<i64>,
    w: int,
    h: int,
    avg: int,
    diag: int,
    ls: Seq<Line>,
    i: int,
) -> Seq<ScoredQuad>
    decreases ls.len() - i,
{
    if i >= ls.len() || i < 0 {
        Seq::empty()
    } else {
        docs_j(gb, w, h, avg, diag, ls, i, i + 1) + docs_i(gb, w, h, avg, diag, ls, i + 1)
    }
}

/// Stable descending insertion of a scored quad.
pub open spec fn qinsert_desc(s: Seq<ScoredQuad>, x: ScoredQuad) -> Seq<ScoredQuad>
    decreases s.len(),
{
    if s.len() == 0 {
        seq![x]
    } else if s.last().score < x.score {
        qinsert_desc(s.drop_last(), x).push(s.last())
    } else {
        s.push(x)
    }
}

/// Stable insertion sort of scored quads by score, descending.
pub open spec fn qsort_desc(s: Seq<ScoredQuad>) -> Seq<ScoredQuad>
    decreases s.len(),
{
    if s.len() == 0 {
        Seq::empty()
    } else {
        qinsert_desc(qsort_desc(s.drop_last()), s.last())
    }
}

/// Every member of every level of the enumeration is a well-scored,
/// inside-cornered quad.
pub proof fn lemma_docs_ok(
    gb: Seq<i64>,
    w: int,
    h: int,
    avg: int,
    diag: int,
    ls: Seq<Line>,
    i: int,
)
    ensures
        forall|m: int|
            0 <= m < docs_i(gb, w, h, avg, diag, ls, i).len() ==> sq_ok(
                #[trigger] docs_i(gb, w, h, avg, diag, ls, i)[m],
                w,
                h,
            ),
    decreases ls.len() - i,
{
    if 0 <= i < ls.len() {
        lemma_docs_j_ok(gb, w, h, avg, diag, ls, i, i + 1);
        lemma_docs_ok(gb, w, h, avg, diag, ls, i + 1);
        let first = docs_j(gb, w, h, avg, diag, ls, i, i + 1);
        let rest = docs_i(gb, w, h, avg, diag, ls, i + 1);
        assert forall|m: int|
            0 <= m < docs_i(gb, w, h, avg, diag, ls, i).len() implies sq_ok(
            #[trigger] docs_i(gb, w, h, avg, diag, ls, i)[m],
            w,
            h,
        ) by {
            if m < first.len() {
                assert(docs_i(gb, w, h, avg, diag, ls, i)[m] == first[m]);
            } else {
                assert(docs_i(gb, w, h, avg, diag, ls, i)[m] == rest[m - first.len()]);
            }
        }
    }
}

proof fn lemma_docs_j_ok(
    gb: Seq<i64>,
    w: int,
    h: int,
    avg: int,
    diag: int,
    ls: Seq<Line>,
    i: int,
    j: int,
)
    ensures
        forall|m: int|
            0 <= m < docs_j(gb, w, h, avg, diag, ls, i, j).len() ==> sq_ok(
                #[trigger] docs_j(gb, w, h, avg, diag, ls, i, j)[m],
                w,
                h,
            ),
    decreases ls.len() - j,
{
    if 0 <= j < ls.len() {
        lemma_docs_k_ok(gb, w, h, avg, diag, ls, i, j, j + 1);
        lemma_docs_j_ok(gb, w, h, avg, diag, ls, i, j + 1);
        let first = docs_k(gb, w, h, avg, diag, ls, i, j, j + 1);
        let rest = docs_j(gb, w, h, avg, diag, ls, i, j + 1);
        assert forall|m: int|
            0 <= m < docs_j(gb, w, h, avg, diag, ls, i, j).len() implies sq_ok(
            #[trigger] docs_j(gb, w, h, avg, diag, ls, i, j)[m],
            w,
            h,
        ) by {
            if m < first.len() {
                assert(docs_j(gb, w, h, avg, diag, ls, i, j)[m] == first[m]);
            } else {
                assert(docs_j(gb, w, h, avg, diag, ls, i, j)[m] == rest[m - first.len()]);
            }
        }
    }
}

proof fn lemma_docs_k_ok(
    gb: Seq<i64>,
    w: int,
    h: int,
    avg: int,
    diag: int,
    ls: Seq<Line>,
    i: int,
    j: int,
    k: int,
)
    ensures
        forall|m: int|
            0 <= m < docs_k(gb, w, h, avg, diag, ls, i, j, k).len() ==> sq_ok(
                #[trigger] docs_k(gb, w, h, avg, diag, ls, i, j, k)[m],
                w,
                h,
            ),
    decreases ls.len() - k,
{
    if 0 <= k < ls.len() {
        lemma_docs_m_ok(gb, w, h, avg, diag, ls, i, j, k, k + 1);
        lemma_docs_k_ok(gb, w, h, avg, diag, ls, i, j, k + 1);
        let first = docs_m(gb, w, h, avg, diag, ls, i, j, k, k + 1);
        let rest = docs_k(gb, w, h, avg, diag, ls, i, j, k + 1);
        assert forall|m: int|
            0 <= m < docs_k(gb, w, h, avg, diag, ls, i, j, k).len() implies sq_ok(
            #[trigger] docs_k(gb, w, h, avg, diag, ls, i, j, k)[m],
            w,
            h,
        ) by {
            if m < first.len() {
                assert(docs_k(gb, w, h, avg, diag, ls, i, j, k)[m] == first[m]);
            } else {
                assert(docs_k(gb, w, h, avg, diag, ls, i, j, k)[m] == rest[m - first.len()]);
            }
        }
    }
}

/// An intersection reported inside really satisfies the disk predicate.
proof fn lemma_isect_inside(l1: Line, l2: Line, diag: int, w: int, h: int)
    ensures
        isect(l1, l2, diag, w, h).1 ==> inside_disk(isect(l1, l2, diag, w, h).0, w, h),
{
}

proof fn lemma_quad_case_ok(
    gb: Seq<i64>,
    w: int,
    h: int,
    avg: int,
    diag: int,
    l1: Line,
    l2: Line,
    l3: Line,
    l4: Line,
)
    ensures
        forall|n: int|
            0 <= n < quad_case(gb, w, h, avg, diag, l1, l2, l3, l4).len() ==> sq_ok(
                #[trigger] quad_case(gb, w, h, avg, diag, l1, l2, l3, l4)[n],
                w,
                h,
            ),
{
    lemma_isect_inside(l1, l2, diag, w, h);
    lemma_isect_inside(l1, l3, diag, w, h);
    lemma_isect_inside(l2, l3, diag, w, h);
    lemma_isect_inside(l1, l4, diag, w, h);
    lemma_isect_inside(l2, l4, diag, w, h);
    lemma_isect_inside(l3, l4, diag, w, h);
}

proof fn lemma_docs_m_ok(
    gb: Seq<i64>,
    w: int,
    h: int,
    avg: int,
    diag: int,
    ls: Seq<Line>,
    i: int,
    j: int,
    k: int,
    m: int,
)
    ensures
        forall|n: int|
            0 <= n < docs_m(gb, w, h, avg, diag, ls, i, j, k, m).len() ==> sq_ok(
                #[trigger] docs_m(gb, w, h, avg, diag, ls, i, j, k, m)[n],
                w,
                h,
            ),
    decreases ls.len() - m,
{
    if 0 <= m < ls.len() {
        lemma_docs_m_ok(gb, w, h, avg, diag, ls, i, j, k, m + 1);
        lemma_quad_case_ok(gb, w, h, avg, diag, ls[i], ls[j], ls[k], ls[m]);
        let qc = quad_case(gb, w, h, avg, diag, ls[i], ls[j], ls[k], ls[m]);
        let rest = docs_m(gb, w, h, avg, diag, ls, i, j, k, m + 1);
        assert forall|n: int|
            0 <= n < docs_m(gb, w, h, avg, diag, ls, i, j, k, m).len() implies sq_ok(
            #[trigger] docs_m(gb, w, h, avg, diag, ls, i, j, k, m)[n],
            w,
            h,
        ) by {
            if n < qc.len() {
                assert(docs_m(gb, w, h, avg, diag, ls, i, j, k, m)[n] == qc[n]);
            } else {
                assert(docs_m(gb, w, h, avg, diag, ls, i, j, k, m)[n] == rest[n - qc.len()]);
            }
        }
    }
}

/// Quad insertion keeps `sq_ok` of every member.
pub proof fn lemma_qinsert_ok(s: Seq<ScoredQuad>, x: ScoredQuad, w: int, h: int)
    requires
        forall|m: int| 0 <= m < s.len() ==> sq_ok(#[trigger] s[m], w, h),
        sq_ok(x, w, h),
    ensures
        qinsert_desc(s, x).len() == s.len() + 1,
        forall|m: int|
            0 <= m < qinsert_desc(s, x).len() ==> sq_ok(#[trigger] qinsert_desc(s, x)[m], w, h),
    decreases s.len(),
{
    let r = qinsert_desc(s, x);
    if s.len() == 0 {
        assert(r =~= seq![x]);
    } else if s.last().score < x.score {
        assert(forall|m: int| 0 <= m < s.drop_last().len() ==> sq_ok(#[trigger] s.drop_last()[m], w, h));
        lemma_qinsert_ok(s.drop_last(), x, w, h);
        let inner = qinsert_desc(s.drop_last(), x);
        assert forall|m: int| 0 <= m < r.len() implies sq_ok(#[trigger] r[m], w, h) by {
            if m < r.len() - 1 {
                assert(r[m] == inner[m]);
            } else {
                assert(r[m] == s[s.len() - 1]);
            }
        }
    } else {
        assert forall|m: int| 0 <= m < r.len() implies sq_ok(#[trigger] r[m], w, h) by {
            if m < r.len() - 1 {
                assert(r[m] == s[m]);
            }
        }
    }
}

/// Quad sorting keeps `sq_ok` of every member.
pub proof fn lemma_qsort_ok(s: Seq<ScoredQuad>, w: int, h: int)
    requires
        forall|m: int| 0 <= m < s.len() ==> sq_ok(#[trigger] s[m], w, h),
    ensures
        qsort_desc(s).len() == s.len(),
        forall|m: int| 0 <= m < qsort_desc(s).len() ==> sq_ok(#[trigger] qsort_desc(s)[m], w, h),
    decreases s.len(),
{
    if s.len() > 0 {
        assert(forall|m: int| 0 <= m < s.drop_last().len() ==> sq_ok(#[trigger] s.drop_last()[m], w, h));
        lemma_qsort_ok(s.drop_last(), w, h);
        lemma_qinsert_ok(qsort_desc(s.drop_last()), s.last(), w, h);
    }
}

/// The split point of a stable descending quad insertion.
proof fn lemma_qinsert_split(s: Seq<ScoredQuad>, x: ScoredQuad, k: int)
    requires
        0 <= k <= s.len(),
        forall|m: int| k <= m < s.len() ==> (#[trigger] s[m]).score < x.score,
        k > 0 ==> s[k - 1].score >= x.score,
    ensures
        qinsert_desc(s, x) == s.take(k) + seq![x] + s.skip(k),
    decreases s.len(),
{
    if k == s.len() {
        if s.len() == 0 {
            assert(qinsert_desc(s, x) =~= s.take(k) + seq![x] + s.skip(k));
        } else {
            assert(qinsert_desc(s, x) == s.push(x));
            assert(s.push(x) =~= s.take(k) + seq![x] + s.skip(k));
        }
    } else {
        assert(s[s.len() - 1].score < x.score);
        let inner = qinsert_desc(s.drop_last(), x);
        assert(forall|m: int|
            k <= m < s.drop_last().len() ==> (#[trigger] s.drop_last()[m]).score < x.score);
        lemma_qinsert_split(s.drop_last(), x, k);
        assert(qinsert_desc(s, x) == inner.push(s.last()));
        assert((s.drop_last().take(k) + seq![x] + s.drop_last().skip(k)).push(s.last()) =~= s.take(
            k,
        ) + seq![x] + s.skip(k));
    }
}

/// Quad sorting preserves length.
proof fn lemma_qsort_len(s: Seq<ScoredQuad>)
    ensures
        qsort_desc(s).len() == s.len(),
    decreases s.len(),
{
    if s.len() > 0 {
        lemma_qsort_len(s.drop_last());
        lemma_qinsert_len(qsort_desc(s.drop_last()), s.last());
    }
}

proof fn lemma_qinsert_len(s: Seq<ScoredQuad>, x: ScoredQuad)
    ensures
        qinsert_desc(s, x).len() == s.len() + 1,
    decreases s.len(),
{
    if s.len() > 0 && s.last().score < x.score {
        lemma_qinsert_len(s.drop_last(), x);
    }
}

/// Sorts the scored quads by score, descending and stable.
fn sort_quads(quads: &mut Vec<ScoredQuad>)
    ensures
        final(quads)@ == qsort_desc(old(quads)@),
{
    let ghost orig = quads@;
    let n = quads.len();
    if n <= 1 {
        proof {
            if orig.len() == 0 {
                assert(qsort_desc(orig) =~= orig);
            } else {
                assert(orig.drop_last() =~= Seq::<ScoredQuad>::empty());
                assert(qsort_desc(orig.drop_last()) =~= Seq::<ScoredQuad>::empty());
                assert(qinsert_desc(Seq::<ScoredQuad>::empty(), orig.last()) =~= orig);
            }
        }
        return ;
    }
    proof {
        let s1 = orig.take(1);
        assert(s1.drop_last() =~= Seq::<ScoredQuad>::empty());
        assert(qsort_desc(s1.drop_last()) =~= Seq::<ScoredQuad>::empty());
        assert(qsort_desc(s1) == qinsert_desc(Seq::<ScoredQuad>::empty(), s1.last()));
        assert(qinsert_desc(Seq::<ScoredQuad>::empty(), s1.last()) =~= seq![orig[0]]);
        assert(quads@ =~= qsort_desc(s1) + orig.skip(1));
    }
    let mut idx: usize = 1;
    while idx < n
        invariant
            n == quads@.len(),
            n == orig.len(),
            1 <= idx <= n,
            quads@ == qsort_desc(orig.take(idx as int)) + orig.skip(idx as int),
        decreases n - idx,
    {
        let ghost sorted = qsort_desc(orig.take(idx as int));
        proof {
            assert(sorted.len() == idx) by {
                lemma_qsort_len(orig.take(idx as int));
            }
        }
        let v = quads[idx];
        assert(v == orig[idx as int]) by {
            assert(quads@[idx as int] == orig.skip(idx as int)[0]);
        }
        let mut k: usize = idx;
        while k > 0 && quads[k - 1].score < v.score
            invariant
                n == quads@.len(),
                n == orig.len(),
                1 <= idx < n,
                0 <= k <= idx,
                sorted == qsort_desc(orig.take(idx as int)),
                sorted.len() == idx,
                v == orig[idx as int],
                forall|m: int| 0 <= m < k ==> quads@[m] == sorted[m],
                forall|m: int| k < m <= idx ==> quads@[m] == sorted[m - 1],
                forall|m: int| idx < m < n ==> quads@[m] == orig[m],
                forall|m: int| k <= m < idx ==> (#[trigger] sorted[m]).score < v.score,
            decreases k,
        {
            let moved = quads[k - 1];
            quads.set(k, moved);
            k = k - 1;
        }
        quads.set(k, v);
        proof {
            lemma_qinsert_split(sorted, v, k as int);
            assert(quads@ =~= sorted.take(k as int) + seq![v] + sorted.skip(k as int) + orig.skip(
                idx + 1,
            ));
            assert(orig.take(idx + 1).drop_last() =~= orig.take(idx as int));
            assert(orig.take(idx + 1).last() == orig[idx as int]);
            assert(qsort_desc(orig.take(idx + 1)) == qinsert_desc(sorted, v));
            assert(quads@ =~= qsort_desc(orig.take(idx + 1)) + orig.skip(idx + 1));
        }
        idx = idx + 1;
    }
    proof {
        assert(orig.take(n as int) =~= orig);
        assert(orig.skip(n as int) =~= Seq::<ScoredQuad>::empty());
        assert(quads@ =~= qsort_desc(orig));
    }
}

/// Enumerates every quadruple of lines with valid document topology,
/// scores each assembled quad, and returns the positively scored ones
/// sorted by score descending. Every returned quad's corners pass the
/// inside-ish disk test.
#[verifier::rlimit(100)]
#[verifier::spinoff_prover]
pub fn documents(result: &GradientVotesResult, lines: &Vec<Line>) -> (r: Vec<ScoredQuad>)
    requires
        result.wf(),
        forall|m: int|
            0 <= m < lines@.len() ==> 0 <= (#[trigger] lines@[m]).score <= 0x4000_0000_0000
                && lines@[m].bin <= 23200,
    ensures
        r@ == qsort_desc(
            docs_i(
                result.grad_buf@,
                result.width as int,
                result.height as int,
                result.avg_grad as int,
                result.diag as int,
                lines@,
                0,
            ),
        ),
        forall|m: int|
            0 <= m < r@.len() ==> sq_ok(
                #[trigger] r@[m],
                result.width as int,
                result.height as int,
            ),
{
    let ghost gb = result.grad_buf@;
    let ghost wi = result.width as int;
    let ghost hi = result.height as int;
    let ghost avgi = result.avg_grad as int;
    let ghost dgi = result.diag as int;
    let ghost ls = lines@;
    let n = lines.len();
    let mut quads: Vec<ScoredQuad> = Vec::new();
    let ghost total = docs_i(gb, wi, hi, avgi, dgi, ls, 0);
    proof {
        assert(quads@ + total =~= total);
    }
    let mut i: usize = 0;
    while i < n
        invariant
            result.wf(),
            gb == result.grad_buf@,
            wi == result.width as int,
            hi == result.height as int,
            avgi == result.avg_grad as int,
            dgi == result.diag as int,
            ls == lines@,
            n == ls.len(),
            total == docs_i(gb, wi, hi, avgi, dgi, ls, 0),
            forall|m: int|
                0 <= m < ls.len() ==> 0 <= (#[trigger] ls[m]).score <= 0x4000_0000_0000
                    && ls[m].bin <= 23200,
            i <= n,
            quads@ + docs_i(gb, wi, hi, avgi, dgi, ls, i as int) == total,
        decreases n - i,
    {
        let l1 = lines[i];
        proof {
            assert(docs_i(gb, wi, hi, avgi, dgi, ls, i as int) == docs_j(
                gb, wi, hi, avgi, dgi, ls, i as int, i + 1) + docs_i(
                gb, wi, hi, avgi, dgi, ls, i + 1));
            assert(quads@ + docs_j(gb, wi, hi, avgi, dgi, ls, i as int, i + 1) + docs_i(
                gb, wi, hi, avgi, dgi, ls, i + 1) =~= quads@ + docs_i(
                gb, wi, hi, avgi, dgi, ls, i as int));
        }
        let mut j: usize = i + 1;
        while j < n
            invariant
                result.wf(),
                gb == result.grad_buf@,
                wi == result.width as int,
                hi == result.height as int,
                avgi == result.avg_grad as int,
                dgi == result.diag as int,
                ls == lines@,
                n == ls.len(),
                total == docs_i(gb, wi, hi, avgi, dgi, ls, 0),
                forall|m: int|
                    0 <= m < ls.len() ==> 0 <= (#[trigger] ls[m]).score <= 0x4000_0000_0000
                        && ls[m].bin <= 23200,
                i < n,
                i < j,
                l1 == ls[i as int],
                quads@ + docs_j(gb, wi, hi, avgi, dgi, ls, i as int, j as int) + docs_i(
                    gb, wi, hi, avgi, dgi, ls, i + 1) == total,
            decreases n - j,
        {
            let l2 = lines[j];
            proof {
                assert(docs_j(gb, wi, hi, avgi, dgi, ls, i as int, j as int) == docs_k(
                    gb, wi, hi, avgi, dgi, ls, i as int, j as int, j + 1) + docs_j(
                    gb, wi, hi, avgi, dgi, ls, i as int, j + 1));
                assert(quads@ + docs_k(gb, wi, hi, avgi, dgi, ls, i as int, j as int, j + 1)
                    + docs_j(gb, wi, hi, avgi, dgi, ls, i as int, j + 1) + docs_i(
                    gb, wi, hi, avgi, dgi, ls, i + 1) =~= quads@ + docs_j(
                    gb, wi, hi, avgi, dgi, ls, i as int, j as int) + docs_i(
                    gb, wi, hi, avgi, dgi, ls, i + 1));
            }
            let mut k: usize = j + 1;
            while k < n
                invariant
                    result.wf(),
                    gb == result.grad_buf@,
                    wi == result.width as int,
                    hi == result.height as int,
                    avgi == result.avg_grad as int,
                    dgi == result.diag as int,
                    ls == lines@,
                    n == ls.len(),
                    total == docs_i(gb, wi, hi, avgi, dgi, ls, 0),
                    forall|m: int|
                        0 <= m < ls.len() ==> 0 <= (#[trigger] ls[m]).score <= 0x4000_0000_0000
                            && ls[m].bin <= 23200,
                    i < n,
                    i < j < n,
                    j < k,
                    l1 == ls[i as int],
                    l2 == ls[j as int],
                    quads@ + docs_k(gb, wi, hi, avgi, dgi, ls, i as int, j as int, k as int)
                        + docs_j(gb, wi, hi, avgi, dgi, ls, i as int, j + 1) + docs_i(
                        gb, wi, hi, avgi, dgi, ls, i + 1) == total,
                decreases n - k,
            {
                let l3 = lines[k];
                proof {
                    assert(docs_k(gb, wi, hi, avgi, dgi, ls, i as int, j as int, k as int)
                        == docs_m(gb, wi, hi, avgi, dgi, ls, i as int, j as int, k as int, k + 1)
                        + docs_k(gb, wi, hi, avgi, dgi, ls, i as int, j as int, k + 1));
                    assert(quads@ + docs_m(gb, wi, hi, avgi, dgi, ls, i as int, j as int,
                        k as int, k + 1) + docs_k(gb, wi, hi, avgi, dgi, ls, i as int, j as int, k
                        + 1) + docs_j(gb, wi, hi, avgi, dgi, ls, i as int, j + 1) + docs_i(
                        gb, wi, hi, avgi, dgi, ls, i + 1) =~= quads@ + docs_k(
                        gb, wi, hi, avgi, dgi, ls, i as int, j as int, k as int) + docs_j(
                        gb, wi, hi, avgi, dgi, ls, i as int, j + 1) + docs_i(
                        gb, wi, hi, avgi, dgi, ls, i + 1));
                }
                let mut m: usize = k + 1;
                while m < n
                    invariant
                        result.wf(),
                        gb == result.grad_buf@,
                        wi == result.width as int,
                        hi == result.height as int,
                        avgi == result.avg_grad as int,
                        dgi == result.diag as int,
                        ls == lines@,
                        n == ls.len(),
                        total == docs_i(gb, wi, hi, avgi, dgi, ls, 0),
                        forall|mm: int|
                            0 <= mm < ls.len() ==> 0 <= (#[trigger] ls[mm]).score
                                <= 0x4000_0000_0000 && ls[mm].bin <= 23200,
                        i < n,
                        i < j < n,
                        j < k < n,
                        k < m,
                        l1 == ls[i as int],
                        l2 == ls[j as int],
                        l3 == ls[k as int],
                        quads@ + docs_m(gb, wi, hi, avgi, dgi, ls, i as int, j as int, k as int,
                            m as int) + docs_k(gb, wi, hi, avgi, dgi, ls, i as int, j as int, k
                            + 1) + docs_j(gb, wi, hi, avgi, dgi, ls, i as int, j + 1) + docs_i(
                            gb, wi, hi, avgi, dgi, ls, i + 1) == total,
                    decreases n - m,
                {
                    let l4 = lines[m];
                    let r12 = isect_exec(result, l1, l2);
                    let r13 = isect_exec(result, l1, l3);
                    let r23 = isect_exec(result, l2, l3);
                    let r14 = isect_exec(result, l1, l4);
                    let r24 = isect_exec(result, l2, l4);
                    let r34 = isect_exec(result, l3, l4);
                    let ghost qc = quad_case(gb, wi, hi, avgi, dgi, l1, l2, l3, l4);
                    let ghost prev = quads@;
                    if r12.1 && r13.1 && !r23.1 && !r14.1 && r24.1 && r34.1 {
                        let q = Quad { a: r12.0, b: r13.0, c: r34.0, d: r24.0 };
                        proof {
                            lemma_isect_inside(l1, l2, dgi, wi, hi);
                            lemma_isect_inside(l1, l3, dgi, wi, hi);
                            lemma_isect_inside(l2, l4, dgi, wi, hi);
                            lemma_isect_inside(l3, l4, dgi, wi, hi);
                        }
                        let sc = quad_score_exec(result, q, l1, l3, l4, l2);
                        if sc > 0 {
                            quads.push(ScoredQuad { quad: q, score: sc });
                            proof {
                                assert(qc =~= seq![ScoredQuad { quad: q, score: sc }]);
                            }
                        } else {
                            proof {
                                assert(qc =~= Seq::<ScoredQuad>::empty());
                            }
                        }
                    } else if r12.1 && !r13.1 && r23.1 && r14.1 && !r24.1 && r34.1 {
                        let q = Quad { a: r12.0, b: r23.0, c: r34.0, d: r14.0 };
                        proof {
                            lemma_isect_inside(l1, l2, dgi, wi, hi);
                            lemma_isect_inside(l2, l3, dgi, wi, hi);
                            lemma_isect_inside(l1, l4, dgi, wi, hi);
                            lemma_isect_inside(l3, l4, dgi, wi, hi);
                        }
                        let sc = quad_score_exec(result, q, l2, l3, l4, l1);
                        if sc > 0 {
                            quads.push(ScoredQuad { quad: q, score: sc });
                            proof {
                                assert(qc =~= seq![ScoredQuad { quad: q, score: sc }]);
                            }
                        } else {
                            proof {
                                assert(qc =~= Seq::<ScoredQuad>::empty());
                            }
                        }
                    } else if !r12.1 && r13.1 && r23.1 && r14.1 && r24.1 && !r34.1 {
                        let q = Quad { a: r13.0, b: r23.0, c: r24.0, d: r14.0 };
                        proof {
                            lemma_isect_inside(l1, l3, dgi, wi, hi);
                            lemma_isect_inside(l2, l3, dgi, wi, hi);
                            lemma_isect_inside(l2, l4, dgi, wi, hi);
                            lemma_isect_inside(l1, l4, dgi, wi, hi);
                        }
                        let sc = quad_score_exec(result, q, l3, l2, l4, l1);
                        if sc > 0 {
                            quads.push(ScoredQuad { quad: q, score: sc });
                            proof {
                                assert(qc =~= seq![ScoredQuad { quad: q, score: sc }]);
                            }
                        } else {
                            proof {
                                assert(qc =~= Seq::<ScoredQuad>::empty());
                            }
                        }
                    } else {
                        proof {
                            assert(qc =~= Seq::<ScoredQuad>::empty());
                        }
                    }
                    proof {
                        assert(docs_m(gb, wi, hi, avgi, dgi, ls, i as int, j as int, k as int,
                            m as int) == qc + docs_m(gb, wi, hi, avgi, dgi, ls, i as int, j as int,
                            k as int, m + 1));
                        assert(quads@ + docs_m(gb, wi, hi, avgi, dgi, ls, i as int, j as int,
                            k as int, m + 1) + docs_k(gb, wi, hi, avgi, dgi, ls, i as int,
                            j as int, k + 1) + docs_j(gb, wi, hi, avgi, dgi, ls, i as int, j + 1)
                            + docs_i(gb, wi, hi, avgi, dgi, ls, i + 1) =~= prev + docs_m(
                            gb, wi, hi, avgi, dgi, ls, i as int, j as int, k as int, m as int)
                            + docs_k(gb, wi, hi, avgi, dgi, ls, i as int, j as int, k + 1)
                            + docs_j(gb, wi, hi, avgi, dgi, ls, i as int, j + 1) + docs_i(
                            gb, wi, hi, avgi, dgi, ls, i + 1));
                    }
                    m = m + 1;
                }
                proof {
                    assert(docs_m(gb, wi, hi, avgi, dgi, ls, i as int, j as int, k as int,
                        n as int) =~= Seq::<ScoredQuad>::empty());
                    assert(quads@ + docs_k(gb, wi, hi, avgi, dgi, ls, i as int, j as int, k + 1)
                        + docs_j(gb, wi, hi, avgi, dgi, ls, i as int, j + 1) + docs_i(
                        gb, wi, hi, avgi, dgi, ls, i + 1) =~= quads@ + docs_m(
                        gb, wi, hi, avgi, dgi, ls, i as int, j as int, k as int, n as int)
                        + docs_k(gb, wi, hi, avgi, dgi, ls, i as int, j as int, k + 1) + docs_j(
                        gb, wi, hi, avgi, dgi, ls, i as int, j + 1) + docs_i(
                        gb, wi, hi, avgi, dgi, ls, i + 1));
                }
                k = k + 1;
            }
            proof {
                assert(docs_k(gb, wi, hi, avgi, dgi, ls, i as int, j as int, n as int)
                    =~= Seq::<ScoredQuad>::empty());
                assert(quads@ + docs_j(gb, wi, hi, avgi, dgi, ls, i as int, j + 1) + docs_i(
                    gb, wi, hi, avgi, dgi, ls, i + 1) =~= quads@ + docs_k(
                    gb, wi, hi, avgi, dgi, ls, i as int, j as int, n as int) + docs_j(
                    gb, wi, hi, avgi, dgi, ls, i as int, j + 1) + docs_i(
                    gb, wi, hi, avgi, dgi, ls, i + 1));
            }
            j = j + 1;
        }
        proof {
            assert(docs_j(gb, wi, hi, avgi, dgi, ls, i as int, n as int)
                =~= Seq::<ScoredQuad>::empty());
            assert(quads@ + docs_i(gb, wi, hi, avgi, dgi, ls, i + 1) =~= quads@ + docs_j(
                gb, wi, hi, avgi, dgi, ls, i as int, n as int) + docs_i(
                gb, wi, hi, avgi, dgi, ls, i + 1));
        }
        i = i + 1;
    }
    proof {
        assert(docs_i(gb, wi, hi, avgi, dgi, ls, n as int) =~= Seq::<ScoredQuad>::empty());
        assert(quads@ + docs_i(gb, wi, hi, avgi, dgi, ls, n as int) =~= quads@);
        lemma_docs_ok(gb, wi, hi, avgi, dgi, ls, 0);
        lemma_qsort_ok(quads@, wi, hi);
    }
    sort_quads(&mut quads);
    quads
}

} // verus!
