//! Gradient-orientation Hough vote.
//!
//! For every interior pixel a Scharr-style derivative pair `(sx, sy)` is
//! taken from the 3x3 neighbourhood, compressed into a magnitude
//! `(sx^2 + sy^2)^0.3`, and quantized into one of 256 orientation bins and
//! one of `num_bins` signed-distance bins. The magnitude is deposited into
//! the accumulator cell of the central orientation and, with decaying
//! weight, into the cells of the two neighbouring orientations on either
//! side.

use vstd::prelude::*;

use crate::image::Image;
use crate::num::{p5, root5_floor, sq};
use crate::geom::sqrt_floor;
use crate::sums::{lemma_elem_le_sum, lemma_max_update, lemma_sum_nonneg, lemma_sum_update,
    lemma_zero_seq, max64, sum64};
use crate::trig::{cos_bin, sin_bin};

verus! {

/// How many neighbouring orientation bins receive a weakened vote on each
/// side of the central one.
pub const GRADIENT_ERROR: usize = 2;

/// Largest gradient magnitude the compression can produce.
pub const GRAD_MAX: i64 = 131072;

/// The accumulator bundle produced by the vote.
pub struct GradientVotesResult {
    pub height: usize,
    pub width: usize,
    pub diag: usize,
    pub num_bins: usize,
    pub buf: Vec<i64>,
    pub grad_buf: Vec<i64>,
    pub avg_grad: i64,
    pub max_grad: i64,
    pub cos_t: Vec<i64>,
    pub sin_t: Vec<i64>,
}

/// Horizontal Scharr derivative at interior pixel `(i, j)`.
pub open spec fn sx_at(src: Image, i: int, j: int) -> int {
    let w = src.width as int;
    let d = src.data@;
    let p = i * w + j;
    10 * (d[p + 1] - d[p - 1]) + 3 * (d[p - w + 1] + d[p + w + 1] - d[p - w - 1] - d[p + w - 1])
}

/// Vertical Scharr derivative at interior pixel `(i, j)`.
pub open spec fn sy_at(src: Image, i: int, j: int) -> int {
    let w = src.width as int;
    let d = src.data@;
    let p = i * w + j;
    10 * (d[p - w] - d[p + w]) + 3 * (d[p - w + 1] + d[p - w - 1] - d[p + w + 1] - d[p + w - 1])
}

/// Compressed gradient magnitude `(sx^2 + sy^2)^0.3`, computed as the fifth
/// root of `s^3 * 2^20` where `s` is the square root of `sx^2 + sy^2`.
#[verifier::opaque]
pub open spec fn grad_val(sx: int, sy: int) -> int {
    let s = sqrt_floor((sq(sx) + sq(sy)) as nat) as int;
    root5_floor((s * s * s * 0x100000) as nat) as int
}

/// Gradient magnitude at interior pixel `(i, j)`.
pub open spec fn grad_at(src: Image, i: int, j: int) -> int {
    grad_val(sx_at(src, i, j), sy_at(src, i, j))
}

/// Whether the gradient direction `sy / sx` lies below the tangent boundary
/// of orientation bin `jj`.
pub open spec fn cut(sx: int, sy: int, jj: int) -> bool {
    if sx > 0 {
        sy * cos_bin(jj) < sx * sin_bin(jj)
    } else {
        sy * cos_bin(jj) > sx * sin_bin(jj)
    }
}

/// Scans the bin boundaries upward from `jj` for the first one above the
/// gradient direction.
pub open spec fn angle_scan(sx: int, sy: int, jj: int) -> int
    decreases 256 - jj,
{
    if jj >= 256 {
        255
    } else if cut(sx, sy, jj) {
        jj - 1
    } else {
        angle_scan(sx, sy, jj + 1)
    }
}

/// The orientation bin of the gradient direction `atan(sy / sx)`:
/// `floor(atan(sy/sx) * 256 / pi) + 128`, quantized against the tabulated
/// bin boundaries.
pub open spec fn angle_of(sx: int, sy: int) -> int {
    angle_scan(sx, sy, 1)
}

/// The distance bin of orientation `k` at pixel `(i, j)`: the signed
/// perpendicular distance `cos(k) * j - sin(k) * i` (the vertical
/// derivative enters the orientation negated, so the row term carries a
/// minus), shifted by `diag` to be nonnegative and discretized into bins
/// of width two pixels, clamped to the accumulator's range.
#[verifier::opaque]
pub open spec fn bin_at(k: int, i: int, j: int, diag: int, nb: int) -> int {
    let v = cos_bin(k) * j - sin_bin(k) * i + diag * 65536;
    if v < 0 {
        0
    } else {
        let b = v / 131072;
        if b >= nb {
            nb - 1
        } else {
            b
        }
    }
}

/// One pixel's five votes: full weight `g / 3` to the central orientation
/// `k`, `g / 4` to `k +- 1` and `g / 7` to `k +- 2` (all modulo 256), each
/// into the distance bin recomputed for that orientation.
#[verifier::opaque]
pub open spec fn spec_cast_votes(
    buf: Seq<i64>,
    k: int,
    g: int,
    i: int,
    j: int,
    diag: int,
    nb: int,
) -> Seq<i64> {
    let c0 = bin_at(k, i, j, diag, nb) * 256 + k;
    let b1 = buf.update(c0, (buf[c0] + g / 3) as i64);
    let k1 = (k + 1) % 256;
    let c1 = bin_at(k1, i, j, diag, nb) * 256 + k1;
    let b2 = b1.update(c1, (b1[c1] + g / 4) as i64);
    let k2 = (k + 255) % 256;
    let c2 = bin_at(k2, i, j, diag, nb) * 256 + k2;
    let b3 = b2.update(c2, (b2[c2] + g / 4) as i64);
    let k3 = (k + 2) % 256;
    let c3 = bin_at(k3, i, j, diag, nb) * 256 + k3;
    let b4 = b3.update(c3, (b3[c3] + g / 7) as i64);
    let k4 = (k + 254) % 256;
    let c4 = bin_at(k4, i, j, diag, nb) * 256 + k4;
    b4.update(c4, (b4[c4] + g / 7) as i64)
}

/// The orientation bin a pixel votes with: a vertical gradient direction
/// (`sx == 0`) saturates at the last bin upward and the first bin
/// downward, as the quantization of a right-angle arctangent does;
/// otherwise the tabulated quantization decides.
pub open spec fn vote_angle(sx: int, sy: int) -> int {
    if sx == 0 {
        if sy > 0 {
            255
        } else {
            0
        }
    } else {
        angle_of(sx, sy)
    }
}

/// The accumulator contribution of one pixel: nothing when both
/// derivatives vanish (the orientation is undefined there), otherwise its
/// five votes.
pub open spec fn apply_pixel(buf: Seq<i64>, src: Image, i: int, j: int, diag: int, nb: int) -> Seq<
    i64,
> {
    let sx = sx_at(src, i, j);
    let sy = sy_at(src, i, j);
    if sx == 0 && sy == 0 {
        buf
    } else {
        spec_cast_votes(buf, vote_angle(sx, sy), grad_at(src, i, j), i, j, diag, nb)
    }
}

/// The accumulator after the first `t` interior pixels, taken in row-major
/// scan order over the `(height - 2) * (width - 2)` interior.
pub open spec fn votes_upto(src: Image, diag: int, nb: int, t: int) -> Seq<i64>
    decreases t,
{
    if t <= 0 {
        Seq::new((nb * 256) as nat, |x: int| 0i64)
    } else {
        let wi = src.width - 2;
        apply_pixel(
            votes_upto(src, diag, nb, t - 1),
            src,
            1 + (t - 1) / wi,
            1 + (t - 1) % wi,
            diag,
            nb,
        )
    }
}

/// The summed gradient magnitude of the first `t` interior pixels.
pub open spec fn total_upto(src: Image, t: int) -> int
    decreases t,
{
    if t <= 0 {
        0
    } else {
        let wi = src.width - 2;
        total_upto(src, t - 1) + grad_at(src, 1 + (t - 1) / wi, 1 + (t - 1) % wi)
    }
}

/// The interior of `gb` holds each pixel's gradient magnitude.
pub open spec fn grads_interior_ok(gb: Seq<i64>, src: Image) -> bool {
    forall|a: int, b: int|
        1 <= a < src.height - 1 && 1 <= b < src.width - 1 ==> gb[a * src.width + b]
            == #[trigger] grad_at(src, a, b)
}

/// The one-pixel border of `gb` is zero.
pub open spec fn grads_border_zero(gb: Seq<i64>, w: int, h: int) -> bool {
    &&& forall|b: int| 0 <= b < w ==> #[trigger] gb[b] == 0 && gb[(h - 1) * w + b] == 0
    &&& forall|a: int| 0 <= a < h ==> #[trigger] gb[a * w] == 0 && gb[a * w + (w - 1)] == 0
}

impl GradientVotesResult {
    /// Well-formedness: consistent dimensions, correct trigonometric
    /// tables, a nonnegative accumulator whose tracked maximum and total
    /// really are its maximum and a bound on its sum, and a bounded
    /// gradient map.
    pub open spec fn wf(self) -> bool {
        &&& 5 <= self.width <= 16384
        &&& 5 <= self.height <= 16384
        &&& self.diag == sqrt_floor((sq(self.height as int) + sq(self.width as int)) as nat)
        &&& self.num_bins == self.diag
        &&& 5 <= self.num_bins <= 23200
        &&& self.buf@.len() == self.num_bins * 256
        &&& self.grad_buf@.len() == self.height * self.width
        &&& forall|q: int| 0 <= q < self.buf@.len() ==> 0 <= #[trigger] self.buf@[q]
        &&& self.max_grad == max64(self.buf@)
        &&& 0 <= sum64(self.buf@) <= 0x4000_0000_0000
        &&& forall|q: int|
            0 <= q < self.grad_buf@.len() ==> 0 <= #[trigger] self.grad_buf@[q] <= GRAD_MAX
        &&& 0 <= self.avg_grad <= GRAD_MAX
        &&& self.cos_t@.len() == 256
        &&& self.sin_t@.len() == 256
        &&& forall|t: int| 0 <= t < 256 ==> self.cos_t@[t] == cos_bin(t)
        &&& forall|t: int| 0 <= t < 256 ==> self.sin_t@[t] == sin_bin(t)
    }
}

/// Computes `grad_val(sx, sy)`.
fn grad_of(sx: i64, sy: i64) -> (g: i64)
    requires
        -1705000 <= sx <= 1705000,
        -1705000 <= sy <= 1705000,
    ensures
        g == grad_val(sx as int, sy as int),
        0 <= g <= GRAD_MAX,
{
    proof {
        reveal(grad_val);
        assert(0 <= sx as int * sx as int <= 1705000 * 1705000 && 0 <= sy as int * sy as int
            <= 1705000 * 1705000) by (nonlinear_arith)
            requires
                -1705000 <= sx <= 1705000,
                -1705000 <= sy <= 1705000,
        ;
    }
    let x2: i64 = sx * sx + sy * sy;
    assert(x2 == sq(sx as int) + sq(sy as int));
    let s: u128 = crate::num::isqrt(x2 as u128);
    proof {
        crate::geom::lemma_sqrt_unique(x2 as nat, s as nat);
        assert(s <= 2412000) by (nonlinear_arith)
            requires
                s as int * s as int <= x2,
                x2 <= 2 * 1705000 * 1705000,
                0 <= s,
        ;
        assert(0 <= s as int * s as int * s as int <= 2412000 * 2412000 * 2412000
            && s as int * s as int * s as int * 0x100000 <= 2412000 * 2412000 * 2412000
            * 0x100000) by (nonlinear_arith)
            requires
                0 <= s <= 2412000,
        ;
        assert(2412000 * 2412000 * 2412000 * 0x100000 < p5(0x2000000)) by (nonlinear_arith);
    }
    let v: u128 = s * s * s * 0x100000;
    let g = crate::num::iroot5(v);
    proof {
        crate::num::lemma_root5_unique(v as nat, g as nat);
        assert(g <= 131072) by (nonlinear_arith)
            requires
                p5(g as int) <= v,
                v <= 2412000 * 2412000 * 2412000 * 0x100000,
                0 <= g,
        ;
    }
    g as i64
}

/// Computes `angle_of(sx, sy)` by scanning the 255 tangent boundaries.
fn angle_exec(cos_t: &Vec<i64>, sin_t: &Vec<i64>, sx: i64, sy: i64) -> (k: usize)
    requires
        sx != 0,
        -1705000 <= sx <= 1705000,
        -1705000 <= sy <= 1705000,
        cos_t@.len() == 256,
        sin_t@.len() == 256,
        forall|t: int| 0 <= t < 256 ==> cos_t@[t] == cos_bin(t),
        forall|t: int| 0 <= t < 256 ==> sin_t@[t] == sin_bin(t),
    ensures
        k == angle_of(sx as int, sy as int),
        k < 256,
{
    let mut jj: usize = 1;
    while jj < 256
        invariant
            1 <= jj <= 256,
            sx != 0,
            -1705000 <= sx <= 1705000,
            -1705000 <= sy <= 1705000,
            cos_t@.len() == 256,
            sin_t@.len() == 256,
            forall|t: int| 0 <= t < 256 ==> cos_t@[t] == cos_bin(t),
            forall|t: int| 0 <= t < 256 ==> sin_t@[t] == sin_bin(t),
            angle_of(sx as int, sy as int) == angle_scan(sx as int, sy as int, jj as int),
        decreases 256 - jj,
    {
        proof {
            crate::trig::lemma_bin_bounds(jj as int);
        }
        let cv = cos_t[jj];
        let sv = sin_t[jj];
        assert(-1705000 * 65536 <= sy as int * cv as int <= 1705000 * 65536 && -1705000 * 65536
            <= sx as int * sv as int <= 1705000 * 65536) by (nonlinear_arith)
            requires
                -1705000 <= sx <= 1705000,
                -1705000 <= sy <= 1705000,
                0 <= cv <= 65536,
                -65536 <= sv <= 65536,
        ;
        let lhs: i64 = sy * cv;
        let rhs: i64 = sx * sv;
        let hit = if sx > 0 {
            lhs < rhs
        } else {
            lhs > rhs
        };
        if hit {
            return jj - 1;
        }
        jj = jj + 1;
    }
    255
}

/// Computes `bin_at(k, i, j, diag, nb)`.
fn bin_exec(cos_t: &Vec<i64>, sin_t: &Vec<i64>, k: usize, i: usize, j: usize, diag: usize,
    nb: usize) -> (b: usize)
    requires
        k < 256,
        i <= 16384,
        j <= 16384,
        diag <= 23200,
        1 <= nb,
        cos_t@.len() == 256,
        sin_t@.len() == 256,
        forall|t: int| 0 <= t < 256 ==> cos_t@[t] == cos_bin(t),
        forall|t: int| 0 <= t < 256 ==> sin_t@[t] == sin_bin(t),
    ensures
        b == bin_at(k as int, i as int, j as int, diag as int, nb as int),
        b < nb,
{
    proof {
        crate::trig::lemma_bin_bounds(k as int);
        reveal(bin_at);
    }
    let cv = cos_t[k];
    let sv = sin_t[k];
    assert(-65536 * 16384 <= sv as int * i <= 65536 * 16384 && 0 <= cv as int * j <= 65536
        * 16384) by (nonlinear_arith)
        requires
            0 <= cv <= 65536,
            -65536 <= sv <= 65536,
            0 <= i <= 16384,
            0 <= j <= 16384,
    ;
    let v: i64 = cv * (j as i64) - sv * (i as i64) + (diag as i64) * 65536;
    if v < 0 {
        0
    } else {
        let b = (v / 131072) as usize;
        if b >= nb {
            nb - 1
        } else {
            b
        }
    }
}

/// Deposits one pixel's five votes into the accumulator and keeps the
/// running maximum in step with the accumulator's true maximum.
#[verifier::rlimit(100)]
#[verifier::spinoff_prover]
fn cast_votes(
    buf: &mut Vec<i64>,
    maxg: &mut i64,
    cos_t: &Vec<i64>,
    sin_t: &Vec<i64>,
    k: usize,
    g: i64,
    i: usize,
    j: usize,
    diag: usize,
    nb: usize,
)
    requires
        old(buf)@.len() == nb * 256,
        1 <= nb <= 23200,
        diag <= 23200,
        i <= 16384,
        j <= 16384,
        k < 256,
        0 <= g <= GRAD_MAX,
        forall|q: int| 0 <= q < old(buf)@.len() ==> 0 <= #[trigger] old(buf)@[q],
        0 <= sum64(old(buf)@) <= 0x4000_0000_0000 - 2 * GRAD_MAX,
        *old(maxg) == max64(old(buf)@),
        cos_t@.len() == 256,
        sin_t@.len() == 256,
        forall|t: int| 0 <= t < 256 ==> cos_t@[t] == cos_bin(t),
        forall|t: int| 0 <= t < 256 ==> sin_t@[t] == sin_bin(t),
    ensures
        final(buf)@ == spec_cast_votes(
            old(buf)@,
            k as int,
            g as int,
            i as int,
            j as int,
            diag as int,
            nb as int,
        ),
        final(buf)@.len() == old(buf)@.len(),
        forall|q: int| 0 <= q < final(buf)@.len() ==> 0 <= #[trigger] final(buf)@[q],
        sum64(final(buf)@) <= sum64(old(buf)@) + 2 * g,
        *final(maxg) == max64(final(buf)@),
{
    let ghost s0 = buf@;
    let b0 = bin_exec(cos_t, sin_t, k, i, j, diag, nb);
    let c0 = b0 * 256 + k;
    assert(c0 < nb * 256) by (nonlinear_arith)
        requires
            b0 < nb,
            k < 256,
            c0 == b0 * 256 + k,
    ;
    proof {
        lemma_elem_le_sum(buf@, c0 as int);
    }
    let v0 = buf[c0] + g / 3;
    proof {
        lemma_sum_update(buf@, c0 as int, v0);
        lemma_max_update(buf@, c0 as int, v0);
    }
    buf.set(c0, v0);
    if v0 > *maxg {
        *maxg = v0;
    }
    let b1 = bin_exec(cos_t, sin_t, (k + 1) % 256, i, j, diag, nb);
    let k1 = (k + 1) % 256;
    let c1 = b1 * 256 + k1;
    assert(c1 < nb * 256) by (nonlinear_arith)
        requires
            b1 < nb,
            k1 < 256,
            c1 == b1 * 256 + k1,
    ;
    proof {
        lemma_elem_le_sum(buf@, c1 as int);
    }
    let v1 = buf[c1] + g / 4;
    proof {
        lemma_sum_update(buf@, c1 as int, v1);
        lemma_max_update(buf@, c1 as int, v1);
    }
    buf.set(c1, v1);
    if v1 > *maxg {
        *maxg = v1;
    }
    let b2 = bin_exec(cos_t, sin_t, (k + 255) % 256, i, j, diag, nb);
    let k2 = (k + 255) % 256;
    let c2 = b2 * 256 + k2;
    assert(c2 < nb * 256) by (nonlinear_arith)
        requires
            b2 < nb,
            k2 < 256,
            c2 == b2 * 256 + k2,
    ;
    proof {
        lemma_elem_le_sum(buf@, c2 as int);
    }
    let v2 = buf[c2] + g / 4;
    proof {
        lemma_sum_update(buf@, c2 as int, v2);
        lemma_max_update(buf@, c2 as int, v2);
    }
    buf.set(c2, v2);
    if v2 > *maxg {
        *maxg = v2;
    }
    let b3 = bin_exec(cos_t, sin_t, (k + 2) % 256, i, j, diag, nb);
    let k3 = (k + 2) % 256;
    let c3 = b3 * 256 + k3;
    assert(c3 < nb * 256) by (nonlinear_arith)
        requires
            b3 < nb,
            k3 < 256,
            c3 == b3 * 256 + k3,
    ;
    proof {
        lemma_elem_le_sum(buf@, c3 as int);
    }
    let v3 = buf[c3] + g / 7;
    proof {
        lemma_sum_update(buf@, c3 as int, v3);
        lemma_max_update(buf@, c3 as int, v3);
    }
    buf.set(c3, v3);
    if v3 > *maxg {
        *maxg = v3;
    }
    let b4 = bin_exec(cos_t, sin_t, (k + 254) % 256, i, j, diag, nb);
    let k4 = (k + 254) % 256;
    let c4 = b4 * 256 + k4;
    assert(c4 < nb * 256) by (nonlinear_arith)
        requires
            b4 < nb,
            k4 < 256,
            c4 == b4 * 256 + k4,
    ;
    proof {
        lemma_elem_le_sum(buf@, c4 as int);
    }
    let v4 = buf[c4] + g / 7;
    proof {
        lemma_sum_update(buf@, c4 as int, v4);
        lemma_max_update(buf@, c4 as int, v4);
    }
    buf.set(c4, v4);
    if v4 > *maxg {
        *maxg = v4;
    }
    proof {
        reveal(spec_cast_votes);
        assert(buf@ == spec_cast_votes(
            s0,
            k as int,
            g as int,
            i as int,
            j as int,
            diag as int,
            nb as int,
        ));
    }
}

/// Rows `1..i` of the gradient map are filled and flanked by zero border
/// columns, and row 0 is zero.
pub open spec fn grads_rows_done(gb: Seq<i64>, src: Image, i: int) -> bool {
    &&& forall|b: int| 0 <= b < src.width ==> #[trigger] gb[b] == 0
    &&& forall|a: int, b: int|
        1 <= a < i && 1 <= b < src.width - 1 ==> gb[a * src.width + b] == #[trigger] grad_at(
            src,
            a,
            b,
        )
    &&& forall|a: int|
        1 <= a < i ==> #[trigger] gb[a * src.width] == 0 && gb[a * src.width + (src.width - 1)]
            == 0
}

/// Rows `i..height` of the gradient map are all zero.
pub open spec fn grads_rows_zero(gb: Seq<i64>, src: Image, i: int) -> bool {
    forall|a: int, b: int|
        i <= a < src.height && 0 <= b < src.width ==> #[trigger] gb[a * src.width + b] == 0
}

/// Row `i` of the gradient map is filled up to column `j`, zero from `j`
/// on, with a zero leading border cell.
pub open spec fn grads_row_partial(gb: Seq<i64>, src: Image, i: int, j: int) -> bool {
    &&& forall|b: int| 1 <= b < j ==> gb[i * src.width + b] == #[trigger] grad_at(src, i, b)
    &&& gb[i * src.width] == 0
    &&& forall|b: int| j <= b < src.width ==> #[trigger] gb[i * src.width + b] == 0
}

/// Processes one interior pixel `(i, j)`: records its gradient magnitude
/// and casts its votes.
#[verifier::rlimit(100)]
#[verifier::spinoff_prover]
fn vote_pixel(
    source: &Image,
    buf: &mut Vec<i64>,
    grad_buf: &mut Vec<i64>,
    maxg: &mut i64,
    total: &mut i64,
    cos_t: &Vec<i64>,
    sin_t: &Vec<i64>,
    i: usize,
    j: usize,
    diag: usize,
    nb: usize,
)
    requires
        source.wf(),
        1 <= i < source.height - 1,
        1 <= j < source.width - 1,
        5 <= diag <= 23199,
        nb == diag,
        cos_t@.len() == 256,
        sin_t@.len() == 256,
        forall|t: int| 0 <= t < 256 ==> cos_t@[t] == cos_bin(t),
        forall|t: int| 0 <= t < 256 ==> sin_t@[t] == sin_bin(t),
        old(buf)@.len() == nb * 256,
        forall|q: int| 0 <= q < old(buf)@.len() ==> 0 <= #[trigger] old(buf)@[q],
        old(buf)@ == votes_upto(
            *source,
            diag as int,
            nb as int,
            (i - 1) * (source.width - 2) + (j - 1),
        ),
        *old(maxg) == max64(old(buf)@),
        0 <= sum64(old(buf)@) <= 262144 * ((i - 1) * (source.width - 2) + (j - 1)),
        0 <= *old(total) <= 131072 * ((i - 1) * (source.width - 2) + (j - 1)),
        *old(total) == total_upto(*source, (i - 1) * (source.width - 2) + (j - 1)),
        (i - 1) * (source.width - 2) + (j - 1) < (source.height - 2) * (source.width - 2),
        (source.height - 2) * (source.width - 2) <= 16382 * 16382,
        old(grad_buf)@.len() == source.width * source.height,
        forall|q: int|
            0 <= q < old(grad_buf)@.len() ==> 0 <= #[trigger] old(grad_buf)@[q] <= GRAD_MAX,
        grads_rows_done(old(grad_buf)@, *source, i as int),
        grads_row_partial(old(grad_buf)@, *source, i as int, j as int),
        grads_rows_zero(old(grad_buf)@, *source, i + 1),
    ensures
        final(buf)@.len() == old(buf)@.len(),
        forall|q: int| 0 <= q < final(buf)@.len() ==> 0 <= #[trigger] final(buf)@[q],
        final(buf)@ == votes_upto(
            *source,
            diag as int,
            nb as int,
            (i - 1) * (source.width - 2) + (j - 1) + 1,
        ),
        *final(maxg) == max64(final(buf)@),
        0 <= sum64(final(buf)@) <= 262144 * ((i - 1) * (source.width - 2) + (j - 1) + 1),
        0 <= *final(total) <= 131072 * ((i - 1) * (source.width - 2) + (j - 1) + 1),
        *final(total) == total_upto(*source, (i - 1) * (source.width - 2) + (j - 1) + 1),
        final(grad_buf)@.len() == old(grad_buf)@.len(),
        forall|q: int|
            0 <= q < final(grad_buf)@.len() ==> 0 <= #[trigger] final(grad_buf)@[q] <= GRAD_MAX,
        grads_rows_done(final(grad_buf)@, *source, i as int),
        grads_row_partial(final(grad_buf)@, *source, i as int, j + 1),
        grads_rows_zero(final(grad_buf)@, *source, i + 1),
{
    let w = source.width;
    let h = source.height;
    let ghost t = (i - 1) * (w - 2) + (j - 1);
    let n = grad_buf.len();
    assert(i * w + 2 * w <= n && 2 * w <= i * w + w && (i - 1) * w == i * w - w && (i + 1) * w == i
        * w + w) by (nonlinear_arith)
        requires
            n == w * h,
            1 <= i,
            i < h - 1,
            5 <= w,
            5 <= h,
    ;
    let ib = i * w;
    let px = ib + j;
    let d = &source.data;
    let nw_s = d[px - w - 1];
    let n_s = d[px - w];
    let ne_s = d[px - w + 1];
    let w_s = d[px - 1];
    let e_s = d[px + 1];
    let sw_s = d[px + w - 1];
    let s_s = d[px + w];
    let se_s = d[px + w + 1];
    let sx: i64 = 10 * (e_s - w_s) + 3 * (ne_s + se_s - nw_s - sw_s);
    let sy: i64 = 10 * (n_s - s_s) + 3 * (ne_s + nw_s - se_s - sw_s);
    assert(sx == sx_at(*source, i as int, j as int) && sy == sy_at(*source, i as int, j as int));
    let g = grad_of(sx, sy);
    let ghost gb0 = grad_buf@;
    grad_buf.set(px, g);
    proof {
        assert forall|a: int, b: int|
            1 <= a < i && 1 <= b < w - 1 implies gb0[a * w + b] == #[trigger] grad_buf@[a * w
            + b] by {
            assert(a * w + b < i * w && 0 <= a * w + b) by (nonlinear_arith)
                requires
                    a < i,
                    0 <= a,
                    0 <= b < w,
            ;
        }
        assert forall|a: int|
            1 <= a < i implies gb0[a * w] == #[trigger] grad_buf@[a * w] && gb0[a * w + (w - 1)]
            == grad_buf@[a * w + (w - 1)] by {
            assert(a * w + (w - 1) < i * w && 0 <= a * w) by (nonlinear_arith)
                requires
                    a < i,
                    0 <= a,
                    5 <= w,
            ;
        }
        assert(grads_rows_done(grad_buf@, *source, i as int));
        assert(grads_row_partial(grad_buf@, *source, i as int, j + 1));
        assert forall|a: int, b: int|
            i + 1 <= a < h && 0 <= b < w implies #[trigger] grad_buf@[a * w + b] == 0 by {
            assert(i * w + w <= a * w + b && a * w + b < n) by (nonlinear_arith)
                requires
                    i < a < h,
                    0 <= b < w,
                    n == w * h,
                    0 <= i,
                    0 <= w,
            ;
            assert(gb0[a * w + b] == 0);
        }
    }
    proof {
        vstd::arithmetic::div_mod::lemma_fundamental_div_mod_converse(
            t,
            (w - 2) as int,
            (i - 1) as int,
            (j - 1) as int,
        );
    }
    if sx != 0 || sy != 0 {
        let k: usize = if sx == 0 {
            if sy > 0 {
                255
            } else {
                0
            }
        } else {
            angle_exec(cos_t, sin_t, sx, sy)
        };
        assert(k == vote_angle(sx as int, sy as int) && k < 256);
        assert(sum64(buf@) <= 0x4000_0000_0000 - 2 * GRAD_MAX) by {
            assert(262144 * t <= 262144 * (16382 * 16382 - 1)) by (nonlinear_arith)
                requires
                    0 <= t <= 16382 * 16382 - 1,
            ;
        }
        cast_votes(buf, maxg, cos_t, sin_t, k, g, i, j, diag, nb);
        proof {
            lemma_sum_nonneg(buf@);
        }
    }
    assert(buf@ == votes_upto(*source, diag as int, nb as int, t + 1));
    assert(total_upto(*source, t + 1) == total_upto(*source, t) + grad_at(
        *source,
        i as int,
        j as int,
    ));
    *total = *total + g;
}

/// Processes one interior row `i`: fills its gradient map cells and casts
/// each pixel's votes.
#[verifier::rlimit(100)]
#[verifier::spinoff_prover]
fn vote_row(
    source: &Image,
    buf: &mut Vec<i64>,
    grad_buf: &mut Vec<i64>,
    maxg: &mut i64,
    total: &mut i64,
    cos_t: &Vec<i64>,
    sin_t: &Vec<i64>,
    i: usize,
    diag: usize,
    nb: usize,
)
    requires
        source.wf(),
        1 <= i < source.height - 1,
        5 <= diag <= 23199,
        nb == diag,
        cos_t@.len() == 256,
        sin_t@.len() == 256,
        forall|t: int| 0 <= t < 256 ==> cos_t@[t] == cos_bin(t),
        forall|t: int| 0 <= t < 256 ==> sin_t@[t] == sin_bin(t),
        old(buf)@.len() == nb * 256,
        forall|q: int| 0 <= q < old(buf)@.len() ==> 0 <= #[trigger] old(buf)@[q],
        old(buf)@ == votes_upto(*source, diag as int, nb as int, (i - 1) * (source.width - 2)),
        *old(maxg) == max64(old(buf)@),
        0 <= sum64(old(buf)@) <= 262144 * ((i - 1) * (source.width - 2)),
        0 <= *old(total) <= 131072 * ((i - 1) * (source.width - 2)),
        *old(total) == total_upto(*source, (i - 1) * (source.width - 2)),
        (i - 1) * (source.width - 2) <= (source.height - 2) * (source.width - 2),
        (source.height - 2) * (source.width - 2) <= 16382 * 16382,
        old(grad_buf)@.len() == source.width * source.height,
        forall|q: int|
            0 <= q < old(grad_buf)@.len() ==> 0 <= #[trigger] old(grad_buf)@[q] <= GRAD_MAX,
        grads_rows_done(old(grad_buf)@, *source, i as int),
        grads_rows_zero(old(grad_buf)@, *source, i as int),
    ensures
        final(buf)@.len() == old(buf)@.len(),
        forall|q: int| 0 <= q < final(buf)@.len() ==> 0 <= #[trigger] final(buf)@[q],
        final(buf)@ == votes_upto(*source, diag as int, nb as int, i * (source.width - 2)),
        *final(maxg) == max64(final(buf)@),
        0 <= sum64(final(buf)@) <= 262144 * (i * (source.width - 2)),
        0 <= *final(total) <= 131072 * (i * (source.width - 2)),
        *final(total) == total_upto(*source, i * (source.width - 2)),
        final(grad_buf)@.len() == old(grad_buf)@.len(),
        forall|q: int|
            0 <= q < final(grad_buf)@.len() ==> 0 <= #[trigger] final(grad_buf)@[q] <= GRAD_MAX,
        grads_rows_done(final(grad_buf)@, *source, i + 1),
        grads_rows_zero(final(grad_buf)@, *source, i + 1),
{
    let w = source.width;
    let h = source.height;
    let n = grad_buf.len();
    assert((i - 1) * (w - 2) + (w - 2) == i * (w - 2) && i * (w - 2) <= (h - 2) * (w - 2) && i * w
        + w <= n && 0 <= i * w) by (nonlinear_arith)
        requires
            n == w * h,
            1 <= i,
            i < h - 1,
            5 <= w,
            5 <= h,
    ;
    proof {
        assert(grads_row_partial(grad_buf@, *source, i as int, 1)) by {
            assert forall|b: int| 1 <= b < w implies #[trigger] grad_buf@[i * w + b] == 0 by {
                assert(grad_buf@[i * w + b] == 0);
            }
            assert(grad_buf@[i * w + 0] == 0);
        }
    }
    let mw = w - 1;
    let mut j: usize = 1;
    while j < mw
        invariant
            source.wf(),
            w == source.width,
            h == source.height,
            mw == w - 1,
            1 <= i < h - 1,
            1 <= j <= mw,
            5 <= diag <= 23199,
            nb == diag,
            (i - 1) * (w - 2) + (w - 2) == i * (w - 2),
            i * (w - 2) <= (h - 2) * (w - 2),
            (h - 2) * (w - 2) <= 16382 * 16382,
            cos_t@.len() == 256,
            sin_t@.len() == 256,
            forall|t: int| 0 <= t < 256 ==> cos_t@[t] == cos_bin(t),
            forall|t: int| 0 <= t < 256 ==> sin_t@[t] == sin_bin(t),
            buf@.len() == nb * 256,
            forall|q: int| 0 <= q < buf@.len() ==> 0 <= #[trigger] buf@[q],
            buf@ == votes_upto(*source, diag as int, nb as int, (i - 1) * (w - 2) + (j - 1)),
            *maxg == max64(buf@),
            0 <= sum64(buf@) <= 262144 * ((i - 1) * (w - 2) + (j - 1)),
            0 <= *total <= 131072 * ((i - 1) * (w - 2) + (j - 1)),
            *total == total_upto(*source, (i - 1) * (w - 2) + (j - 1)),
            grad_buf@.len() == w * h,
            forall|q: int| 0 <= q < grad_buf@.len() ==> 0 <= #[trigger] grad_buf@[q] <= GRAD_MAX,
            grads_rows_done(grad_buf@, *source, i as int),
            grads_row_partial(grad_buf@, *source, i as int, j as int),
            grads_rows_zero(grad_buf@, *source, i + 1),
        decreases mw - j,
    {
        vote_pixel(source, buf, grad_buf, maxg, total, cos_t, sin_t, i, j, diag, nb);
        j = j + 1;
    }
    assert(grads_rows_done(grad_buf@, *source, i + 1)) by {
        assert forall|a: int, b: int|
            1 <= a < i + 1 && 1 <= b < w - 1 implies grad_buf@[a * w + b] == #[trigger] grad_at(
            *source,
            a,
            b,
        ) by {}
        assert forall|a: int|
            1 <= a < i + 1 implies #[trigger] grad_buf@[a * w] == 0 && grad_buf@[a * w + (w - 1)]
            == 0 by {
            if a < i {
                assert(grad_buf@[a * (source.width as int)] == 0);
                assert(grad_buf@[a * (source.width as int) + (source.width - 1)] == 0);
            } else {
                assert(grad_buf@[(i as int) * (source.width as int)] == 0);
                assert(grad_buf@[(i as int) * (source.width as int) + (source.width - 1)] == 0);
            }
        }
    }
}

/// Runs the gradient-orientation Hough vote over the interior of a smoothed
/// image: fills the gradient-magnitude map, deposits every pixel's votes
/// into the accumulator, and tracks the accumulator maximum and the mean
/// gradient.
#[verifier::rlimit(100)]
#[verifier::spinoff_prover]
pub fn gradient_votes(source: &Image) -> (r: GradientVotesResult)
    requires
        source.wf(),
    ensures
        r.wf(),
        r.width == source.width,
        r.height == source.height,
        r.buf@ == votes_upto(
            *source,
            r.diag as int,
            r.num_bins as int,
            (source.height - 2) * (source.width - 2),
        ),
        r.max_grad == max64(r.buf@),
        grads_interior_ok(r.grad_buf@, *source),
        grads_border_zero(r.grad_buf@, source.width as int, source.height as int),
        r.avg_grad == total_upto(*source, (source.height - 2) * (source.width - 2)) / ((
        source.height - 2) * (source.width - 2)),
{
    let w = source.width;
    let h = source.height;
    assert(w * h <= 16384 * 16384 && sq(h as int) + sq(w as int) <= 536870912 && 50 <= sq(h as int)
        + sq(w as int) && (h - 2) * (w - 2) <= 16382 * 16382 && 3 <= (h - 2) * (w - 2) && w <= w
        * h) by (nonlinear_arith)
        requires
            5 <= w <= 16384,
            5 <= h <= 16384,
    ;
    let n = w * h;
    let hh: u128 = (h as u128) * (h as u128);
    let ww: u128 = (w as u128) * (w as u128);
    let diag_u = crate::num::isqrt(hh + ww);
    proof {
        crate::geom::lemma_sqrt_unique((hh + ww) as nat, diag_u as nat);
        assert(5 <= diag_u <= 23199) by (nonlinear_arith)
            requires
                diag_u as int * diag_u as int <= hh + ww,
                hh + ww < (diag_u as int + 1) * (diag_u as int + 1),
                50 <= hh + ww <= 536870912,
                0 <= diag_u,
        ;
    }
    let diag = diag_u as usize;
    let nb = diag;
    assert(nb * 256 <= 23199 * 256) by (nonlinear_arith)
        requires
            nb <= 23199,
    ;
    let nbuf = nb * 256;
    let mut buf: Vec<i64> = Vec::new();
    let mut p: usize = 0;
    while p < nbuf
        invariant
            p <= nbuf,
            nbuf <= 23199 * 256,
            buf@.len() == p,
            forall|q: int| 0 <= q < p ==> buf@[q] == 0,
        decreases nbuf - p,
    {
        buf.push(0i64);
        p = p + 1;
    }
    let mut grad_buf: Vec<i64> = Vec::new();
    let mut p: usize = 0;
    while p < n
        invariant
            p <= n,
            n <= 16384 * 16384,
            grad_buf@.len() == p,
            forall|q: int| 0 <= q < p ==> grad_buf@[q] == 0,
        decreases n - p,
    {
        grad_buf.push(0i64);
        p = p + 1;
    }
    let (cos_t, sin_t) = crate::trig::trig_tables();
    proof {
        assert(buf@ =~= Seq::new((nb * 256) as nat, |x: int| 0i64));
        assert(buf@ == votes_upto(*source, diag as int, nb as int, 0));
        lemma_zero_seq((nb * 256) as nat);
        assert(grads_rows_done(grad_buf@, *source, 1)) by {
            assert forall|b: int| 0 <= b < w implies #[trigger] grad_buf@[b] == 0 by {}
        }
        assert forall|a: int, b: int|
            1 <= a < h && 0 <= b < w implies #[trigger] grad_buf@[a * w + b] == 0 by {
            assert(0 <= a * w + b < n) by (nonlinear_arith)
                requires
                    1 <= a < h,
                    0 <= b < w,
                    n == w * h,
            ;
        }
        assert(grads_rows_zero(grad_buf@, *source, 1));
    }
    let mut total: i64 = 0;
    let mut maxg: i64 = 0;
    let mh = h - 1;
    let mut i: usize = 1;
    while i < mh
        invariant
            source.wf(),
            w == source.width,
            h == source.height,
            n == w * h,
            n <= 16384 * 16384,
            mh == h - 1,
            1 <= i <= mh,
            5 <= diag <= 23199,
            nb == diag,
            diag == sqrt_floor((sq(h as int) + sq(w as int)) as nat),
            (h - 2) * (w - 2) <= 16382 * 16382,
            cos_t@.len() == 256,
            sin_t@.len() == 256,
            forall|t: int| 0 <= t < 256 ==> cos_t@[t] == cos_bin(t),
            forall|t: int| 0 <= t < 256 ==> sin_t@[t] == sin_bin(t),
            buf@.len() == nb * 256,
            forall|q: int| 0 <= q < buf@.len() ==> 0 <= #[trigger] buf@[q],
            buf@ == votes_upto(*source, diag as int, nb as int, (i - 1) * (w - 2)),
            maxg == max64(buf@),
            0 <= sum64(buf@) <= 262144 * ((i - 1) * (w - 2)),
            0 <= (i - 1) * (w - 2) <= (h - 2) * (w - 2),
            0 <= total <= 131072 * ((i - 1) * (w - 2)),
            total == total_upto(*source, (i - 1) * (w - 2)),
            grad_buf@.len() == n,
            forall|q: int| 0 <= q < grad_buf@.len() ==> 0 <= #[trigger] grad_buf@[q] <= GRAD_MAX,
            grads_rows_done(grad_buf@, *source, i as int),
            grads_rows_zero(grad_buf@, *source, i as int),
        decreases mh - i,
    {
        assert((i - 1) * (w - 2) <= (i - 1) * (w - 2) + (w - 2) && (i - 1) * (w - 2) + (w - 2) == i
            * (w - 2) && i * (w - 2) <= (h - 2) * (w - 2)) by (nonlinear_arith)
            requires
                1 <= i,
                i < h - 1,
                5 <= w,
                5 <= h,
        ;
        vote_row(source, &mut buf, &mut grad_buf, &mut maxg, &mut total, &cos_t, &sin_t, i, diag,
            nb);
        i = i + 1;
    }
    let denom: i64 = ((h - 2) as i64) * ((w - 2) as i64);
    proof {
        assert(total <= 131072 * ((h - 2) * (w - 2))) by (nonlinear_arith)
            requires
                total <= 131072 * (((h - 1) - 1) * (w - 2)),
        ;
        vstd::arithmetic::div_mod::lemma_div_multiples_vanish(
            131072,
            ((h - 2) * (w - 2)) as int,
        );
        vstd::arithmetic::div_mod::lemma_div_is_ordered(
            total as int,
            (131072 * ((h - 2) * (w - 2))) as int,
            ((h - 2) * (w - 2)) as int,
        );
    }
    let avg = total / denom;
    proof {
        vstd::arithmetic::div_mod::lemma_div_pos_is_pos(total as int, denom as int);
        assert forall|b: int| 0 <= b < w implies #[trigger] grad_buf@[b] == 0 && grad_buf@[(h - 1)
            * w + b] == 0 by {
            assert(grad_buf@[(h - 1) * w + b] == 0);
        }
        assert forall|a: int| 0 <= a < h implies #[trigger] grad_buf@[a * w] == 0 && grad_buf@[a
            * w + (w - 1)] == 0 by {
            if a == 0 {
                assert(grad_buf@[0] == 0);
                assert(grad_buf@[w - 1] == 0);
                assert(a * w == 0);
            } else if a == h - 1 {
                assert(grad_buf@[a * w + 0] == 0);
                assert(grad_buf@[a * w + (w - 1)] == 0);
            }
        }
    }
    GradientVotesResult {
        height: h,
        width: w,
        diag,
        num_bins: nb,
        buf,
        grad_buf,
        avg_grad: avg,
        max_grad: maxg,
        cos_t,
        sin_t,
    }
}

} // verus!
