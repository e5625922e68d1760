//! Area-averaging downscale by a Q16.16 factor `by >= 1`.
//!
//! Every output pixel covers a `by x by` rectangle of source pixels; whole
//! pixels contribute with weight one, the fractional strips at the
//! rectangle's edges contribute proportionally. The one-pixel output border
//! is replicated from the adjacent interior.

use vstd::prelude::*;

use crate::image::{Image, SAMPLE_MAX};
use crate::FP;

verus! {

/// Sum of `d[lo..hi)`.
pub open spec fn seg_sum(d: Seq<i64>, lo: int, hi: int) -> int
    decreases hi - lo,
{
    if hi <= lo {
        0
    } else {
        seg_sum(d, lo, hi - 1) + d[hi - 1]
    }
}

/// Sum of column `col` over rows `lo..hi)` of a row-major grid of width `w`.
pub open spec fn col_sum(d: Seq<i64>, w: int, col: int, lo: int, hi: int) -> int
    decreases hi - lo,
{
    if hi <= lo {
        0
    } else {
        col_sum(d, w, col, lo, hi - 1) + d[(hi - 1) * w + col]
    }
}

/// Sum of the block with rows `rlo..rhi)` and columns `clo..chi)`.
pub open spec fn block_sum(d: Seq<i64>, w: int, rlo: int, rhi: int, clo: int, chi: int) -> int
    decreases rhi - rlo,
{
    if rhi <= rlo {
        0
    } else {
        block_sum(d, w, rlo, rhi - 1, clo, chi) + seg_sum(d, (rhi - 1) * w + clo, (rhi - 1) * w
            + chi)
    }
}

/// The area-weighted average for output pixel `(i, j)`, in Q16.16: whole
/// pixels weigh `FP`, edge strips weigh their fractional coverage, corners
/// the product of both fractions, and the total is divided by the covered
/// area `by * by`, then clamped to the sample range.
pub open spec fn down_at(src: Image, by: int, i: int, j: int) -> int {
    let w = src.width as int;
    let d = src.data@;
    let fp = FP as int;
    let si = i * by;
    let sif = si / fp;
    let sic = sif + 1;
    let sie = si + by;
    let sief = sie / fp;
    let sir = sic * fp - si;
    let sire = sie - sief * fp;
    let sj = j * by;
    let sjf = sj / fp;
    let sjc = sjf + 1;
    let sje = sj + by;
    let sjef = sje / fp;
    let sjr = sjc * fp - sj;
    let sjre = sje - sjef * fp;
    let total = block_sum(d, w, sic, sief, sjc, sjef) * fp + seg_sum(d, sif * w + sjc, sif * w
        + sjef) * sir + seg_sum(d, sief * w + sjc, sief * w + sjef) * sire + col_sum(
        d,
        w,
        sjf,
        sic,
        sief,
    ) * sjr + col_sum(d, w, sjef, sic, sief) * sjre + d[sif * w + sjf] * sir * sjr / fp + d[sif * w
        + sjef] * sir * sjre / fp + d[sief * w + sjf] * sire * sjr / fp + d[sief * w + sjef] * sire
        * sjre / fp;
    let v = total * fp / (by * by);
    if v > SAMPLE_MAX {
        SAMPLE_MAX as int
    } else {
        v
    }
}

/// Computes `seg_sum(d@, lo, hi)`.
fn seg_sum_exec(d: &Vec<i64>, lo: usize, hi: usize) -> (r: i64)
    requires
        lo <= hi <= d@.len(),
        hi - lo <= 66,
        forall|q: int| 0 <= q < d@.len() ==> 0 <= #[trigger] d@[q] <= SAMPLE_MAX,
    ensures
        r == seg_sum(d@, lo as int, hi as int),
        0 <= r <= (hi - lo) * SAMPLE_MAX,
{
    let mut acc: i64 = 0;
    let mut cur: usize = lo;
    while cur < hi
        invariant
            lo <= cur <= hi <= d@.len(),
            hi - lo <= 66,
            forall|q: int| 0 <= q < d@.len() ==> 0 <= #[trigger] d@[q] <= SAMPLE_MAX,
            acc == seg_sum(d@, lo as int, cur as int),
            0 <= acc <= (cur - lo) * SAMPLE_MAX,
        decreases hi - cur,
    {
        acc = acc + d[cur];
        cur = cur + 1;
    }
    acc
}

/// Computes `col_sum(d@, w, col, lo, hi)`.
fn col_sum_exec(d: &Vec<i64>, w: usize, col: usize, lo: usize, hi: usize) -> (r: i64)
    requires
        lo <= hi,
        col < w,
        hi <= 16384,
        w <= 16384,
        hi * w <= d@.len(),
        hi - lo <= 66,
        forall|q: int| 0 <= q < d@.len() ==> 0 <= #[trigger] d@[q] <= SAMPLE_MAX,
    ensures
        r == col_sum(d@, w as int, col as int, lo as int, hi as int),
        0 <= r <= (hi - lo) * SAMPLE_MAX,
{
    let mut acc: i64 = 0;
    let mut cur: usize = lo;
    while cur < hi
        invariant
            lo <= cur <= hi,
            col < w,
            hi <= 16384,
            w <= 16384,
            hi * w <= d@.len(),
            hi - lo <= 66,
            forall|q: int| 0 <= q < d@.len() ==> 0 <= #[trigger] d@[q] <= SAMPLE_MAX,
            acc == col_sum(d@, w as int, col as int, lo as int, cur as int),
            0 <= acc <= (cur - lo) * SAMPLE_MAX,
        decreases hi - cur,
    {
        assert(cur * w + col < hi * w && (cur + 1) * w == cur * w + w && cur * w + col <= 16384
            * 16384) by (nonlinear_arith)
            requires
                cur < hi,
                col < w,
                0 <= cur,
                0 <= w,
                hi <= 16384,
                w <= 16384,
        ;
        acc = acc + d[cur * w + col];
        cur = cur + 1;
    }
    acc
}

/// Computes `block_sum(d@, w, rlo, rhi, clo, chi)`.
fn block_sum_exec(d: &Vec<i64>, w: usize, rlo: usize, rhi: usize, clo: usize, chi: usize) -> (r:
    i64)
    requires
        rlo <= rhi,
        clo <= chi <= w,
        rhi <= 16384,
        w <= 16384,
        rhi * w <= d@.len(),
        rhi - rlo <= 66,
        chi - clo <= 66,
        forall|q: int| 0 <= q < d@.len() ==> 0 <= #[trigger] d@[q] <= SAMPLE_MAX,
    ensures
        r == block_sum(d@, w as int, rlo as int, rhi as int, clo as int, chi as int),
        0 <= r <= (rhi - rlo) * 66 * SAMPLE_MAX,
{
    let mut acc: i64 = 0;
    let mut cur: usize = rlo;
    while cur < rhi
        invariant
            rlo <= cur <= rhi,
            clo <= chi <= w,
            rhi <= 16384,
            w <= 16384,
            rhi * w <= d@.len(),
            rhi - rlo <= 66,
            chi - clo <= 66,
            forall|q: int| 0 <= q < d@.len() ==> 0 <= #[trigger] d@[q] <= SAMPLE_MAX,
            acc == block_sum(d@, w as int, rlo as int, cur as int, clo as int, chi as int),
            0 <= acc <= (cur - rlo) * 66 * SAMPLE_MAX,
        decreases rhi - cur,
    {
        assert(cur * w + chi <= rhi * w && (cur + 1) * w == cur * w + w && cur * w + chi <= 16384
            * 16384) by (nonlinear_arith)
            requires
                cur < rhi,
                chi <= w,
                0 <= cur,
                0 <= w,
                rhi <= 16384,
                w <= 16384,
        ;
        let base = cur * w;
        let row = seg_sum_exec(d, base + clo, base + chi);
        acc = acc + row;
        assert((chi - clo) * SAMPLE_MAX <= 66 * SAMPLE_MAX) by (nonlinear_arith)
            requires
                chi - clo <= 66,
        ;
        cur = cur + 1;
    }
    acc
}

/// Computes `down_at(*src, by, i, j)` for an interior output pixel.
fn down_px(src: &Image, by: i64, dh: usize, dw: usize, i: usize, j: usize) -> (r: i64)
    requires
        src.wf(),
        FP <= by <= 4194304,
        dw == (src.width * FP) / (by as int),
        dh == (src.height * FP) / (by as int),
        5 <= dw,
        5 <= dh,
        1 <= i < dh - 1,
        1 <= j < dw - 1,
    ensures
        r == down_at(*src, by as int, i as int, j as int),
        0 <= r <= SAMPLE_MAX,
{
    let w = src.width;
    let h = src.height;
    proof {
        vstd::arithmetic::div_mod::lemma_fundamental_div_mod((h * FP) as int, by as int);
        vstd::arithmetic::div_mod::lemma_mod_bound((h * FP) as int, by as int);
        vstd::arithmetic::div_mod::lemma_fundamental_div_mod((w * FP) as int, by as int);
        vstd::arithmetic::div_mod::lemma_mod_bound((w * FP) as int, by as int);
        vstd::arithmetic::div_mod::lemma_div_is_ordered_by_denominator(
            (h * FP) as int,
            FP as int,
            by as int,
        );
        vstd::arithmetic::div_mod::lemma_div_is_ordered_by_denominator(
            (w * FP) as int,
            FP as int,
            by as int,
        );
        assert(dh <= h && dw <= w);
        assert(dh * by <= h * FP && dw * by <= w * FP) by (nonlinear_arith)
            requires
                h * FP == by * dh + (h * FP) % (by as int),
                w * FP == by * dw + (w * FP) % (by as int),
                0 <= (h * FP) % (by as int),
                0 <= (w * FP) % (by as int),
        ;
        assert(i * by + by + by <= dh * by && i * by >= by) by (nonlinear_arith)
            requires
                1 <= i,
                i + 2 <= dh,
                by >= 0,
        ;
        assert(j * by + by + by <= dw * by && j * by >= by) by (nonlinear_arith)
            requires
                1 <= j,
                j + 2 <= dw,
                by >= 0,
        ;
        assert(i * by <= 16384 * 4194304 && j * by <= 16384 * 4194304) by (nonlinear_arith)
            requires
                0 <= i <= 16384,
                0 <= j <= 16384,
                0 <= by <= 4194304,
        ;
    }
    let si: i64 = (i as i64) * by;
    let sif: i64 = si / FP;
    let sic: i64 = sif + 1;
    let sie: i64 = si + by;
    let sief: i64 = sie / FP;
    let sir: i64 = sic * FP - si;
    let sire: i64 = sie - sief * FP;
    let sj: i64 = (j as i64) * by;
    let sjf: i64 = sj / FP;
    let sjc: i64 = sjf + 1;
    let sje: i64 = sj + by;
    let sjef: i64 = sje / FP;
    let sjr: i64 = sjc * FP - sj;
    let sjre: i64 = sje - sjef * FP;
    assert(sif >= 1 && sjf >= 1 && sief <= h - 1 && sjef <= w - 1 && sic <= sief && sjc <= sjef
        && sief - sic <= 65 && sjef - sjc <= 65 && 1 <= sir <= FP && 0 <= sire < FP);
    let d = &src.data;
    proof {
        assert((sief as int) * (w as int) + (w as int) <= (h as int) * (w as int) && (sif as int)
            * (w as int) + w <= (h as int) * (w as int) && (sief as int) * w >= 0 && (sif as int)
            * w >= 0 && (h as int) * (w as int) <= 16384 * 16384) by (nonlinear_arith)
            requires
                0 <= sif < sief <= h - 1,
                0 <= w <= 16384,
                0 <= h <= 16384,
        ;
    }
    let block = block_sum_exec(d, w, sic as usize, sief as usize, sjc as usize, sjef as usize);
    let top = seg_sum_exec(d, (sif as usize) * w + (sjc as usize), (sif as usize) * w + (
    sjef as usize));
    let bot = seg_sum_exec(d, (sief as usize) * w + (sjc as usize), (sief as usize) * w + (
    sjef as usize));
    let left = col_sum_exec(d, w, sjf as usize, sic as usize, sief as usize);
    let right = col_sum_exec(d, w, sjef as usize, sic as usize, sief as usize);
    let c00 = d[(sif as usize) * w + (sjf as usize)];
    let c01 = d[(sif as usize) * w + (sjef as usize)];
    let c10 = d[(sief as usize) * w + (sjf as usize)];
    let c11 = d[(sief as usize) * w + (sjef as usize)];
    assert(block <= 66 * 66 * SAMPLE_MAX && top <= 66 * SAMPLE_MAX && bot <= 66 * SAMPLE_MAX
        && left <= 66 * SAMPLE_MAX && right <= 66 * SAMPLE_MAX) by (nonlinear_arith)
        requires
            block <= (sief - sic) * 66 * SAMPLE_MAX,
            top <= (sjef - sjc) * SAMPLE_MAX,
            bot <= (sjef - sjc) * SAMPLE_MAX,
            left <= (sief - sic) * SAMPLE_MAX,
            right <= (sief - sic) * SAMPLE_MAX,
            0 <= sief - sic <= 65,
            0 <= sjef - sjc <= 65,
            0 <= block,
            0 <= top,
            0 <= bot,
            0 <= left,
            0 <= right,
    ;
    assert(top * sir <= 66 * SAMPLE_MAX * 65536 && bot * sire <= 66 * SAMPLE_MAX * 65536 && left
        * sjr <= 66 * SAMPLE_MAX * 65536 && right * sjre <= 66 * SAMPLE_MAX * 65536 && top * sir
        >= 0 && bot * sire >= 0 && left * sjr >= 0 && right * sjre >= 0) by (nonlinear_arith)
        requires
            0 <= top <= 66 * SAMPLE_MAX,
            0 <= bot <= 66 * SAMPLE_MAX,
            0 <= left <= 66 * SAMPLE_MAX,
            0 <= right <= 66 * SAMPLE_MAX,
            0 <= sir <= 65536,
            0 <= sire <= 65536,
            0 <= sjr <= 65536,
            0 <= sjre <= 65536,
    ;
    assert(0 <= c00 * sir <= SAMPLE_MAX * 65536 && 0 <= c01 * sir <= SAMPLE_MAX * 65536 && 0
        <= c10 * sire <= SAMPLE_MAX * 65536 && 0 <= c11 * sire <= SAMPLE_MAX * 65536 && 0 <= c00
        * sir * sjr <= SAMPLE_MAX * 65536 * 65536 && 0 <= c01 * sir * sjre <= SAMPLE_MAX * 65536
        * 65536 && 0 <= c10 * sire * sjr <= SAMPLE_MAX * 65536 * 65536 && 0 <= c11 * sire * sjre
        <= SAMPLE_MAX * 65536 * 65536) by (nonlinear_arith)
        requires
            0 <= c00 <= SAMPLE_MAX,
            0 <= c01 <= SAMPLE_MAX,
            0 <= c10 <= SAMPLE_MAX,
            0 <= c11 <= SAMPLE_MAX,
            0 <= sir <= 65536,
            0 <= sire <= 65536,
            0 <= sjr <= 65536,
            0 <= sjre <= 65536,
    ;
    let total: i64 = block * FP + top * sir + bot * sire + left * sjr + right * sjre + c00 * sir
        * sjr / FP + c01 * sir * sjre / FP + c10 * sire * sjr / FP + c11 * sire * sjre / FP;
    assert(0 <= total <= 2000000000000000);
    assert(0 <= total * FP <= 2000000000000000 * 65536 && 65536 * 65536 <= by * by <= 4194304
        * 4194304) by (nonlinear_arith)
        requires
            0 <= total <= 2000000000000000,
            65536 <= by <= 4194304,
    ;
    let v: i64 = total * FP / (by * by);
    if v > SAMPLE_MAX {
        SAMPLE_MAX
    } else {
        v
    }
}

/// Rows `1..rows` hold the averaged interior in columns `1..dw - 1`.
pub open spec fn down_rows_ok(d: Seq<i64>, src: Image, by: int, dw: int, rows: int) -> bool {
    forall|a: int, b: int|
        1 <= a < rows && 1 <= b < dw - 1 ==> d[a * dw + b] == #[trigger] down_at(src, by, a, b)
}

/// Row `i`'s first and last cells replicate the adjacent interior.
pub open spec fn down_side_row_ok(d: Seq<i64>, dw: int, i: int) -> bool {
    &&& d[i * dw] == d[i * dw + 1]
    &&& d[i * dw + (dw - 1)] == d[i * dw + (dw - 2)]
}

/// Rows `1..rows` all have replicated side borders.
pub open spec fn down_sides_ok(d: Seq<i64>, dw: int, rows: int) -> bool {
    forall|i: int| 1 <= i < rows ==> #[trigger] down_side_row_ok(d, dw, i)
}

/// Column `j`'s top and bottom cells replicate the adjacent rows.
pub open spec fn down_tb_col_ok(d: Seq<i64>, dw: int, dh: int, j: int) -> bool {
    &&& d[j] == d[dw + j]
    &&& d[(dh - 1) * dw + j] == d[(dh - 2) * dw + j]
}

/// Columns `0..cols` all have replicated top and bottom borders.
pub open spec fn down_tb_ok(d: Seq<i64>, dw: int, dh: int, cols: int) -> bool {
    forall|j: int| 0 <= j < cols ==> #[trigger] down_tb_col_ok(d, dw, dh, j)
}

/// Shrinks `source` by the Q16.16 factor `by`, averaging each output
/// pixel's covering rectangle, and replicates the one-pixel output border
/// from the adjacent interior.
pub fn downscale(source: &Image, by: i64) -> (r: Image)
    requires
        source.wf(),
        FP <= by <= 4194304,
        5 <= (source.width * FP) / (by as int),
        5 <= (source.height * FP) / (by as int),
    ensures
        r.wf(),
        r.width == (source.width * FP) / (by as int),
        r.height == (source.height * FP) / (by as int),
        down_rows_ok(r.data@, *source, by as int, r.width as int, r.height - 1),
        down_sides_ok(r.data@, r.width as int, r.height - 1),
        down_tb_ok(r.data@, r.width as int, r.height as int, r.width as int),
{
    let w = source.width;
    let h = source.height;
    proof {
        vstd::arithmetic::div_mod::lemma_div_is_ordered_by_denominator(
            (h * FP) as int,
            FP as int,
            by as int,
        );
        vstd::arithmetic::div_mod::lemma_div_is_ordered_by_denominator(
            (w * FP) as int,
            FP as int,
            by as int,
        );
    }
    let dwl: i64 = ((w as i64) * FP) / by;
    let dhl: i64 = ((h as i64) * FP) / by;
    let dw: usize = dwl as usize;
    let dh: usize = dhl as usize;
    assert(dw == (source.width * FP) / (by as int) && dh == (source.height * FP) / (by as int)
        && 5 <= dw <= w && 5 <= dh <= h);
    assert(dw * dh <= 16384 * 16384) by (nonlinear_arith)
        requires
            dw <= 16384,
            dh <= 16384,
    ;
    let n = dw * dh;
    let mut data: Vec<i64> = Vec::new();
    let mut p: usize = 0;
    while p < n
        invariant
            p <= n,
            n <= 16384 * 16384,
            data@.len() == p,
            forall|q: int| 0 <= q < p ==> data@[q] == 0,
        decreases n - p,
    {
        data.push(0i64);
        p = p + 1;
    }
    let mi = dh - 1;
    let mj = dw - 1;
    let mut i: usize = 1;
    while i < mi
        invariant
            source.wf(),
            w == source.width,
            h == source.height,
            FP <= by <= 4194304,
            dw == (source.width * FP) / (by as int),
            dh == (source.height * FP) / (by as int),
            5 <= dw,
            5 <= dh,
            n == dw * dh,
            n <= 16384 * 16384,
            mi == dh - 1,
            mj == dw - 1,
            1 <= i <= mi,
            data@.len() == n,
            forall|q: int| 0 <= q < data@.len() ==> 0 <= #[trigger] data@[q] <= SAMPLE_MAX,
            down_rows_ok(data@, *source, by as int, dw as int, i as int),
        decreases mi - i,
    {
        assert(i * dw + dw <= n && 0 <= i * dw) by (nonlinear_arith)
            requires
                n == dw * dh,
                i < dh,
                0 <= i,
                0 <= dw,
        ;
        let ib = i * dw;
        let mut j: usize = 1;
        while j < mj
            invariant
                source.wf(),
                w == source.width,
                h == source.height,
                FP <= by <= 4194304,
                dw == (source.width * FP) / (by as int),
                dh == (source.height * FP) / (by as int),
                5 <= dw,
                5 <= dh,
                n == dw * dh,
                n <= 16384 * 16384,
                mi == dh - 1,
                mj == dw - 1,
                1 <= i < mi,
                1 <= j <= mj,
                ib == i * dw,
                ib + dw <= n,
                data@.len() == n,
                forall|q: int| 0 <= q < data@.len() ==> 0 <= #[trigger] data@[q] <= SAMPLE_MAX,
                down_rows_ok(data@, *source, by as int, dw as int, i as int),
                forall|b: int|
                    1 <= b < j ==> data@[i * dw + b] == #[trigger] down_at(
                        *source,
                        by as int,
                        i as int,
                        b,
                    ),
            decreases mj - j,
        {
            let v = down_px(source, by, dh, dw, i, j);
            let ghost d0 = data@;
            data.set(ib + j, v);
            assert(data@[i * dw + j] == down_at(*source, by as int, i as int, j as int));
            assert forall|a: int, b: int|
                1 <= a < i && 1 <= b < dw - 1 implies data@[a * dw + b] == #[trigger] down_at(
                *source,
                by as int,
                a,
                b,
            ) by {
                assert(a * dw + b != i * dw + j && 0 <= a * dw + b < n) by (nonlinear_arith)
                    requires
                        a < i,
                        i < dh,
                        b < dw,
                        0 <= b,
                        0 <= a,
                        1 <= j < dw,
                        n == dw * dh,
                ;
                assert(d0[a * dw + b] == down_at(*source, by as int, a, b));
            }
            j = j + 1;
        }
        assert forall|a: int, b: int|
            1 <= a < i + 1 && 1 <= b < dw - 1 implies data@[a * dw + b] == #[trigger] down_at(
            *source,
            by as int,
            a,
            b,
        ) by {}
        i = i + 1;
    }
    let mut i: usize = 1;
    while i < mi
        invariant
            source.wf(),
            FP <= by <= 4194304,
            5 <= dw,
            5 <= dh,
            n == dw * dh,
            mi == dh - 1,
            mj == dw - 1,
            1 <= i <= mi,
            data@.len() == n,
            forall|q: int| 0 <= q < data@.len() ==> 0 <= #[trigger] data@[q] <= SAMPLE_MAX,
            down_rows_ok(data@, *source, by as int, dw as int, mi as int),
            down_sides_ok(data@, dw as int, i as int),
        decreases mi - i,
    {
        assert(i * dw + dw <= n && dw <= i * dw) by (nonlinear_arith)
            requires
                n == dw * dh,
                1 <= i,
                i < dh,
                0 <= dw,
        ;
        let ib = i * dw;
        let ibe = ib + mj;
        let ghost d0 = data@;
        let val = data[ib + 1];
        data.set(ib, val);
        let val2 = data[ibe - 1];
        data.set(ibe, val2);
        proof {
            assert forall|a: int, b: int|
                1 <= a < mi && 1 <= b < dw - 1 implies data@[a * dw + b] == #[trigger] down_at(
                *source,
                by as int,
                a,
                b,
            ) by {
                assert(a * dw + b != i * dw && a * dw + b != i * dw + (dw - 1) && 0 <= a * dw + b
                    < n) by (nonlinear_arith)
                    requires
                        1 <= b < dw - 1,
                        0 <= a < dh,
                        0 <= i < dh,
                        5 <= dw,
                        n == dw * dh,
                ;
                assert(d0[a * dw + b] == down_at(*source, by as int, a, b));
            }
            assert(down_side_row_ok(data@, dw as int, i as int));
            assert forall|a: int| 1 <= a < i + 1 implies #[trigger] down_side_row_ok(
                data@,
                dw as int,
                a,
            ) by {
                if a < i {
                    assert(down_side_row_ok(d0, dw as int, a));
                    assert(0 <= a * dw && a * dw + (dw - 1) < i * dw && i * dw + dw <= n)
                        by (nonlinear_arith)
                        requires
                            a < i,
                            i < dh,
                            5 <= dw,
                            0 <= a,
                            n == dw * dh,
                    ;
                }
            }
        }
        i = i + 1;
    }
    assert(mi * dw == (dh - 1) * dw && (dh - 2) * dw == mi * dw - dw && mi * dw + dw == n && mi
        * dw >= 2 * dw) by (nonlinear_arith)
        requires
            mi == dh - 1,
            n == dw * dh,
            5 <= dh,
            0 <= dw,
    ;
    let mibe = mi * dw;
    let mib = mibe - dw;
    let mut j: usize = 0;
    while j < dw
        invariant
            source.wf(),
            FP <= by <= 4194304,
            5 <= dw,
            5 <= dh,
            n == dw * dh,
            mi == dh - 1,
            mj == dw - 1,
            j <= dw,
            mibe == (dh - 1) * dw,
            mib == mibe - dw,
            (dh - 2) * dw == mibe - dw,
            mibe + dw == n,
            mibe >= 2 * dw,
            data@.len() == n,
            forall|q: int| 0 <= q < data@.len() ==> 0 <= #[trigger] data@[q] <= SAMPLE_MAX,
            down_rows_ok(data@, *source, by as int, dw as int, mi as int),
            down_sides_ok(data@, dw as int, mi as int),
            down_tb_ok(data@, dw as int, dh as int, j as int),
        decreases dw - j,
    {
        let ghost d0 = data@;
        let val = data[dw + j];
        data.set(j, val);
        let val2 = data[mib + j];
        data.set(mibe + j, val2);
        proof {
            assert forall|a: int, b: int|
                1 <= a < mi && 1 <= b < dw - 1 implies data@[a * dw + b] == #[trigger] down_at(
                *source,
                by as int,
                a,
                b,
            ) by {
                assert(dw <= a * dw + b && a * dw + b < (dh - 1) * dw) by (nonlinear_arith)
                    requires
                        1 <= a < dh - 1,
                        0 <= b < dw,
                        5 <= dw,
                ;
                assert(d0[a * dw + b] == down_at(*source, by as int, a, b));
            }
            assert forall|a: int| 1 <= a < mi implies #[trigger] down_side_row_ok(
                data@,
                dw as int,
                a,
            ) by {
                assert(down_side_row_ok(d0, dw as int, a));
                assert(dw <= a * dw && a * dw + dw - 1 < (dh - 1) * dw) by (nonlinear_arith)
                    requires
                        1 <= a < dh - 1,
                        5 <= dw,
                ;
            }
            assert(down_tb_col_ok(data@, dw as int, dh as int, j as int));
            assert forall|b: int| 0 <= b < j + 1 implies #[trigger] down_tb_col_ok(
                data@,
                dw as int,
                dh as int,
                b,
            ) by {
                if b < j {
                    assert(down_tb_col_ok(d0, dw as int, dh as int, b));
                }
            }
        }
        j = j + 1;
    }
    Image { data, width: dw, height: dh }
}

} // verus!
