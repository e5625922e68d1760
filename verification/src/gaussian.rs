//! 5x5 Gaussian blur with Q16.16 weights that sum to just under one, and a
//! two-pixel border replicated from the blurred interior.
//!
//! The weights are the discrete kernel 0.09434 (centre), 0.07547 (distance-1
//! orthogonal), 0.0566 (distance-1 diagonal), 0.03145 (distance-2
//! orthogonal), 0.02516 (knight's-move), 0.01258 (distance-2 diagonal),
//! scaled by 2^16: 6183, 4946, 3709, 2061, 1649, 824, whose weighted total
//! is 65535.

use vstd::prelude::*;

use crate::image::{Image, SAMPLE_MAX};

verus! {

/// The blurred sample at row `i`, column `j` of the interior
/// (`2 <= i < height - 2`, `2 <= j < width - 2`).
pub open spec fn gauss_at(src: Image, i: int, j: int) -> int {
    let w = src.width as int;
    let d = src.data@;
    let p = i * w + j;
    ((d[p - 2 * w - 2] + d[p - 2 * w + 2] + d[p + 2 * w - 2] + d[p + 2 * w + 2]) * 824 + (d[p - 2
        * w - 1] + d[p - 2 * w + 1] + d[p - w - 2] + d[p - w + 2] + d[p + w - 2] + d[p + w + 2]
        + d[p + 2 * w - 1] + d[p + 2 * w + 1]) * 1649 + (d[p - 2 * w] + d[p - 2] + d[p + 2] + d[p
        + 2 * w]) * 2061 + (d[p - w - 1] + d[p - w + 1] + d[p + w - 1] + d[p + w + 1]) * 3709 + (
    d[p - w] + d[p - 1] + d[p + 1] + d[p + w]) * 4946 + d[p] * 6183) / 65536
}

/// Rows `2..rows` hold the blurred interior in columns `2..width - 2`.
pub open spec fn blur_rows_ok(d: Seq<i64>, src: Image, rows: int) -> bool {
    forall|a: int, b: int|
        2 <= a < rows && 2 <= b < src.width - 2 ==> d[a * src.width + b] == #[trigger] gauss_at(
            src,
            a,
            b,
        )
}

/// Row `i`'s two left and two right cells replicate the adjacent interior.
pub open spec fn side_row_ok(d: Seq<i64>, w: int, i: int) -> bool {
    &&& d[i * w] == d[i * w + 2]
    &&& d[i * w + 1] == d[i * w + 2]
    &&& d[i * w + (w - 1)] == d[i * w + (w - 3)]
    &&& d[i * w + (w - 2)] == d[i * w + (w - 3)]
}

/// Rows `2..rows` all have replicated side borders.
pub open spec fn side_borders_ok(d: Seq<i64>, w: int, rows: int) -> bool {
    forall|i: int| 2 <= i < rows ==> #[trigger] side_row_ok(d, w, i)
}

/// Column `j`'s two top and two bottom cells replicate the adjacent rows.
pub open spec fn tb_col_ok(d: Seq<i64>, w: int, h: int, j: int) -> bool {
    &&& d[j] == d[2 * w + j]
    &&& d[w + j] == d[2 * w + j]
    &&& d[(h - 1) * w + j] == d[(h - 3) * w + j]
    &&& d[(h - 2) * w + j] == d[(h - 3) * w + j]
}

/// Columns `0..cols` all have replicated top and bottom borders.
pub open spec fn tb_borders_ok(d: Seq<i64>, w: int, h: int, cols: int) -> bool {
    forall|j: int| 0 <= j < cols ==> #[trigger] tb_col_ok(d, w, h, j)
}

/// Blurs the interior with the 5x5 kernel and replicates the two outermost
/// rows and columns from the adjacent blurred interior.
#[verifier::rlimit(60)]
pub fn gaussian(source: &Image) -> (r: Image)
    requires
        source.wf(),
    ensures
        r.wf(),
        r.width == source.width,
        r.height == source.height,
        blur_rows_ok(r.data@, *source, source.height - 2),
        side_borders_ok(r.data@, source.width as int, source.height - 2),
        tb_borders_ok(r.data@, source.width as int, source.height as int, source.width as int),
{
    let w = source.width;
    let h = source.height;
    assert(w * h <= 16384 * 16384) by (nonlinear_arith)
        requires
            w <= 16384,
            h <= 16384,
    ;
    let n = w * h;
    let mut data: Vec<i64> = Vec::new();
    let mut p: usize = 0;
    while p < n
        invariant
            p <= n,
            n <= 16384 * 16384,
            data@.len() == p,
            forall|q: int| 0 <= q < p ==> data@[q] == 0,
        decreases n - p,
    {
        data.push(0i64);
        p = p + 1;
    }
    let wm = w - 2;
    let hm = h - 2;
    let mut i: usize = 2;
    while i < hm
        invariant
            source.wf(),
            w == source.width,
            h == source.height,
            n == w * h,
            n <= 16384 * 16384,
            wm == w - 2,
            hm == h - 2,
            2 <= i <= hm,
            data@.len() == n,
            forall|q: int| 0 <= q < data@.len() ==> 0 <= #[trigger] data@[q] <= SAMPLE_MAX,
            blur_rows_ok(data@, *source, i as int),
        decreases hm - i,
    {
        assert(i * w + 3 * w <= n && 2 * w <= i * w) by (nonlinear_arith)
            requires
                n == w * h,
                2 <= i,
                i < h - 2,
                0 <= w,
        ;
        let ib = i * w;
        let mut j: usize = 2;
        while j < wm
            invariant
                source.wf(),
                w == source.width,
                h == source.height,
                n == w * h,
                n <= 16384 * 16384,
                wm == w - 2,
                hm == h - 2,
                2 <= i < hm,
                2 <= j <= wm,
                ib == i * w,
                2 * w <= ib,
                ib + 3 * w <= n,
                data@.len() == n,
                forall|q: int| 0 <= q < data@.len() ==> 0 <= #[trigger] data@[q] <= SAMPLE_MAX,
                blur_rows_ok(data@, *source, i as int),
                forall|b: int|
                    2 <= b < j ==> data@[i * source.width + b] == #[trigger] gauss_at(
                        *source,
                        i as int,
                        b,
                    ),
            decreases wm - j,
        {
            let px = ib + j;
            let d = &source.data;
            let s2 = w + w;
            let v: i64 = ((d[px - s2 - 2] + d[px - s2 + 2] + d[px + s2 - 2] + d[px + s2 + 2]) * 824
                + (d[px - s2 - 1] + d[px - s2 + 1] + d[px - w - 2] + d[px - w + 2] + d[px + w - 2]
                + d[px + w + 2] + d[px + s2 - 1] + d[px + s2 + 1]) * 1649 + (d[px - s2] + d[px - 2]
                + d[px + 2] + d[px + s2]) * 2061 + (d[px - w - 1] + d[px - w + 1] + d[px + w - 1]
                + d[px + w + 1]) * 3709 + (d[px - w] + d[px - 1] + d[px + 1] + d[px + w]) * 4946
                + d[px] * 6183) / 65536;
            proof {
                assert((i - 2) * w == i * w - 2 * w && (i - 1) * w == i * w - w && (i + 1) * w == i
                    * w + w && (i + 2) * w == i * w + 2 * w) by (nonlinear_arith);
            }
            let ghost d0 = data@;
            data.set(px, v);
            assert(data@[i * source.width + j] == gauss_at(*source, i as int, j as int));
            assert forall|a: int, b: int|
                2 <= a < i && 2 <= b < source.width - 2 implies data@[a * source.width + b]
                == #[trigger] gauss_at(*source, a, b) by {
                assert(a * w + b != i * w + j && 0 <= a * w + b < n) by (nonlinear_arith)
                    requires
                        a < i,
                        i < h,
                        b < w,
                        0 <= b,
                        0 <= a,
                        2 <= j < w,
                        n == w * h,
                ;
                assert(d0[a * source.width + b] == gauss_at(*source, a, b));
            }
            j = j + 1;
        }
        assert forall|a: int, b: int|
            2 <= a < i + 1 && 2 <= b < source.width - 2 implies data@[a * source.width + b]
            == #[trigger] gauss_at(*source, a, b) by {}
        i = i + 1;
    }
    let mut i: usize = 2;
    while i < hm
        invariant
            source.wf(),
            w == source.width,
            h == source.height,
            n == w * h,
            n <= 16384 * 16384,
            wm == w - 2,
            hm == h - 2,
            2 <= i <= hm,
            data@.len() == n,
            forall|q: int| 0 <= q < data@.len() ==> 0 <= #[trigger] data@[q] <= SAMPLE_MAX,
            blur_rows_ok(data@, *source, hm as int),
            side_borders_ok(data@, w as int, i as int),
        decreases hm - i,
    {
        assert(i * w + w <= n && 2 * w <= i * w) by (nonlinear_arith)
            requires
                n == w * h,
                2 <= i,
                i < h,
                0 <= w,
        ;
        let ib = i * w;
        let ibe = ib + wm;
        let ghost d0 = data@;
        let val = data[ib + 2];
        data.set(ib + 1, val);
        data.set(ib, val);
        let val2 = data[ibe - 1];
        data.set(ibe, val2);
        data.set(ibe + 1, val2);
        proof {
            assert forall|a: int, b: int|
                2 <= a < hm && 2 <= b < source.width - 2 implies data@[a * source.width + b]
                == #[trigger] gauss_at(*source, a, b) by {
                assert(a * w + b != i * w && a * w + b != i * w + 1 && a * w + b != i * w + (w - 2)
                    && a * w + b != i * w + (w - 1) && 0 <= a * w + b < n) by (nonlinear_arith)
                    requires
                        2 <= b < w - 2,
                        0 <= a,
                        0 <= i,
                        a < h,
                        i < h,
                        5 <= w,
                        n == w * h,
                ;
                assert(d0[a * source.width + b] == gauss_at(*source, a, b));
            }
            assert(side_row_ok(data@, w as int, i as int));
            assert forall|a: int| 2 <= a < i + 1 implies #[trigger] side_row_ok(
                data@,
                w as int,
                a,
            ) by {
                if a < i {
                    assert(side_row_ok(d0, w as int, a));
                    assert(0 <= a * w && a * w + (w - 1) < i * w && i * w + w <= n)
                        by (nonlinear_arith)
                        requires
                            a < i,
                            i < h,
                            5 <= w,
                            0 <= a,
                            n == w * h,
                    ;
                }
            }
        }
        i = i + 1;
    }
    assert(hm * w <= 16384 * 16384) by (nonlinear_arith)
        requires
            hm <= 16384,
            w <= 16384,
            0 <= hm,
            0 <= w,
    ;
    let hmb = hm * w;
    assert(hmb == (h - 2) * w && (h - 3) * w == hmb - w && (h - 1) * w == hmb + w && hmb + 2 * w
        == n && hmb >= 3 * w) by (nonlinear_arith)
        requires
            hmb == hm * w,
            hm == h - 2,
            n == w * h,
            5 <= h,
            0 <= w,
    ;
    let hmb2 = hmb - w;
    let hmbe = hmb + w;
    let w2 = w + w;
    let mut j: usize = 0;
    while j < w
        invariant
            source.wf(),
            w == source.width,
            h == source.height,
            n == w * h,
            wm == w - 2,
            hm == h - 2,
            j <= w,
            hmb == (h - 2) * w,
            hmb2 == hmb - w,
            hmbe == hmb + w,
            (h - 3) * w == hmb - w,
            (h - 1) * w == hmb + w,
            w2 == 2 * w,
            hmb + 2 * w == n,
            hmb >= 3 * w,
            data@.len() == n,
            forall|q: int| 0 <= q < data@.len() ==> 0 <= #[trigger] data@[q] <= SAMPLE_MAX,
            blur_rows_ok(data@, *source, hm as int),
            side_borders_ok(data@, w as int, hm as int),
            tb_borders_ok(data@, w as int, h as int, j as int),
        decreases w - j,
    {
        let ghost d0 = data@;
        let val = data[w2 + j];
        data.set(w + j, val);
        data.set(j, val);
        let val2 = data[hmb2 + j];
        data.set(hmb + j, val2);
        data.set(hmbe + j, val2);
        proof {
            assert forall|a: int, b: int|
                2 <= a < hm && 2 <= b < source.width - 2 implies data@[a * source.width + b]
                == #[trigger] gauss_at(*source, a, b) by {
                assert(2 * w <= a * w + b && a * w + b < (h - 2) * w) by (nonlinear_arith)
                    requires
                        2 <= a < h - 2,
                        0 <= b < w,
                        5 <= w,
                ;
                assert(d0[a * source.width + b] == gauss_at(*source, a, b));
            }
            assert forall|a: int| 2 <= a < hm implies #[trigger] side_row_ok(
                data@,
                w as int,
                a,
            ) by {
                assert(side_row_ok(d0, w as int, a));
                assert(2 * w <= a * w && a * w + w - 1 < (h - 2) * w) by (nonlinear_arith)
                    requires
                        2 <= a < h - 2,
                        5 <= w,
                ;
            }
            assert(tb_col_ok(data@, w as int, h as int, j as int));
            assert forall|b: int| 0 <= b < j + 1 implies #[trigger] tb_col_ok(
                data@,
                w as int,
                h as int,
                b,
            ) by {
                if b < j {
                    assert(tb_col_ok(d0, w as int, h as int, b));
                }
            }
        }
        j = j + 1;
    }
    Image { data, width: w, height: h }
}

} // verus!
