//! RGBA to single-channel conversion with luma-style weights.
//!
//! The weights are the classic 0.299 / 0.587 / 0.114 luma triple divided by
//! 256, expressed in Q24 so that one right shift by 8 lands the result in
//! Q16.16: `19595/2^24 = 0.299/256`, `38470/2^24 = 0.587/256`,
//! `7471/2^24 = 0.114/256`.

use vstd::prelude::*;

use crate::image::{Image, RGBAImage, SAMPLE_MAX};

verus! {

/// The gray sample produced for pixel `p` of an RGBA byte sequence.
pub open spec fn gray_at(d: Seq<u8>, p: int) -> int {
    (d[4 * p] * 19595 + d[4 * p + 1] * 38470 + d[4 * p + 2] * 7471) / 256
}

/// Converts an RGBA raster to a single-channel Q16.16 raster, pixel by
/// pixel, with the luma weights above.
pub fn grayscale(source: &RGBAImage) -> (r: Image)
    requires
        source.wf(),
    ensures
        r.wf(),
        r.width == source.width,
        r.height == source.height,
        forall|p: int| 0 <= p < r.data@.len() ==> r.data@[p] == gray_at(source.data@, p),
{
    assert(source.width * source.height <= 16384 * 16384) by (nonlinear_arith)
        requires
            source.width <= 16384,
            source.height <= 16384,
    ;
    let n = source.width * source.height;
    let mut data: Vec<i64> = Vec::new();
    let mut p: usize = 0;
    while p < n
        invariant
            n == source.width * source.height,
            n <= 16384 * 16384,
            source.data@.len() == 4 * n,
            p <= n,
            data@.len() == p,
            forall|q: int| 0 <= q < p ==> data@[q] == gray_at(source.data@, q),
            forall|q: int| 0 <= q < p ==> 0 <= #[trigger] data@[q] <= SAMPLE_MAX,
        decreases n - p,
    {
        let base = 4 * p;
        let red = source.data[base] as i64;
        let green = source.data[base + 1] as i64;
        let blue = source.data[base + 2] as i64;
        let v: i64 = (red * 19595 + green * 38470 + blue * 7471) / 256;
        data.push(v);
        p = p + 1;
    }
    Image { data, width: source.width, height: source.height }
}

} // verus!
