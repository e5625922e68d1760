//! The two raster types: a single-channel image of Q16.16 samples and an
//! 8-bit RGBA image.

use vstd::prelude::*;

verus! {

/// Largest accepted width or height, so that every intermediate product of
/// the fixed-point pipeline provably fits its machine integer.
pub const MAX_DIM: usize = 16384;

/// Largest sample value a single-channel image may hold (just under 1.0 in
/// Q16.16).
pub const SAMPLE_MAX: i64 = 65535;

/// Single-channel raster, row-major, samples in `[0, SAMPLE_MAX]` Q16.16.
pub struct Image {
    pub data: Vec<i64>,
    pub width: usize,
    pub height: usize,
}

impl Image {
    /// Well-formedness: plausible dimensions and bounded samples.
    pub open spec fn wf(self) -> bool {
        &&& 5 <= self.width <= MAX_DIM
        &&& 5 <= self.height <= MAX_DIM
        &&& self.data@.len() == self.width * self.height
        &&& forall|p: int|
            0 <= p < self.data@.len() ==> 0 <= #[trigger] self.data@[p] <= SAMPLE_MAX
    }

    /// Sample at row `i`, column `j`.
    pub open spec fn at(self, i: int, j: int) -> int {
        self.data@[i * self.width + j] as int
    }
}

/// 8-bit RGBA raster, row-major, four bytes per pixel.
pub struct RGBAImage {
    pub data: Vec<u8>,
    pub width: usize,
    pub height: usize,
}

impl RGBAImage {
    /// Well-formedness: plausible dimensions and exactly four bytes per
    /// pixel.
    pub open spec fn wf(self) -> bool {
        &&& 5 <= self.width <= MAX_DIM
        &&& 5 <= self.height <= MAX_DIM
        &&& self.data@.len() == 4 * (self.width * self.height)
    }
}

} // verus!
