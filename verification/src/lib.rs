//! Locates the most document-like quadrilateral in an RGBA raster and can
//! rectify it to a flat rectangular image of chosen size.
//!
//! The pipeline works on single-channel rasters whose samples are Q16.16
//! fixed-point values: grayscale conversion, optional area-averaging
//! downscale, a 5x5 Gaussian blur, a gradient-orientation Hough vote, peak
//! clustering into line candidates, and a combinatorial quad assembler that
//! scores every geometrically valid four-line configuration. All arithmetic
//! is integer arithmetic, so every stage carries an exact contract.

use vstd::prelude::*;

pub mod assemble;
pub mod detect;
pub mod downscale;
pub mod gaussian;
pub mod geom;
pub mod grayscale;
pub mod image;
pub mod lines;
pub mod num;
pub mod perspective;
pub mod scan;
pub mod sums;
pub mod trig;

pub use scan::extract_document;
pub use scan::find_document;

verus! {

/// Scale of the Q16.16 fixed-point representation used throughout.
pub const FP: i64 = 65536;

} // verus!
