//! The document-scanning pipeline: grayscale, optional downscale, blur,
//! vote, adaptive-threshold line extraction, quad assembly, and the two
//! public operations that tie them together.
//!
//! The threshold retry starts at 0.2 of the accumulator maximum and halves
//! on every failed attempt. When an attempt already yields at least 20
//! clustered lines the search keeps that threshold and caps the list at
//! the strongest 20, spending its remaining attempts; a rich image
//! therefore settles on its first threshold even if assembly then finds
//! nothing, which is kept exactly as described.

use vstd::prelude::*;

use crate::assemble::{docs_i, documents, qsort_desc, sq_ok};
use crate::detect::{grad_at, gradient_votes, total_upto, votes_upto};
use crate::geom::{sort_quad, spec_sort_quad, sqrt_floor, sum_sides, Point, Quad, ScoredQuad,
    side_of, top_of};
use crate::image::{Image, RGBAImage};
use crate::lines::{collect_upto, edges, lemma_lelem_le_lsum, lemma_lsum_take,
    lemma_sort_desc_props, lines_ok, lscore_sum, mbe_of, sort_desc, sort_lines, spec_nms,
    threshold_val, Line};
use crate::num::{sq, tdiv};
use crate::sums::max64;
use crate::FP;

verus! {

/// The starting threshold ratio, 0.2 in Q16.16.
pub const START_THRESHOLD: u32 = 13107;

/// How many clustered lines at most enter quad assembly.
pub const LINE_CAP: usize = 20;

/// The gradient map the vote fills: each interior pixel's magnitude, zero
/// on the one-pixel border.
#[verifier::opaque]
pub open spec fn grad_map(src: Image) -> Seq<i64> {
    Seq::new(
        (src.height * src.width) as nat,
        |p: int|
            if 1 <= p / (src.width as int) < src.height - 1 && 1 <= p % (src.width as int)
                < src.width - 1 {
                grad_at(src, p / (src.width as int), p % (src.width as int)) as i64
            } else {
                0i64
            },
    )
}

/// One attempt of the adaptive-threshold search, and its successors.
pub open spec fn quads_rec(
    buf: Seq<i64>,
    gb: Seq<i64>,
    w: int,
    h: int,
    avg: int,
    diag: int,
    nb: int,
    maxg: int,
    tries: int,
    threshold: int,
) -> Seq<ScoredQuad>
    decreases tries,
{
    if tries <= 0 {
        Seq::empty()
    } else {
        let ls0 = spec_nms(
            sort_desc(collect_upto(buf, threshold_val(threshold, maxg), nb * 256)),
            mbe_of(diag),
        );
        let capped = ls0.len() >= LINE_CAP;
        let ls1 = if capped {
            ls0.take(LINE_CAP as int)
        } else {
            ls0
        };
        let docs = qsort_desc(docs_i(gb, w, h, avg, diag, sort_desc(ls1), 0));
        if docs.len() > 0 {
            docs
        } else {
            quads_rec(
                buf,
                gb,
                w,
                h,
                avg,
                diag,
                nb,
                maxg,
                if capped {
                    0
                } else {
                    tries - 1
                },
                threshold / 2,
            )
        }
    }
}

/// The quads the detection pipeline returns for an image and a try
/// budget.
#[verifier::opaque]
pub open spec fn spec_quads(src: Image, tries: int) -> Seq<ScoredQuad> {
    let w = src.width as int;
    let h = src.height as int;
    let diag = sqrt_floor((sq(h) + sq(w)) as nat) as int;
    let buf = votes_upto(src, diag, diag, (h - 2) * (w - 2));
    quads_rec(
        buf,
        grad_map(src),
        w,
        h,
        total_upto(src, (h - 2) * (w - 2)) / ((h - 2) * (w - 2)),
        diag,
        diag,
        max64(buf),
        tries,
        START_THRESHOLD as int,
    )
}

/// A gradient map with the vote's interior values and zero borders is
/// exactly `grad_map`.
proof fn lemma_grad_map_eq(src: Image, gb: Seq<i64>)
    requires
        src.wf(),
        gb.len() == src.height * src.width,
        crate::detect::grads_interior_ok(gb, src),
        crate::detect::grads_border_zero(gb, src.width as int, src.height as int),
    ensures
        gb == grad_map(src),
{
    reveal(grad_map);
    let wi = src.width as int;
    let hi = src.height as int;
    assert forall|p: int| 0 <= p < hi * wi implies gb[p] == grad_map(src)[p] by {
        reveal(grad_map);
        vstd::arithmetic::div_mod::lemma_fundamental_div_mod(p, wi);
        vstd::arithmetic::div_mod::lemma_mod_bound(p, wi);
        vstd::arithmetic::div_mod::lemma_div_pos_is_pos(p, wi);
        let a = p / wi;
        let b = p % wi;
        assert(a < hi) by (nonlinear_arith)
            requires
                p < hi * wi,
                p == wi * a + b,
                0 <= b < wi,
                0 <= a,
                0 < wi,
        ;
        assert(a * wi == wi * a) by (nonlinear_arith);
        assert(0 <= p < grad_map(src).len());
        assert(grad_map(src)[p] == (if 1 <= a < hi - 1 && 1 <= b < wi - 1 {
            crate::detect::grad_at(src, a, b) as i64
        } else {
            0i64
        }));
        assert(p == a * wi + b);
        if 1 <= a < hi - 1 && 1 <= b < wi - 1 {
            assert(gb[a * wi + b] == crate::detect::grad_at(src, a, b));
            assert(gb[p] == crate::detect::grad_at(src, a, b) as i64);
        } else {
            if a == 0 {
                assert(wi * a == 0 && a * wi == 0) by (nonlinear_arith)
                    requires
                        a == 0,
                ;
                assert(gb[b] == 0);
            } else if a == hi - 1 {
                assert(gb[b] == 0);
                assert(gb[(hi - 1) * wi + b] == 0);
            } else if b == 0 {
                assert(gb[a * wi] == 0);
            } else {
                assert(gb[a * wi] == 0);
                assert(gb[a * wi + (wi - 1)] == 0);
            }
            assert(gb[p] == 0);
        }
    }
    assert(gb =~= grad_map(src));
}

impl Image {
    /// Runs the detection pipeline on a smoothed image: votes once, then
    /// extracts lines and assembles quads at a threshold that halves on
    /// every empty attempt, up to `tries` attempts. Every returned quad
    /// has a positive score and inside-ish corners, and the list is
    /// sorted by score descending.
    #[verifier::rlimit(100)]
    #[verifier::spinoff_prover]
    pub fn quads(&self, tries: usize) -> (r: Vec<ScoredQuad>)
        requires
            self.wf(),
        ensures
            r@ == spec_quads(*self, tries as int),
            forall|m: int|
                0 <= m < r@.len() ==> sq_ok(#[trigger] r@[m], self.width as int, self.height as int),
    {
        let result = gradient_votes(self);
        let ghost buf = result.buf@;
        let ghost gb = result.grad_buf@;
        let ghost wi = self.width as int;
        let ghost hi = self.height as int;
        proof {
            lemma_grad_map_eq(*self, gb);
        }
        let mut tries_left = tries;
        let mut threshold: u32 = START_THRESHOLD;
        let ghost goal = spec_quads(*self, tries as int);
        proof {
            reveal(spec_quads);
            assert(goal == quads_rec(buf, gb, wi, hi, result.avg_grad as int, result.diag as int,
                result.num_bins as int, result.max_grad as int, tries as int,
                START_THRESHOLD as int));
        }
        while tries_left > 0
            invariant
                self.wf(),
                result.wf(),
                result.width == self.width,
                result.height == self.height,
                buf == result.buf@,
                gb == result.grad_buf@,
                wi == self.width as int,
                hi == self.height as int,
                threshold < 65536,
                goal == spec_quads(*self, tries as int),
                goal == quads_rec(buf, gb, wi, hi, result.avg_grad as int, result.diag as int,
                    result.num_bins as int, result.max_grad as int, tries_left as int,
                    threshold as int),
            decreases tries_left,
        {
            let ghost tvs = threshold_val(threshold as int, result.max_grad as int);
            let mut ls = edges(&result, threshold);
            let ghost ls0 = ls@;
            let capped = ls.len() >= LINE_CAP;
            if capped {
                tries_left = 1;
                ls.truncate(LINE_CAP);
                proof {
                    assert(ls@ =~= ls0.take(LINE_CAP as int));
                }
            }
            let ghost ls1 = ls@;
            proof {
                crate::sums::lemma_sum_nonneg(result.buf@);
                assert(tvs >= 0) by {
                    crate::sums::lemma_max_le_sum(result.buf@);
                    assert(threshold * result.max_grad >= 0) by (nonlinear_arith)
                        requires
                            threshold >= 0,
                            result.max_grad >= 0,
                    ;
                    vstd::arithmetic::div_mod::lemma_div_pos_is_pos(
                        (threshold * result.max_grad) as int,
                        65536,
                    );
                }
                assert(lines_ok(ls1, result.num_bins as int, tvs)) by {
                    if capped {
                        assert(forall|m: int|
                            0 <= m < ls1.len() ==> ls1[m] == (#[trigger] ls0[m]));
                    }
                }
                assert(lscore_sum(ls1) <= 0x4000_0000_0000) by {
                    if capped {
                        lemma_lsum_take(ls0, LINE_CAP as int);
                    }
                }
                lemma_sort_desc_props(ls1, result.num_bins as int, tvs);
            }
            sort_lines(&mut ls);
            proof {
                assert forall|m: int| 0 <= m < ls@.len() implies 0 <= (#[trigger] ls@[m]).score
                    <= 0x4000_0000_0000 && ls@[m].bin <= 23200 by {
                    lemma_lelem_le_lsum(ls@, m);
                }
            }
            let docs = documents(&result, &ls);
            if docs.len() > 0 {
                proof {
                    assert(goal == docs@);
                }
                return docs;
            }
            if !capped {
                tries_left = tries_left - 1;
            } else {
                tries_left = 0;
            }
            threshold = threshold / 2;
        }
        proof {
            assert(goal =~= Seq::<ScoredQuad>::empty());
        }
        Vec::new()
    }
}

impl Image {
    /// Area-averaging downscale by a Q16.16 factor.
    pub fn downscale(&self, by: i64) -> (r: Image)
        requires
            self.wf(),
            FP <= by <= 4194304,
            5 <= (self.width * FP) / (by as int),
            5 <= (self.height * FP) / (by as int),
        ensures
            r.wf(),
            r.width == (self.width * FP) / (by as int),
            r.height == (self.height * FP) / (by as int),
            crate::downscale::down_rows_ok(r.data@, *self, by as int, r.width as int, r.height - 1),
            crate::downscale::down_sides_ok(r.data@, r.width as int, r.height - 1),
            crate::downscale::down_tb_ok(r.data@, r.width as int, r.height as int, r.width as int),
    {
        crate::downscale::downscale(self, by)
    }

    /// 5x5 Gaussian blur with replicated borders.
    pub fn gaussian(&self) -> (r: Image)
        requires
            self.wf(),
        ensures
            r.wf(),
            r.width == self.width,
            r.height == self.height,
            crate::gaussian::blur_rows_ok(r.data@, *self, self.height - 2),
            crate::gaussian::side_borders_ok(r.data@, self.width as int, self.height - 2),
            crate::gaussian::tb_borders_ok(
                r.data@,
                self.width as int,
                self.height as int,
                self.width as int,
            ),
    {
        crate::gaussian::gaussian(self)
    }
}

impl RGBAImage {
    /// Luma-weighted grayscale conversion.
    pub fn to_grayscale(&self) -> (r: Image)
        requires
            self.wf(),
        ensures
            r.wf(),
            r.width == self.width,
            r.height == self.height,
            forall|p: int|
                0 <= p < r.data@.len() ==> r.data@[p] == crate::grayscale::gray_at(self.data@, p),
    {
        crate::grayscale::grayscale(self)
    }

    /// Perspective resample of this raster through a quad.
    pub fn perspective(&self, quad: Quad, width: usize, height: usize) -> (r: RGBAImage)
        requires
            self.wf(),
            quad.bounded(),
            1 <= width <= 16384,
            1 <= height <= 16384,
        ensures
            r.width == width,
            r.height == height,
            r.data@.len() == 4 * (width * height),
            forall|p: int|
                0 <= p < width * height ==> #[trigger] crate::perspective::px_ok(
                    r.data@,
                    *self,
                    crate::perspective::projector_of(quad, width as int, height as int),
                    width as int,
                    p,
                ),
    {
        crate::perspective::perspective(self, quad, width, height)
    }
}

/// `img` is the grayscale conversion of `src`.
#[verifier::opaque]
pub open spec fn grayscale_rel(img: Image, src: RGBAImage) -> bool {
    &&& img.wf()
    &&& img.width == src.width
    &&& img.height == src.height
    &&& forall|p: int|
        0 <= p < img.data@.len() ==> img.data@[p] == crate::grayscale::gray_at(src.data@, p)
}

/// `img` is the downscale of `src` by the Q16.16 factor `by`.
#[verifier::opaque]
pub open spec fn downscale_rel(img: Image, src: Image, by: int) -> bool {
    &&& img.wf()
    &&& img.width == (src.width * FP) / by
    &&& img.height == (src.height * FP) / by
    &&& crate::downscale::down_rows_ok(img.data@, src, by, img.width as int, img.height - 1)
    &&& crate::downscale::down_sides_ok(img.data@, img.width as int, img.height - 1)
    &&& crate::downscale::down_tb_ok(
        img.data@,
        img.width as int,
        img.height as int,
        img.width as int,
    )
}

/// `img` is the Gaussian blur of `src`.
#[verifier::opaque]
pub open spec fn gaussian_rel(img: Image, src: Image) -> bool {
    &&& img.wf()
    &&& img.width == src.width
    &&& img.height == src.height
    &&& crate::gaussian::blur_rows_ok(img.data@, src, src.height - 2)
    &&& crate::gaussian::side_borders_ok(img.data@, src.width as int, src.height - 2)
    &&& crate::gaussian::tb_borders_ok(
        img.data@,
        src.width as int,
        src.height as int,
        src.width as int,
    )
}

/// The downscale factor the detector uses: `min(w, h) / 360` in Q16.16,
/// or one when that falls below two.
pub open spec fn spec_find_factor(w: int, h: int) -> int {
    let mn = if w < h {
        w
    } else {
        h
    };
    let by = mn * FP / 360;
    if by < 2 * FP {
        FP as int
    } else {
        by
    }
}

/// A point with both coordinates multiplied by the Q16.16 factor `by`.
pub open spec fn scale_pt(p: Point, by: int) -> Point {
    Point { x: tdiv(p.x * by, FP as int) as i64, y: tdiv(p.y * by, FP as int) as i64 }
}

/// A quad with all corners multiplied by the Q16.16 factor `by`.
pub open spec fn scale_quad(q: Quad, by: int) -> Quad {
    Quad {
        a: scale_pt(q.a, by),
        b: scale_pt(q.b, by),
        c: scale_pt(q.c, by),
        d: scale_pt(q.d, by),
    }
}

/// What `find_document` returns once the blurred detection input `bl` is
/// fixed: the best quad, canonically ordered and lifted back to source
/// coordinates, or nothing.
pub open spec fn find_outcome(bl: Image, tries: int, by: int) -> Option<Quad> {
    let qs = spec_quads(bl, tries);
    if qs.len() == 0 {
        Option::None
    } else {
        Option::Some(scale_quad(spec_sort_quad(qs[0].quad), by))
    }
}

/// Locates the most document-like quad: grayscale, downscale when the
/// short side exceeds 720 pixels, blur, then the adaptive-threshold
/// detection; the winner's corners are canonically ordered and scaled
/// back to source coordinates.
#[verifier::rlimit(100)]
#[verifier::spinoff_prover]
pub fn find_document(data: &RGBAImage, tries: usize) -> (r: Option<Quad>)
    requires
        data.wf(),
    ensures
        exists|g: Image, sm: Image, bl: Image|
            {
                &&& #[trigger] grayscale_rel(g, *data)
                &&& if spec_find_factor(data.width as int, data.height as int) == FP {
                    sm == g
                } else {
                    downscale_rel(sm, g, spec_find_factor(data.width as int, data.height as int))
                }
                &&& #[trigger] gaussian_rel(bl, sm)
                &&& r == find_outcome(
                    bl,
                    tries as int,
                    spec_find_factor(data.width as int, data.height as int),
                )
            },
        r is Some ==> r.unwrap().bounded(),
{
    let w = data.width;
    let h = data.height;
    let mn = if w < h {
        w
    } else {
        h
    };
    let by: i64 = ((mn as i64) * FP) / 360;
    let by: i64 = if by < 2 * FP {
        FP
    } else {
        by
    };
    assert(by == spec_find_factor(w as int, h as int));
    let gray = self_gray(data);
    let ghost g = gray;
    let small: Image = if by != FP {
        proof {
            vstd::arithmetic::div_mod::lemma_fundamental_div_mod((mn * FP) as int, 360);
            vstd::arithmetic::div_mod::lemma_mod_bound((mn * FP) as int, 360);
            assert(360 * by <= mn * FP) by (nonlinear_arith)
                requires
                    mn * FP == 360 * ((mn * FP) / 360) + (mn * FP) % 360,
                    0 <= (mn * FP) % 360,
                    by == (mn * FP) / 360,
            ;
            assert(360 * (by as int) == (by as int) * 360) by (nonlinear_arith);
            vstd::arithmetic::div_mod::lemma_div_is_ordered(
                360 * (by as int),
                (w * FP) as int,
                by as int,
            );
            vstd::arithmetic::div_mod::lemma_div_is_ordered(
                360 * (by as int),
                (h * FP) as int,
                by as int,
            );
            vstd::arithmetic::div_mod::lemma_div_multiples_vanish(360, by as int);
            assert(by <= 4194304) by {
                vstd::arithmetic::div_mod::lemma_div_is_ordered(
                    (mn * FP) as int,
                    16384int * 65536,
                    360,
                );
            }
        }
        small_of(&gray, by)
    } else {
        gray
    };
    let blurred = blur_of(&small);
    let qs = blurred.quads(tries);
    let ghost bl = blurred;
    let ghost sm = small;
    if qs.len() == 0 {
        proof {
            assert(grayscale_rel(g, *data) && gaussian_rel(bl, sm));
        }
        return Option::None;
    }
    let best = qs[0];
    let sorted = sort_quad(best.quad);
    let out = Quad {
        a: scale_point_exec(sorted.a, by),
        b: scale_point_exec(sorted.b, by),
        c: scale_point_exec(sorted.c, by),
        d: scale_point_exec(sorted.d, by),
    };
    proof {
        assert(grayscale_rel(g, *data) && gaussian_rel(bl, sm));
        assert(out == scale_quad(spec_sort_quad(best.quad), by as int));
    }
    Option::Some(out)
}

/// Delegation helper so the grayscale call site stays readable.
fn self_gray(data: &RGBAImage) -> (r: Image)
    requires
        data.wf(),
    ensures
        grayscale_rel(r, *data),
        r.wf(),
        r.width == data.width,
        r.height == data.height,
{
    proof {
        reveal(grayscale_rel);
    }
    data.to_grayscale()
}

/// Delegation helper so the downscale call site stays readable.
fn small_of(g: &Image, by: i64) -> (r: Image)
    requires
        g.wf(),
        FP <= by <= 4194304,
        5 <= (g.width * FP) / (by as int),
        5 <= (g.height * FP) / (by as int),
    ensures
        downscale_rel(r, *g, by as int),
        r.wf(),
{
    proof {
        reveal(downscale_rel);
    }
    g.downscale(by)
}

/// Delegation helper so the blur call site stays readable.
fn blur_of(sm: &Image) -> (r: Image)
    requires
        sm.wf(),
    ensures
        gaussian_rel(r, *sm),
        r.wf(),
        r.width == sm.width,
        r.height == sm.height,
{
    proof {
        reveal(gaussian_rel);
    }
    sm.gaussian()
}

/// Scales one corner back to source coordinates.
fn scale_point_exec(p: Point, by: i64) -> (r: Point)
    requires
        -0x1_0000_0000 <= p.x <= 0x1_0000_0000,
        -0x1_0000_0000 <= p.y <= 0x1_0000_0000,
        0 < by <= 4194304,
    ensures
        r == scale_pt(p, by as int),
        r.bounded(),
{
    proof {
        assert(-0x1_0000_0000 * 4194304 <= p.x as int * by <= 0x1_0000_0000 * 4194304
            && -0x1_0000_0000 * 4194304 <= p.y as int * by <= 0x1_0000_0000 * 4194304)
            by (nonlinear_arith)
            requires
                -0x1_0000_0000 <= p.x <= 0x1_0000_0000,
                -0x1_0000_0000 <= p.y <= 0x1_0000_0000,
                0 < by <= 4194304,
        ;
        crate::num::lemma_tdiv_bounds((p.x as int) * by, FP as int, 0x100_0000_0000);
        crate::num::lemma_tdiv_bounds((p.y as int) * by, FP as int, 0x100_0000_0000);
    }
    let x = crate::num::div_round_to_zero((p.x as i128) * (by as i128), FP as i128);
    let y = crate::num::div_round_to_zero((p.y as i128) * (by as i128), FP as i128);
    Point { x: x as i64, y: y as i64 }
}

/// Rectifies `region` of the raster to a flat `target_width` wide image;
/// when no height is given it follows from the quad's side-to-top aspect
/// ratio.
pub fn extract_document(
    data: &RGBAImage,
    region: Quad,
    target_width: usize,
    target_height: Option<usize>,
) -> (r: RGBAImage)
    requires
        data.wf(),
        region.bounded(),
        1 <= target_width <= 16384,
        match target_height {
            Option::Some(th) => 1 <= th <= 16384,
            Option::None => top_of(region) >= 1 && 1 <= side_of(region) * target_width / top_of(
                region,
            ) <= 16384,
        },
    ensures
        ({
            let th = match target_height {
                Option::Some(th) => th as int,
                Option::None => side_of(region) * target_width / top_of(region),
            };
            &&& r.width == target_width
            &&& r.height == th
            &&& r.data@.len() == 4 * (target_width * th)
            &&& forall|p: int|
                0 <= p < target_width * th ==> #[trigger] crate::perspective::px_ok(
                    r.data@,
                    *data,
                    crate::perspective::projector_of(region, target_width as int, th),
                    target_width as int,
                    p,
                )
        }),
{
    let th: usize = match target_height {
        Option::Some(th) => th,
        Option::None => {
            let (side, top) = sum_sides(&region);
            proof {
                assert(0 <= side as int * target_width <= 0x8_0000_0000_0000 * 16384)
                    by (nonlinear_arith)
                    requires
                        0 <= side <= 0x8_0000_0000_0000,
                        0 <= target_width <= 16384,
                ;
            }
            let v: i128 = (side as i128) * (target_width as i128) / (top as i128);
            v as usize
        },
    };
    data.perspective(region, target_width, th)
}

/// All samples of the image are equal.
pub open spec fn uniform_image(src: Image) -> bool {
    forall|p: int, q: int|
        0 <= p < src.data@.len() && 0 <= q < src.data@.len() ==> src.data@[p] == src.data@[q]
}

/// On a uniform image every interior derivative vanishes, so no pixel
/// votes and the accumulator never leaves zero.
proof fn lemma_uniform_votes(src: Image, diag: int, nb: int, t: int)
    requires
        src.wf(),
        uniform_image(src),
        0 <= t <= (src.height - 2) * (src.width - 2),
    ensures
        votes_upto(src, diag, nb, t) == Seq::new((nb * 256) as nat, |x: int| 0i64),
    decreases t,
{
    if t > 0 {
        lemma_uniform_votes(src, diag, nb, t - 1);
        let wi = src.width as int;
        let hi = src.height as int;
        let a = 1 + (t - 1) / (wi - 2);
        let b = 1 + (t - 1) % (wi - 2);
        vstd::arithmetic::div_mod::lemma_mod_bound(t - 1, wi - 2);
        vstd::arithmetic::div_mod::lemma_div_pos_is_pos(t - 1, wi - 2);
        assert(1 <= b <= wi - 2);
        assert((t - 1) / (wi - 2) <= hi - 3) by {
            assert(t - 1 <= (hi - 2) * (wi - 2) - 1);
            assert((hi - 2) * (wi - 2) - 1 == (hi - 3) * (wi - 2) + (wi - 3)) by (nonlinear_arith);
            vstd::arithmetic::div_mod::lemma_div_is_ordered(t - 1, (hi - 3) * (wi - 2) + (wi - 3),
                wi - 2);
            vstd::arithmetic::div_mod::lemma_fundamental_div_mod_converse(
                (hi - 3) * (wi - 2) + (wi - 3),
                wi - 2,
                hi - 3,
                wi - 3,
            );
        }
        assert(1 <= a <= hi - 2);
        assert(crate::detect::sx_at(src, a, b) == 0 && crate::detect::sy_at(src, a, b) == 0) by {
            assert(0 <= (a - 1) * wi + (b - 1) && (a + 1) * wi + (b + 1) < hi * wi && (a - 1) * wi
                == a * wi - wi && (a + 1) * wi == a * wi + wi && 0 <= a * wi + b < hi * wi)
                by (nonlinear_arith)
                requires
                    1 <= a <= hi - 2,
                    1 <= b <= wi - 2,
                    5 <= wi,
                    5 <= hi,
            ;
            assert(src.data@.len() == hi * wi) by (nonlinear_arith)
                requires
                    src.data@.len() == src.width * src.height,
                    wi == src.width,
                    hi == src.height,
            ;
        }
        assert(votes_upto(src, diag, nb, t) == votes_upto(src, diag, nb, t - 1));
    }
}

/// On a zero accumulator no cell exceeds any nonnegative threshold, so no
/// line is ever emitted.
proof fn lemma_zero_buf_no_lines(buf: Seq<i64>, tv: int, c: int)
    requires
        tv >= 0,
        forall|q: int| 0 <= q < buf.len() ==> #[trigger] buf[q] == 0,
        0 <= c <= buf.len(),
    ensures
        collect_upto(buf, tv, c) == Seq::<Line>::empty(),
    decreases c,
{
    if c > 0 {
        lemma_zero_buf_no_lines(buf, tv, c - 1);
    }
}

/// The retry search over a zero accumulator returns nothing at every
/// threshold.
proof fn lemma_quads_rec_empty(
    buf: Seq<i64>,
    gb: Seq<i64>,
    w: int,
    h: int,
    avg: int,
    diag: int,
    nb: int,
    maxg: int,
    tries: int,
    threshold: int,
)
    requires
        maxg >= 0,
        threshold >= 0,
        0 <= nb,
        buf.len() == nb * 256,
        forall|q: int| 0 <= q < buf.len() ==> #[trigger] buf[q] == 0,
    ensures
        quads_rec(buf, gb, w, h, avg, diag, nb, maxg, tries, threshold) == Seq::<
            ScoredQuad,
        >::empty(),
    decreases tries,
{
    if tries > 0 {
        let tv = threshold_val(threshold, maxg);
        assert(tv >= 0) by {
            assert(threshold * maxg >= 0) by (nonlinear_arith)
                requires
                    threshold >= 0,
                    maxg >= 0,
            ;
            vstd::arithmetic::div_mod::lemma_div_pos_is_pos(threshold * maxg, 65536);
        }
        assert(nb * 256 >= 0) by (nonlinear_arith)
            requires
                0 <= nb,
        ;
        lemma_zero_buf_no_lines(buf, tv, nb * 256);
        let e = Seq::<Line>::empty();
        assert(sort_desc(e) == e);
        assert(spec_nms(e, mbe_of(diag)) == e);
        assert(docs_i(gb, w, h, avg, diag, e, 0) =~= Seq::<ScoredQuad>::empty());
        assert(qsort_desc(Seq::<ScoredQuad>::empty()) =~= Seq::<ScoredQuad>::empty());
        assert(threshold / 2 >= 0) by {
            vstd::arithmetic::div_mod::lemma_div_pos_is_pos(threshold, 2);
        }
        lemma_quads_rec_empty(buf, gb, w, h, avg, diag, nb, maxg, tries - 1, threshold / 2);
    }
}

/// An all-uniform image (an all-black one in particular) produces an
/// empty quad list: its accumulator stays zero, so no attempt of the
/// threshold search ever finds a line, let alone a quad.
pub proof fn lemma_uniform_image_empty(src: Image, tries: int)
    requires
        src.wf(),
        uniform_image(src),
    ensures
        spec_quads(src, tries) == Seq::<ScoredQuad>::empty(),
{
    reveal(spec_quads);
    let w = src.width as int;
    let h = src.height as int;
    let diag = crate::geom::sqrt_floor((sq(h) + sq(w)) as nat) as int;
    assert(3 <= (h - 2) * (w - 2)) by (nonlinear_arith)
        requires
            5 <= w,
            5 <= h,
    ;
    lemma_uniform_votes(src, diag, diag, (h - 2) * (w - 2));
    let buf = votes_upto(src, diag, diag, (h - 2) * (w - 2));
    crate::sums::lemma_zero_seq((diag * 256) as nat);
    assert(diag >= 0);
    assert(diag * 256 >= 0) by (nonlinear_arith)
        requires
            diag >= 0,
    ;
    assert(forall|q: int| 0 <= q < buf.len() ==> #[trigger] buf[q] == 0);
    assert(max64(buf) == 0);
    lemma_quads_rec_empty(
        buf,
        grad_map(src),
        w,
        h,
        total_upto(src, (h - 2) * (w - 2)) / ((h - 2) * (w - 2)),
        diag,
        diag,
        0,
        tries,
        START_THRESHOLD as int,
    );
}

} // verus!
