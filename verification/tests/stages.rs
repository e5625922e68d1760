use docuscan::detect::gradient_votes;
use docuscan::downscale::downscale;
use docuscan::gaussian::gaussian;
use docuscan::geom::{sort_quad, sum_sides, Point, Quad};
use docuscan::grayscale::grayscale;
use docuscan::image::{Image, RGBAImage};
use docuscan::lines::{collect_lines, edges, Line};
use docuscan::num::{iroot10, iroot5, isqrt};
use docuscan::scan::extract_document;

const FP: i64 = 65536;

fn solid_rgba(w: usize, h: usize, v: u8) -> RGBAImage {
    let mut data = Vec::new();
    for _ in 0..w * h {
        data.push(v);
        data.push(v);
        data.push(v);
        data.push(255);
    }
    RGBAImage { data, width: w, height: h }
}

fn white_rect_rgba(w: usize, h: usize, x0: usize, y0: usize, x1: usize, y1: usize) -> RGBAImage {
    let mut data = Vec::new();
    for y in 0..h {
        for x in 0..w {
            let v = if x >= x0 && x < x1 && y >= y0 && y < y1 { 255u8 } else { 0u8 };
            data.push(v);
            data.push(v);
            data.push(v);
            data.push(255);
        }
    }
    RGBAImage { data, width: w, height: h }
}

fn gray_image(w: usize, h: usize, v: i64) -> Image {
    Image { data: vec![v; w * h], width: w, height: h }
}

#[test]
fn integer_roots_exact_values() {
    assert_eq!(isqrt(0), 0);
    assert_eq!(isqrt(15), 3);
    assert_eq!(isqrt(16), 4);
    assert_eq!(isqrt(1 << 40), 1 << 20);
    assert_eq!(iroot5(3124), 4);
    assert_eq!(iroot5(3125), 5);
    assert_eq!(iroot10(1023), 1);
    assert_eq!(iroot10(1024), 2);
}

#[test]
fn grayscale_formula_exact() {
    let mut img = solid_rgba(5, 5, 0);
    img.data[0] = 200;
    img.data[1] = 100;
    img.data[2] = 50;
    let g = grayscale(&img);
    assert_eq!(g.width, 5);
    assert_eq!(g.height, 5);
    assert_eq!(g.data[0], (200 * 19595 + 100 * 38470 + 50 * 7471) / 256);
    assert_eq!(g.data[0], 31795);
    assert_eq!(g.data[1], 0);
}

#[test]
fn gaussian_impulse_weights() {
    let mut img = gray_image(9, 9, 0);
    img.data[4 * 9 + 4] = 65535;
    let b = gaussian(&img);
    assert_eq!(b.data[4 * 9 + 4], 65535 * 6183 / 65536);
    assert_eq!(b.data[4 * 9 + 5], 65535 * 4946 / 65536);
    assert_eq!(b.data[3 * 9 + 3], 65535 * 3709 / 65536);
    assert_eq!(b.data[4 * 9 + 6], 65535 * 2061 / 65536);
    assert_eq!(b.data[3 * 9 + 6], 65535 * 1649 / 65536);
    assert_eq!(b.data[2 * 9 + 6], 65535 * 824 / 65536);
}

#[test]
fn gaussian_preserves_uniform_level() {
    let img = gray_image(7, 7, 40000);
    let b = gaussian(&img);
    for p in 0..b.data.len() {
        assert_eq!(b.data[p], 40000 * 65535 / 65536);
    }
}

#[test]
fn downscale_by_two_averages() {
    let img = gray_image(10, 10, 32768);
    let d = downscale(&img, 2 * FP);
    assert_eq!(d.width, 5);
    assert_eq!(d.height, 5);
    for y in 0..5 {
        for x in 0..5 {
            assert_eq!(d.data[y * 5 + x], 32768, "pixel {} {}", x, y);
        }
    }
}

#[test]
fn downscale_sizes_follow_factor() {
    let img = gray_image(20, 14, 100);
    let d = img.downscale(2 * FP);
    assert_eq!(d.width, 10);
    assert_eq!(d.height, 7);
    let e = img.downscale(5 * FP / 2);
    assert_eq!(e.width, 8);
    assert_eq!(e.height, 5);
}

#[test]
fn sum_sides_of_right_triangle_quad() {
    let q = Quad {
        a: Point { x: 0, y: 0 },
        b: Point { x: 0, y: 3 * FP },
        c: Point { x: 4 * FP, y: 3 * FP },
        d: Point { x: 4 * FP, y: 0 },
    };
    let (side, top) = sum_sides(&q);
    assert_eq!(side, 6 * FP);
    assert_eq!(top, 8 * FP);
}

#[test]
fn sort_quad_is_idempotent_on_tall_quad() {
    // A quad with no ties in any comparison the ordering consults.
    let q = Quad {
        a: Point { x: 10 * FP, y: 90 * FP },
        b: Point { x: 11 * FP, y: 10 * FP },
        c: Point { x: 60 * FP, y: 12 * FP },
        d: Point { x: 61 * FP, y: 91 * FP },
    };
    let once = sort_quad(q);
    let twice = sort_quad(once);
    assert_eq!(once, twice);
    // The relabelling keeps the same corner set.
    let mut all = [q.a, q.b, q.c, q.d];
    for c in [once.a, once.b, once.c, once.d] {
        let pos = all.iter().position(|p| *p == c);
        assert!(pos.is_some());
        all[pos.unwrap()] = Point { x: i64::MIN, y: i64::MIN };
    }
}

#[test]
fn accumulator_max_matches_buffer() {
    let rgba = white_rect_rgba(60, 60, 15, 15, 45, 45);
    let img = gaussian(&grayscale(&rgba));
    let gv = gradient_votes(&img);
    let mut mx: i64 = 0;
    for &v in gv.buf.iter() {
        assert!(v >= 0);
        if v > mx {
            mx = v;
        }
    }
    assert_eq!(gv.max_grad, mx);
    assert!(mx > 0);
}

#[test]
fn emitted_lines_beat_threshold() {
    let rgba = white_rect_rgba(60, 60, 15, 15, 45, 45);
    let img = gaussian(&grayscale(&rgba));
    let gv = gradient_votes(&img);
    let threshold: u32 = 13107;
    let ls = edges(&gv, threshold);
    assert!(ls.len() > 0);
    for l in ls.iter() {
        assert!((l.score as i128) * 65536 > (threshold as i128) * (gv.max_grad as i128));
    }
}

#[test]
fn zero_threshold_emits_every_positive_cell() {
    let rgba = white_rect_rgba(60, 60, 15, 15, 45, 45);
    let img = gaussian(&grayscale(&rgba));
    let gv = gradient_votes(&img);
    let ls = collect_lines(&gv, 0);
    let positive = gv.buf.iter().filter(|&&v| v > 0).count();
    assert_eq!(ls.len(), positive);
    for l in ls.iter() {
        assert_eq!(gv.buf[l.bin * 256 + l.angle as usize], l.score);
        assert!(l.score > 0);
    }
}

#[test]
fn lower_threshold_emits_superset() {
    let rgba = white_rect_rgba(60, 60, 15, 15, 45, 45);
    let img = gaussian(&grayscale(&rgba));
    let gv = gradient_votes(&img);
    let low = collect_lines(&gv, 6554);
    let high = collect_lines(&gv, 13107);
    assert!(low.len() >= high.len());
    for l in high.iter() {
        assert!(low.iter().any(|m| m == l), "missing line {:?}", l);
    }
    let near_one = collect_lines(&gv, 65535);
    assert!(near_one.len() >= 1);
    for l in near_one.iter() {
        assert!(low.iter().any(|m| m == l));
    }
}

#[test]
fn perspective_identity_reproduces_source() {
    let w = 50usize;
    let h = 40usize;
    let mut data = Vec::new();
    for y in 0..h {
        for x in 0..w {
            data.push(((x * 7 + y * 13) % 256) as u8);
            data.push(((x * 3 + y * 5) % 256) as u8);
            data.push(((x * 11 + y * 2) % 256) as u8);
            data.push(255);
        }
    }
    let img = RGBAImage { data, width: w, height: h };
    let q = Quad {
        a: Point { x: 0, y: (h as i64) * FP },
        b: Point { x: 0, y: 0 },
        c: Point { x: (w as i64) * FP, y: 0 },
        d: Point { x: (w as i64) * FP, y: (h as i64) * FP },
    };
    let out = extract_document(&img, q, w, Some(h));
    assert_eq!(out.width, w);
    assert_eq!(out.height, h);
    for p in 0..w * h {
        for ch in 0..3 {
            let a = img.data[4 * p + ch] as i64;
            let b = out.data[4 * p + ch] as i64;
            assert!((a - b).abs() <= 2, "pixel {} channel {}: {} vs {}", p, ch, a, b);
        }
        assert_eq!(out.data[4 * p + 3], 255);
    }
}

#[test]
fn perspective_outside_is_white_with_full_alpha() {
    let img = solid_rgba(10, 10, 0);
    // A quad far outside the source: every sample lands outside.
    let q = Quad {
        a: Point { x: 1000 * FP, y: 1100 * FP },
        b: Point { x: 1000 * FP, y: 1000 * FP },
        c: Point { x: 1100 * FP, y: 1000 * FP },
        d: Point { x: 1100 * FP, y: 1100 * FP },
    };
    let out = img.perspective(q, 8, 8);
    for p in 0..64 {
        assert_eq!(out.data[4 * p], 255);
        assert_eq!(out.data[4 * p + 1], 255);
        assert_eq!(out.data[4 * p + 2], 255);
        assert_eq!(out.data[4 * p + 3], 255);
    }
}

#[test]
fn parallel_lines_are_rejected_not_fatal() {
    // Two pairs of exactly parallel lines: the degenerate intersections
    // (zero denominator) must be treated as outside, and with no gradient
    // evidence every candidate scores zero and is dropped.
    let img = gray_image(50, 50, 20000);
    let gv = gradient_votes(&img);
    let ls = vec![
        Line { angle: 64, bin: 10, score: 100 },
        Line { angle: 64, bin: 20, score: 90 },
        Line { angle: 192, bin: 10, score: 80 },
        Line { angle: 192, bin: 20, score: 70 },
    ];
    let docs = docuscan::assemble::documents(&gv, &ls);
    assert_eq!(docs.len(), 0);
}

#[test]
fn grayscale_then_methods_roundtrip_dimensions() {
    let rgba = solid_rgba(12, 9, 128);
    let g = rgba.to_grayscale();
    assert_eq!(g.width, 12);
    assert_eq!(g.height, 9);
    let b = g.gaussian();
    assert_eq!(b.width, 12);
    assert_eq!(b.height, 9);
}
