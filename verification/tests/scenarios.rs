use docuscan::geom::{Point, Quad};
use docuscan::image::RGBAImage;
use docuscan::scan::{extract_document, find_document};

const FP: i64 = 65536;

fn white_rect_rgba(w: usize, h: usize, x0: usize, y0: usize, x1: usize, y1: usize) -> RGBAImage {
    let mut data = Vec::new();
    for y in 0..h {
        for x in 0..w {
            let v = if x >= x0 && x < x1 && y >= y0 && y < y1 { 255u8 } else { 0u8 };
            data.push(v);
            data.push(v);
            data.push(v);
            data.push(255);
        }
    }
    RGBAImage { data, width: w, height: h }
}

fn solid_rgba(w: usize, h: usize, v: u8) -> RGBAImage {
    let mut data = Vec::new();
    for _ in 0..w * h {
        data.push(v);
        data.push(v);
        data.push(v);
        data.push(255);
    }
    RGBAImage { data, width: w, height: h }
}

fn corners_of(q: &Quad) -> [(f64, f64); 4] {
    let f = |p: Point| (p.x as f64 / 65536.0, p.y as f64 / 65536.0);
    [f(q.a), f(q.b), f(q.c), f(q.d)]
}

/// Every expected corner has some detected corner within `tol` pixels.
fn matches_corner_set(found: &[(f64, f64); 4], expect: &[(f64, f64); 4], tol: f64) -> bool {
    let mut used = [false; 4];
    for e in expect.iter() {
        let mut hit = false;
        for (i, f) in found.iter().enumerate() {
            if !used[i] && (f.0 - e.0).abs() <= tol && (f.1 - e.1).abs() <= tol {
                used[i] = true;
                hit = true;
                break;
            }
        }
        if !hit {
            return false;
        }
    }
    true
}

#[test]
fn white_square_corners_within_three_pixels() {
    let img = white_rect_rgba(200, 200, 40, 40, 161, 161);
    let got = find_document(&img, 5);
    assert!(got.is_some());
    let q = got.unwrap();
    let found = corners_of(&q);
    println!("found corners: {:?}", found);
    let expect = [(40.0, 40.0), (160.0, 40.0), (160.0, 160.0), (40.0, 160.0)];
    assert!(matches_corner_set(&found, &expect, 3.0), "corners {:?}", found);
}

#[test]
fn rotated_rectangle_corners_and_ordering() {
    let w = 300usize;
    let h = 300usize;
    let (cx, cy) = (150.0f64, 150.0f64);
    let (ex, ey) = (80.0f64, 50.0f64);
    let ang = 15.0f64.to_radians();
    let (c, s) = (ang.cos(), ang.sin());
    let mut data = Vec::new();
    for y in 0..h {
        for x in 0..w {
            let dx = x as f64 - cx;
            let dy = y as f64 - cy;
            let u = dx * c + dy * s;
            let v = -dx * s + dy * c;
            let inside = u.abs() <= ex && v.abs() <= ey;
            let pv = if inside { 255u8 } else { 0u8 };
            data.push(pv);
            data.push(pv);
            data.push(pv);
            data.push(255);
        }
    }
    let img = RGBAImage { data, width: w, height: h };
    let got = find_document(&img, 5);
    assert!(got.is_some());
    let q = got.unwrap();
    let found = corners_of(&q);
    println!("found corners: {:?}", found);
    let mut expect = [(0.0, 0.0); 4];
    for (i, (dx, dy)) in [(-ex, -ey), (ex, -ey), (ex, ey), (-ex, ey)].iter().enumerate() {
        expect[i] = (cx + dx * c - dy * s, cy + dx * s + dy * c);
    }
    assert!(matches_corner_set(&found, &expect, 4.0), "corners {:?}", found);
    // Canonical ordering: a -> b runs along the left-most tall edge, with
    // a below b.
    let dist = |p: (f64, f64), q: (f64, f64)| ((p.0 - q.0).powi(2) + (p.1 - q.1).powi(2)).sqrt();
    let side = dist(found[0], found[1]) + dist(found[2], found[3]);
    let top = dist(found[1], found[2]) + dist(found[3], found[0]);
    assert!(side >= top - 2.0);
    assert!(found[0].0 + found[1].0 < found[2].0 + found[3].0);
    assert!(found[0].1 > found[1].1);
}

#[test]
fn uniform_gray_finds_nothing() {
    let img = solid_rgba(100, 100, 128);
    assert!(find_document(&img, 5).is_none());
}

#[test]
fn resample_square_has_black_corners_white_interior() {
    let img = white_rect_rgba(200, 200, 40, 40, 161, 161);
    let q = Quad {
        a: Point { x: 30 * FP, y: 170 * FP },
        b: Point { x: 30 * FP, y: 30 * FP },
        c: Point { x: 170 * FP, y: 30 * FP },
        d: Point { x: 170 * FP, y: 170 * FP },
    };
    let out = extract_document(&img, q, 128, Some(128));
    assert_eq!(out.width, 128);
    assert_eq!(out.height, 128);
    for (x, y) in [(0usize, 0usize), (127, 0), (0, 127), (127, 127)] {
        let p = y * 128 + x;
        for ch in 0..3 {
            assert!(out.data[4 * p + ch] < 8, "corner {} {} channel {}", x, y, ch);
        }
        assert_eq!(out.data[4 * p + 3], 255);
    }
    for y in 32..96 {
        for x in 32..96 {
            let p = y * 128 + x;
            for ch in 0..3 {
                assert!(out.data[4 * p + ch] >= 250, "interior {} {}", x, y);
            }
        }
    }
}

#[test]
fn rotating_image_half_turn_rotates_corners() {
    let w = 200usize;
    let h = 200usize;
    let img = white_rect_rgba(w, h, 30, 50, 141, 151);
    let mut rot_data = vec![0u8; 4 * w * h];
    for y in 0..h {
        for x in 0..w {
            let src = 4 * (y * w + x);
            let dst = 4 * ((h - 1 - y) * w + (w - 1 - x));
            for ch in 0..4 {
                rot_data[dst + ch] = img.data[src + ch];
            }
        }
    }
    let rot = RGBAImage { data: rot_data, width: w, height: h };
    let q1 = find_document(&img, 5);
    let q2 = find_document(&rot, 5);
    assert!(q1.is_some() && q2.is_some());
    let c1 = corners_of(&q1.unwrap());
    let c2 = corners_of(&q2.unwrap());
    println!("upright {:?}", c1);
    println!("rotated  {:?}", c2);
    let mut expect = [(0.0, 0.0); 4];
    for i in 0..4 {
        expect[i] = ((w - 1) as f64 - c1[i].0, (h - 1) as f64 - c1[i].1);
    }
    assert!(matches_corner_set(&c2, &expect, 4.0), "rotated {:?} expect {:?}", c2, expect);
}

#[test]
fn scaling_image_scales_corners() {
    let img1 = white_rect_rgba(100, 100, 30, 30, 71, 71);
    let mut big = vec![0u8; 4 * 200 * 200];
    for y in 0..200 {
        for x in 0..200 {
            let src = 4 * ((y / 2) * 100 + (x / 2));
            let dst = 4 * (y * 200 + x);
            for ch in 0..4 {
                big[dst + ch] = img1.data[src + ch];
            }
        }
    }
    let img2 = RGBAImage { data: big, width: 200, height: 200 };
    let q1 = find_document(&img1, 5);
    let q2 = find_document(&img2, 5);
    assert!(q1.is_some() && q2.is_some());
    let c1 = corners_of(&q1.unwrap());
    let c2 = corners_of(&q2.unwrap());
    println!("small {:?}", c1);
    println!("large {:?}", c2);
    let mut expect = [(0.0, 0.0); 4];
    for i in 0..4 {
        expect[i] = (2.0 * c1[i].0, 2.0 * c1[i].1);
    }
    assert!(matches_corner_set(&c2, &expect, 4.0), "scaled {:?} expect {:?}", c2, expect);
}

#[test]
fn smallest_image_is_handled() {
    let img = solid_rgba(5, 5, 77);
    assert!(find_document(&img, 3).is_none());
}

#[test]
fn large_image_takes_the_downscale_path() {
    let img = white_rect_rgba(800, 800, 160, 160, 641, 641);
    let got = find_document(&img, 5);
    assert!(got.is_some());
    let found = corners_of(&got.unwrap());
    println!("found corners: {:?}", found);
    let expect = [(160.0, 160.0), (640.0, 160.0), (640.0, 640.0), (160.0, 640.0)];
    assert!(matches_corner_set(&found, &expect, 8.0), "corners {:?}", found);
}
