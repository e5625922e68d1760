//! Points, quadrilaterals and the canonical corner ordering.
//!
//! Coordinates are Q16.16 fixed point. The corner ordering relabels a
//! detected quad so that `a -> b` runs down the left edge, `b -> c` along
//! the top, `c -> d` up the right edge and `d -> a` along the bottom.

use vstd::prelude::*;

use crate::num::sq;

verus! {

/// Largest coordinate magnitude the geometric helpers accept, in Q16.16.
pub const COORD_LIMIT: i64 = 0x100_0000_0000;

/// A point in Q16.16 image coordinates; it may lie outside the image.
#[derive(Clone, Copy, PartialEq, Eq, Structural, Debug)]
pub struct Point {
    pub x: i64,
    pub y: i64,
}

/// Four corners in traversal order.
#[derive(Clone, Copy, PartialEq, Eq, Structural, Debug)]
pub struct Quad {
    pub a: Point,
    pub b: Point,
    pub c: Point,
    pub d: Point,
}

/// A quad together with its assembly score.
#[derive(Clone, Copy, PartialEq, Eq, Structural, Debug)]
pub struct ScoredQuad {
    pub quad: Quad,
    pub score: i128,
}

impl Point {
    /// Magnitude bound under which the geometric arithmetic cannot
    /// overflow.
    pub open spec fn bounded(self) -> bool {
        &&& -COORD_LIMIT <= self.x <= COORD_LIMIT
        &&& -COORD_LIMIT <= self.y <= COORD_LIMIT
    }
}

impl Quad {
    /// All four corners bounded.
    pub open spec fn bounded(self) -> bool {
        self.a.bounded() && self.b.bounded() && self.c.bounded() && self.d.bounded()
    }

    /// Builds a quad from eight coordinates.
    pub fn new(ax: i64, ay: i64, bx: i64, by: i64, cx: i64, cy: i64, dx: i64, dy: i64) -> (q: Quad)
        ensures
            q == (Quad {
                a: Point { x: ax, y: ay },
                b: Point { x: bx, y: by },
                c: Point { x: cx, y: cy },
                d: Point { x: dx, y: dy },
            }),
    {
        Quad {
            a: Point { x: ax, y: ay },
            b: Point { x: bx, y: by },
            c: Point { x: cx, y: cy },
            d: Point { x: dx, y: dy },
        }
    }
}

/// Floor of the square root, defined by counting up.
pub open spec fn sqrt_floor(n: nat) -> nat
    decreases n,
{
    if n == 0 {
        0
    } else {
        let s = sqrt_floor((n - 1) as nat);
        if (s + 1) * (s + 1) <= n {
            s + 1
        } else {
            s
        }
    }
}

/// `sqrt_floor` really is the floor of the square root.
pub proof fn lemma_sqrt_floor(n: nat)
    ensures
        sq(sqrt_floor(n) as int) <= n < sq(sqrt_floor(n) as int + 1),
    decreases n,
{
    if n == 0 {
        assert(sqrt_floor(0) == 0);
        assert(sq(0) == 0 && sq(1) == 1);
    } else {
        lemma_sqrt_floor((n - 1) as nat);
        let s = sqrt_floor((n - 1) as nat);
        assert(sq(s as int + 1) >= sq(s as int) + 1) by (nonlinear_arith)
            requires
                s >= 0,
        ;
        assert(sq(s as int + 2) > sq(s as int + 1)) by (nonlinear_arith)
            requires
                s >= 0,
        ;
        if (s + 1) * (s + 1) <= n {
            assert(sqrt_floor(n) == s + 1);
            assert(sq(s as int + 1) <= n);
            assert(n < sq(s as int + 2));
        } else {
            assert(sqrt_floor(n) == s);
            assert(sq(s as int) <= n - 1 < n);
            assert(n - 1 < sq(s as int + 1));
            assert(n < sq(s as int + 1) || n == sq(s as int + 1));
            assert((s + 1) * (s + 1) > n);
            assert(n < sq(s as int + 1));
        }
    }
    assert(sq(sqrt_floor(n) as int) <= n);
    assert(n < sq(sqrt_floor(n) as int + 1));
}

/// Any integer in the square-root window is `sqrt_floor`.
pub proof fn lemma_sqrt_unique(n: nat, r: nat)
    requires
        sq(r as int) <= n < sq(r as int + 1),
    ensures
        r == sqrt_floor(n),
{
    lemma_sqrt_floor(n);
    let s = sqrt_floor(n);
    if r < s {
        assert(sq(r as int + 1) <= sq(s as int)) by (nonlinear_arith)
            requires
                0 <= r,
                r as int + 1 <= s,
        ;
    }
    if r > s {
        assert(sq(s as int + 1) <= sq(r as int)) by (nonlinear_arith)
            requires
                0 <= s,
                s as int + 1 <= r,
        ;
    }
}

/// Squared distance between two points.
pub open spec fn dist2(p: Point, q: Point) -> int {
    sq(p.x - q.x) + sq(p.y - q.y)
}

/// Euclidean distance between two points, in Q16.16, rounded down.
pub open spec fn dist_fp(p: Point, q: Point) -> int {
    sqrt_floor(dist2(p, q) as nat) as int
}

pub proof fn lemma_dist_sym(p: Point, q: Point)
    ensures
        dist2(p, q) == dist2(q, p),
        dist_fp(p, q) == dist_fp(q, p),
{
    assert(sq(p.x - q.x) == sq(q.x - p.x) && sq(p.y - q.y) == sq(q.y - p.y)) by (nonlinear_arith);
}

/// `|ab| + |cd|`: the summed length of the first pair of opposite sides.
pub open spec fn side_of(q: Quad) -> int {
    dist_fp(q.a, q.b) + dist_fp(q.c, q.d)
}

/// `|bc| + |da|`: the summed length of the second pair of opposite sides.
pub open spec fn top_of(q: Quad) -> int {
    dist_fp(q.b, q.c) + dist_fp(q.d, q.a)
}

/// Computes `dist_fp(*p, *q)`.
pub fn dist_fp_exec(p: &Point, q: &Point) -> (r: i64)
    requires
        p.bounded(),
        q.bounded(),
    ensures
        r == dist_fp(*p, *q),
        0 <= r <= 0x4_0000_0000_0000,
{
    let dx: i64 = p.x - q.x;
    let dy: i64 = p.y - q.y;
    proof {
        assert(0 <= dx as int * dx as int <= 0x40000000000 * 0x40000000000 && 0 <= dy as int
            * dy as int <= 0x40000000000 * 0x40000000000) by (nonlinear_arith)
            requires
                -0x40000000000 <= dx <= 0x40000000000,
                -0x40000000000 <= dy <= 0x40000000000,
        ;
    }
    let dx2: i128 = (dx as i128) * (dx as i128);
    let dy2: i128 = (dy as i128) * (dy as i128);
    assert(dx2 == sq(dx as int) && dy2 == sq(dy as int));
    let v: u128 = (dx2 + dy2) as u128;
    let s = crate::num::isqrt(v);
    proof {
        lemma_sqrt_unique(v as nat, s as nat);
        assert(s <= 0x4_0000_0000_0000) by (nonlinear_arith)
            requires
                s as int * s as int <= v,
                v <= 0x80000000000 * 0x80000000000,
                0 <= s,
        ;
    }
    s as i64
}

/// Computes `side_of(*q)` and `top_of(*q)`.
pub fn sum_sides(q: &Quad) -> (r: (i64, i64))
    requires
        q.bounded(),
    ensures
        r.0 == side_of(*q),
        r.1 == top_of(*q),
        0 <= r.0 <= 0x8_0000_0000_0000,
        0 <= r.1 <= 0x8_0000_0000_0000,
{
    let side = dist_fp_exec(&q.a, &q.b) + dist_fp_exec(&q.c, &q.d);
    let top = dist_fp_exec(&q.b, &q.c) + dist_fp_exec(&q.d, &q.a);
    (side, top)
}

/// The canonical relabelling: the output of the corner ordering, as a pure
/// function of the input quad.
pub open spec fn spec_sort_quad(q: Quad) -> Quad {
    let Quad { a, b, c, d } = q;
    if side_of(q) > top_of(q) {
        if a.x + b.x < c.x + d.x {
            if a.y > b.y {
                Quad { a, b, c, d }
            } else {
                Quad { a: b, b: a, c: d, d: c }
            }
        } else if c.y > d.y {
            Quad { a: c, b: d, c: a, d: b }
        } else {
            Quad { a: d, b: c, c: b, d: a }
        }
    } else if b.x + c.x < d.x + a.x {
        if b.y > c.y {
            Quad { a: b, b: c, c: d, d: a }
        } else {
            Quad { a: c, b, c: a, d }
        }
    } else if d.y > a.y {
        Quad { a: d, b: a, c: b, d: c }
    } else {
        Quad { a, b: d, c, d: b }
    }
}

/// Relabels the corners so `a -> b` is the left tall edge, with `a` below
/// `b`; a pure relabelling that leaves the geometry unchanged.
pub fn sort_quad(quad: Quad) -> (r: Quad)
    requires
        quad.bounded(),
    ensures
        r == spec_sort_quad(quad),
{
    let Quad { a, b, c, d } = quad;
    let (side, top) = sum_sides(&quad);
    if side > top {
        if a.x + b.x < c.x + d.x {
            if a.y > b.y {
                Quad { a, b, c, d }
            } else {
                Quad { a: b, b: a, c: d, d: c }
            }
        } else if c.y > d.y {
            Quad { a: c, b: d, c: a, d: b }
        } else {
            Quad { a: d, b: c, c: b, d: a }
        }
    } else if b.x + c.x < d.x + a.x {
        if b.y > c.y {
            Quad { a: b, b: c, c: d, d: a }
        } else {
            Quad { a: c, b, c: a, d }
        }
    } else if d.y > a.y {
        Quad { a: d, b: a, c: b, d: c }
    } else {
        Quad { a, b: d, c, d: b }
    }
}

/// The corner ordering is idempotent: relabelling an already canonical quad
/// changes nothing, so applying it twice equals applying it once. Ties in
/// the comparisons the ordering consults are excluded: on a tie the
/// heuristic has no single canonical answer and may alternate between two
/// labellings.
pub proof fn lemma_sort_quad_idempotent(q: Quad)
    requires
        side_of(q) != top_of(q),
        q.a.x + q.b.x != q.c.x + q.d.x,
        q.b.x + q.c.x != q.d.x + q.a.x,
        q.a.y != q.b.y,
        q.c.y != q.d.y,
        q.b.y != q.c.y,
        q.a.y != q.d.y,
    ensures
        spec_sort_quad(spec_sort_quad(q)) == spec_sort_quad(q),
{
    let Quad { a, b, c, d } = q;
    lemma_dist_sym(a, b);
    lemma_dist_sym(b, c);
    lemma_dist_sym(c, d);
    lemma_dist_sym(d, a);
    lemma_dist_sym(a, c);
    lemma_dist_sym(b, d);
    lemma_dist_sym(a, d);
    lemma_dist_sym(c, b);
    lemma_dist_sym(b, a);
    lemma_dist_sym(d, c);
}

} // verus!
