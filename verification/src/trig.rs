//! Direction cosines for the 256 orientation bins.
//!
//! Orientation bin `j` stands for the angle `(j - 128) * pi / 256`, covering
//! a half-turn. The sine of a quarter-turn is tabulated through an integer
//! Taylor evaluation in Q24, clamped to `[0, 1]`, and rounded to Q16; cosine
//! and the signed sine of every bin follow by symmetry.

use vstd::prelude::*;

verus! {

/// One unit in Q24.
pub const P24: i64 = 16777216;

/// Pi in Q24.
pub const PI24: i64 = 52707179;

/// Taylor evaluation of `sin(n * pi / 256)` in Q24, for `0 <= n <= 128`,
/// clamped to `[0, P24]`.
#[verifier::opaque]
pub open spec fn qsin_raw(n: int) -> int {
    let x = n * (PI24 as int) / 256;
    let x2 = x * x / (P24 as int);
    let x3 = x2 * x / (P24 as int);
    let x5 = x3 * x2 / (P24 as int);
    let x7 = x5 * x2 / (P24 as int);
    let x9 = x7 * x2 / (P24 as int);
    let t = x - x3 / 6 + x5 / 120 - x7 / 5040 + x9 / 362880;
    if t < 0 {
        0
    } else if t > P24 {
        P24 as int
    } else {
        t
    }
}

/// `sin(n * pi / 256)` in Q16, rounded to nearest, for `0 <= n <= 128`.
pub open spec fn qsin16(n: int) -> int {
    (qsin_raw(n) + 128) / 256
}

/// Cosine of orientation bin `j` in Q16.
pub open spec fn cos_bin(j: int) -> int {
    if j >= 128 {
        qsin16(128 - (j - 128))
    } else {
        qsin16(128 - (128 - j))
    }
}

/// Sine of orientation bin `j` in Q16.
pub open spec fn sin_bin(j: int) -> int {
    if j >= 128 {
        qsin16(j - 128)
    } else {
        -qsin16(128 - j)
    }
}

pub proof fn lemma_qsin16_bounds(n: int)
    ensures
        0 <= qsin16(n) <= 65536,
{
    reveal(qsin_raw);
}

pub proof fn lemma_bin_bounds(j: int)
    ensures
        0 <= cos_bin(j) <= 65536,
        -65536 <= sin_bin(j) <= 65536,
{
    if j >= 128 {
        lemma_qsin16_bounds(128 - (j - 128));
        lemma_qsin16_bounds(j - 128);
    } else {
        lemma_qsin16_bounds(j);
        lemma_qsin16_bounds(128 - j);
    }
}

/// Computes `qsin16(n)`.
fn qsin_exec(n: u32) -> (r: i64)
    requires
        n <= 128,
    ensures
        r == qsin16(n as int),
        0 <= r <= 65536,
{
    proof {
        reveal(qsin_raw);
    }
    let x: i64 = (n as i64) * PI24 / 256;
    assert(0 <= x <= 26353590);
    assert(x * x <= 26353590 * 26353590) by (nonlinear_arith)
        requires
            0 <= x <= 26353590,
    ;
    let x2: i64 = x * x / P24;
    assert(0 <= x2 <= 41398180);
    assert(x2 * x <= 41398180 * 26353590) by (nonlinear_arith)
        requires
            0 <= x2 <= 41398180,
            0 <= x <= 26353590,
    ;
    let x3: i64 = x2 * x / P24;
    assert(0 <= x3 <= 65035000);
    assert(x3 * x2 <= 65035000 * 41398180) by (nonlinear_arith)
        requires
            0 <= x3 <= 65035000,
            0 <= x2 <= 41398180,
    ;
    let x5: i64 = x3 * x2 / P24;
    assert(0 <= x5 <= 160500000);
    assert(x5 * x2 <= 160500000 * 41398180) by (nonlinear_arith)
        requires
            0 <= x5 <= 160500000,
            0 <= x2 <= 41398180,
    ;
    let x7: i64 = x5 * x2 / P24;
    assert(0 <= x7 <= 396100000);
    assert(x7 * x2 <= 396100000 * 41398180) by (nonlinear_arith)
        requires
            0 <= x7 <= 396100000,
            0 <= x2 <= 41398180,
    ;
    let x9: i64 = x7 * x2 / P24;
    assert(0 <= x9 <= 977500000);
    let t: i64 = x - x3 / 6 + x5 / 120 - x7 / 5040 + x9 / 362880;
    let clamped: i64 = if t < 0 {
        0
    } else if t > P24 {
        P24
    } else {
        t
    };
    (clamped + 128) / 256
}

/// Builds the cosine and sine tables for all 256 orientation bins, in Q16.
pub fn trig_tables() -> (t: (Vec<i64>, Vec<i64>))
    ensures
        t.0@.len() == 256,
        t.1@.len() == 256,
        forall|j: int| 0 <= j < 256 ==> t.0@[j] == cos_bin(j),
        forall|j: int| 0 <= j < 256 ==> t.1@[j] == sin_bin(j),
{
    let mut cos_t: Vec<i64> = Vec::new();
    let mut sin_t: Vec<i64> = Vec::new();
    let mut j: u32 = 0;
    while j < 256
        invariant
            j <= 256,
            cos_t@.len() == j,
            sin_t@.len() == j,
            forall|k: int| 0 <= k < j ==> cos_t@[k] == cos_bin(k),
            forall|k: int| 0 <= k < j ==> sin_t@[k] == sin_bin(k),
        decreases 256 - j,
    {
        let off: u32 = if j >= 128 {
            j - 128
        } else {
            128 - j
        };
        let c = qsin_exec(128 - off);
        let s_mag = qsin_exec(off);
        let s: i64 = if j >= 128 {
            s_mag
        } else {
            -s_mag
        };
        cos_t.push(c);
        sin_t.push(s);
        j = j + 1;
    }
    (cos_t, sin_t)
}

} // verus!
