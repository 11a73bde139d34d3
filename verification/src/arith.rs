//! Integer helpers shared by the image operations: truncating division,
//! the low byte of an integer, and facts about row-major pixel indices.
use vstd::prelude::*;

verus! {

/// The absolute value of an integer.
pub open spec fn abs(a: int) -> int {
    if a < 0 { -a } else { a }
}

/// The smaller of two integers.
pub open spec fn min(a: int, b: int) -> int {
    if a < b { a } else { b }
}

/// Division rounding toward zero, as machine division of signed integers does.
pub open spec fn trunc_div(a: int, b: int) -> int {
    if (a >= 0) == (b > 0) || a == 0 {
        abs(a) / abs(b)
    } else {
        -(abs(a) / abs(b))
    }
}

/// The byte kept when an integer is cast to `u8`: its residue modulo 256.
pub open spec fn low_byte(a: int) -> int {
    a % 256
}

/// Byte `ch` of the pixel in row `r`, column `c` of an RGBA image `w` pixels wide.
pub open spec fn byte_at(img: Seq<u8>, w: int, r: int, c: int, ch: int) -> u8 {
    img[4 * (w * r + c) + ch]
}

/// Truncating division of 64-bit integers.
pub fn trunc_div_i64(a: i64, b: i64) -> (r: i64)
    requires
        b != 0,
        a > i64::MIN,
        b > i64::MIN,
    ensures
        r == trunc_div(a as int, b as int),
{
    let ua: i64 = if a < 0 { -a } else { a };
    let ub: i64 = if b < 0 { -b } else { b };
    let q: i64 = ua / ub;
    if (a >= 0) == (b > 0) || a == 0 {
        q
    } else {
        -q
    }
}

/// The low byte of a 64-bit integer, as a cast to `u8` gives it.
pub fn low_byte_i64(a: i64) -> (r: u8)
    requires
        a > i64::MIN,
    ensures
        r == low_byte(a as int),
{
    if a >= 0 {
        (a % 256) as u8
    } else {
        let m: i64 = (-a) % 256;
        proof {
            let y = -(a as int);
            vstd::arithmetic::div_mod::lemma_fundamental_div_mod(y, 256);
            vstd::arithmetic::div_mod::lemma_fundamental_div_mod(a as int, 256);
            if m == 0 {
                vstd::arithmetic::div_mod::lemma_fundamental_div_mod_converse(
                    a as int, 256, -(y / 256), 0);
            } else {
                vstd::arithmetic::div_mod::lemma_fundamental_div_mod_converse(
                    a as int, 256, -(y / 256) - 1, 256 - m);
            }
        }
        if m == 0 {
            0
        } else {
            (256 - m) as u8
        }
    }
}

/// A cell `(r, c)` of a `w` by `h` grid has a row-major position below `w * h`.
pub proof fn lemma_cell_in_grid(r: int, c: int, w: int, h: int)
    requires
        0 <= r < h,
        0 <= c < w,
    ensures
        0 <= w * r + c < w * h,
        0 <= w * r,
{
    assert(w * r + c < w * h) by (nonlinear_arith)
        requires 0 <= r < h, 0 <= c < w;
    assert(0 <= w * r) by (nonlinear_arith)
        requires 0 <= r, 0 <= w;
}

/// Byte `ch` of the pixel in cell `(r, c)` of a `w` by `h` RGBA grid lies inside its buffer.
pub proof fn lemma_byte_in_grid(r: int, c: int, ch: int, w: int, h: int)
    requires
        0 <= r < h,
        0 <= c < w,
        0 <= ch < 4,
    ensures
        0 <= 4 * (w * r + c) + ch < 4 * (w * h),
{
    lemma_cell_in_grid(r, c, w, h);
}

/// Distinct cells have distinct byte positions.
pub proof fn lemma_byte_position_unique(r1: int, c1: int, ch1: int, r2: int, c2: int, ch2: int, w: int)
    requires
        0 <= c1 < w,
        0 <= c2 < w,
        0 <= ch1 < 4,
        0 <= ch2 < 4,
        0 <= r1,
        0 <= r2,
        4 * (w * r1 + c1) + ch1 == 4 * (w * r2 + c2) + ch2,
    ensures
        r1 == r2,
        c1 == c2,
        ch1 == ch2,
{
    assert(w * r1 + c1 == w * r2 + c2 && ch1 == ch2);
    if r1 < r2 {
        assert(w * r1 + c1 < w * r2 + c2) by (nonlinear_arith)
            requires r1 < r2, 0 <= c1 < w, 0 <= c2;
    } else if r2 < r1 {
        assert(w * r2 + c2 < w * r1 + c1) by (nonlinear_arith)
            requires r2 < r1, 0 <= c2 < w, 0 <= c1;
    }
}


/// The bytes of one cell are not bytes of any other cell.
pub proof fn lemma_other_cell_bytes(r: int, c: int, ch: int, r2: int, c2: int, w: int)
    requires
        0 <= c < w,
        0 <= c2 < w,
        0 <= ch < 4,
        0 <= r,
        0 <= r2,
        r != r2 || c != c2,
    ensures
        4 * (w * r + c) + ch != 4 * (w * r2 + c2),
        4 * (w * r + c) + ch != 4 * (w * r2 + c2) + 1,
        4 * (w * r + c) + ch != 4 * (w * r2 + c2) + 2,
        4 * (w * r + c) + ch != 4 * (w * r2 + c2) + 3,
{
    if 4 * (w * r + c) + ch == 4 * (w * r2 + c2) {
        lemma_byte_position_unique(r, c, ch, r2, c2, 0, w);
    }
    if 4 * (w * r + c) + ch == 4 * (w * r2 + c2) + 1 {
        lemma_byte_position_unique(r, c, ch, r2, c2, 1, w);
    }
    if 4 * (w * r + c) + ch == 4 * (w * r2 + c2) + 2 {
        lemma_byte_position_unique(r, c, ch, r2, c2, 2, w);
    }
    if 4 * (w * r + c) + ch == 4 * (w * r2 + c2) + 3 {
        lemma_byte_position_unique(r, c, ch, r2, c2, 3, w);
    }
}


/// Every byte position of a `w` by `h` RGBA grid is byte `ch` of some cell `(r, c)`.
pub proof fn lemma_byte_cell(i: int, w: int, h: int) -> (rcc: (int, int, int))
    requires
        0 <= i < 4 * (w * h),
        0 <= w,
        0 <= h,
    ensures
        0 <= rcc.0 < h,
        0 <= rcc.1 < w,
        0 <= rcc.2 < 4,
        i == 4 * (w * rcc.0 + rcc.1) + rcc.2,
{
    assert(w > 0) by (nonlinear_arith)
        requires 0 <= i < 4 * (w * h), h >= 0, w >= 0;
    let q = i / 4;
    let ch = i % 4;
    let r = q / w;
    let c = q % w;
    vstd::arithmetic::div_mod::lemma_fundamental_div_mod(i, 4);
    vstd::arithmetic::div_mod::lemma_fundamental_div_mod(q, w);
    vstd::arithmetic::div_mod::lemma_mod_bound(q, w);
    vstd::arithmetic::div_mod::lemma_div_pos_is_pos(q, w);
    assert(q < w * h);
    assert(r < h) by (nonlinear_arith)
        requires q == w * r + c, 0 <= c, q < w * h, w > 0;
    (r, c, ch)
}

} // verus!
