//! Convolution of an RGBA image with a small square kernel.
use vstd::prelude::*;

use crate::arith::{abs, byte_at, lemma_byte_in_grid, lemma_cell_in_grid, lemma_other_cell_bytes, low_byte, low_byte_i64, min, trunc_div, trunc_div_i64};
use crate::error::ImproError;
use crate::ops::Kernel;

verus! {

/// How the kernel windows are laid out and where the result goes.
///
/// `Reduced` moves the window by its own side and writes one pixel per
/// window into a smaller image; `Overlap` moves it by one pixel and writes one
/// pixel per window into an image of the same size. Without a `KType` the
/// window moves by its side and every pixel of a block takes the block's value.
pub enum KType {
    Reduced,
    Overlap,
}

/// The byte position of channel-0 of window cell `j` for the window whose top-left
/// corner is `(ri, ci)`; cells past the last row or column repeat the edge pixel.
pub open spec fn tap_index(w: int, h: int, side: int, ri: int, ci: int, j: int) -> int {
    4 * (w * min(ri + j / side, h - 1) + min(ci + j % side, w - 1))
}

/// The weighted sum, for channel `c`, of the first `n` cells of the window at `(ri, ci)`.
pub open spec fn window_sum(
    img: Seq<u8>,
    w: int,
    h: int,
    kernel: Kernel,
    ri: int,
    ci: int,
    c: int,
    n: int,
) -> int
    decreases n,
{
    if n <= 0 {
        0
    } else {
        window_sum(img, w, h, kernel, ri, ci, c, n - 1) + kernel.weight_for(n - 1, c) * img[tap_index(
            w,
            h,
            kernel.side(),
            ri,
            ci,
            n - 1,
        ) + c] as int
    }
}

/// The output byte of channel `c` for the window at `(ri, ci)`: the weighted sum,
/// divided by the kernel's divisor rounding toward zero, reduced to its low byte.
pub open spec fn conv_byte(img: Seq<u8>, w: int, h: int, kernel: Kernel, ri: int, ci: int, c: int) -> int {
    low_byte(
        trunc_div(window_sum(img, w, h, kernel, ri, ci, c, kernel.taps()), kernel.divisor() as int),
    )
}

/// The number of window positions along a side of length `a` with stride `b`.
pub open spec fn ceil_div(a: int, b: int) -> int {
    (a + b - 1) / b
}

/// Whether the result goes into a new, smaller buffer.
pub open spec fn is_reduced(k_type: Option<KType>) -> bool {
    k_type is Some
}

/// Whether the window moves by one pixel.
pub open spec fn is_overlap(k_type: Option<KType>) -> bool {
    k_type matches Some(KType::Overlap)
}

/// The distance between neighbouring windows.
pub open spec fn stride(kernel: Kernel, k_type: Option<KType>) -> int {
    if is_overlap(k_type) {
        1
    } else {
        kernel.side()
    }
}

/// The dimensions that `conv` reports. For a reduced image the count of a
/// partial last window is taken from the width alone, for both axes.
pub open spec fn conv_dims(w: u32, h: u32, kernel: Kernel, k_type: Option<KType>) -> (u32, u32) {
    if is_reduced(k_type) {
        let n: int = if w as int % kernel.side() == 0 || is_overlap(k_type) { 0 } else { 1 };
        let d: int = if is_overlap(k_type) { 1 } else { kernel.side() };
        ((w as int / d + n) as u32, (h as int / d + n) as u32)
    } else {
        (w, h)
    }
}

/// `out` is the reduced convolution of `img` (`w` by `h` pixels) with windows
/// `step` apart: one pixel per window, row by row.
pub open spec fn reduced_output(img: Seq<u8>, out: Seq<u8>, w: int, h: int, kernel: Kernel, step: int) -> bool {
    let rows = ceil_div(h, step);
    let cols = ceil_div(w, step);
    &&& out.len() == 4 * (cols * rows)
    &&& forall|a: int, b: int, c: int|
        0 <= a < rows && 0 <= b < cols && 0 <= c < 4 ==> #[trigger] byte_at(out, cols, a, b, c) == conv_byte(
            img,
            w,
            h,
            kernel,
            a * step,
            b * step,
            c,
        )
}

/// `out` is the block convolution of `img` (`w` by `h` pixels): every pixel takes the
/// value of the window at the top-left corner of its block.
pub open spec fn block_output(img: Seq<u8>, out: Seq<u8>, w: int, h: int, kernel: Kernel) -> bool {
    &&& out.len() == img.len()
    &&& forall|r: int, col: int, c: int|
        0 <= r < h && 0 <= col < w && 0 <= c < 4 ==> #[trigger] byte_at(out, w, r, col, c) == conv_byte(
            img,
            w,
            h,
            kernel,
            r - r % kernel.side(),
            col - col % kernel.side(),
            c,
        )
}

/// Every window that `conv` visits has partial sums, terms and a quotient that fit
/// in an `i32`, so that a 32-bit accumulator computes the exact value.
pub open spec fn conv_fits(img: Seq<u8>, w: int, h: int, kernel: Kernel, step: int) -> bool {
    forall|ri: int, ci: int, c: int, n: int|
        0 <= ri < h && ri % step == 0 && 0 <= ci < w && ci % step == 0 && 0 <= c < 4 && 0 < n
            <= kernel.taps() ==> {
            &&& i32::MIN <= #[trigger] window_sum(img, w, h, kernel, ri, ci, c, n) <= i32::MAX
            &&& i32::MIN <= kernel.weight_for(n - 1, c) * img[tap_index(
                w,
                h,
                kernel.side(),
                ri,
                ci,
                n - 1,
            ) + c] <= i32::MAX
            &&& (n == kernel.taps() && kernel.divisor() == -1) ==> window_sum(
                img,
                w,
                h,
                kernel,
                ri,
                ci,
                c,
                n,
            ) != i32::MIN
        }
}

/// The position of a window cell lies inside the image.
proof fn lemma_tap_in_image(w: int, h: int, side: int, ri: int, ci: int, j: int, c: int)
    requires
        0 <= ri < h,
        0 <= ci < w,
        0 <= j,
        side > 0,
        0 <= c < 4,
    ensures
        0 <= tap_index(w, h, side, ri, ci, j) + c < 4 * (w * h),
        tap_index(w, h, side, ri, ci, j) == 4 * (w * min(ri + j / side, h - 1) + min(
            ci + j % side,
            w - 1,
        )),
        ri <= min(ri + j / side, h - 1) < h,
        ci <= min(ci + j % side, w - 1) < w,
        0 <= j / side <= j,
        0 <= j % side < side,
{
    assert(j / side <= j) by (nonlinear_arith)
        requires side > 0, j >= 0;
    vstd::arithmetic::div_mod::lemma_div_pos_is_pos(j, side);
    vstd::arithmetic::div_mod::lemma_mod_bound(j, side);
    lemma_byte_in_grid(min(ri + j / side, h - 1), min(ci + j % side, w - 1), c, w, h);
}

/// The window sum reads only the window's own bytes.
proof fn lemma_window_sum_frame(
    a: Seq<u8>,
    b: Seq<u8>,
    w: int,
    h: int,
    kernel: Kernel,
    ri: int,
    ci: int,
    c: int,
    n: int,
)
    requires
        forall|j: int|
            0 <= j < n ==> a[tap_index(w, h, kernel.side(), ri, ci, j) + c] == b[tap_index(
                w,
                h,
                kernel.side(),
                ri,
                ci,
                j,
            ) + c],
    ensures
        window_sum(a, w, h, kernel, ri, ci, c, n) == window_sum(b, w, h, kernel, ri, ci, c, n),
    decreases n,
{
    if n > 0 {
        lemma_window_sum_frame(a, b, w, h, kernel, ri, ci, c, n - 1);
    }
}

/// The output pixel of the window whose top-left corner is `(ri, ci)`.
fn window_pixel(img: &Vec<u8>, w: usize, h: usize, kernel: &Kernel, ri: usize, ci: usize) -> (px: [u8; 4])
    requires
        img.len() == 4 * (w * h),
        ri < h,
        ci < w,
        w * h <= u32::MAX,
        kernel.divisor() != 0,
    ensures
        forall|c: int|
            0 <= c < 4 ==> px[c] as int == conv_byte(img@, w as int, h as int, *kernel, ri as int, ci as int, c),
{
    proof {
        assert(w <= w * h && h <= w * h) by (nonlinear_arith)
            requires ri < h, ci < w;
    }
    let side = kernel.side_len();
    let taps = side * side;
    let div = kernel.div();
    let mut px: [u8; 4] = [0, 0, 0, 0];
    let mut c: usize = 0;
    while c < 4
        invariant
            0 <= c <= 4,
            img.len() == 4 * (w * h),
            ri < h,
            ci < w,
            w * h <= u32::MAX,
            w <= u32::MAX,
            h <= u32::MAX,
            side == kernel.side(),
            taps == kernel.taps(),
            div == kernel.divisor(),
            div != 0,
            forall|c2: int|
                0 <= c2 < c ==> px[c2] as int == conv_byte(img@, w as int, h as int, *kernel, ri as int, ci as int, c2),
        decreases 4 - c,
    {
        let mut acc: i64 = 0;
        let mut j: usize = 0;
        while j < taps
            invariant
                0 <= j <= taps,
                c < 4,
                img.len() == 4 * (w * h),
                ri < h,
                ci < w,
                w * h <= u32::MAX,
                w <= u32::MAX,
                h <= u32::MAX,
                side == kernel.side(),
                taps == kernel.taps(),
                taps <= 25,
                acc == window_sum(img@, w as int, h as int, *kernel, ri as int, ci as int, c as int, j as int),
                -(j * 0x8000_0000 * 255) <= acc <= j * 0x8000_0000 * 255,
            decreases taps - j,
        {
            proof {
                lemma_tap_in_image(w as int, h as int, side as int, ri as int, ci as int, j as int, c as int);
            }
            let y = j / side;
            let x = j % side;
            let row = if y < (h - 1) - ri { ri + y } else { h - 1 };
            let col = if x < (w - 1) - ci { ci + x } else { w - 1 };
            proof {
                lemma_cell_in_grid(row as int, col as int, w as int, h as int);
            }
            let idx = 4 * (w * row + col) + c;
            let wt = kernel.weight(j, c);
            let pv = img[idx];
            proof {
                assert(-(0x8000_0000 * 255) <= (wt as int) * (pv as int) <= 0x8000_0000 * 255) by (nonlinear_arith)
                    requires
                        i32::MIN <= wt <= i32::MAX,
                        0 <= pv <= 255,
                ;
            }
            let term: i64 = (wt as i64) * (pv as i64);
            acc = acc + term;
            j = j + 1;
        }
        let q = trunc_div_i64(acc, div as i64);
        px[c] = low_byte_i64(q);
        c = c + 1;
    }
    px
}


/// The number of strides that fit below `w`, in closed form.
proof fn lemma_ceil_div(w: int, s: int)
    requires
        s > 0,
        w >= 0,
    ensures
        ceil_div(w, s) == w / s + (if w % s == 0 { 0int } else { 1int }),
        ceil_div(w, s) >= 0,
        ceil_div(w, s) <= w,
{
    vstd::arithmetic::div_mod::lemma_fundamental_div_mod(w, s);
    vstd::arithmetic::div_mod::lemma_mod_bound(w, s);
    let q = w / s;
    let r = w % s;
    assert(w == q * s + r) by (nonlinear_arith)
        requires w == s * q + r;
    if r == 0 {
        vstd::arithmetic::div_mod::lemma_fundamental_div_mod_converse(w + s - 1, s, q, s - 1);
    } else {
        assert(w + s - 1 == (q + 1) * s + (r - 1)) by (nonlinear_arith)
            requires w == q * s + r;
        vstd::arithmetic::div_mod::lemma_fundamental_div_mod_converse(w + s - 1, s, q + 1, r - 1);
    }
    assert(q <= w) by (nonlinear_arith)
        requires w == s * q + r, s > 0, 0 <= r, w >= 0;
    assert(q >= 0) by (nonlinear_arith)
        requires w == s * q + r, s > 0, r < s, w >= 0;
    assert(r != 0 ==> q + 1 <= w) by (nonlinear_arith)
        requires w == s * q + r, s > 0, 0 <= r, w >= 0, q >= 0;
}

/// Window `b` starts inside a side of length `w` exactly when `b` is below the window count.
proof fn lemma_stride_in_range(b: int, s: int, w: int)
    requires
        s > 0,
        w >= 0,
        b >= 0,
    ensures
        (b * s < w) == (b < ceil_div(w, s)),
{
    lemma_ceil_div(w, s);
    vstd::arithmetic::div_mod::lemma_fundamental_div_mod(w, s);
    vstd::arithmetic::div_mod::lemma_mod_bound(w, s);
    let q = w / s;
    let r = w % s;
    if b < ceil_div(w, s) {
        if r == 0 {
            assert(b * s < w) by (nonlinear_arith)
                requires b < q, w == s * q + r, r == 0, s > 0;
        } else {
            assert(b * s < w) by (nonlinear_arith)
                requires b <= q, w == s * q + r, r > 0, s > 0;
        }
    } else {
        if r == 0 {
            assert(b * s >= w) by (nonlinear_arith)
                requires b >= q, w == s * q + r, r == 0, s > 0;
        } else {
            assert(b * s >= w) by (nonlinear_arith)
                requires b >= q + 1, w == s * q + r, r < s, s > 0;
        }
    }
}

/// A row inside the block that starts at `a * s` has that block start.
proof fn lemma_block_start(r: int, a: int, s: int)
    requires
        0 <= a,
        s > 0,
        a * s <= r < a * s + s,
    ensures
        r % s == r - a * s,
        r - r % s == a * s,
{
    vstd::arithmetic::div_mod::lemma_fundamental_div_mod_converse(r, s, a, r - a * s);
}

/// One output pixel per window, the windows `step` apart, written row by row
/// into a new buffer.
fn conv_reduced(img: &Vec<u8>, w: usize, h: usize, kernel: &Kernel, step: usize) -> (rv: Vec<u8>)
    requires
        img.len() == 4 * (w * h),
        w * h <= u32::MAX,
        w * h > 0 ==> kernel.divisor() != 0,
        1 <= step <= 5,
    ensures
        rv.len() == 4 * (ceil_div(w as int, step as int) * ceil_div(h as int, step as int)),
        forall|a: int, b: int, c: int|
            0 <= a < ceil_div(h as int, step as int) && 0 <= b < ceil_div(w as int, step as int) && 0 <= c
                < 4 ==> #[trigger] byte_at(rv@, ceil_div(w as int, step as int), a, b, c) == conv_byte(
                img@,
                w as int,
                h as int,
                *kernel,
                a * step,
                b * step,
                c,
            ),
{
    proof {
        lemma_ceil_div(w as int, step as int);
        lemma_ceil_div(h as int, step as int);
    }
    let cols: usize = w / step + if w % step == 0 { 0 } else { 1 };
    let rows: usize = h / step + if h % step == 0 { 0 } else { 1 };
    let ghost gc = cols as int;
    let mut rv: Vec<u8> = Vec::new();
    let mut a: usize = 0;
    while a < rows
        invariant
            0 <= a <= rows,
            rows == ceil_div(h as int, step as int),
            cols == ceil_div(w as int, step as int),
            gc == cols,
            img.len() == 4 * (w * h),
            w * h <= u32::MAX,
            w * h > 0 ==> kernel.divisor() != 0,
            1 <= step <= 5,
            rv.len() == 4 * (gc * a),
            forall|a2: int, b: int, c: int|
                0 <= a2 < a && 0 <= b < cols && 0 <= c < 4 ==> #[trigger] byte_at(rv@, gc, a2, b, c)
                    == conv_byte(img@, w as int, h as int, *kernel, a2 * step, b * step, c),
        decreases rows - a,
    {
        proof {
            lemma_stride_in_range(a as int, step as int, h as int);
        }
        let ri = a * step;
        let mut b: usize = 0;
        while b < cols
            invariant
                0 <= b <= cols,
                a < rows,
                ri == a * step,
                ri < h,
                rows == ceil_div(h as int, step as int),
                cols == ceil_div(w as int, step as int),
                gc == cols,
                img.len() == 4 * (w * h),
                w * h <= u32::MAX,
                w * h > 0 ==> kernel.divisor() != 0,
                1 <= step <= 5,
                rv.len() == 4 * (gc * a + b),
                forall|a2: int, b2: int, c: int|
                    0 <= a2 < a && 0 <= b2 < cols && 0 <= c < 4 ==> #[trigger] byte_at(rv@, gc, a2, b2, c)
                        == conv_byte(img@, w as int, h as int, *kernel, a2 * step, b2 * step, c),
                forall|b2: int, c: int|
                    0 <= b2 < b && 0 <= c < 4 ==> #[trigger] byte_at(rv@, gc, a as int, b2, c)
                        == conv_byte(img@, w as int, h as int, *kernel, a * step, b2 * step, c),
            decreases cols - b,
        {
            proof {
                lemma_stride_in_range(b as int, step as int, w as int);
            }
            let ci = b * step;
            proof {
                assert(w * h > 0) by (nonlinear_arith)
                    requires ri < h, ci < w;
            }
            let px = window_pixel(img, w, h, kernel, ri, ci);
            let ghost before = rv@;
            rv.push(px[0]);
            rv.push(px[1]);
            rv.push(px[2]);
            rv.push(px[3]);
            proof {
                assert forall|a2: int, b2: int, c: int|
                    0 <= a2 < a && 0 <= b2 < cols && 0 <= c < 4 implies #[trigger] byte_at(rv@, gc, a2, b2, c)
                        == conv_byte(img@, w as int, h as int, *kernel, a2 * step, b2 * step, c) by {
                    lemma_cell_in_grid(a2, b2, gc, a as int);
                    assert(byte_at(rv@, gc, a2, b2, c) == byte_at(before, gc, a2, b2, c));
                }
                assert forall|b2: int, c: int|
                    0 <= b2 < b + 1 && 0 <= c < 4 implies #[trigger] byte_at(rv@, gc, a as int, b2, c)
                        == conv_byte(img@, w as int, h as int, *kernel, a * step, b2 * step, c) by {
                    if b2 < b {
                        assert(byte_at(rv@, gc, a as int, b2, c) == byte_at(before, gc, a as int, b2, c));
                    }
                }
            }
            b = b + 1;
        }
        proof {
            assert(gc * (a + 1) == gc * a + gc) by (nonlinear_arith);
        }
        a = a + 1;
    }
    rv
}


/// Sets every pixel of the rectangle of rows `r0..r1` and columns `c0..c1` to `px`.
fn fill_block(v: &mut Vec<u8>, w: usize, h: usize, r0: usize, r1: usize, c0: usize, c1: usize, px: [u8; 4])
    requires
        old(v).len() == 4 * (w * h),
        r0 <= r1 <= h,
        c0 <= c1 <= w,
        w * h <= u32::MAX,
    ensures
        final(v).len() == old(v).len(),
        forall|r: int, col: int, c: int|
            0 <= r < h && 0 <= col < w && 0 <= c < 4 ==> #[trigger] byte_at(final(v)@, w as int, r, col, c)
                == if r0 <= r < r1 && c0 <= col < c1 {
                px[c]
            } else {
                byte_at(old(v)@, w as int, r, col, c)
            },
{
    let ghost start = v@;
    let mut rr: usize = r0;
    while rr < r1
        invariant
            r0 <= rr <= r1,
            r1 <= h,
            c0 <= c1 <= w,
            w * h <= u32::MAX,
            v.len() == 4 * (w * h),
            start.len() == v.len(),
            forall|r: int, col: int, c: int|
                0 <= r < h && 0 <= col < w && 0 <= c < 4 ==> #[trigger] byte_at(v@, w as int, r, col, c)
                    == if r0 <= r < rr && c0 <= col < c1 {
                    px[c]
                } else {
                    byte_at(start, w as int, r, col, c)
                },
        decreases r1 - rr,
    {
        let mut cc: usize = c0;
        while cc < c1
            invariant
                r0 <= rr < r1,
                r1 <= h,
                c0 <= cc <= c1,
                c1 <= w,
                w * h <= u32::MAX,
                v.len() == 4 * (w * h),
                start.len() == v.len(),
                forall|r: int, col: int, c: int|
                    0 <= r < h && 0 <= col < w && 0 <= c < 4 ==> #[trigger] byte_at(v@, w as int, r, col, c)
                        == if (r0 <= r < rr && c0 <= col < c1) || (r == rr && c0 <= col < cc) {
                        px[c]
                    } else {
                        byte_at(start, w as int, r, col, c)
                    },
            decreases c1 - cc,
        {
            proof {
                lemma_byte_in_grid(rr as int, cc as int, 3, w as int, h as int);
            }
            let base = 4 * (w * rr + cc);
            let ghost before = v@;
            v.set(base, px[0]);
            v.set(base + 1, px[1]);
            v.set(base + 2, px[2]);
            v.set(base + 3, px[3]);
            proof {
                assert forall|r: int, col: int, c: int|
                    0 <= r < h && 0 <= col < w && 0 <= c < 4 implies #[trigger] byte_at(v@, w as int, r, col, c)
                        == if (r0 <= r < rr && c0 <= col < c1) || (r == rr && c0 <= col < cc + 1) {
                        px[c]
                    } else {
                        byte_at(start, w as int, r, col, c)
                    } by {
                    lemma_byte_in_grid(r, col, c, w as int, h as int);
                    if r != rr || col != cc {
                        lemma_other_cell_bytes(r, col, c, rr as int, cc as int, w as int);
                        assert(byte_at(v@, w as int, r, col, c) == byte_at(before, w as int, r, col, c));
                    }
                }
            }
            cc = cc + 1;
        }
        rr = rr + 1;
    }
}


/// Without a `KType`: the windows tile the image in blocks of the kernel's side,
/// and every pixel of a block takes the value computed for its block.
fn conv_blocks(v: &mut Vec<u8>, w: usize, h: usize, kernel: &Kernel)
    requires
        old(v).len() == 4 * (w * h),
        w * h <= u32::MAX,
        w * h > 0 ==> kernel.divisor() != 0,
    ensures
        final(v).len() == old(v).len(),
        forall|r: int, col: int, c: int|
            0 <= r < h && 0 <= col < w && 0 <= c < 4 ==> #[trigger] byte_at(final(v)@, w as int, r, col, c)
                == conv_byte(
                old(v)@,
                w as int,
                h as int,
                *kernel,
                r - r % kernel.side(),
                col - col % kernel.side(),
                c,
            ),
{
    let ghost orig = v@;
    let s = kernel.side_len();
    proof {
        lemma_ceil_div(w as int, s as int);
        lemma_ceil_div(h as int, s as int);
    }
    let cols: usize = w / s + if w % s == 0 { 0 } else { 1 };
    let rows: usize = h / s + if h % s == 0 { 0 } else { 1 };
    let mut a: usize = 0;
    while a < rows
        invariant
            0 <= a <= rows,
            s == kernel.side(),
            rows == ceil_div(h as int, s as int),
            cols == ceil_div(w as int, s as int),
            orig.len() == 4 * (w * h),
            v.len() == 4 * (w * h),
            w * h <= u32::MAX,
            w * h > 0 ==> kernel.divisor() != 0,
            forall|r: int, col: int, c: int|
                0 <= r < h && 0 <= col < w && 0 <= c < 4 ==> #[trigger] byte_at(v@, w as int, r, col, c)
                    == if r < a * s {
                    conv_byte(orig, w as int, h as int, *kernel, r - r % (s as int), col - col % (s as int), c)
                } else {
                    byte_at(orig, w as int, r, col, c) as int
                },
        decreases rows - a,
    {
        proof {
            lemma_stride_in_range(a as int, s as int, h as int);
        }
        let ri = a * s;
        let r1 = if s < h - ri { ri + s } else { h };
        let mut b: usize = 0;
        while b < cols
            invariant
                0 <= b <= cols,
                a < rows,
                ri == a * s,
                ri < h,
                r1 == min(ri + s, h as int),
                s == kernel.side(),
                rows == ceil_div(h as int, s as int),
                cols == ceil_div(w as int, s as int),
                orig.len() == 4 * (w * h),
                v.len() == 4 * (w * h),
                w * h <= u32::MAX,
                w * h > 0 ==> kernel.divisor() != 0,
                forall|r: int, col: int, c: int|
                    0 <= r < h && 0 <= col < w && 0 <= c < 4 ==> #[trigger] byte_at(v@, w as int, r, col, c)
                        == if r < a * s || (r < r1 && col < b * s) {
                        conv_byte(
                            orig,
                            w as int,
                            h as int,
                            *kernel,
                            r - r % (s as int),
                            col - col % (s as int),
                            c,
                        )
                    } else {
                        byte_at(orig, w as int, r, col, c) as int
                    },
            decreases cols - b,
        {
            proof {
                lemma_stride_in_range(b as int, s as int, w as int);
            }
            let ci = b * s;
            let c1 = if s < w - ci { ci + s } else { w };
            proof {
                assert(w * h > 0) by (nonlinear_arith)
                    requires ri < h, ci < w;
            }
            let px = window_pixel(v, w, h, kernel, ri, ci);
            proof {
                assert forall|c: int| 0 <= c < 4 implies conv_byte(v@, w as int, h as int, *kernel, ri as int, ci as int, c)
                    == conv_byte(orig, w as int, h as int, *kernel, ri as int, ci as int, c) by {
                    assert forall|j: int| 0 <= j < kernel.taps() implies v@[tap_index(
                        w as int,
                        h as int,
                        kernel.side(),
                        ri as int,
                        ci as int,
                        j,
                    ) + c] == orig[tap_index(w as int, h as int, kernel.side(), ri as int, ci as int, j) + c] by {
                        lemma_tap_in_image(w as int, h as int, s as int, ri as int, ci as int, j, c);
                        let rr = min(ri + j / (s as int), h - 1);
                        let cc = min(ci + j % (s as int), w - 1);
                        assert(byte_at(v@, w as int, rr, cc, c) == byte_at(orig, w as int, rr, cc, c));
                    }
                    lemma_window_sum_frame(v@, orig, w as int, h as int, *kernel, ri as int, ci as int, c, kernel.taps());
                }
            }
            let ghost before = v@;
            fill_block(v, w, h, ri, r1, ci, c1, px);
            proof {
                assert((b + 1) * s == b * s + s) by (nonlinear_arith);
                assert forall|r: int, col: int, c: int|
                    0 <= r < h && 0 <= col < w && 0 <= c < 4 implies #[trigger] byte_at(v@, w as int, r, col, c)
                        == if r < a * s || (r < r1 && col < (b + 1) * s) {
                        conv_byte(
                            orig,
                            w as int,
                            h as int,
                            *kernel,
                            r - r % (s as int),
                            col - col % (s as int),
                            c,
                        )
                    } else {
                        byte_at(orig, w as int, r, col, c) as int
                    } by {
                    if ri <= r < r1 && ci <= col < c1 {
                        lemma_block_start(r, a as int, s as int);
                        lemma_block_start(col, b as int, s as int);
                    } else {
                        assert(byte_at(v@, w as int, r, col, c) == byte_at(before, w as int, r, col, c));
                    }
                }
            }
            b = b + 1;
        }
        proof {
            lemma_stride_in_range(cols as int, s as int, w as int);
            assert((a + 1) * s == a * s + s) by (nonlinear_arith);
        }
        a = a + 1;
    }
    proof {
        lemma_stride_in_range(rows as int, s as int, h as int);
    }
}


/// The 3x3 sharpening kernel: five times the centre less its four neighbours.
pub fn sharp_kn() -> (k: Kernel)
    ensures
        k == Kernel::K3([0i32, -1i32, 0, -1i32, 5, -1i32, 0, -1i32, 0], 1),
{
    Kernel::K3([0, -1, 0, -1, 5, -1, 0, -1, 0], 1)
}

/// The 3x3 per-channel kernel that keeps red and alpha, averaged over the window.
pub fn red_filter_kn() -> (k: Kernel)
    ensures
        k == Kernel::Kc3(
            [
                1i32, 0, 0, 1, 1, 0, 0, 1, 1, 0, 0, 1, 1, 0, 0, 1, 1, 0, 0, 1, 1, 0, 0, 1, 1, 0, 0, 1, 1, 0,
                0, 1, 1, 0, 0, 1,
            ],
            9,
        ),
{
    Kernel::Kc3(
        [
            1, 0, 0, 1, 1, 0, 0, 1, 1, 0, 0, 1, 1, 0, 0, 1, 1, 0, 0, 1, 1, 0, 0, 1, 1, 0, 0, 1, 1, 0, 0, 1,
            1, 0, 0, 1,
        ],
        9,
    )
}

/// The 5x5 pixelating kernel, weighting the corners, edge midpoints and centre.
pub fn pixel_kn() -> (k: Kernel)
    ensures
        k == Kernel::K5([4i32, 0, 2, 0, 4, 0, 0, 0, 0, 0, 2, 0, 1, 0, 2, 0, 0, 0, 0, 0, 4, 0, 2, 0, 4], 25),
{
    Kernel::K5([4, 0, 2, 0, 4, 0, 0, 0, 0, 0, 2, 0, 1, 0, 2, 0, 0, 0, 0, 0, 4, 0, 2, 0, 4], 25)
}

/// The 5x5 blurring kernel; its weights add up to its divisor.
pub fn blur_kn() -> (k: Kernel)
    ensures
        k == Kernel::K5([0i32, 1, 0, 1, 0, 1, 0, 3, 0, 1, 0, 3, 5, 3, 0, 1, 0, 3, 0, 1, 0, 1, 0, 1, 0], 25),
        is_normalised(k),
{
    let k = Kernel::K5([0, 1, 0, 1, 0, 1, 0, 3, 0, 1, 0, 3, 5, 3, 0, 1, 0, 3, 0, 1, 0, 1, 0, 1, 0], 25);
    proof {
        reveal_with_fuel(weight_total, 26);
        assert(k.weights() =~= seq![0i32, 1, 0, 1, 0, 1, 0, 3, 0, 1, 0, 3, 5, 3, 0, 1, 0, 3, 0, 1, 0, 1, 0, 1, 0]);
        assert forall|c: int| 0 <= c < 4 implies #[trigger] weight_total(k, c, k.taps()) == k.divisor() by {
            assert(weight_total(k, c, 25) == 25);
        }
    }
    k
}

/// Convolves the RGBA image `v` of `dim.0` by `dim.1` pixels with `kernel`.
///
/// With `Some(KType::Reduced)` the windows are `side` apart and `v` becomes the
/// image of one pixel per window; with `Some(KType::Overlap)` they are one pixel
/// apart and `v` becomes the image of one pixel per window (the same size as the
/// input); with `None` the windows tile the image and each block of `v` is filled
/// with its window's value. Each output byte is the window's weighted sum for that
/// channel, divided by the kernel's divisor toward zero, reduced to its low byte.
/// Returns the dimensions of the result as `conv_dims` gives them.
pub fn conv(v: &mut Vec<u8>, dim: (u32, u32), kernel: &Kernel, k_type: Option<KType>) -> (res: Result<
    (u32, u32),
    ImproError,
>)
    requires
        old(v).len() == 4 * (dim.0 * dim.1),
        dim.0 * dim.1 <= u32::MAX,
        dim.0 * dim.1 > 0 ==> kernel.divisor() != 0,
        conv_fits(old(v)@, dim.0 as int, dim.1 as int, *kernel, stride(*kernel, k_type)),
    ensures
        res == Ok::<(u32, u32), ImproError>(conv_dims(dim.0, dim.1, *kernel, k_type)),
        is_reduced(k_type) ==> reduced_output(
            old(v)@,
            final(v)@,
            dim.0 as int,
            dim.1 as int,
            *kernel,
            stride(*kernel, k_type),
        ),
        !is_reduced(k_type) ==> block_output(old(v)@, final(v)@, dim.0 as int, dim.1 as int, *kernel),
{
    let w = dim.0 as usize;
    let h = dim.1 as usize;
    let side = kernel.side_len();
    let (reduced, overlap) = match k_type {
        Some(KType::Overlap) => (true, true),
        Some(KType::Reduced) => (true, false),
        None => (false, false),
    };
    if reduced {
        let step = if overlap { 1 } else { side };
        let rv = conv_reduced(v, w, h, kernel, step);
        *v = rv;
        let n: usize = if w % side == 0 || overlap { 0 } else { 1 };
        let d: usize = if overlap { 1 } else { side };
        proof {
            assert(w / d <= w && h / d <= h) by (nonlinear_arith)
                requires d >= 1;
        }
        let out_w = w / d + n;
        let out_h = h / d + n;
        proof {
            if n == 1 {
                assert(w % d != 0);
                assert(w / d < w) by {
                    vstd::arithmetic::div_mod::lemma_fundamental_div_mod(w as int, d as int);
                    assert(w / d < w) by (nonlinear_arith)
                        requires w as int == d * (w / d) + w % d, w % d != 0, d >= 1, w / d >= 0;
                }
            }
        }
        Ok((out_w as u32, out_h as u32))
    } else {
        conv_blocks(v, w, h, kernel);
        Ok((dim.0, dim.1))
    }
}


/// A kernel that passes each window's top-left pixel through: weight one on the
/// first cell for every channel, zero elsewhere, divisor one.
pub open spec fn is_delta(kernel: Kernel) -> bool {
    &&& kernel.divisor() == 1
    &&& forall|c: int| 0 <= c < 4 ==> #[trigger] kernel.weight_for(0, c) == 1
    &&& forall|j: int, c: int| 1 <= j < kernel.taps() && 0 <= c < 4 ==> #[trigger] kernel.weight_for(j, c) == 0
}

/// The window sum of a pass-through kernel is the window's first byte.
proof fn lemma_delta_sum(img: Seq<u8>, w: int, h: int, kernel: Kernel, r: int, col: int, c: int, n: int)
    requires
        is_delta(kernel),
        1 <= n <= kernel.taps(),
        0 <= c < 4,
    ensures
        window_sum(img, w, h, kernel, r, col, c, n) == img[tap_index(w, h, kernel.side(), r, col, 0) + c] as int,
    decreases n,
{
    let x = img[tap_index(w, h, kernel.side(), r, col, n - 1) + c] as int;
    let wt = kernel.weight_for(n - 1, c);
    assert(window_sum(img, w, h, kernel, r, col, c, n) == window_sum(img, w, h, kernel, r, col, c, n - 1) + wt * x);
    if n > 1 {
        lemma_delta_sum(img, w, h, kernel, r, col, c, n - 1);
        assert(wt == 0);
        assert(wt * x == 0) by (nonlinear_arith)
            requires wt == 0;
    } else {
        assert(wt == 1);
        assert(wt * x == x) by (nonlinear_arith)
            requires wt == 1;
    }
}

/// With a pass-through kernel every window's output is its top-left pixel.
pub proof fn lemma_delta_window(img: Seq<u8>, w: int, h: int, kernel: Kernel, r: int, col: int, c: int)
    requires
        is_delta(kernel),
        0 <= r < h,
        0 <= col < w,
        0 <= c < 4,
    ensures
        conv_byte(img, w, h, kernel, r, col, c) == byte_at(img, w, r, col, c),
{
    lemma_delta_sum(img, w, h, kernel, r, col, c, kernel.taps());
    assert(tap_index(w, h, kernel.side(), r, col, 0) == 4 * (w * r + col));
    let x = byte_at(img, w, r, col, c) as int;
    assert(abs(x) == x && abs(1) == 1);
    assert(x / 1 == x);
    assert(trunc_div(x, 1) == x);
    vstd::arithmetic::div_mod::lemma_small_mod(x as nat, 256);
}

/// Convolving with a pass-through kernel in `Overlap` mode gives the image back.
pub proof fn lemma_overlap_delta_identity(img: Seq<u8>, out: Seq<u8>, w: int, h: int, kernel: Kernel)
    requires
        is_delta(kernel),
        0 <= w,
        0 <= h,
        img.len() == 4 * (w * h),
        reduced_output(img, out, w, h, kernel, 1),
    ensures
        out == img,
{
    lemma_ceil_div(w, 1);
    lemma_ceil_div(h, 1);
    assert(ceil_div(w, 1) == w && ceil_div(h, 1) == h);
    assert(w * h == h * w) by (nonlinear_arith);
    assert forall|i: int| 0 <= i < img.len() implies out[i] == img[i] by {
        let (r, col, c) = crate::arith::lemma_byte_cell(i, w, h);
        assert(byte_at(out, w, r, col, c) == conv_byte(img, w, h, kernel, r * 1, col * 1, c));
        lemma_delta_window(img, w, h, kernel, r, col, c);
    }
    assert(out =~= img);
}

/// The block convolution holds, at the top-left pixel of each block, the pixel that
/// the reduced convolution computes for that block.
pub proof fn lemma_blocks_agree_with_reduced(
    img: Seq<u8>,
    blocks: Seq<u8>,
    reduced: Seq<u8>,
    w: int,
    h: int,
    kernel: Kernel,
    a: int,
    b: int,
    c: int,
)
    requires
        0 <= w,
        0 <= h,
        block_output(img, blocks, w, h, kernel),
        reduced_output(img, reduced, w, h, kernel, kernel.side()),
        0 <= a < ceil_div(h, kernel.side()),
        0 <= b < ceil_div(w, kernel.side()),
        0 <= c < 4,
    ensures
        byte_at(blocks, w, a * kernel.side(), b * kernel.side(), c) == byte_at(
            reduced,
            ceil_div(w, kernel.side()),
            a,
            b,
            c,
        ),
{
    let s = kernel.side();
    lemma_stride_in_range(a, s, h);
    lemma_stride_in_range(b, s, w);
    lemma_block_start(a * s, a, s);
    lemma_block_start(b * s, b, s);
}

/// A kernel that picks one cell: weight one on the cell `dy` rows down and `dx`
/// columns across for every channel, zero elsewhere, divisor one.
pub open spec fn picks_cell(kernel: Kernel, dy: int, dx: int) -> bool {
    &&& kernel.divisor() == 1
    &&& 0 <= dy < kernel.side()
    &&& 0 <= dx < kernel.side()
    &&& forall|c: int| 0 <= c < 4 ==> #[trigger] kernel.weight_for(dy * kernel.side() + dx, c) == 1
    &&& forall|j: int, c: int|
        0 <= j < kernel.taps() && j != dy * kernel.side() + dx && 0 <= c < 4 ==> #[trigger] kernel.weight_for(j, c)
            == 0
}

/// The window sum of a cell-picking kernel is the picked cell's byte once the sum has
/// reached that cell, and zero before.
proof fn lemma_pick_sum(img: Seq<u8>, w: int, h: int, kernel: Kernel, dy: int, dx: int, r: int, col: int, c: int, n: int)
    requires
        picks_cell(kernel, dy, dx),
        0 <= n <= kernel.taps(),
        0 <= c < 4,
    ensures
        window_sum(img, w, h, kernel, r, col, c, n) == if n > dy * kernel.side() + dx {
            img[tap_index(w, h, kernel.side(), r, col, dy * kernel.side() + dx) + c] as int
        } else {
            0
        },
    decreases n,
{
    if n > 0 {
        lemma_pick_sum(img, w, h, kernel, dy, dx, r, col, c, n - 1);
        let x = img[tap_index(w, h, kernel.side(), r, col, n - 1) + c] as int;
        let wt = kernel.weight_for(n - 1, c);
        if n - 1 == dy * kernel.side() + dx {
            assert(wt == 1);
            assert(wt * x == x) by (nonlinear_arith)
                requires wt == 1;
        } else {
            assert(wt == 0);
            assert(wt * x == 0) by (nonlinear_arith)
                requires wt == 0;
        }
    }
}

/// A kernel that picks the cell `dy` rows down and `dx` columns across moves the image
/// by that much: with windows `step` apart (one for `Overlap`, the side for
/// `Reduced`), output pixel `(a, b)` is the input pixel at `(a * step + dy,
/// b * step + dx)`, clamped to the last row and column.
pub proof fn lemma_picking_kernel_shifts(
    img: Seq<u8>,
    out: Seq<u8>,
    w: int,
    h: int,
    kernel: Kernel,
    step: int,
    dy: int,
    dx: int,
    a: int,
    b: int,
    c: int,
)
    requires
        picks_cell(kernel, dy, dx),
        1 <= step,
        0 <= w,
        0 <= h,
        reduced_output(img, out, w, h, kernel, step),
        0 <= a < ceil_div(h, step),
        0 <= b < ceil_div(w, step),
        0 <= c < 4,
    ensures
        byte_at(out, ceil_div(w, step), a, b, c) == byte_at(
            img,
            w,
            min(a * step + dy, h - 1),
            min(b * step + dx, w - 1),
            c,
        ),
{
    let s = kernel.side();
    lemma_stride_in_range(a, step, h);
    lemma_stride_in_range(b, step, w);
    let r = a * step;
    let col = b * step;
    assert(r >= 0 && col >= 0) by (nonlinear_arith)
        requires r == a * step, col == b * step, a >= 0, b >= 0, step >= 1;
    assert(byte_at(out, ceil_div(w, step), a, b, c) == conv_byte(img, w, h, kernel, r, col, c));
    let j0 = dy * s + dx;
    assert(j0 < kernel.taps()) by (nonlinear_arith)
        requires j0 == dy * s + dx, 0 <= dy < s, 0 <= dx < s, kernel.taps() == s * s;
    lemma_pick_sum(img, w, h, kernel, dy, dx, r, col, c, kernel.taps());
    vstd::arithmetic::div_mod::lemma_fundamental_div_mod_converse(j0, s, dy, dx);
    let x = byte_at(img, w, min(r + dy, h - 1), min(col + dx, w - 1), c) as int;
    assert(abs(x) == x && abs(1) == 1);
    assert(x / 1 == x);
    vstd::arithmetic::div_mod::lemma_small_mod(x as nat, 256);
}

/// Without a `KType`, a cell-picking kernel fills each block with one input pixel:
/// output pixel `(r, col)` is the input pixel `dy` rows and `dx` columns from the
/// corner of its block, clamped to the last row and column.
pub proof fn lemma_picking_kernel_fills_blocks(
    img: Seq<u8>,
    out: Seq<u8>,
    w: int,
    h: int,
    kernel: Kernel,
    dy: int,
    dx: int,
    r: int,
    col: int,
    c: int,
)
    requires
        picks_cell(kernel, dy, dx),
        block_output(img, out, w, h, kernel),
        0 <= r < h,
        0 <= col < w,
        0 <= c < 4,
    ensures
        byte_at(out, w, r, col, c) == byte_at(
            img,
            w,
            min(r - r % kernel.side() + dy, h - 1),
            min(col - col % kernel.side() + dx, w - 1),
            c,
        ),
{
    let s = kernel.side();
    let r0 = r - r % s;
    let c0 = col - col % s;
    vstd::arithmetic::div_mod::lemma_mod_bound(r, s);
    vstd::arithmetic::div_mod::lemma_mod_bound(col, s);
    vstd::arithmetic::div_mod::lemma_mod_pos_bound(r, s);
    vstd::arithmetic::div_mod::lemma_mod_pos_bound(col, s);
    let j0 = dy * s + dx;
    assert(j0 < kernel.taps()) by (nonlinear_arith)
        requires j0 == dy * s + dx, 0 <= dy < s, 0 <= dx < s, kernel.taps() == s * s;
    lemma_pick_sum(img, w, h, kernel, dy, dx, r0, c0, c, kernel.taps());
    vstd::arithmetic::div_mod::lemma_fundamental_div_mod_converse(j0, s, dy, dx);
    let x = byte_at(img, w, min(r0 + dy, h - 1), min(c0 + dx, w - 1), c) as int;
    assert(abs(x) == x && abs(1) == 1);
    assert(x / 1 == x);
    vstd::arithmetic::div_mod::lemma_small_mod(x as nat, 256);
}

/// Negating every weight negates the window sum.
proof fn lemma_negated_sum(img: Seq<u8>, w: int, h: int, k1: Kernel, k2: Kernel, r: int, col: int, c: int, n: int)
    requires
        k1.side() == k2.side(),
        0 <= n <= k1.taps(),
        forall|j: int| 0 <= j < k1.taps() ==> #[trigger] k2.weight_for(j, c) == -k1.weight_for(j, c),
    ensures
        window_sum(img, w, h, k2, r, col, c, n) == -window_sum(img, w, h, k1, r, col, c, n),
    decreases n,
{
    if n > 0 {
        lemma_negated_sum(img, w, h, k1, k2, r, col, c, n - 1);
        let x = img[tap_index(w, h, k1.side(), r, col, n - 1) + c] as int;
        let wt = k1.weight_for(n - 1, c);
        assert(k2.weight_for(n - 1, c) == -wt);
        assert((-wt) * x == -(wt * x)) by (nonlinear_arith);
    }
}

/// Division rounds toward zero and the result keeps its low byte, so negating every
/// weight of a kernel (same side and divisor) negates each output byte modulo 256:
/// the two bytes add up to 0 or 256.
pub proof fn lemma_negated_kernel(img: Seq<u8>, w: int, h: int, k1: Kernel, k2: Kernel, r: int, col: int, c: int)
    requires
        k1.side() == k2.side(),
        k1.divisor() == k2.divisor(),
        k1.divisor() != 0,
        0 <= c < 4,
        forall|j: int| 0 <= j < k1.taps() ==> #[trigger] k2.weight_for(j, c) == -k1.weight_for(j, c),
    ensures
        conv_byte(img, w, h, k2, r, col, c) + conv_byte(img, w, h, k1, r, col, c) == 0 || conv_byte(img, w, h, k2, r, col, c)
            + conv_byte(img, w, h, k1, r, col, c) == 256,
{
    lemma_negated_sum(img, w, h, k1, k2, r, col, c, k1.taps());
    let a = window_sum(img, w, h, k1, r, col, c, k1.taps());
    let d = k1.divisor() as int;
    let q = trunc_div(a, d);
    assert(abs(-a) == abs(a));
    assert(trunc_div(-a, d) == -q);
    vstd::arithmetic::div_mod::lemma_fundamental_div_mod(q, 256);
    vstd::arithmetic::div_mod::lemma_fundamental_div_mod(-q, 256);
    vstd::arithmetic::div_mod::lemma_mod_bound(q, 256);
    vstd::arithmetic::div_mod::lemma_mod_bound(-q, 256);
    let m1 = q % 256;
    let m2 = (-q) % 256;
    let s1 = q / 256;
    let s2 = (-q) / 256;
    assert(m1 + m2 == -256 * (s1 + s2));
    if m1 + m2 != 0 && m1 + m2 != 256 {
        if s1 + s2 >= 0 {
            assert(-256 * (s1 + s2) <= 0) by (nonlinear_arith)
                requires s1 + s2 >= 0;
        } else if s1 + s2 == -1 {
        } else {
            assert(-256 * (s1 + s2) >= 512) by (nonlinear_arith)
                requires s1 + s2 <= -2;
        }
    }
}

/// The sum of the weights that the first `n` cells of the window give to channel `c`.
pub open spec fn weight_total(kernel: Kernel, c: int, n: int) -> int
    decreases n,
{
    if n <= 0 {
        0
    } else {
        weight_total(kernel, c, n - 1) + kernel.weight_for(n - 1, c)
    }
}

/// A kernel whose weights, for every channel, add up to its (nonzero) divisor.
pub open spec fn is_normalised(kernel: Kernel) -> bool {
    &&& kernel.divisor() != 0
    &&& forall|c: int| 0 <= c < 4 ==> #[trigger] weight_total(kernel, c, kernel.taps()) == kernel.divisor()
}

/// Every pixel of the RGBA image `img` of `w` by `h` pixels is `p`.
pub open spec fn is_flat(img: Seq<u8>, w: int, h: int, p: [u8; 4]) -> bool {
    &&& img.len() == 4 * (w * h)
    &&& forall|r: int, col: int, c: int|
        0 <= r < h && 0 <= col < w && 0 <= c < 4 ==> #[trigger] byte_at(img, w, r, col, c) == p[c]
}

/// On a flat image the window sum is the byte times the total weight.
proof fn lemma_flat_sum(img: Seq<u8>, w: int, h: int, kernel: Kernel, ri: int, ci: int, c: int, n: int, p: [u8; 4])
    requires
        is_flat(img, w, h, p),
        0 <= ri < h,
        0 <= ci < w,
        0 <= c < 4,
        0 <= n,
    ensures
        window_sum(img, w, h, kernel, ri, ci, c, n) == weight_total(kernel, c, n) * (p[c] as int),
    decreases n,
{
    if n > 0 {
        lemma_flat_sum(img, w, h, kernel, ri, ci, c, n - 1, p);
        lemma_tap_in_image(w, h, kernel.side(), ri, ci, n - 1, c);
        let rr = min(ri + (n - 1) / kernel.side(), h - 1);
        let cc = min(ci + (n - 1) % kernel.side(), w - 1);
        assert(byte_at(img, w, rr, cc, c) == p[c]);
        let t = weight_total(kernel, c, n - 1);
        let k = kernel.weight_for(n - 1, c);
        let x = p[c] as int;
        assert(t * x + k * x == (t + k) * x) by (nonlinear_arith);
    }
}

/// A normalised kernel maps every window of a flat image to the image's pixel.
pub proof fn lemma_flat_window(img: Seq<u8>, w: int, h: int, kernel: Kernel, ri: int, ci: int, c: int, p: [u8; 4])
    requires
        is_flat(img, w, h, p),
        is_normalised(kernel),
        0 <= ri < h,
        0 <= ci < w,
        0 <= c < 4,
    ensures
        conv_byte(img, w, h, kernel, ri, ci, c) == p[c],
{
    lemma_flat_sum(img, w, h, kernel, ri, ci, c, kernel.taps(), p);
    let d = kernel.divisor() as int;
    let x = p[c] as int;
    assert(weight_total(kernel, c, kernel.taps()) == d);
    let s = d * x;
    assert(abs(s) == abs(d) * x) by (nonlinear_arith)
        requires s == d * x, x >= 0;
    assert(abs(s) / abs(d) == x) by (nonlinear_arith)
        requires abs(s) == abs(d) * x, abs(d) > 0;
    assert(trunc_div(s, d) == x) by (nonlinear_arith)
        requires s == d * x, x >= 0, d != 0, abs(s) / abs(d) == x;
    vstd::arithmetic::div_mod::lemma_small_mod(x as nat, 256);
}

/// A normalised kernel keeps a flat image flat in the reduced and overlapping modes:
/// every pixel of the result is the image's pixel.
pub proof fn lemma_normalised_keeps_flat_reduced(
    img: Seq<u8>,
    out: Seq<u8>,
    w: int,
    h: int,
    kernel: Kernel,
    step: int,
    p: [u8; 4],
)
    requires
        0 <= w,
        0 <= h,
        1 <= step,
        is_flat(img, w, h, p),
        is_normalised(kernel),
        reduced_output(img, out, w, h, kernel, step),
    ensures
        is_flat(out, ceil_div(w, step), ceil_div(h, step), p),
{
    let cols = ceil_div(w, step);
    let rows = ceil_div(h, step);
    assert(cols * rows == rows * cols) by (nonlinear_arith);
    assert forall|a: int, b: int, c: int|
        0 <= a < rows && 0 <= b < cols && 0 <= c < 4 implies #[trigger] byte_at(out, cols, a, b, c) == p[c] by {
        lemma_stride_in_range(a, step, h);
        lemma_stride_in_range(b, step, w);
        assert(a * step >= 0 && b * step >= 0) by (nonlinear_arith)
            requires a >= 0, b >= 0, step >= 1;
        lemma_flat_window(img, w, h, kernel, a * step, b * step, c, p);
    }
}

/// A normalised kernel keeps a flat image flat when the windows tile the image.
pub proof fn lemma_normalised_keeps_flat_blocks(img: Seq<u8>, out: Seq<u8>, w: int, h: int, kernel: Kernel, p: [u8; 4])
    requires
        0 <= w,
        0 <= h,
        is_flat(img, w, h, p),
        is_normalised(kernel),
        block_output(img, out, w, h, kernel),
    ensures
        is_flat(out, w, h, p),
{
    let s = kernel.side();
    assert forall|r: int, col: int, c: int|
        0 <= r < h && 0 <= col < w && 0 <= c < 4 implies #[trigger] byte_at(out, w, r, col, c) == p[c] by {
        vstd::arithmetic::div_mod::lemma_mod_bound(r, s);
        vstd::arithmetic::div_mod::lemma_mod_bound(col, s);
        vstd::arithmetic::div_mod::lemma_mod_pos_bound(r, s);
        vstd::arithmetic::div_mod::lemma_mod_pos_bound(col, s);
        vstd::arithmetic::div_mod::lemma_fundamental_div_mod(r, s);
        vstd::arithmetic::div_mod::lemma_fundamental_div_mod(col, s);
        vstd::arithmetic::div_mod::lemma_div_pos_is_pos(r, s);
        vstd::arithmetic::div_mod::lemma_div_pos_is_pos(col, s);
        assert(s * (r / s) >= 0 && s * (col / s) >= 0) by (nonlinear_arith)
            requires s > 0, r / s >= 0, col / s >= 0;
        lemma_flat_window(img, w, h, kernel, r - r % s, col - col % s, c, p);
    }
}

/// The reported dimensions of a reduced image count its windows, provided width and
/// height are both or neither multiples of the kernel side (or the windows overlap).
pub proof fn lemma_reduced_dims(w: u32, h: u32, kernel: Kernel, k_type: Option<KType>)
    requires
        is_reduced(k_type),
        is_overlap(k_type) || ((w as int % kernel.side() == 0) == (h as int % kernel.side() == 0)),
    ensures
        conv_dims(w, h, kernel, k_type).0 == ceil_div(w as int, stride(kernel, k_type)),
        conv_dims(w, h, kernel, k_type).1 == ceil_div(h as int, stride(kernel, k_type)),
{
    let s = stride(kernel, k_type);
    lemma_ceil_div(w as int, s);
    lemma_ceil_div(h as int, s);
    if is_overlap(k_type) {
        assert(w as int / 1 == w && h as int / 1 == h);
    }
}

} // verus!
