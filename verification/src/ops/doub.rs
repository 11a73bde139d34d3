//! Laying one RGBA image over another.
use vstd::prelude::*;

use image::{ImageBuffer, Rgba};

use crate::arith::{byte_at, lemma_byte_cell, lemma_byte_in_grid, lemma_other_cell_bytes, min};
use crate::error::ImproError;

verus! {

/// The first row (or column) of the base image that the top image can cover.
pub open spec fn first_covered(off: i32) -> int {
    if off < 0 { 0 } else { off as int }
}

/// One past the last row (or column) of the base image that is blended: the base
/// side, or the end of the top side shifted by the offset, whichever comes first.
pub open spec fn end_covered(base_side: u32, top_side: u32, off: i32) -> int {
    min((base_side as i32) as int, off + (top_side as i32))
}

/// Whether cell `(r, c)` of the base image is blended with the top image.
pub open spec fn is_covered(dim: (u32, u32), dim2: (u32, u32), off: (i32, i32), r: int, c: int) -> bool {
    &&& first_covered(off.1) <= r < end_covered(dim.1, dim2.1, off.1)
    &&& first_covered(off.0) <= c < end_covered(dim.0, dim2.0, off.0)
}

/// The sizes and offsets keep every computation of `overlay` within its integer types:
/// both widths fit `i32`, and the end of the covered rows (and, once a row is reached,
/// of the covered columns) is computed without overflow.
pub open spec fn overlay_arith_ok(dim: (u32, u32), dim2: (u32, u32), off: (i32, i32)) -> bool {
    &&& dim.0 <= i32::MAX
    &&& dim2.0 <= i32::MAX
    &&& 4 * dim.0 <= usize::MAX
    &&& 4 * dim2.0 <= usize::MAX
    &&& first_covered(off.1) < (dim.1 as i32) ==> i32::MIN <= off.1 + (dim2.1 as i32) <= i32::MAX
    &&& (first_covered(off.1) < (dim.1 as i32) && first_covered(off.1) < off.1 + (dim2.1 as i32)
        && first_covered(off.0) < dim.0) ==> i32::MIN <= off.0 + dim2.0 <= i32::MAX
}

/// The relation between the old and new base image after `overlay`: each covered
/// byte is a result of `blend` on the old byte, the top image's byte and the top
/// image's alpha at that cell; every other byte is unchanged.
pub open spec fn overlaid<F: Fn(u8, u8, u8) -> u8>(
    before: Seq<u8>,
    after: Seq<u8>,
    dim: (u32, u32),
    top: Seq<u8>,
    dim2: (u32, u32),
    off: (i32, i32),
    blend: F,
) -> bool {
    &&& after.len() == before.len()
    &&& forall|r: int, c: int, ch: int|
        0 <= r < dim.1 && 0 <= c < dim.0 && 0 <= ch < 4 ==> if is_covered(dim, dim2, off, r, c) {
            call_ensures(
                blend,
                (
                    byte_at(before, dim.0 as int, r, c, ch),
                    byte_at(top, dim2.0 as int, r - off.1, c - off.0, ch),
                    byte_at(top, dim2.0 as int, r - off.1, c - off.0, 3),
                ),
                #[trigger] byte_at(after, dim.0 as int, r, c, ch),
            )
        } else {
            byte_at(after, dim.0 as int, r, c, ch) == byte_at(before, dim.0 as int, r, c, ch)
        }
}

/// A side length read as `i32` is at most the side length.
proof fn lemma_side_as_i32(x: u32)
    ensures
        (x as i32) <= x as int,
        x <= i32::MAX ==> (x as i32) == x as int,
{
}

/// Lays the RGBA image `v2` of `dim2` pixels over `v` of `dim` pixels with its
/// top-left corner at `off`. Every byte of a covered cell of `v` becomes
/// `blend(base, top, alpha)`, with `alpha` the top image's fourth byte at that cell.
/// The covered cells are those that lie in both images.
pub fn overlay<F: Fn(u8, u8, u8) -> u8>(
    v: &mut Vec<u8>,
    dim: (u32, u32),
    v2: &Vec<u8>,
    dim2: (u32, u32),
    off: (i32, i32),
    blend: &F,
) -> (res: Result<(), ImproError>)
    requires
        old(v).len() == 4 * (dim.0 * dim.1),
        dim.0 * dim.1 <= u32::MAX,
        v2.len() == 4 * (dim2.0 * dim2.1),
        dim2.0 * dim2.1 <= u32::MAX,
        overlay_arith_ok(dim, dim2, off),
        forall|x: u8, y: u8, z: u8| call_requires(*blend, (x, y, z)),
    ensures
        res is Ok,
        overlaid(old(v)@, final(v)@, dim, v2@, dim2, off, *blend),
{
    let ghost orig = v@;
    let w: i32 = dim.0 as i32;
    let h: i32 = dim.1 as i32;
    let w2: i32 = dim2.0 as i32;
    let h2: i32 = dim2.1 as i32;
    let chr: usize = w as usize * 4;
    let chr2: usize = w2 as usize * 4;
    let (off_x, off_y) = off;
    let r0: i32 = if off_y < 0 { 0 } else { off_y };
    let c0: i32 = if off_x < 0 { 0 } else { off_x };
    if r0 >= h {
        return Ok(());
    }
    let r_end: i32 = off_y + h2;
    let mut ri: i32 = r0;
    while ri < h && ri < r_end
        invariant
            r0 == first_covered(off.1),
            c0 == first_covered(off.0),
            r0 < h,
            r0 <= ri,
            r_end == off.1 + h2,
            off == (off_x, off_y),
            w == dim.0,
            h == (dim.1 as i32),
            w2 == dim2.0,
            h2 == (dim2.1 as i32),
            chr == 4 * w,
            chr2 == 4 * w2,
            v.len() == 4 * (dim.0 * dim.1),
            orig.len() == v.len(),
            dim.0 * dim.1 <= u32::MAX,
            v2.len() == 4 * (dim2.0 * dim2.1),
            dim2.0 * dim2.1 <= u32::MAX,
            overlay_arith_ok(dim, dim2, off),
            forall|x: u8, y: u8, z: u8| call_requires(*blend, (x, y, z)),
            forall|r: int, c: int, ch: int|
                0 <= r < dim.1 && 0 <= c < dim.0 && 0 <= ch < 4 ==> if is_covered(dim, dim2, off, r, c) && r
                    < ri {
                    call_ensures(
                        *blend,
                        (
                            byte_at(orig, dim.0 as int, r, c, ch),
                            byte_at(v2@, dim2.0 as int, r - off.1, c - off.0, ch),
                            byte_at(v2@, dim2.0 as int, r - off.1, c - off.0, 3),
                        ),
                        #[trigger] byte_at(v@, dim.0 as int, r, c, ch),
                    )
                } else {
                    byte_at(v@, dim.0 as int, r, c, ch) == byte_at(orig, dim.0 as int, r, c, ch)
                },
        decreases h - ri,
    {
        if c0 < w {
            let c_end: i32 = off_x + w2;
            let mut ci: i32 = c0;
            while ci < w && ci < c_end
                invariant
                    r0 <= ri < h,
                    r0 == first_covered(off.1),
                    ri < r_end,
                    r_end == off.1 + h2,
                    c0 == first_covered(off.0),
                    c0 <= ci,
                    c_end == off.0 + w2,
                    off == (off_x, off_y),
                    w == dim.0,
                    h == (dim.1 as i32),
                    w2 == dim2.0,
                    h2 == (dim2.1 as i32),
                    chr == 4 * w,
                    chr2 == 4 * w2,
                    v.len() == 4 * (dim.0 * dim.1),
                    orig.len() == v.len(),
                    dim.0 * dim.1 <= u32::MAX,
                    v2.len() == 4 * (dim2.0 * dim2.1),
                    dim2.0 * dim2.1 <= u32::MAX,
                    forall|x: u8, y: u8, z: u8| call_requires(*blend, (x, y, z)),
                    forall|r: int, c: int, ch: int|
                        0 <= r < dim.1 && 0 <= c < dim.0 && 0 <= ch < 4 ==> if is_covered(dim, dim2, off, r, c)
                            && (r < ri || (r == ri && c < ci)) {
                            call_ensures(
                                *blend,
                                (
                                    byte_at(orig, dim.0 as int, r, c, ch),
                                    byte_at(v2@, dim2.0 as int, r - off.1, c - off.0, ch),
                                    byte_at(v2@, dim2.0 as int, r - off.1, c - off.0, 3),
                                ),
                                #[trigger] byte_at(v@, dim.0 as int, r, c, ch),
                            )
                        } else {
                            byte_at(v@, dim.0 as int, r, c, ch) == byte_at(orig, dim.0 as int, r, c, ch)
                        },
                decreases w - ci,
            {
                proof {
                    lemma_side_as_i32(dim.1);
                    lemma_side_as_i32(dim2.1);
                    lemma_byte_in_grid(ri as int, ci as int, 3, w as int, dim.1 as int);
                    lemma_byte_in_grid((ri - off_y) as int, (ci - off_x) as int, 3, w2 as int, dim2.1 as int);
                    assert(chr * (ri as int) == 4 * (w * ri)) by (nonlinear_arith)
                        requires chr == 4 * w;
                    assert(chr2 * ((ri - off_y) as int) == 4 * (w2 * (ri - off_y))) by (nonlinear_arith)
                        requires chr2 == 4 * w2;
                }
                let ch_back: usize = chr * (ri as usize) + 4 * (ci as usize);
                let ch2_back: usize = chr2 * ((ri - off_y) as usize) + 4 * ((ci - off_x) as usize);
                let a = v2[ch2_back + 3];
                let ghost before = v@;
                let mut k: usize = 0;
                while k < 4
                    invariant
                        0 <= k <= 4,
                        ch_back == 4 * (w * ri + ci),
                        ch2_back == 4 * (w2 * (ri - off_y) + (ci - off_x)),
                        ch_back + 3 < v.len(),
                        ch2_back + 3 < v2.len(),
                        a == v2@[ch2_back + 3],
                        v.len() == before.len(),
                        forall|x: u8, y: u8, z: u8| call_requires(*blend, (x, y, z)),
                        forall|j: int| 0 <= j < k ==> call_ensures(*blend, (before[ch_back + j], v2@[ch2_back + j], a), #[trigger] v@[ch_back + j]),
                        forall|j: int| 0 <= j < v.len() && !(ch_back <= j < ch_back + k) ==> #[trigger] v@[j] == before[j],
                    decreases 4 - k,
                {
                    let i = ch_back + k;
                    let b = blend(v[i], v2[ch2_back + k], a);
                    v.set(i, b);
                    k = k + 1;
                }
                proof {
                    assert forall|r: int, c: int, ch: int|
                        0 <= r < dim.1 && 0 <= c < dim.0 && 0 <= ch < 4 implies if is_covered(dim, dim2, off, r, c)
                            && (r < ri || (r == ri && c < ci + 1)) {
                            call_ensures(
                                *blend,
                                (
                                    byte_at(orig, dim.0 as int, r, c, ch),
                                    byte_at(v2@, dim2.0 as int, r - off.1, c - off.0, ch),
                                    byte_at(v2@, dim2.0 as int, r - off.1, c - off.0, 3),
                                ),
                                #[trigger] byte_at(v@, dim.0 as int, r, c, ch),
                            )
                        } else {
                            byte_at(v@, dim.0 as int, r, c, ch) == byte_at(orig, dim.0 as int, r, c, ch)
                        } by {
                        lemma_byte_in_grid(r, c, ch, w as int, dim.1 as int);
                        lemma_side_as_i32(dim.0);
                        lemma_side_as_i32(dim2.0);
                        if r != ri || c != ci {
                            lemma_other_cell_bytes(r, c, ch, ri as int, ci as int, w as int);
                            assert(byte_at(v@, dim.0 as int, r, c, ch) == byte_at(before, dim.0 as int, r, c, ch));
                        } else {
                            assert(is_covered(dim, dim2, off, r, c));
                            assert(before[ch_back + ch] == byte_at(before, dim.0 as int, r, c, ch));
                            assert(byte_at(before, dim.0 as int, r, c, ch) == byte_at(orig, dim.0 as int, r, c, ch));
                            assert(v2@[ch2_back + ch] == byte_at(v2@, dim2.0 as int, r - off.1, c - off.0, ch));
                            assert(v@[ch_back + ch] == byte_at(v@, dim.0 as int, r, c, ch));
                        }
                    }
                }
                ci = ci + 1;
            }
        }
        ri = ri + 1;
    }
    Ok(())
}


/// What `image::imageops::overlay` makes of the RGBA image `bottom` of `w` by `h`
/// pixels when the RGBA image `top` of `w2` by `h2` pixels is laid over it with its
/// corner at `(x, y)`: each pixel of the overlap is alpha-composited in single
/// precision.
pub uninterp spec fn image_overlay_result(bottom: Seq<u8>, w: u32, h: u32, top: Seq<u8>, w2: u32, h2: u32, x: i64, y: i64) -> Seq<u8>;

/// Calls `image::imageops::overlay`, which blends `top` into a copy of `bottom` in
/// place; the result is named `image_overlay_result` of all the arguments. Its
/// source writes only pixels of the bottom image, so the buffer keeps its length;
/// `ImageBuffer::from_raw` accepts buffers of exactly the images' bytes, and fails
/// when `4 * width` alone overflows `usize`, hence the bounds on the widths.
#[verifier::external_body]
fn image_overlay(bottom: &Vec<u8>, dim: (u32, u32), top: &Vec<u8>, dim2: (u32, u32), x: i64, y: i64) -> (r: Vec<u8>)
    requires
        bottom.len() == 4 * (dim.0 * dim.1),
        top.len() == 4 * (dim2.0 * dim2.1),
        4 * dim.0 <= usize::MAX,
        4 * dim2.0 <= usize::MAX,
    ensures
        r@ == image_overlay_result(bottom@, dim.0, dim.1, top@, dim2.0, dim2.1, x, y),
        r.len() == bottom.len(),
{
    let mut img: ImageBuffer<Rgba<u8>, Vec<u8>> = ImageBuffer::from_raw(dim.0, dim.1, bottom.clone()).unwrap();
    let top_img: ImageBuffer<Rgba<u8>, Vec<u8>> = ImageBuffer::from_raw(dim2.0, dim2.1, top.clone()).unwrap();
    image::imageops::overlay(&mut img, &top_img, x, y);
    img.into_raw()
}

/// The two images the overlay benchmark compares: `v2` laid over `v` by this
/// crate's `overlay` at (-50, -50) with `blend`, and by the `image` crate's at
/// (25, 25).
pub fn test_overlay<F: Fn(u8, u8, u8) -> u8>(
    v: &Vec<u8>,
    dim: (u32, u32),
    v2: &Vec<u8>,
    dim2: (u32, u32),
    blend: &F,
) -> (r: (Vec<u8>, Vec<u8>))
    requires
        v.len() == 4 * (dim.0 * dim.1),
        dim.0 * dim.1 <= u32::MAX,
        v2.len() == 4 * (dim2.0 * dim2.1),
        dim2.0 * dim2.1 <= u32::MAX,
        overlay_arith_ok(dim, dim2, (-50i32, -50i32)),
        forall|x: u8, y: u8, z: u8| call_requires(*blend, (x, y, z)),
    ensures
        overlaid(v@, r.0@, dim, v2@, dim2, (-50i32, -50i32), *blend),
        r.1@ == image_overlay_result(v@, dim.0, dim.1, v2@, dim2.0, dim2.1, 25, 25),
{
    let mut ours = v.clone();
    let _ = overlay(&mut ours, dim, v2, dim2, (-50, -50), blend);
    let theirs = image_overlay(v, dim, v2, dim2, 25, 25);
    (ours, theirs)
}

/// Overlaying blends exactly the base cells that lie under the top image, whatever the
/// sign of the offset: a base byte in rows `off.1 .. off.1 + h2` and columns
/// `off.0 .. off.0 + w2` is a result of `blend` on itself, the top image's byte at the
/// matching cell and that cell's alpha; every other base byte is kept.
pub proof fn lemma_overlay_blends_exactly_the_overlap<F: Fn(u8, u8, u8) -> u8>(
    before: Seq<u8>,
    after: Seq<u8>,
    dim: (u32, u32),
    top: Seq<u8>,
    dim2: (u32, u32),
    off: (i32, i32),
    blend: F,
    r: int,
    c: int,
    ch: int,
)
    requires
        overlaid(before, after, dim, top, dim2, off, blend),
        dim.0 <= i32::MAX,
        dim.1 <= i32::MAX,
        dim2.0 <= i32::MAX,
        dim2.1 <= i32::MAX,
        0 <= r < dim.1,
        0 <= c < dim.0,
        0 <= ch < 4,
    ensures
        (off.1 <= r < off.1 + dim2.1 && off.0 <= c < off.0 + dim2.0) ==> call_ensures(
            blend,
            (
                byte_at(before, dim.0 as int, r, c, ch),
                byte_at(top, dim2.0 as int, r - off.1, c - off.0, ch),
                byte_at(top, dim2.0 as int, r - off.1, c - off.0, 3),
            ),
            byte_at(after, dim.0 as int, r, c, ch),
        ),
        !(off.1 <= r < off.1 + dim2.1 && off.0 <= c < off.0 + dim2.0) ==> byte_at(after, dim.0 as int, r, c, ch)
            == byte_at(before, dim.0 as int, r, c, ch),
{
    lemma_side_as_i32(dim.0);
    lemma_side_as_i32(dim.1);
    lemma_side_as_i32(dim2.0);
    lemma_side_as_i32(dim2.1);
    assert(byte_at(after, dim.0 as int, r, c, ch) == byte_at(after, dim.0 as int, r, c, ch));
}

/// When the top image covers no cell of the base (it lies wholly beside, above or
/// below it, or has no pixels), overlaying leaves the base unchanged.
pub proof fn lemma_overlay_uncovered<F: Fn(u8, u8, u8) -> u8>(
    before: Seq<u8>,
    after: Seq<u8>,
    dim: (u32, u32),
    top: Seq<u8>,
    dim2: (u32, u32),
    off: (i32, i32),
    blend: F,
)
    requires
        before.len() == 4 * (dim.0 * dim.1),
        overlaid(before, after, dim, top, dim2, off, blend),
        first_covered(off.1) >= end_covered(dim.1, dim2.1, off.1) || first_covered(off.0) >= end_covered(
            dim.0,
            dim2.0,
            off.0,
        ),
    ensures
        after == before,
{
    assert forall|i: int| 0 <= i < before.len() implies after[i] == before[i] by {
        let (r, c, ch) = lemma_byte_cell(i, dim.0 as int, dim.1 as int);
        assert(!is_covered(dim, dim2, off, r, c));
        assert(byte_at(after, dim.0 as int, r, c, ch) == byte_at(before, dim.0 as int, r, c, ch));
    }
    assert(after =~= before);
}

/// A blend that keeps the base byte wherever alpha is zero makes a fully transparent
/// top image leave the base unchanged.
pub proof fn lemma_overlay_transparent<F: Fn(u8, u8, u8) -> u8>(
    before: Seq<u8>,
    after: Seq<u8>,
    dim: (u32, u32),
    top: Seq<u8>,
    dim2: (u32, u32),
    off: (i32, i32),
    blend: F,
)
    requires
        before.len() == 4 * (dim.0 * dim.1),
        overlaid(before, after, dim, top, dim2, off, blend),
        forall|x: u8, y: u8, z: u8| call_ensures(blend, (x, y, 0u8), z) ==> z == x,
        forall|r: int, c: int|
            0 <= r < dim2.1 && 0 <= c < dim2.0 ==> #[trigger] byte_at(top, dim2.0 as int, r, c, 3) == 0,
    ensures
        after == before,
{
    assert forall|i: int| 0 <= i < before.len() implies after[i] == before[i] by {
        let (r, c, ch) = lemma_byte_cell(i, dim.0 as int, dim.1 as int);
        if is_covered(dim, dim2, off, r, c) {
            lemma_side_as_i32(dim2.1);
            lemma_side_as_i32(dim2.0);
            assert(byte_at(top, dim2.0 as int, r - off.1, c - off.0, 3) == 0);
            assert(call_ensures(
                blend,
                (
                    byte_at(before, dim.0 as int, r, c, ch),
                    byte_at(top, dim2.0 as int, r - off.1, c - off.0, ch),
                    byte_at(top, dim2.0 as int, r - off.1, c - off.0, 3),
                ),
                byte_at(after, dim.0 as int, r, c, ch),
            ));
        } else {
            assert(byte_at(after, dim.0 as int, r, c, ch) == byte_at(before, dim.0 as int, r, c, ch));
        }
    }
    assert(after =~= before);
}

} // verus!
