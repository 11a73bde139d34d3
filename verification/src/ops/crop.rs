//! Cropping an RGBA image to a rectangular window.
use vstd::prelude::*;

use image::{ImageBuffer, Rgba};

use crate::arith::{byte_at, lemma_byte_cell, lemma_byte_in_grid, lemma_cell_in_grid, min};
use crate::error::ImproError;

verus! {

/// Whether the window of `size` at `off` lies inside an image of `org` pixels.
pub open spec fn crop_fits(org: (u32, u32), off: (u32, u32), size: (u32, u32)) -> bool {
    off.0 + size.0 <= org.0 && off.1 + size.1 <= org.1
}

/// The arithmetic of a crop stays within `u32`: the bounds check itself, and on
/// success the byte widths of a source row and of the result.
pub open spec fn crop_arith_ok(org: (u32, u32), off: (u32, u32), size: (u32, u32)) -> bool {
    &&& off.0 + size.0 <= u32::MAX
    &&& off.0 + size.0 <= org.0 ==> off.1 + size.1 <= u32::MAX
    &&& crop_fits(org, off, size) ==> 4 * org.0 <= u32::MAX && size.0 * size.1 * 4 <= u32::MAX
}

/// `out` is the window of `size` pixels at `off` cut from `img`, an RGBA image
/// `org_w` pixels wide: it has the window's bytes, and each of its pixels is the
/// pixel of `img` shifted by the offset.
pub open spec fn is_crop_of(out: Seq<u8>, img: Seq<u8>, org_w: int, off: (u32, u32), size: (u32, u32)) -> bool {
    &&& out.len() == 4 * (size.0 * size.1)
    &&& forall|r: int, c: int, ch: int|
        0 <= r < size.1 && 0 <= c < size.0 && 0 <= ch < 4 ==> #[trigger] byte_at(out, size.0 as int, r, c, ch)
            == byte_at(img, org_w, r + off.1, c + off.0, ch)
}

/// Crops the RGBA image `v` of `org` pixels to the window of `size` pixels whose
/// top-left corner is at `off`. Fails, leaving `v` as it was, when the window
/// reaches past the right or bottom edge.
pub fn crop(v: &mut Vec<u8>, org: (u32, u32), off: (u32, u32), size: (u32, u32)) -> (res: Result<(), ImproError>)
    requires
        crop_arith_ok(org, off, size),
        crop_fits(org, off, size) ==> old(v).len() == 4 * (org.0 * org.1),
    ensures
        res is Ok <==> crop_fits(org, off, size),
        res is Err ==> res == Err::<(), ImproError>(ImproError::CropOutOfBounds) && final(v)@ == old(v)@,
        res is Ok ==> is_crop_of(final(v)@, old(v)@, org.0 as int, off, size),
{
    if off.0 + size.0 > org.0 || off.1 + size.1 > org.1 {
        return Err(ImproError::CropOutOfBounds);
    }
    let org_w = org.0 as usize;
    let org_h = org.1 as usize;
    let x_off = off.0 as usize;
    let y_off = off.1 as usize;
    let w = size.0 as usize;
    let h = size.1 as usize;
    let mut out: Vec<u8> = Vec::new();
    let mut r: usize = 0;
    while r < h
        invariant
            0 <= r <= h,
            x_off + w <= org_w,
            y_off + h <= org_h,
            v.len() == 4 * (org_w * org_h),
            w * h * 4 <= u32::MAX,
            out.len() == 4 * (w * r),
            forall|r2: int, c: int, ch: int|
                0 <= r2 < r && 0 <= c < w && 0 <= ch < 4 ==> #[trigger] byte_at(out@, w as int, r2, c, ch)
                    == byte_at(v@, org_w as int, r2 + y_off, c + x_off, ch),
        decreases h - r,
    {
        let mut c: usize = 0;
        while c < w
            invariant
                0 <= c <= w,
                r < h,
                x_off + w <= org_w,
                y_off + h <= org_h,
                v.len() == 4 * (org_w * org_h),
                w * h * 4 <= u32::MAX,
                out.len() == 4 * (w * r + c),
                forall|r2: int, c2: int, ch: int|
                    0 <= r2 < r && 0 <= c2 < w && 0 <= ch < 4 ==> #[trigger] byte_at(out@, w as int, r2, c2, ch)
                        == byte_at(v@, org_w as int, r2 + y_off, c2 + x_off, ch),
                forall|c2: int, ch: int|
                    0 <= c2 < c && 0 <= ch < 4 ==> #[trigger] byte_at(out@, w as int, r as int, c2, ch)
                        == byte_at(v@, org_w as int, r + y_off, c2 + x_off, ch),
            decreases w - c,
        {
            proof {
                lemma_byte_in_grid((r + y_off) as int, (c + x_off) as int, 3, org_w as int, org_h as int);
                lemma_cell_in_grid(r as int, c as int, w as int, h as int);
            }
            let base = 4 * (org_w * (r + y_off) + (c + x_off));
            let ghost before = out@;
            out.push(v[base]);
            out.push(v[base + 1]);
            out.push(v[base + 2]);
            out.push(v[base + 3]);
            proof {
                assert forall|r2: int, c2: int, ch: int|
                    0 <= r2 < r && 0 <= c2 < w && 0 <= ch < 4 implies #[trigger] byte_at(out@, w as int, r2, c2, ch)
                        == byte_at(v@, org_w as int, r2 + y_off, c2 + x_off, ch) by {
                    lemma_cell_in_grid(r2, c2, w as int, r as int);
                    assert(byte_at(out@, w as int, r2, c2, ch) == byte_at(before, w as int, r2, c2, ch));
                }
                assert forall|c2: int, ch: int|
                    0 <= c2 < c + 1 && 0 <= ch < 4 implies #[trigger] byte_at(out@, w as int, r as int, c2, ch)
                        == byte_at(v@, org_w as int, r + y_off, c2 + x_off, ch) by {
                    if c2 < c {
                        assert(byte_at(out@, w as int, r as int, c2, ch) == byte_at(before, w as int, r as int, c2, ch));
                    }
                }
            }
            c = c + 1;
        }
        proof {
            assert(w * (r + 1) == w * r + w) by (nonlinear_arith);
        }
        r = r + 1;
    }
    proof {
        assert(w * h == h * w) by (nonlinear_arith);
    }
    *v = out;
    Ok(())
}


/// The window the `image` crate crops to when asked for `size` pixels at `off` of an
/// image of `org` pixels: the corner is clamped into the image and the size to what
/// is left of it past the corner.
pub open spec fn clamped_window(org: (u32, u32), off: (u32, u32), size: (u32, u32)) -> ((u32, u32), (u32, u32)) {
    let x = min(off.0 as int, org.0 as int);
    let y = min(off.1 as int, org.1 as int);
    let w = min(size.0 as int, org.0 - x);
    let h = min(size.1 as int, org.1 - y);
    ((x as u32, y as u32), (w as u32, h as u32))
}

/// Calls `image::imageops::crop` on the RGBA image `raw` of `org` pixels and copies
/// the view out with `SubImage::to_image`. Its source clamps the window as
/// `clamped_window` says and copies each pixel of the window, row by row, into a new
/// buffer of the window's size; `ImageBuffer::from_raw` accepts a buffer of exactly
/// the image's bytes. It computes `4 * width * height` with checked `usize` products
/// and fails when `4 * width` alone overflows, hence the bound on the width.
#[verifier::external_body]
fn image_crop(raw: &Vec<u8>, org: (u32, u32), off: (u32, u32), size: (u32, u32)) -> (r: Vec<u8>)
    requires
        raw.len() == 4 * (org.0 * org.1),
        4 * org.0 <= usize::MAX,
    ensures
        is_crop_of(r@, raw@, org.0 as int, clamped_window(org, off, size).0, clamped_window(org, off, size).1),
{
    let mut img: ImageBuffer<Rgba<u8>, Vec<u8>> = ImageBuffer::from_raw(org.0, org.1, raw.clone()).unwrap();
    image::imageops::crop(&mut img, off.0, off.1, size.0, size.1).to_image().into_raw()
}

/// The two crops the cropping benchmark compares: this crate's `crop` and the
/// `image` crate's, both of the 50 by 50 window at (75, 25). They agree.
pub fn test_crop(raw: &Vec<u8>, dim: (u32, u32)) -> (r: (Vec<u8>, Vec<u8>))
    requires
        raw.len() == 4 * (dim.0 * dim.1),
        crop_fits(dim, (75, 25), (50, 50)),
        4 * dim.0 <= u32::MAX,
    ensures
        is_crop_of(r.0@, raw@, dim.0 as int, (75, 25), (50, 50)),
        r.1@ == r.0@,
{
    let mut ours = raw.clone();
    let res = crop(&mut ours, dim, (75, 25), (50, 50));
    assert(res is Ok);
    let theirs = image_crop(raw, dim, (75, 25), (50, 50));
    proof {
        assert(clamped_window(dim, (75, 25), (50, 50)) == ((75u32, 25u32), (50u32, 50u32)));
        lemma_crop_unique(theirs@, ours@, raw@, dim.0 as int, (75, 25), (50, 50));
    }
    (ours, theirs)
}

/// A crop is determined by the image, its width, the offset and the size.
pub proof fn lemma_crop_unique(
    out1: Seq<u8>,
    out2: Seq<u8>,
    img: Seq<u8>,
    org_w: int,
    off: (u32, u32),
    size: (u32, u32),
)
    requires
        is_crop_of(out1, img, org_w, off, size),
        is_crop_of(out2, img, org_w, off, size),
    ensures
        out1 == out2,
{
    assert forall|i: int| 0 <= i < out1.len() implies out1[i] == out2[i] by {
        let (r, c, ch) = lemma_byte_cell(i, size.0 as int, size.1 as int);
        assert(byte_at(out1, size.0 as int, r, c, ch) == byte_at(img, org_w, r + off.1, c + off.0, ch));
        assert(byte_at(out2, size.0 as int, r, c, ch) == byte_at(img, org_w, r + off.1, c + off.0, ch));
    }
    assert(out1 =~= out2);
}

/// Cropping an image to its own size at offset zero gives the image back.
pub proof fn lemma_crop_full(out: Seq<u8>, img: Seq<u8>, w: u32, h: u32)
    requires
        img.len() == 4 * (w * h),
        is_crop_of(out, img, w as int, (0, 0), (w, h)),
    ensures
        out == img,
{
    assert forall|i: int| 0 <= i < img.len() implies out[i] == img[i] by {
        let (r, c, ch) = lemma_byte_cell(i, w as int, h as int);
        assert(byte_at(out, w as int, r, c, ch) == byte_at(img, w as int, r + 0, c + 0, ch));
    }
    assert(out =~= img);
}

/// Cropping a crop is one crop at the summed offsets.
pub proof fn lemma_crop_compose(
    out: Seq<u8>,
    mid: Seq<u8>,
    img: Seq<u8>,
    org_w: int,
    off1: (u32, u32),
    size1: (u32, u32),
    off2: (u32, u32),
    size2: (u32, u32),
)
    requires
        is_crop_of(mid, img, org_w, off1, size1),
        is_crop_of(out, mid, size1.0 as int, off2, size2),
        off2.0 + size2.0 <= size1.0,
        off2.1 + size2.1 <= size1.1,
        off1.0 + off2.0 <= u32::MAX,
        off1.1 + off2.1 <= u32::MAX,
    ensures
        is_crop_of(out, img, org_w, ((off1.0 + off2.0) as u32, (off1.1 + off2.1) as u32), size2),
{
    assert forall|r: int, c: int, ch: int|
        0 <= r < size2.1 && 0 <= c < size2.0 && 0 <= ch < 4 implies #[trigger] byte_at(out, size2.0 as int, r, c, ch)
            == byte_at(img, org_w, r + ((off1.1 + off2.1) as u32), c + ((off1.0 + off2.0) as u32), ch) by {
        assert(byte_at(out, size2.0 as int, r, c, ch) == byte_at(mid, size1.0 as int, r + off2.1, c + off2.0, ch));
        assert(byte_at(mid, size1.0 as int, r + off2.1, c + off2.0, ch) == byte_at(
            img,
            org_w,
            (r + off2.1) + off1.1,
            (c + off2.0) + off1.0,
            ch,
        ));
    }
}

} // verus!
