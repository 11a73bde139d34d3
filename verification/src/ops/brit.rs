//! Brightening or darkening an image by a signed power.
use vstd::prelude::*;

use image::{ImageBuffer, Rgba};

use crate::error::ImproError;

verus! {

/// The byte `c` scaled by the factor `1 + pw / 128`, truncated and capped at 255.
///
/// The factor is `(128 + pw) / 128`, a multiple of 1/128, so the product with a
/// byte is exact in single precision; this is the value such a product gives.
pub open spec fn brightened(c: u8, pw: i8) -> int {
    let x = (c as int) * (128 + pw as int) / 128;
    if x > 255 { 255 } else { x }
}

/// Scales every byte of `v` by `1 + pw / 128`, truncating and saturating at 255.
/// `pw` ranges over -128..127, from black to nearly double brightness.
pub fn brighten(v: &mut Vec<u8>, pw: i8) -> (res: Result<(), ImproError>)
    ensures
        res is Ok,
        final(v).len() == old(v).len(),
        forall|i: int| 0 <= i < old(v).len() ==> #[trigger] final(v)@[i] as int == brightened(old(v)@[i], pw),
{
    let factor: u32 = (128i32 + pw as i32) as u32;
    let mut i: usize = 0;
    while i < v.len()
        invariant
            0 <= i <= v.len(),
            v.len() == old(v).len(),
            factor == 128 + pw as int,
            forall|j: int| 0 <= j < i ==> #[trigger] v@[j] as int == brightened(old(v)@[j], pw),
            forall|j: int| i <= j < v.len() ==> #[trigger] v@[j] == old(v)@[j],
        decreases v.len() - i,
    {
        let c = v[i];
        proof {
            assert((c as int) * factor <= 255 * 255) by (nonlinear_arith)
                requires c <= 255, factor <= 255;
        }
        let x: u32 = (c as u32) * factor / 128;
        let b: u8 = if x > 255 { 255 } else { x as u8 };
        v.set(i, b);
        i = i + 1;
    }
    Ok(())
}


/// The `image` crate's brightening of one color byte: `value` added, clamped to 0..=255.
pub open spec fn added_brightness(c: u8, value: i32) -> int {
    let d = c as int + value as int;
    if d < 0 {
        0
    } else if d > 255 {
        255
    } else {
        d
    }
}

/// `out` is `img` brightened by the `image` crate with `value`: every color byte
/// shifted and clamped, every alpha byte kept.
pub open spec fn is_added_brightness(out: Seq<u8>, img: Seq<u8>, value: i32) -> bool {
    &&& out.len() == img.len()
    &&& forall|i: int|
        0 <= i < img.len() ==> #[trigger] out[i] as int == if i % 4 == 3 {
            img[i] as int
        } else {
            added_brightness(img[i], value)
        }
}

/// Calls `image::imageops::brighten` on the RGBA image `raw` of `w` by `h` pixels.
/// Its source adds `value` to each color byte of each pixel as an `i32`, clamps the
/// sum to 0..=255 and keeps alpha; the buffer is built with `ImageBuffer::from_raw`,
/// which accepts a buffer of exactly the image's bytes. Both `from_raw` and the
/// `ImageBuffer::new` inside `brighten` compute `4 * w * h` with checked `usize`
/// products and fail when `4 * w` alone overflows, hence the bound on `w`.
#[verifier::external_body]
fn image_brighten(raw: &Vec<u8>, w: u32, h: u32, value: i32) -> (r: Vec<u8>)
    requires
        raw.len() == 4 * (w * h),
        4 * w <= usize::MAX,
        value <= i32::MAX - 255,
    ensures
        is_added_brightness(r@, raw@, value),
{
    let img: ImageBuffer<Rgba<u8>, Vec<u8>> = ImageBuffer::from_raw(w, h, raw.clone()).unwrap();
    image::imageops::brighten(&img, value).into_raw()
}

/// The two images the brightening benchmark compares: this crate's `brighten` with
/// power 125 and the `image` crate's with 100 added.
pub fn test_brighten(raw: &Vec<u8>, dim: (u32, u32)) -> (r: (Vec<u8>, Vec<u8>))
    requires
        raw.len() == 4 * (dim.0 * dim.1),
        4 * dim.0 <= usize::MAX,
    ensures
        r.0.len() == raw.len(),
        forall|i: int| 0 <= i < raw.len() ==> #[trigger] r.0@[i] as int == brightened(raw@[i], 125),
        is_added_brightness(r.1@, raw@, 100),
{
    let mut ours = raw.clone();
    let _ = brighten(&mut ours, 125);
    let theirs = image_brighten(raw, dim.0, dim.1, 100);
    (ours, theirs)
}

/// The brightened byte is the whole part of `c * (1 + pw / 128)`, capped at 255: it is
/// 255 when the product reaches 256, and otherwise the largest `b` with
/// `b * 128 <= c * (128 + pw)`.
pub proof fn lemma_brighten_whole_part(c: u8, pw: i8)
    ensures
        (c as int) * (128 + pw as int) >= 256 * 128 ==> brightened(c, pw) == 255,
        (c as int) * (128 + pw as int) < 256 * 128 ==> {
            &&& brightened(c, pw) * 128 <= (c as int) * (128 + pw as int)
            &&& (c as int) * (128 + pw as int) < (brightened(c, pw) + 1) * 128
        },
{
    let x = (c as int) * (128 + pw as int);
    assert(x >= 0) by (nonlinear_arith)
        requires x == (c as int) * (128 + pw as int), c >= 0, 128 + pw as int >= 0;
    vstd::arithmetic::div_mod::lemma_fundamental_div_mod(x, 128);
    vstd::arithmetic::div_mod::lemma_mod_bound(x, 128);
}

/// A power of zero leaves every byte as it is.
pub proof fn lemma_brighten_zero(c: u8)
    ensures
        brightened(c, 0) == c,
{
}

/// A nonnegative power never darkens a byte and a negative one never brightens it;
/// the lowest power turns every byte black.
pub proof fn lemma_brighten_direction(c: u8, pw: i8)
    ensures
        pw >= 0 ==> brightened(c, pw) >= c,
        pw <= 0 ==> brightened(c, pw) <= c,
        pw == -128 ==> brightened(c, pw) == 0,
{
    assert(pw >= 0 ==> (c as int) * (128 + pw as int) >= (c as int) * 128) by (nonlinear_arith);
    assert(pw <= 0 ==> (c as int) * (128 + pw as int) <= (c as int) * 128) by (nonlinear_arith);
    assert(pw == -128 ==> (c as int) * (128 + pw as int) == 0) by (nonlinear_arith);
}

/// Brightening keeps the order of bytes.
pub proof fn lemma_brighten_monotone(c1: u8, c2: u8, pw: i8)
    requires
        c1 <= c2,
    ensures
        brightened(c1, pw) <= brightened(c2, pw),
{
    assert((c1 as int) * (128 + pw as int) <= (c2 as int) * (128 + pw as int)) by (nonlinear_arith)
        requires c1 <= c2, 128 + pw as int >= 0;
    vstd::arithmetic::div_mod::lemma_div_is_ordered(
        (c1 as int) * (128 + pw as int),
        (c2 as int) * (128 + pw as int),
        128,
    );
}

} // verus!
