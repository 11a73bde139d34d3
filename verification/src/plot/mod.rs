//! A layered drawing canvas: shapes are drawn on layers of pixels, and the
//! layers are laid over one another into one RGBA image.
use vstd::prelude::*;

pub mod canvas;
pub mod node;
pub mod plot2d;

verus! {

/// The four bytes of an RGBA pixel.
pub type Pixel = [u8; 4];

/// A pair of pixel coordinates or a width and height.
#[derive(Clone, Copy, Debug, PartialEq, Eq, Structural)]
pub struct Pos(pub usize, pub usize);

impl Pos {
    /// Both components as `i32`, truncated as the cast truncates.
    pub fn to_i32(&self) -> (r: (i32, i32))
        ensures
            r == (self.0 as i32, self.1 as i32),
    {
        (self.0 as i32, self.1 as i32)
    }

    /// Both components as `u32`, truncated as the cast truncates.
    pub fn to_u32(&self) -> (r: (u32, u32))
        ensures
            r == (self.0 as u32, self.1 as u32),
    {
        (self.0 as u32, self.1 as u32)
    }
}

/// The pixels of `img` laid out as bytes, four per pixel.
pub open spec fn flatten(img: Seq<Pixel>) -> Seq<u8> {
    Seq::new(4 * img.len(), |i: int| img[i / 4][i % 4])
}

/// Writes the pixels of `img` out as bytes, four per pixel.
pub fn flatten_pixels(img: &Vec<Pixel>) -> (r: Vec<u8>)
    requires
        4 * img.len() <= usize::MAX,
    ensures
        r@ == flatten(img@),
{
    let mut out: Vec<u8> = Vec::new();
    let mut i: usize = 0;
    while i < img.len()
        invariant
            0 <= i <= img.len(),
            4 * img.len() <= usize::MAX,
            out@.len() == 4 * i,
            forall|j: int| 0 <= j < 4 * i ==> #[trigger] out@[j] == img@[j / 4][j % 4],
        decreases img.len() - i,
    {
        let px = img[i];
        out.push(px[0]);
        out.push(px[1]);
        out.push(px[2]);
        out.push(px[3]);
        i = i + 1;
    }
    proof {
        assert(out@ =~= flatten(img@));
    }
    out
}

} // verus!
