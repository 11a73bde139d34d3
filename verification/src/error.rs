//! The errors that the library's operations report.
use vstd::prelude::*;

verus! {

/// Why an operation refused its input.
#[derive(Debug, Clone, Copy, PartialEq, Eq, Structural)]
pub enum ImproError {
    /// A crop window reaches past the edge of the image.
    CropOutOfBounds,
    /// A layer index is not below the number of layers.
    LayerOutOfBounds,
    /// A locked layer was asked to take a new node.
    LayerLocked,
    /// A plot was asked to draw or render before it had a canvas.
    NoCanvas,
}

impl ImproError {
    /// A sentence that describes the error.
    pub fn message(&self) -> (r: &'static str)
        ensures
            *self == ImproError::CropOutOfBounds ==> r@
                == "Given arguments are not valid. Either axis, offset + length exceed original length."@,
            *self == ImproError::LayerOutOfBounds ==> r@ == "Given layer index is out of bounds."@,
            *self == ImproError::LayerLocked ==> r@ == "Failed to modify locked layer."@,
            *self == ImproError::NoCanvas ==> r@ == "No previously created Canvas found."@,
    {
        match self {
            ImproError::CropOutOfBounds => "Given arguments are not valid. Either axis, offset + length exceed original length.",
            ImproError::LayerOutOfBounds => "Given layer index is out of bounds.",
            ImproError::LayerLocked => "Failed to modify locked layer.",
            ImproError::NoCanvas => "No previously created Canvas found.",
        }
    }
}

} // verus!
