//! Image processing on raw RGBA byte buffers (crop, brighten, convolution,
//! overlay) and a small layered canvas for drawing shapes and plots.
pub mod arith;
pub mod error;
pub mod ops;
pub mod plot;
