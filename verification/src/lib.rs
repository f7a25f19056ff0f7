//! Raster kernels on a single 8-bit intensity plane: error-diffusion and
//! ordered dithering, flood fill and box blur, behind one dispatch function.
//!
//! A picture is a flat row-major buffer of `width * height` samples; the
//! sample at column `x` of row `y` has index `y * width + x`. Every kernel
//! reads its input and hands back a buffer of its own inside a
//! [`ProcessResult`].

pub mod blur;
pub mod diffusion;
pub mod dispatch;
pub mod fill;
pub mod grid;
pub mod ordered;
pub mod outcome;
pub mod text;

pub use outcome::ProcessResult;
pub use dispatch::{needs_picture, process_safe, Operation};
