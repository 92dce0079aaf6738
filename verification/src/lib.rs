//! Linear colour gradients between two 8-bit RGB colours.
//!
//! Colours are blended with binary64 weights. The arithmetic is done in
//! integers and gives, bit for bit, what binary64 floating point gives, so
//! every sample of a gradient is a pure function of its endpoints, its index
//! and the step count.
//! A gradient can be rendered as an image of horizontal bands, one per sample.

pub mod color;
pub mod gradient;
pub mod hex;
pub mod random;
pub mod raster;
pub mod weight;

pub use crate::color::RGB;
pub use crate::gradient::Gradient;
pub use crate::gradient::IMAGE_WIDTH;
pub use crate::raster::Raster;
pub use crate::raster::RenderError;
pub use crate::weight::Weight;
