//! Least-significant-bit steganography on RGB images: a message is hidden in
//! the lowest bit of the colour channels of a carrier image and read back
//! from the modified image alone.
//!
//! [`LSBstego`] is the codec, [`Raster`] the image it works on. What the
//! codec computes is stated in [`codec`], over plain sequences of samples.

pub mod bits;
pub mod codec;
pub mod error;
pub mod header;
pub mod lsbstego;
pub mod raster;
pub mod text;

pub use error::StegoError;
pub use lsbstego::LSBstego;
pub use raster::Raster;
