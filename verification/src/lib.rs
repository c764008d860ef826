//! Conversion of raster images into text-glyph layers under a character
//! budget: a fixed five-level palette, Floyd-Steinberg error diffusion,
//! per-channel glyph encoding, and an adaptive resolution search.

pub mod buffer;
pub mod dither;
pub mod encode;
pub mod fit;
pub mod palette;
