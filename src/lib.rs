//! Three-colour (black / white / dark red) error-diffusion dithering for
//! tri-colour e-paper and two-ink printing.
//!
//! The library is split into four parts:
//! - [`palette`]: colours, fixed-point tones and the nearest-colour resolver;
//! - [`grid`]: flat RGBA / RGB pixel buffers of known width and height;
//! - [`dither`]: the scanline error-diffusion sweep and its mathematical model;
//! - [`planes`]: the split of a quantized image into the three output planes.

pub mod palette;
pub mod grid;
pub mod dither;
pub mod planes;
