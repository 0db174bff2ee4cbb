//! A shaded torus rendered as text: fixed-point shading, dithering and a
//! depth-tested character frame buffer.
//!
//! Every quantity that the renderer measures (screen coordinates, depths,
//! cosines, brightness) is a signed fixed-point number with 24 fractional
//! bits, so that all of the arithmetic is exact integer arithmetic.

pub mod fixed;
pub mod dither;
pub mod shade;
pub mod frame;
pub mod framebuffer;
pub mod raster;
pub mod caption;
