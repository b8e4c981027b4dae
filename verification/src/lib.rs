//! A verified decoder for the Portable Pixmap (PPM) image format, with a
//! small bitmap abstraction that gives uniform pixel access over 8-bit and
//! 16-bit sample buffers and a JPEG re-encoding entry point.

pub mod bitmap;
pub mod jpeg;
pub mod laws;
pub mod ppm;
