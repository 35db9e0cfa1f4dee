//! A minimal 2D raster canvas.
//!
//! The crate owns a pixel buffer of flat RGB color values, paints solid
//! fills, single points and straight or diagonal line segments into it with
//! an integer digital-line algorithm, and turns a finished buffer into the
//! bytes of a binary PPM image (and back). File output itself is left to the
//! caller: the library only produces and consumes plain values.

pub mod codec;
pub mod color;
pub mod image;
pub mod line;
