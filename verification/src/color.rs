//! Color values: a flat RGB pixel and a closed set of named color presets.

use vstd::prelude::*;

verus! {

/// One color value: three 8-bit unsigned channels, red, green and blue.
/// Immutable once constructed; there is no alpha channel.
#[derive(Clone, Copy, PartialEq, Eq, Structural, Debug)]
pub struct Pixel {
    pub r: u8,
    pub g: u8,
    pub b: u8,
}

/// The black pixel: all channels zero. Every buffer starts out filled
/// with this value.
pub open spec fn black() -> Pixel {
    Pixel { r: 0, g: 0, b: 0 }
}

impl Default for Pixel {
    /// The default pixel is black.
    fn default() -> (p: Pixel)
        ensures
            p == black(),
    {
        Pixel { r: 0, g: 0, b: 0 }
    }
}

/// A closed set of named color presets.
#[derive(Clone, Copy, PartialEq, Eq, Structural, Debug)]
pub enum Color {
    White,
    Black,
    Red,
    Green,
    Blue,
}

/// The fixed channel triple that each named preset stands for.
pub open spec fn color_pixel(c: Color) -> Pixel {
    match c {
        Color::White => Pixel { r: 255, g: 255, b: 255 },
        Color::Black => Pixel { r: 0, g: 0, b: 0 },
        Color::Red => Pixel { r: 255, g: 0, b: 0 },
        Color::Green => Pixel { r: 0, g: 255, b: 0 },
        Color::Blue => Pixel { r: 0, g: 0, b: 255 },
    }
}

impl Color {
    /// The pixel value of this preset, as `color_pixel` gives it.
    pub fn as_pixel(&self) -> (p: Pixel)
        ensures
            p == color_pixel(*self),
    {
        match *self {
            Color::White => Pixel { r: 255, g: 255, b: 255 },
            Color::Black => Pixel { r: 0, g: 0, b: 0 },
            Color::Red => Pixel { r: 255, g: 0, b: 0 },
            Color::Green => Pixel { r: 0, g: 255, b: 0 },
            Color::Blue => Pixel { r: 0, g: 0, b: 255 },
        }
    }
}

} // verus!
