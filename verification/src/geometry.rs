//! Points, boxes and colours in the editor's integer model.
use vstd::prelude::*;

verus! {

/// A point on the canvas, in integer canvas units.
#[derive(Clone, Copy, Debug, PartialEq, Eq, Structural)]
pub struct Point2D {
    pub x: i64,
    pub y: i64,
}

impl Point2D {
    pub fn new(x: i64, y: i64) -> (p: Self)
        ensures
            p.x == x,
            p.y == y,
    {
        Point2D { x, y }
    }

    pub fn zero() -> (p: Self)
        ensures
            p.x == 0,
            p.y == 0,
    {
        Point2D { x: 0, y: 0 }
    }
}

/// An axis-aligned box given by its two extreme corners.
#[derive(Clone, Copy, Debug, PartialEq, Eq, Structural)]
pub struct BoundingBox {
    pub min: Point2D,
    pub max: Point2D,
}

impl BoundingBox {
    pub fn new(min: Point2D, max: Point2D) -> (b: Self)
        ensures
            b.min == min,
            b.max == max,
    {
        BoundingBox { min, max }
    }
}

/// A colour with 8-bit red, green, blue and alpha channels.
#[derive(Clone, Copy, Debug, PartialEq, Eq, Structural)]
pub struct Color {
    pub r: u8,
    pub g: u8,
    pub b: u8,
    pub a: u8,
}

impl Color {
    pub fn new(r: u8, g: u8, b: u8, a: u8) -> (c: Self)
        ensures
            c == (Color { r, g, b, a }),
    {
        Color { r, g, b, a }
    }

    pub fn white() -> (c: Self)
        ensures
            c == (Color { r: 255, g: 255, b: 255, a: 255 }),
    {
        Color { r: 255, g: 255, b: 255, a: 255 }
    }

    pub fn black() -> (c: Self)
        ensures
            c == (Color { r: 0, g: 0, b: 0, a: 255 }),
    {
        Color { r: 0, g: 0, b: 0, a: 255 }
    }

    /// The opaque colour whose channels are the bytes of `0xRRGGBB`.
    pub fn from_hex(hex: u32) -> (c: Self)
        ensures
            c.r == (hex / 0x10000) % 0x100,
            c.g == (hex / 0x100) % 0x100,
            c.b == hex % 0x100,
            c.a == 255,
    {
        let r = ((hex / 0x10000) % 0x100) as u8;
        let g = ((hex / 0x100) % 0x100) as u8;
        let b = (hex % 0x100) as u8;
        Color { r, g, b, a: 255 }
    }
}

} // verus!
