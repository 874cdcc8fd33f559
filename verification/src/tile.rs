//! One rectangular, independently encoded sub-region of a raster.

use vstd::prelude::*;

verus! {

/// A tile: a rectangle of a source raster, with its encoded pixel bytes.
///
/// `x`, `y` are the origin in source-raster pixel coordinates (top-left),
/// `width` and `height` are the clipped cell dimensions, and `data` holds the
/// losslessly encoded pixels of that rectangle.
#[derive(Debug, Clone)]
pub struct Tile {
    pub x: u32,
    pub y: u32,
    pub width: u32,
    pub height: u32,
    pub data: Vec<u8>,
}

/// Mathematical image of a [`Tile`]: the same geometry with the encoded
/// bytes as a sequence.
#[verifier::ext_equal]
pub struct TileV {
    pub x: u32,
    pub y: u32,
    pub width: u32,
    pub height: u32,
    pub data: Seq<u8>,
}

impl View for Tile {
    type V = TileV;

    open spec fn view(&self) -> TileV {
        TileV {
            x: self.x,
            y: self.y,
            width: self.width,
            height: self.height,
            data: self.data@,
        }
    }
}

impl Tile {
    /// A tile with the given geometry and no encoded bytes yet.
    pub fn new(x: u32, y: u32, width: u32, height: u32) -> (r: Self)
        ensures
            r.x == x,
            r.y == y,
            r.width == width,
            r.height == height,
            r.data@ == Seq::<u8>::empty(),
    {
        Self { x, y, width, height, data: Vec::new() }
    }
}

} // verus!
