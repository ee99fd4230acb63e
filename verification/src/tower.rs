//! A single puzzle piece and its cached bounding rectangle.

use vstd::prelude::*;

verus! {

/// Axis-aligned rectangle of tiles, by top-left corner and size.
#[derive(PartialEq, Eq, Structural, Clone, Copy, Debug)]
pub struct Rect {
    pub x: i32,
    pub y: i32,
    pub w: i32,
    pub h: i32,
}

/// One tower: its origin tile `(x, y)`, its total height fixed at
/// generation, its current flattened height, and a cached envelope of the
/// tiles it currently occupies.
#[derive(PartialEq, Eq, Structural, Clone, Copy, Debug)]
pub struct Tower {
    pub x: usize,
    pub y: usize,
    pub height: i32,
    pub flattened_height: i32,
    pub bounds: Rect,
}

} // verus!
