//! Optional per-tile playability map.
//!
//! A mask restricts which tiles of a field take part in the puzzle. Its
//! backing array always has the full maximum capacity, indexed row-major by
//! `x + y * width`; entries beyond `width * height` are padding and stay
//! `true`.

use vstd::prelude::*;
use crate::defs::{MAX_PLAYING_FIELD_WIDTH, MAX_PLAYING_FIELD_HEIGHT, MAX_PLAYING_FIELD_AREA};

verus! {

/// Per-tile playability map of a field.
pub struct PlayingFieldMask {
    pub width: usize,
    pub height: usize,
    pub mask: Vec<bool>,
}

impl PlayingFieldMask {
    /// Structural invariant: in-range dimensions over a full-capacity array.
    pub open spec fn wf(self) -> bool {
        &&& 1 <= self.width <= MAX_PLAYING_FIELD_WIDTH
        &&& 1 <= self.height <= MAX_PLAYING_FIELD_HEIGHT
        &&& self.mask@.len() == MAX_PLAYING_FIELD_AREA
    }

    /// Builds an all-playable mask. Dimensions outside the supported range
    /// are a fatal caller error.
    pub fn new(width: usize, height: usize) -> (r: Self)
        requires
            0 < width <= MAX_PLAYING_FIELD_WIDTH,
            0 < height <= MAX_PLAYING_FIELD_HEIGHT,
        ensures
            r.wf(),
            r.width == width,
            r.height == height,
            forall|i: int| 0 <= i < MAX_PLAYING_FIELD_AREA ==> r.mask@[i] == true,
    {
        let mut mask: Vec<bool> = Vec::new();
        while mask.len() < MAX_PLAYING_FIELD_AREA
            invariant
                mask@.len() <= MAX_PLAYING_FIELD_AREA,
                forall|i: int| 0 <= i < mask@.len() ==> mask@[i] == true,
            decreases MAX_PLAYING_FIELD_AREA - mask@.len(),
        {
            mask.push(true);
        }
        PlayingFieldMask { width, height, mask }
    }
}

} // verus!
