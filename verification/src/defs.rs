//! Global size limits of the playing field.

use vstd::prelude::*;

verus! {

/// Widest field the engine supports.
pub const MAX_PLAYING_FIELD_WIDTH: usize = 30;

/// Tallest field the engine supports; keeps every tower height below 100,
/// so it renders with at most two digits.
pub const MAX_PLAYING_FIELD_HEIGHT: usize = 20;

/// Largest tile count of a field.
pub const MAX_PLAYING_FIELD_AREA: usize = MAX_PLAYING_FIELD_WIDTH * MAX_PLAYING_FIELD_HEIGHT;

} // verus!
