//! Engine for a tile-grid flattening puzzle.
//!
//! A rectangular playing field is partitioned into towers. Each tower starts
//! at a height equal to the number of tiles it owns in the planted solution,
//! and the player must flatten every tower down to height 1 by spreading its
//! excess height onto adjacent empty tiles along straight lines, reversibly.
//! The crate holds the data model (field, towers, optional playability mask),
//! the random generation of solvable puzzles, move validation and application,
//! bounding-box maintenance, the binary save format, and the deterministic
//! pseudo-random generator that drives generation.

pub mod defs;
pub mod rng;
pub mod mask;
pub mod tower;
pub mod field;
pub mod geometry;
pub mod generate;
pub mod codec;
pub mod settings;
pub mod laws;
