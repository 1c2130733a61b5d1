//! Dominant-color palette extraction by uniform quantization of the RGB cube.
//!
//! The color cube is partitioned into a regular grid of axis-aligned ranges
//! ([`ranges`]); pixels sampled from a decoded image are classified into those
//! ranges, tallied, and the most frequent ranges are reported as uppercase
//! `#RRGGBB` strings of their midpoint representatives ([`palette`]).

pub mod color;
pub mod hex;
pub mod palette;
pub mod ranges;
