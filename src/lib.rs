//! Dominant-palette extraction: exact color tallies and Lloyd-style
//! clustering of distinct colors, with exact integer arithmetic.
pub mod cluster;
pub mod color;
pub mod tally;
