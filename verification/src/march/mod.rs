//! Loops with an early exit, one pixel at a time or a tile at a time.
pub mod blocks;
pub mod lanes;
