//! Chunk indexes.

pub mod extensible_array;
pub mod fixed_array;
