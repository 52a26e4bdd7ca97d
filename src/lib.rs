//! Rescue-XLIX sponge hash over a 128-bit prime field.

pub mod felt;
pub mod matrix;
pub mod rescue;
