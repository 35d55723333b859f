//! Protocol primitives: VarInts, strings and fixed-width big-endian fields.

pub mod reading;
pub mod writing;
