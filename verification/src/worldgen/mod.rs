//! Procedural generation of the overworld: deterministic streams, the
//! chunk buffer, biomes and the integer parts of terrain decoration.

pub mod rng;
pub mod buffer;
pub mod biomes;
pub mod noise;
pub mod carvers;
pub mod surface;
pub mod ores;
pub mod growth;
pub mod features;
