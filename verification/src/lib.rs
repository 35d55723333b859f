//! Core logic of a Minecraft 1.7.10 server: wire encoding, packet
//! construction, chunked world storage and the save format.

pub mod net;
pub mod packets;
pub mod world;
pub mod util;
pub mod config;
pub mod save;
pub mod worldgen;
pub mod game;
