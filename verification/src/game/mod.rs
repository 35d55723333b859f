//! Game rules: redstone, block placement and interaction, inventories.

pub mod redstone;
pub mod connection;
pub mod inventory;
pub mod commands;
