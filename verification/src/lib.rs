//! Collects everything a GoldSrc map refers to and packs it for distribution.

pub mod archive;
pub mod bsp;
pub mod clock;
pub mod collect;
pub mod details;
pub mod entities;
pub mod laws;
pub mod list;
pub mod models;
pub mod pack;
pub mod pack_map;
pub mod paths;
pub mod plan;
pub mod references;
pub mod server;
pub mod table;
pub mod text;
pub mod world;
