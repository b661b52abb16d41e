//! Core of a tile-based dungeon game: procedural level generation onto a
//! sparse tile map, and fixed-point collision resolution of moving entities
//! against that map.

pub mod gameplay;
pub mod geom;
pub mod level_generation;
pub mod physics;
pub mod random;
pub mod sound;
pub mod world_generation;
pub mod world_map;
