//! Flow-field navigation for a tile-based chase game: a cost field that grows
//! outwards from the player's tile a few steps per frame, the flow directions
//! read off it, the wall outlines traced from the tile grid, and the spawners
//! that release pursuers.
//!
//! Places are held in fixed-point coordinates, thousandths of a unit or of
//! a tile, and times in nanoseconds, so that every result is exact.

pub mod point;
pub mod segment;
pub mod direction;
pub mod grid;
pub mod frontier;
pub mod flowfield;
pub mod flow;
pub mod paths;
pub mod reach;
pub mod open;
pub mod registry;
pub mod boundary;
pub mod loops;
pub mod balance;
pub mod outline;
pub mod tilemap;
pub mod timer;
pub mod spawner;
pub mod config;
