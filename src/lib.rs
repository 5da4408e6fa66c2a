//! Procedural dungeon generation: rectangular rooms placed without overlap in a
//! tile grid, chained together by L-shaped corridors, and a small game state
//! (player, loot) that moves over the finished grid.
pub mod game;
pub mod input;
pub mod map;
mod random;
pub mod types;
