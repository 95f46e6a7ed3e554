//! Puzzle-resolution kernel for a grid-based sliding-block game.
//!
//! The kernel owns a tile grid, a sparse occupancy of movable "things"
//! (a player, boxes, at most one chest) and the player's move history.
//! A single entry point, `move_player`, resolves a push chain, commits it
//! atomically, lets things fall through `Void` tiles, and recomputes the
//! shadow bitmap that marks tiles enclosed by loops in the player's trace.

pub mod table;

pub mod kernel;

pub mod entity;

pub mod walkers;

pub mod tiles;

pub mod logic;

pub mod shadow;
