//! Core engine of a tile-based mine-clearing puzzle: a generic 2D grid,
//! the tile and board model, and the game state machine (seeded random mine
//! placement, flood-clear reveal, flagging with a bounded budget, win/loss
//! detection, restart).
pub mod board;
pub mod game;
pub mod grid;
pub mod play;
mod rng;
