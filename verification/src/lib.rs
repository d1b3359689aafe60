//! Decision engine for a 2048-style sliding-tile game: a 4x4 grid of
//! power-of-two tiles, directional swipe moves that slide and merge tiles,
//! random tile spawning, and a Monte Carlo move evaluator that ranks the
//! four candidate directions by random-playout scores.

pub mod model;
mod board;
pub mod laws;
mod rng;
mod search;

pub use board::Board;
pub use model::Dir;
