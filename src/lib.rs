//! Client-side runtime for a turn-based game on a toroidal grid.

pub mod board;
pub mod engine;
pub mod game;
pub mod recv;
pub mod send;
pub mod turn;
