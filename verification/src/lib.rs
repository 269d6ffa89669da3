//! Conway's Game of Life on a fixed-size toroidal grid, with history-based
//! cycle detection and rewinding to replay a discovered loop.

pub mod game;
pub mod grid;
