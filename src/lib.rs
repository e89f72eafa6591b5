//! A minesweeper board engine: mine placement, neighbour counts, flood-fill
//! reveal, flag toggling and win/loss evaluation, all verified.

pub mod cell;
pub mod game;
pub mod grid;
pub mod laws;
pub mod placement;
mod random;
