//! Rule engine of a two-player territory game on a bounded grid.
//!
//! Cells are claimed (crossed out), captured (filled) and released again;
//! per-player activation counters decide which cells a player can reach.
use vstd::prelude::*;

pub mod cell;
pub mod board;
pub mod game;

verus! {

} // verus!
