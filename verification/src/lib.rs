//! A 9x9 constraint-satisfaction puzzle solver.
//!
//! The grid is a flat sequence of 81 digit cells (0 = empty, 1-9 = filled).
//! The library offers a global consistency check, a one-shot recursive
//! solver, and an incremental backtracker whose search trail is explicit
//! state, so a caller can advance the search one micro-step at a time.

pub mod cell;
pub mod sudoku;
