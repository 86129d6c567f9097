//! A 9x9 sudoku solver: an incrementally maintained bitmask board state, a
//! minimum-remaining-values decision selector and a backtracking search.
//!
//! `grid` models the board as a sequence of 81 cell values; `state` models
//! the masks and proves their toggles sound; `game` holds the executable
//! board state and the selectors; `evaluater` runs the search.
pub mod bits;
pub mod evaluater;
pub mod game;
pub mod grid;
pub mod state;

pub use evaluater::{eval, eval_counted, eval_first_free};
pub use game::{Game, ParseGameError, ShowKinds};
