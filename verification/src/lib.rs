//! A 9x9 sudoku solver that fills cells by inference alone, without guessing:
//! a cell whose row, column and block leave it one candidate gets that digit,
//! and a digit that only one empty cell of a row, a column or a block can still
//! take goes there.
//!
//! - `misset`: sets of missing digits, one per row, column or block.
//! - `board`: the grid and the numbering of its blocks.
//! - `rules`: what the inferences are, and why each digit they write is right.
//! - `trace`: the run of the solver, step by step, in mathematical terms.
//! - `solver`: the solver itself and what it reports.
//! - `text`: the board as text, with candidates.
//! - `input`: reading a puzzle from the bytes of a CSV file.
use vstd::prelude::*;

pub mod board;
pub mod input;
pub mod misset;
pub mod rules;
pub mod solver;
pub mod text;
pub mod trace;

pub use board::{block_from_rc, rc_from_block, Grid, UNKNOWN};
pub use input::{cell_from_text, grid_from_csv, record_row, record_tokens, row_from_tokens, ParsedGrid};
pub use misset::{HoodMisSet, HoodMisSetOps, MisSet, MisSetOps};
pub use rules::CellUpdate;
pub use solver::{board_from_grid, grid_from_board, solve, Board, SolveEvent, Solved};
pub use text::{notes_grid_text, u8_string};

verus! {

} // verus!
