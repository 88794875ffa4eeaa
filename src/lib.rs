//! Solving, checking and repairing 9x9 Sudoku boards.
use vstd::prelude::*;

pub mod board;
mod digit_set;
pub mod digits;
pub mod fields;
pub mod filledboard;
pub mod naive;
pub mod positions;
pub mod records;
pub mod smart;
pub mod swap;
pub mod swap_laws;
pub mod text;

verus! {

} // verus!
