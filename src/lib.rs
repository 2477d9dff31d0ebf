//! A perfect solver for the board game Connect 4.
//!
//! The solver searches the game tree exactly, with a bit-packed board, a
//! transposition table and an optional opening book.
use vstd::prelude::*;

pub mod arrayboard;
pub mod bits;
pub mod bitboard;
pub mod transposition_table;
pub mod opening_database;
pub mod solver;

verus! {

/// The width of the game board in tiles.
pub const WIDTH: usize = 7;

/// The height of the game board in tiles.
pub const HEIGHT: usize = 6;

/// The board, with one guard bit above each column, fits in the bits of a `u64`.
pub proof fn lemma_board_fits_in_word()
    ensures
        WIDTH * (HEIGHT + 1) < 64,
{
}

} // verus!
