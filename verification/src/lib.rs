use vstd::prelude::*;

pub mod board;
pub mod counting;
pub mod game;

verus! {

/// One grid position of a minesweeper board.
///
/// `adjacent_mines` is meaningful only for non-mine cells; it is filled in by
/// `Board::update_adjacent_mines` after the mines have been placed.
#[derive(Clone, Copy, Debug, PartialEq, Eq, Structural)]
pub struct Cell {
    pub is_mine: bool,
    pub is_revealed: bool,
    pub is_flagged: bool,
    pub adjacent_mines: u8,
}

/// A blank cell: no mine, hidden, unflagged, zero adjacency count.
pub open spec fn blank_cell() -> Cell {
    Cell { is_mine: false, is_revealed: false, is_flagged: false, adjacent_mines: 0 }
}

} // verus!
