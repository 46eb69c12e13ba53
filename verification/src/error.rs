//! The errors of the library.

use vstd::prelude::*;

verus! {

/// Everything that can go wrong while a board is generated or played.
#[derive(Debug, Clone, Copy, PartialEq, Eq, Structural)]
pub enum MinesError {
    /// A mine was revealed: the game is lost. The board stays valid, with the
    /// mine marked as opened.
    MineOpened,
    /// The coordinate lies outside the grid.
    OutOfBounds(u16, u16),
    /// Mines were to be counted on a grid without columns.
    EmptyField,
    /// Both dimensions of the requested board are below 8.
    FieldTooSmall(u16, u16),
    /// More than a tenth of the requested board would be mined.
    TooManyMines,
}

} // verus!
