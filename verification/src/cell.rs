//! A single cell and the two things that happen to it.

use vstd::prelude::*;

use crate::error::MinesError;

verus! {

/// What lies under a cell.
#[derive(Debug, Clone, Copy, PartialEq, Eq, Structural)]
pub enum CellValue {
    Mine,
    Water,
}

/// One position of the grid.
///
/// Under `open` and `toggle_flag`, `opened` only ever goes from `false` to
/// `true`, and only while the cell is not flagged; `flagged` only changes
/// while the cell is not opened.
#[derive(Debug, Clone, Copy, PartialEq, Eq, Structural)]
pub struct Cell {
    pub value: CellValue,
    pub opened: bool,
    pub flagged: bool,
}

impl Cell {
    /// The cell as it is after a reveal: a flag protects it, otherwise it is
    /// opened; nothing else changes.
    pub open spec fn revealed(self) -> Cell {
        Cell { opened: self.opened || !self.flagged, ..self }
    }

    /// The cell as it is after a flag toggle: an opened cell stays as it is,
    /// a concealed one has its flag flipped.
    pub open spec fn toggled(self) -> Cell {
        Cell { flagged: if self.opened { self.flagged } else { !self.flagged }, ..self }
    }

    /// A concealed, unflagged mine.
    pub fn mine() -> (cell: Cell)
        ensures
            cell == (Cell { value: CellValue::Mine, opened: false, flagged: false }),
    {
        Cell { value: CellValue::Mine, opened: false, flagged: false }
    }

    /// A concealed, unflagged cell without a mine.
    pub fn water() -> (cell: Cell)
        ensures
            cell == (Cell { value: CellValue::Water, opened: false, flagged: false }),
    {
        Cell { value: CellValue::Water, opened: false, flagged: false }
    }

    /// Reveals the cell unless it is flagged. Fails with `MineOpened` exactly
    /// when an unflagged mine is revealed; the cell is opened even then.
    pub fn open(&mut self) -> (result: Result<(), MinesError>)
        ensures
            *final(self) == old(self).revealed(),
            result == if !old(self).flagged && old(self).value == CellValue::Mine {
                Err::<(), MinesError>(MinesError::MineOpened)
            } else {
                Ok::<(), MinesError>(())
            },
    {
        if !self.flagged {
            self.opened = true;
            match self.value {
                CellValue::Mine => Err(MinesError::MineOpened),
                CellValue::Water => Ok(()),
            }
        } else {
            Ok(())
        }
    }

    /// Flips the flag of a concealed cell; does nothing to an opened one.
    pub fn toggle_flag(&mut self)
        ensures
            *final(self) == old(self).toggled(),
    {
        if !self.opened {
            self.flagged = !self.flagged;
        }
    }
}

} // verus!
