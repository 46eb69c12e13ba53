//! What the player is shown of a cell.

use vstd::prelude::*;

use crate::cell::{Cell, CellValue};

verus! {

/// What the player sees of a cell.
#[derive(Debug, Clone, Copy, PartialEq, Eq, Structural)]
pub enum Face {
    /// A flag; it hides whatever is beneath.
    Flagged,
    /// A cell that is neither flagged nor opened.
    Concealed,
    /// An opened mine.
    Mine,
    /// An opened cell without a mine, with the number of mines around it.
    Number(u8),
}

/// The colours in which the numbers of an opened board are shown.
#[derive(Debug, Clone, Copy, PartialEq, Eq, Structural)]
pub enum Tint {
    Blue,
    BrightGreen,
    Green,
    Yellow,
    BrightRed,
    Red,
    Magenta,
}

/// What a cell shows, given the number of mines around it: a flag before
/// anything else, then whether it is concealed, then what it holds.
pub open spec fn face_of(cell: Cell, mines_around: int) -> Face {
    if cell.flagged {
        Face::Flagged
    } else if !cell.opened {
        Face::Concealed
    } else if cell.value == CellValue::Mine {
        Face::Mine
    } else {
        Face::Number(mines_around as u8)
    }
}

/// The colour of a number: the more mines, the warmer, and one colour for
/// all numbers from 6 on.
pub open spec fn tint_of(num: u8) -> Tint {
    if num == 0 {
        Tint::Blue
    } else if num == 1 {
        Tint::BrightGreen
    } else if num == 2 {
        Tint::Green
    } else if num == 3 {
        Tint::Yellow
    } else if num == 4 {
        Tint::BrightRed
    } else if num == 5 {
        Tint::Red
    } else {
        Tint::Magenta
    }
}

/// The colour in which the number `num` is shown.
pub fn color_number(num: u8) -> (tint: Tint)
    ensures
        tint == tint_of(num),
{
    match num {
        0 => Tint::Blue,
        1 => Tint::BrightGreen,
        2 => Tint::Green,
        3 => Tint::Yellow,
        4 => Tint::BrightRed,
        5 => Tint::Red,
        _ => Tint::Magenta,
    }
}

} // verus!
