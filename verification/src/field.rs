//! The board and what the player can do on it.

use rand::rngs::ThreadRng;
use vstd::prelude::*;

use crate::cascade::{chord_at, reveal_at};
use crate::cell::{Cell, CellValue};
use crate::error::MinesError;
use crate::generate::{generate_cells, generation_error, is_fresh, mines_of};
use crate::grid::{do_with_neighbours, get_2d, get_2d_mut, grid_view, in_bounds, neighbour_mines, Probe};
use crate::input::Action;
use crate::reach::{after_chord, after_reveal, chord_applies, counts_match, mine_in_reach, openable};
use crate::render::{face_of, Face};

verus! {

/// The grid after the flag at `(x, y)` was toggled: the cell there is
/// toggled, and nothing changes where there is no such cell.
pub open spec fn after_flag(grid: Seq<Seq<Cell>>, x: int, y: int) -> Seq<Seq<Cell>> {
    if in_bounds(grid, x, y) {
        grid.update(x, grid[x].update(y, grid[x][y].toggled()))
    } else {
        grid
    }
}

/// The grid after a reveal of `(x, y)`: every cell that the reveal reaches
/// from there is opened; nothing changes where there is no such cell.
pub open spec fn after_open(grid: Seq<Seq<Cell>>, x: int, y: int) -> Seq<Seq<Cell>> {
    if in_bounds(grid, x, y) {
        after_reveal(grid, set![(x, y)])
    } else {
        grid
    }
}

/// What a reveal of `(x, y)` returns: `OutOfBounds` where there is no such
/// cell, `MineOpened` where the cell is a mine that the reveal opens.
pub open spec fn open_result(grid: Seq<Seq<Cell>>, x: u16, y: u16) -> Result<(), MinesError> {
    if !in_bounds(grid, x as int, y as int) {
        Err(MinesError::OutOfBounds(x, y))
    } else if openable(grid, x as int, y as int) && grid[x as int][y as int].value == CellValue::Mine {
        Err(MinesError::MineOpened)
    } else {
        Ok(())
    }
}

/// What a chord on `(x, y)` returns: `OutOfBounds` where there is no such
/// cell, `MineOpened` where the chord applies and opens a mine.
pub open spec fn chord_result(grid: Seq<Seq<Cell>>, x: u16, y: u16) -> Result<(), MinesError> {
    if !in_bounds(grid, x as int, y as int) {
        Err(MinesError::OutOfBounds(x, y))
    } else if chord_applies(grid, x as int, y as int) && mine_in_reach(grid, x as int, y as int) {
        Err(MinesError::MineOpened)
    } else {
        Ok(())
    }
}

/// What a toggle of the flag at `(x, y)` returns: `OutOfBounds` where there
/// is no such cell.
pub open spec fn flag_result(grid: Seq<Seq<Cell>>, x: u16, y: u16) -> Result<(), MinesError> {
    if in_bounds(grid, x as int, y as int) {
        Ok(())
    } else {
        Err(MinesError::OutOfBounds(x, y))
    }
}

/// The grid after the action.
pub open spec fn after_action(grid: Seq<Seq<Cell>>, action: Action) -> Seq<Seq<Cell>> {
    match action {
        Action::Reveal(x, y) => after_open(grid, x as int, y as int),
        Action::Flag(x, y) => after_flag(grid, x as int, y as int),
        Action::Chord(x, y) => after_chord(grid, x as int, y as int),
    }
}

/// What the action returns.
pub open spec fn action_result(grid: Seq<Seq<Cell>>, action: Action) -> Result<(), MinesError> {
    match action {
        Action::Reveal(x, y) => open_result(grid, x, y),
        Action::Flag(x, y) => flag_result(grid, x, y),
        Action::Chord(x, y) => chord_result(grid, x, y),
    }
}

/// Whether the game is won: every cell without a mine is opened. Flags, and
/// whether a mine is opened, play no part.
pub open spec fn all_clear(grid: Seq<Seq<Cell>>) -> bool {
    forall|x: int, y: int| #[trigger]
        in_bounds(grid, x, y) && grid[x][y].value == CellValue::Water ==> grid[x][y].opened
}

/// A board: the grid of cells, and for each cell the number of mines around
/// it, counted once when the board is made.
pub struct Field {
    cells: Vec<Vec<Cell>>,
    numbers: Vec<Vec<u8>>,
}

impl View for Field {
    type V = Seq<Seq<Cell>>;

    /// The grid of cells: `self@[x][y]` is the cell in column `x` at height `y`.
    closed spec fn view(&self) -> Seq<Seq<Cell>> {
        grid_view(self.cells)
    }
}

impl Field {
    /// The stored numbers are the counts of mines around each cell.
    #[verifier::type_invariant]
    spec fn counted(self) -> bool {
        counts_match(grid_view(self.cells), grid_view(self.numbers))
    }

    /// The board of the given cells, which stay as they are. The number of
    /// mines around each cell is counted here and never again. The columns
    /// need not be of one length. Where the grid is wider or higher than a
    /// `u16` counts, the cells beyond are part of the board, though no
    /// coordinate names them.
    pub fn with_cells(cells: Vec<Vec<Cell>>) -> (field: Field)
        ensures
            field@ == grid_view(cells),
    {
        let ghost grid = grid_view(cells);
        let mut numbers: Vec<Vec<u8>> = Vec::new();
        let mut x: usize = 0;
        while x < cells.len()
            invariant
                grid == grid_view(cells),
                x <= cells.len(),
                numbers@.len() == x,
                forall|i: int| 0 <= i < x ==> (#[trigger] numbers@[i])@.len() == grid[i].len(),
                forall|i: int, j: int|
                    0 <= i < x && 0 <= j < grid[i].len() ==> (#[trigger] numbers@[i]@[j]) == neighbour_mines(
                        grid,
                        i,
                        j,
                    ),
            decreases cells.len() - x,
        {
            let mut col: Vec<u8> = Vec::new();
            let mut y: usize = 0;
            while y < cells[x].len()
                invariant
                    grid == grid_view(cells),
                    x < cells.len(),
                    y <= cells[x as int].len(),
                    col@.len() == y,
                    forall|j: int| 0 <= j < y ==> (#[trigger] col@[j]) == neighbour_mines(grid, x as int, j),
                decreases cells[x as int].len() - y,
            {
                col.push(do_with_neighbours(&cells, x, y, Probe::Mines));
                y += 1;
            }
            numbers.push(col);
            x += 1;
        }
        assert(counts_match(grid, grid_view(numbers)));
        Field { cells, numbers }
    }

    /// A board of `width` columns and `height` rows with `mines` mines at
    /// random positions, all cells concealed and unflagged. Fails as
    /// `generation_error` says.
    pub fn generate(rng: &mut ThreadRng, width: u16, height: u16, mines: u16) -> (result: Result<
        Field,
        MinesError,
    >)
        ensures
            match result {
                Ok(field) => {
                    &&& generation_error(width, height, mines) is None
                    &&& is_fresh(field@, width, height)
                    &&& mines_of(field@).finite()
                    &&& mines_of(field@).len() == mines
                },
                Err(e) => generation_error(width, height, mines) == Some(e),
            },
    {
        match generate_cells(rng, width, height, mines) {
            Err(e) => Err(e),
            Ok(cells) => Ok(Field::with_cells(cells)),
        }
    }

    /// Takes the cells and the numbers out and leaves an empty board behind,
    /// so that the board is whole at every moment while the cells are worked
    /// on. The caller puts them back.
    fn take_apart(&mut self) -> (parts: (Vec<Vec<Cell>>, Vec<Vec<u8>>))
        ensures
            grid_view(parts.0) == old(self)@,
            counts_match(grid_view(parts.0), grid_view(parts.1)),
    {
        let mut taken = Field { cells: Vec::new(), numbers: Vec::new() };
        std::mem::swap(self, &mut taken);
        proof {
            use_type_invariant(&taken);
        }
        let Field { cells, numbers } = taken;
        (cells, numbers)
    }

    /// The cells, column by column.
    pub fn cells(&self) -> (cells: &Vec<Vec<Cell>>)
        ensures
            grid_view(*cells) == self@,
    {
        &self.cells
    }

    /// For each cell the number of mines among its neighbours, laid out as
    /// the cells are.
    pub fn numbers(&self) -> (numbers: &Vec<Vec<u8>>)
        ensures
            counts_match(self@, grid_view(*numbers)),
    {
        proof {
            use_type_invariant(self);
        }
        &self.numbers
    }

    /// What the cell at `(x, y)` shows, or `OutOfBounds(x, y)` when there is
    /// no such cell.
    pub fn face(&self, x: u16, y: u16) -> (result: Result<Face, MinesError>)
        ensures
            result == if in_bounds(self@, x as int, y as int) {
                Ok::<Face, MinesError>(
                    face_of(self@[x as int][y as int], neighbour_mines(self@, x as int, y as int)),
                )
            } else {
                Err::<Face, MinesError>(MinesError::OutOfBounds(x, y))
            },
    {
        proof {
            use_type_invariant(self);
        }
        match get_2d(&self.cells, x, y) {
            Err(e) => Err(e),
            Ok(cell) => {
                assert(in_bounds(self@, x as int, y as int));
                if cell.flagged {
                    Ok(Face::Flagged)
                } else if !cell.opened {
                    Ok(Face::Concealed)
                } else {
                    match cell.value {
                        CellValue::Mine => Ok(Face::Mine),
                        CellValue::Water => Ok(Face::Number(self.numbers[x as usize][y as usize])),
                    }
                }
            },
        }
    }

    /// Toggles the flag of the cell at `(x, y)`. An opened cell stays as it
    /// is. Fails with `OutOfBounds(x, y)` when there is no such cell.
    pub fn flag(&mut self, x: u16, y: u16) -> (result: Result<(), MinesError>)
        ensures
            final(self)@ == after_flag(old(self)@, x as int, y as int),
            result == flag_result(old(self)@, x, y),
    {
        let (mut cells, numbers) = self.take_apart();
        let result = toggle_at(&mut cells, &numbers, x, y);
        *self = Field { cells, numbers };
        result
    }

    /// Reveals the cell at `(x, y)`.
    ///
    /// A cell that is opened or flagged stays as it is. Any other cell is
    /// opened; if it holds no mine and no mine lies around it, its neighbours
    /// are revealed in the same way, and so on. Fails with `OutOfBounds(x, y)`
    /// when there is no such cell, and with `MineOpened` when the cell is a
    /// mine that this call opened.
    pub fn open(&mut self, x: u16, y: u16) -> (result: Result<(), MinesError>)
        ensures
            final(self)@ == after_open(old(self)@, x as int, y as int),
            result == open_result(old(self)@, x, y),
    {
        if let Err(e) = get_2d(&self.cells, x, y) {
            return Err(e);
        }
        let (mut cells, numbers) = self.take_apart();
        let (lost, _) = reveal_at(&mut cells, &numbers, x as usize, y as usize);
        *self = Field { cells, numbers };
        if lost {
            Err(MinesError::MineOpened)
        } else {
            Ok(())
        }
    }

    /// Chords the cell at `(x, y)`.
    ///
    /// Where the cell is opened and as many flags as mines lie around it, all
    /// its neighbours are revealed; otherwise nothing changes. Fails with
    /// `OutOfBounds(x, y)` when there is no such cell, and with `MineOpened`
    /// when one of the neighbours was a mine that this call opened; the other
    /// neighbours are revealed even then.
    pub fn chord(&mut self, x: u16, y: u16) -> (result: Result<(), MinesError>)
        ensures
            final(self)@ == after_chord(old(self)@, x as int, y as int),
            result == chord_result(old(self)@, x, y),
    {
        if let Err(e) = get_2d(&self.cells, x, y) {
            return Err(e);
        }
        let (mut cells, numbers) = self.take_apart();
        let (lost, _) = chord_at(&mut cells, &numbers, x as usize, y as usize);
        *self = Field { cells, numbers };
        if lost {
            Err(MinesError::MineOpened)
        } else {
            Ok(())
        }
    }

    /// Does what the player asks: reveals, flags or chords the cell that
    /// the action names.
    pub fn apply(&mut self, action: Action) -> (result: Result<(), MinesError>)
        ensures
            final(self)@ == after_action(old(self)@, action),
            result == action_result(old(self)@, action),
    {
        match action {
            Action::Reveal(x, y) => self.open(x, y),
            Action::Flag(x, y) => self.flag(x, y),
            Action::Chord(x, y) => self.chord(x, y),
        }
    }

    /// Whether every cell without a mine is opened.
    pub fn is_won(&self) -> (won: bool)
        ensures
            won == all_clear(self@),
    {
        let ghost grid = self@;
        let mut x: usize = 0;
        while x < self.cells.len()
            invariant
                grid == grid_view(self.cells),
                x <= self.cells.len(),
                forall|i: int, j: int| #[trigger]
                    in_bounds(grid, i, j) && i < x && grid[i][j].value == CellValue::Water ==> grid[i][j].opened,
            decreases self.cells.len() - x,
        {
            let col = &self.cells[x];
            let mut y: usize = 0;
            while y < col.len()
                invariant
                    grid == grid_view(self.cells),
                    x < self.cells.len(),
                    col == self.cells[x as int],
                    y <= col.len(),
                    forall|i: int, j: int| #[trigger]
                        in_bounds(grid, i, j) && (i < x || (i == x && j < y)) && grid[i][j].value
                            == CellValue::Water ==> grid[i][j].opened,
                decreases col.len() - y,
            {
                let cell = &col[y];
                match cell.value {
                    CellValue::Water => {
                        if !cell.opened {
                            assert(in_bounds(grid, x as int, y as int));
                            return false;
                        }
                    },
                    CellValue::Mine => {},
                }
                y += 1;
            }
            x += 1;
        }
        true
    }
}

/// Toggles the flag of the cell at `(x, y)`, if there is such a cell.
fn toggle_at(cells: &mut Vec<Vec<Cell>>, numbers: &Vec<Vec<u8>>, x: u16, y: u16) -> (result: Result<
    (),
    MinesError,
>)
    requires
        counts_match(grid_view(*old(cells)), grid_view(*numbers)),
    ensures
        grid_view(*final(cells)) == after_flag(grid_view(*old(cells)), x as int, y as int),
        counts_match(grid_view(*final(cells)), grid_view(*numbers)),
        result == if in_bounds(grid_view(*old(cells)), x as int, y as int) {
            Ok::<(), MinesError>(())
        } else {
            Err::<(), MinesError>(MinesError::OutOfBounds(x, y))
        },
{
    let ghost grid = grid_view(*cells);
    match get_2d_mut(cells, x, y) {
        Err(e) => Err(e),
        Ok(cell) => {
            cell.toggle_flag();
            proof {
                let after = after_flag(grid, x as int, y as int);
                assert(grid_view(*cells) =~~= after);
                lemma_flag_keeps_counts(grid, x as int, y as int, grid_view(*numbers));
            }
            Ok(())
        },
    }
}

/// Toggling a flag leaves the counts of mines as they are.
proof fn lemma_flag_keeps_counts(grid: Seq<Seq<Cell>>, x: int, y: int, counts: Seq<Seq<u8>>)
    requires
        counts_match(grid, counts),
    ensures
        counts_match(after_flag(grid, x, y), counts),
{
    let after = after_flag(grid, x, y);
    if in_bounds(grid, x, y) {
        assert forall|i: int, j: int| #[trigger] in_bounds(after, i, j) implies counts[i][j] == neighbour_mines(
            after,
            i,
            j,
        ) by {
            assert(in_bounds(grid, i, j));
            assert(forall|a: int, b: int| #[trigger] in_bounds(after, a, b) <==> in_bounds(grid, a, b));
            assert(forall|a: int, b: int| #[trigger]
                in_bounds(grid, a, b) ==> after[a][b].value == grid[a][b].value);
        }
        assert forall|i: int| 0 <= i < after.len() implies (#[trigger] counts[i]).len() == after[i].len() by {}
    }
}

} // verus!
