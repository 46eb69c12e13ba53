//! The grid as a mathematical object, and the scan of the neighbours.

use vstd::prelude::*;

use crate::cell::{Cell, CellValue};
use crate::error::MinesError;

verus! {

/// The grid that a vector of columns stands for: `grid[x][y]` is the item in
/// column `x` at height `y`.
pub open spec fn grid_view<T>(cells: Vec<Vec<T>>) -> Seq<Seq<T>> {
    Seq::new(cells@.len(), |x: int| cells@[x]@)
}

/// Whether `(x, y)` names a position of the grid.
pub open spec fn in_bounds<T>(grid: Seq<Seq<T>>, x: int, y: int) -> bool {
    0 <= x < grid.len() && 0 <= y < grid[x].len()
}

/// Whether `(nx, ny)` is one of the eight positions around `(x, y)`.
pub open spec fn adjacent(x: int, y: int, nx: int, ny: int) -> bool {
    &&& x - 1 <= nx <= x + 1
    &&& y - 1 <= ny <= y + 1
    &&& (nx != x || ny != y)
}

/// Whether `(nx, ny)` is a neighbour of `(x, y)` on the grid: one of the
/// eight positions around it that lies within bounds.
pub open spec fn is_neighbour(grid: Seq<Seq<Cell>>, x: int, y: int, nx: int, ny: int) -> bool {
    adjacent(x, y, nx, ny) && in_bounds(grid, nx, ny)
}

/// What a scan of the neighbours looks for.
#[derive(Debug, Clone, Copy, PartialEq, Eq, Structural)]
pub enum Probe {
    /// Cells that hold a mine.
    Mines,
    /// Cells that carry a flag.
    Flags,
}

impl Probe {
    /// Whether the probe counts `cell`.
    pub open spec fn marks(self, cell: Cell) -> bool {
        match self {
            Probe::Mines => cell.value == CellValue::Mine,
            Probe::Flags => cell.flagged,
        }
    }

    /// Whether the probe counts `cell`.
    pub fn matches(&self, cell: &Cell) -> (found: bool)
        ensures
            found == self.marks(*cell),
    {
        match self {
            Probe::Mines => cell.value == CellValue::Mine,
            Probe::Flags => cell.flagged,
        }
    }
}

/// 1 if `(x, y)` is a cell of the grid that the probe counts, else 0.
pub open spec fn hit(grid: Seq<Seq<Cell>>, x: int, y: int, probe: Probe) -> int {
    if in_bounds(grid, x, y) && probe.marks(grid[x][y]) {
        1
    } else {
        0
    }
}

/// The number of neighbours of `(x, y)` that the probe counts. Positions
/// outside the grid count nothing, so a corner has three neighbours and an
/// edge five.
pub open spec fn count_around(grid: Seq<Seq<Cell>>, x: int, y: int, probe: Probe) -> int {
    hit(grid, x - 1, y - 1, probe) + hit(grid, x - 1, y, probe) + hit(grid, x - 1, y + 1, probe)
        + hit(grid, x, y - 1, probe) + hit(grid, x, y + 1, probe)
        + hit(grid, x + 1, y - 1, probe) + hit(grid, x + 1, y, probe) + hit(grid, x + 1, y + 1, probe)
}

/// The number of mines among the neighbours of `(x, y)`.
pub open spec fn neighbour_mines(grid: Seq<Seq<Cell>>, x: int, y: int) -> int {
    count_around(grid, x, y, Probe::Mines)
}

/// The number of flags among the neighbours of `(x, y)`.
pub open spec fn neighbour_flags(grid: Seq<Seq<Cell>>, x: int, y: int) -> int {
    count_around(grid, x, y, Probe::Flags)
}

/// The hits in column `cx` of the block around `(x, y)` at heights below `ny`.
spec fn column_hits_below(grid: Seq<Seq<Cell>>, x: int, y: int, probe: Probe, cx: int, ny: int) -> int {
    (if ny > y - 1 { hit(grid, cx, y - 1, probe) } else { 0 })
        + (if ny > y && cx != x { hit(grid, cx, y, probe) } else { 0 })
        + (if ny > y + 1 { hit(grid, cx, y + 1, probe) } else { 0 })
}

/// The hits in the columns left of `nx` of the block around `(x, y)`.
spec fn hits_left_of(grid: Seq<Seq<Cell>>, x: int, y: int, probe: Probe, nx: int) -> int {
    (if nx > x - 1 { column_hits_below(grid, x, y, probe, x - 1, y + 2) } else { 0 })
        + (if nx > x { column_hits_below(grid, x, y, probe, x, y + 2) } else { 0 })
        + (if nx > x + 1 { column_hits_below(grid, x, y, probe, x + 1, y + 2) } else { 0 })
}

/// The coordinate before `c`, or `c` itself at the lower edge: where a scan
/// of the neighbours starts.
pub fn min_coord(c: usize) -> (lowest: usize)
    ensures
        lowest == if c > 0 { c - 1 } else { 0 },
{
    if c > 0 {
        c - 1
    } else {
        c
    }
}

/// The item at `(x, y)` of a vector of columns, or `OutOfBounds(x, y)` when
/// there is none.
pub fn get_2d<T>(vec: &Vec<Vec<T>>, x: u16, y: u16) -> (result: Result<&T, MinesError>)
    ensures
        match result {
            Ok(item) => x < vec@.len() && y < vec@[x as int]@.len() && *item == vec@[x as int]@[y as int],
            Err(e) => e == MinesError::OutOfBounds(x, y) && !(x < vec@.len() && y < vec@[x as int]@.len()),
        },
{
    if let Some(col) = vec.get(x as usize) {
        if let Some(item) = col.get(y as usize) {
            return Ok(item);
        }
    }
    Err(MinesError::OutOfBounds(x, y))
}

/// The item at `(x, y)` of a vector of columns, to be changed in place, or
/// `OutOfBounds(x, y)` when there is none. Nothing but that item can change.
pub fn get_2d_mut<T>(vec: &mut Vec<Vec<T>>, x: u16, y: u16) -> (result: Result<&mut T, MinesError>)
    ensures
        match result {
            Ok(item) => {
                &&& x < old(vec)@.len()
                &&& y < old(vec)@[x as int]@.len()
                &&& *item == old(vec)@[x as int]@[y as int]
                &&& final(vec)@.len() == old(vec)@.len()
                &&& final(vec)@[x as int]@ == old(vec)@[x as int]@.update(y as int, *final(item))
                &&& forall|i: int| 0 <= i < old(vec)@.len() && i != x ==> final(vec)@[i] == old(vec)@[i]
            },
            Err(e) => {
                &&& e == MinesError::OutOfBounds(x, y)
                &&& !(x < old(vec)@.len() && y < old(vec)@[x as int]@.len())
                &&& *final(vec) == *old(vec)
            },
        },
{
    if (x as usize) < vec.len() {
        if (y as usize) < vec[x as usize].len() {
            return Ok(&mut vec[x as usize][y as usize]);
        }
    }
    Err(MinesError::OutOfBounds(x, y))
}

/// Scans the neighbours of `(x, y)` and counts those that the probe marks.
/// The scan starts one before each coordinate, clamped at 0, and stops where
/// the grid ends; the position `(x, y)` itself is passed over.
pub fn do_with_neighbours(cells: &Vec<Vec<Cell>>, x: usize, y: usize, probe: Probe) -> (count: u8)
    ensures
        count == count_around(grid_view(*cells), x as int, y as int, probe),
{
    let ghost grid = grid_view(*cells);
    let mut count: u8 = 0;
    let mut nx: usize = min_coord(x);
    while nx < cells.len() && (nx <= x || nx - x <= 1)
        invariant
            grid == grid_view(*cells),
            x - 1 <= nx <= x + 2,
            count == hits_left_of(grid, x as int, y as int, probe, nx as int),
        decreases x + 2 - nx,
    {
        let col = &cells[nx];
        let mut ny: usize = min_coord(y);
        while ny < col.len() && (ny <= y || ny - y <= 1)
            invariant
                grid == grid_view(*cells),
                nx < cells.len(),
                col == cells[nx as int],
                x - 1 <= nx <= x + 1,
                y - 1 <= ny <= y + 2,
                count == hits_left_of(grid, x as int, y as int, probe, nx as int)
                    + column_hits_below(grid, x as int, y as int, probe, nx as int, ny as int),
            decreases y + 2 - ny,
        {
            if !(nx == x && ny == y) && probe.matches(&col[ny]) {
                count += 1;
            }
            ny += 1;
        }
        nx += 1;
    }
    count
}

/// The number of mines around `(x, y)`.
///
/// Fails with `EmptyField` on a grid without columns and with
/// `OutOfBounds(x, y)` when there is no column `x`. The height `y` is not
/// checked: for a position beside the grid the mines that touch it are
/// counted.
pub fn count_neighbours(cells: &Vec<Vec<Cell>>, x: u16, y: u16) -> (result: Result<u8, MinesError>)
    ensures
        match result {
            Ok(count) => x < cells@.len() && count == neighbour_mines(grid_view(*cells), x as int, y as int),
            Err(e) => if cells@.len() == 0 {
                e == MinesError::EmptyField
            } else {
                x >= cells@.len() && e == MinesError::OutOfBounds(x, y)
            },
        },
{
    if cells.len() == 0 {
        return Err(MinesError::EmptyField);
    }
    if x as usize >= cells.len() {
        return Err(MinesError::OutOfBounds(x, y));
    }
    Ok(do_with_neighbours(cells, x as usize, y as usize, Probe::Mines))
}

} // verus!
