//! Which cells a reveal opens.

use vstd::prelude::*;

use crate::cell::{Cell, CellValue};
use crate::grid::{adjacent, hit, in_bounds, is_neighbour, neighbour_flags, neighbour_mines, Probe};

verus! {

/// Whether a reveal opens the cell at `(x, y)`: it lies on the grid and is
/// neither opened nor flagged.
pub open spec fn openable(grid: Seq<Seq<Cell>>, x: int, y: int) -> bool {
    in_bounds(grid, x, y) && !grid[x][y].opened && !grid[x][y].flagged
}

/// Whether a reveal of the cell at `(x, y)` goes on to its neighbours: the
/// cell is opened by the reveal, holds no mine and has no mine around it.
pub open spec fn spreads(grid: Seq<Seq<Cell>>, x: int, y: int) -> bool {
    &&& openable(grid, x, y)
    &&& grid[x][y].value == CellValue::Water
    &&& neighbour_mines(grid, x, y) == 0
}

/// A way that a cascade can take: each position but the last spreads, and
/// each next position is one of the eight around the one before.
pub open spec fn cascade_path(grid: Seq<Seq<Cell>>, path: Seq<(int, int)>) -> bool {
    &&& path.len() > 0
    &&& forall|i: int|
        0 <= i < path.len() - 1 ==> {
            &&& spreads(grid, (#[trigger] path[i]).0, path[i].1)
            &&& adjacent(path[i].0, path[i].1, path[i + 1].0, path[i + 1].1)
        }
}

/// Whether revealing the cells at `roots` opens the cell at `(x, y)`: the
/// cell can be opened, and a cascade path leads to it from one of the roots.
/// A root that can be opened is reached by the path that holds it alone.
pub open spec fn reveals(grid: Seq<Seq<Cell>>, roots: Set<(int, int)>, x: int, y: int) -> bool {
    &&& openable(grid, x, y)
    &&& exists|path: Seq<(int, int)>|
        #[trigger] cascade_path(grid, path) && roots.contains(path.first()) && path.last() == (x, y)
}

/// The grid after the cells at `roots` were revealed: every cell that the
/// reveal reaches is opened, and nothing else changes.
pub open spec fn after_reveal(grid: Seq<Seq<Cell>>, roots: Set<(int, int)>) -> Seq<Seq<Cell>> {
    Seq::new(
        grid.len(),
        |x: int|
            Seq::new(
                grid[x].len(),
                |y: int| Cell { opened: grid[x][y].opened || reveals(grid, roots, x, y), ..grid[x][y] },
            ),
    )
}

/// The neighbours of `(x, y)` on the grid, as a set of positions.
pub open spec fn neighbours_of(grid: Seq<Seq<Cell>>, x: int, y: int) -> Set<(int, int)> {
    Set::new(|n: (int, int)| is_neighbour(grid, x, y, n.0, n.1))
}

/// Whether a neighbour of `(x, y)` is a mine that a reveal would open.
pub open spec fn mine_in_reach(grid: Seq<Seq<Cell>>, x: int, y: int) -> bool {
    exists|nx: int, ny: int| #[trigger]
        is_neighbour(grid, x, y, nx, ny) && openable(grid, nx, ny) && grid[nx][ny].value
            == CellValue::Mine
}

/// Whether a chord on `(x, y)` does anything: the cell is opened, and as
/// many flags as mines lie around it.
pub open spec fn chord_applies(grid: Seq<Seq<Cell>>, x: int, y: int) -> bool {
    &&& in_bounds(grid, x, y)
    &&& grid[x][y].opened
    &&& neighbour_flags(grid, x, y) == neighbour_mines(grid, x, y)
}

/// The grid after a chord on `(x, y)`: where the chord applies, all
/// neighbours were revealed; where it does not, nothing has changed.
pub open spec fn after_chord(grid: Seq<Seq<Cell>>, x: int, y: int) -> Seq<Seq<Cell>> {
    if chord_applies(grid, x, y) {
        after_reveal(grid, neighbours_of(grid, x, y))
    } else {
        grid
    }
}

/// Whether `counts` holds, for every cell of the grid, the number of mines
/// around it.
pub open spec fn counts_match(grid: Seq<Seq<Cell>>, counts: Seq<Seq<u8>>) -> bool {
    &&& counts.len() == grid.len()
    &&& forall|x: int| 0 <= x < grid.len() ==> (#[trigger] counts[x]).len() == grid[x].len()
    &&& forall|x: int, y: int| #[trigger]
        in_bounds(grid, x, y) ==> counts[x][y] == neighbour_mines(grid, x, y)
}

/// Whether `later` is `earlier` with some more cells opened.
pub open spec fn grows(earlier: Seq<Seq<Cell>>, later: Seq<Seq<Cell>>) -> bool {
    &&& later.len() == earlier.len()
    &&& forall|x: int| 0 <= x < earlier.len() ==> (#[trigger] later[x]).len() == earlier[x].len()
    &&& forall|x: int, y: int| #[trigger]
        in_bounds(earlier, x, y) ==> {
            &&& later[x][y].value == earlier[x][y].value
            &&& later[x][y].flagged == earlier[x][y].flagged
            &&& earlier[x][y].opened ==> later[x][y].opened
        }
}

/// A root that can be opened is reached by the reveal.
pub proof fn lemma_reveal_root(grid: Seq<Seq<Cell>>, roots: Set<(int, int)>, x: int, y: int)
    requires
        roots.contains((x, y)),
        openable(grid, x, y),
    ensures
        reveals(grid, roots, x, y),
{
    let path = seq![(x, y)];
    assert(cascade_path(grid, path));
    assert(path.first() == (x, y));
    assert(path.last() == (x, y));
}

/// A cell that can be opened next to one that the reveal reaches and that
/// spreads is reached too.
pub proof fn lemma_reveal_spreads(
    grid: Seq<Seq<Cell>>,
    roots: Set<(int, int)>,
    x: int,
    y: int,
    nx: int,
    ny: int,
)
    requires
        reveals(grid, roots, x, y),
        spreads(grid, x, y),
        adjacent(x, y, nx, ny),
        openable(grid, nx, ny),
    ensures
        reveals(grid, roots, nx, ny),
{
    let path = choose|path: Seq<(int, int)>|
        #[trigger] cascade_path(grid, path) && roots.contains(path.first()) && path.last() == (x, y);
    let longer = path.push((nx, ny));
    assert forall|i: int| 0 <= i < longer.len() - 1 implies {
        &&& spreads(grid, (#[trigger] longer[i]).0, longer[i].1)
        &&& adjacent(longer[i].0, longer[i].1, longer[i + 1].0, longer[i + 1].1)
    } by {
        if i < path.len() - 1 {
            assert(longer[i] == path[i]);
            assert(longer[i + 1] == path[i + 1]);
        } else {
            assert(longer[i] == (x, y));
            assert(longer[i + 1] == (nx, ny));
        }
    }
    assert(cascade_path(grid, longer));
    assert(longer.first() == path.first());
    assert(longer.last() == (nx, ny));
}

/// A reveal reaches a cell only if it can open one of its roots.
pub proof fn lemma_reveal_needs_root(grid: Seq<Seq<Cell>>, roots: Set<(int, int)>, x: int, y: int)
    requires
        reveals(grid, roots, x, y),
    ensures
        exists|r: (int, int)| #[trigger] roots.contains(r) && openable(grid, r.0, r.1),
{
    let path = choose|path: Seq<(int, int)>|
        #[trigger] cascade_path(grid, path) && roots.contains(path.first()) && path.last() == (x, y);
    let r = path.first();
    if path.len() > 1 {
        assert(spreads(grid, path[0].0, path[0].1));
    }
    assert(roots.contains(r) && openable(grid, r.0, r.1));
}

/// A reveal reaches a cell that is no root only from a neighbour that it
/// reaches too and that spreads.
pub proof fn lemma_reveal_comes_from(grid: Seq<Seq<Cell>>, roots: Set<(int, int)>, x: int, y: int)
    requires
        reveals(grid, roots, x, y),
        !roots.contains((x, y)),
    ensures
        exists|cx: int, cy: int| #[trigger]
            is_neighbour(grid, x, y, cx, cy) && spreads(grid, cx, cy) && reveals(grid, roots, cx, cy),
{
    let path = choose|path: Seq<(int, int)>|
        #[trigger] cascade_path(grid, path) && roots.contains(path.first()) && path.last() == (x, y);
    assert(path.len() > 1);
    let shorter = path.drop_last();
    let from = shorter.last();
    assert(from == path[path.len() - 2]);
    assert(spreads(grid, from.0, from.1));
    assert(adjacent(from.0, from.1, x, y));
    assert forall|i: int| 0 <= i < shorter.len() - 1 implies {
        &&& spreads(grid, (#[trigger] shorter[i]).0, shorter[i].1)
        &&& adjacent(shorter[i].0, shorter[i].1, shorter[i + 1].0, shorter[i + 1].1)
    } by {
        assert(shorter[i] == path[i]);
        assert(shorter[i + 1] == path[i + 1]);
    }
    assert(cascade_path(grid, shorter));
    assert(shorter.first() == path.first());
    assert(reveals(grid, roots, from.0, from.1));
    assert(is_neighbour(grid, x, y, from.0, from.1));
}

/// No mine lies next to a cell whose count of mines is 0.
pub proof fn lemma_no_mine_around(grid: Seq<Seq<Cell>>, x: int, y: int, nx: int, ny: int)
    requires
        neighbour_mines(grid, x, y) == 0,
        is_neighbour(grid, x, y, nx, ny),
    ensures
        grid[nx][ny].value != CellValue::Mine,
{
}

/// A reveal only opens cells.
pub proof fn lemma_reveal_grows(grid: Seq<Seq<Cell>>, roots: Set<(int, int)>)
    ensures
        grows(grid, after_reveal(grid, roots)),
{
}

/// A position counts as a mine on the later grid as on the earlier one.
proof fn lemma_same_mines(earlier: Seq<Seq<Cell>>, later: Seq<Seq<Cell>>, x: int, y: int)
    requires
        grows(earlier, later),
    ensures
        hit(later, x, y, Probe::Mines) == hit(earlier, x, y, Probe::Mines),
{
    if in_bounds(earlier, x, y) {
        assert(later[x].len() == earlier[x].len());
    } else if 0 <= x < earlier.len() {
        assert(later[x].len() == earlier[x].len());
    }
}

/// A grid with some more cells opened has the same counts of mines.
pub proof fn lemma_counts_stay(earlier: Seq<Seq<Cell>>, later: Seq<Seq<Cell>>, counts: Seq<Seq<u8>>)
    requires
        counts_match(earlier, counts),
        grows(earlier, later),
    ensures
        counts_match(later, counts),
{
    assert forall|x: int, y: int| #[trigger] in_bounds(later, x, y) implies counts[x][y] == neighbour_mines(
        later,
        x,
        y,
    ) by {
        assert(in_bounds(earlier, x, y));
        lemma_same_mines(earlier, later, x - 1, y - 1);
        lemma_same_mines(earlier, later, x - 1, y);
        lemma_same_mines(earlier, later, x - 1, y + 1);
        lemma_same_mines(earlier, later, x, y - 1);
        lemma_same_mines(earlier, later, x, y + 1);
        lemma_same_mines(earlier, later, x + 1, y - 1);
        lemma_same_mines(earlier, later, x + 1, y);
        lemma_same_mines(earlier, later, x + 1, y + 1);
    }
}

} // verus!
