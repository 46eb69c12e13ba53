//! What holds of the rules, for every board.

use vstd::prelude::*;

use crate::reach::{
    after_chord, after_reveal, chord_applies, lemma_no_mine_around, lemma_reveal_comes_from,
    lemma_reveal_needs_root, lemma_reveal_root, lemma_reveal_spreads, mine_in_reach, neighbours_of, openable,
    reveals, spreads,
};
use crate::cell::{Cell, CellValue};
use crate::error::MinesError;
use crate::field::{after_flag, after_open, all_clear, chord_result, open_result};
use crate::generate::generation_error;
use crate::grid::{count_around, hit, in_bounds, is_neighbour, neighbour_flags, neighbour_mines, Probe};

verus! {

/// The neighbours of `(x, y)` that the probe counts, as a set of positions.
pub open spec fn counted_neighbours(grid: Seq<Seq<Cell>>, x: int, y: int, probe: Probe) -> Set<(int, int)> {
    Set::new(|n: (int, int)| is_neighbour(grid, x, y, n.0, n.1) && probe.marks(grid[n.0][n.1]))
}

/// The set with `p` put in if `p` is a position that the probe counts.
spec fn with_hit(found: Set<(int, int)>, grid: Seq<Seq<Cell>>, p: (int, int), probe: Probe) -> Set<
    (int, int),
> {
    if hit(grid, p.0, p.1, probe) == 1 {
        found.insert(p)
    } else {
        found
    }
}

/// A position that is new to a finite set adds as much to its size as the
/// position counts.
proof fn lemma_with_hit(found: Set<(int, int)>, grid: Seq<Seq<Cell>>, p: (int, int), probe: Probe)
    requires
        found.finite(),
        !found.contains(p),
    ensures
        with_hit(found, grid, p, probe).finite(),
        with_hit(found, grid, p, probe).len() == found.len() + hit(grid, p.0, p.1, probe),
{
}

/// The count around a cell is exact: it is the number of the neighbours,
/// within the bounds of the grid, that the probe counts. For the mines this
/// is the number that the board keeps for the cell.
pub proof fn law_count_is_exact(grid: Seq<Seq<Cell>>, x: int, y: int, probe: Probe)
    ensures
        counted_neighbours(grid, x, y, probe).finite(),
        counted_neighbours(grid, x, y, probe).len() == count_around(grid, x, y, probe),
{
    let s0 = Set::<(int, int)>::empty();
    let s1 = with_hit(s0, grid, (x - 1, y - 1), probe);
    lemma_with_hit(s0, grid, (x - 1, y - 1), probe);
    let s2 = with_hit(s1, grid, (x - 1, y), probe);
    lemma_with_hit(s1, grid, (x - 1, y), probe);
    let s3 = with_hit(s2, grid, (x - 1, y + 1), probe);
    lemma_with_hit(s2, grid, (x - 1, y + 1), probe);
    let s4 = with_hit(s3, grid, (x, y - 1), probe);
    lemma_with_hit(s3, grid, (x, y - 1), probe);
    let s5 = with_hit(s4, grid, (x, y + 1), probe);
    lemma_with_hit(s4, grid, (x, y + 1), probe);
    let s6 = with_hit(s5, grid, (x + 1, y - 1), probe);
    lemma_with_hit(s5, grid, (x + 1, y - 1), probe);
    let s7 = with_hit(s6, grid, (x + 1, y), probe);
    lemma_with_hit(s6, grid, (x + 1, y), probe);
    let s8 = with_hit(s7, grid, (x + 1, y + 1), probe);
    lemma_with_hit(s7, grid, (x + 1, y + 1), probe);
    assert(s8 =~= counted_neighbours(grid, x, y, probe));
}

/// Revealing a cell a second time changes nothing.
pub proof fn law_cell_reveal_twice(cell: Cell)
    ensures
        cell.revealed().revealed() == cell.revealed(),
{
}

/// Toggling the flag of a cell twice gives the cell back; toggling the flag
/// of an opened cell changes nothing.
pub proof fn law_cell_toggle_twice(cell: Cell)
    ensures
        cell.toggled().toggled() == cell,
        cell.opened ==> cell.toggled() == cell,
{
}

/// A reveal, from whatever cells it sets out, never opens a flagged cell.
pub proof fn law_flag_guards(grid: Seq<Seq<Cell>>, roots: Set<(int, int)>, x: int, y: int)
    requires
        in_bounds(grid, x, y),
        grid[x][y].flagged,
    ensures
        after_reveal(grid, roots)[x][y] == grid[x][y],
{
}

/// Revealing a cell that is flagged or opened changes nothing on the board
/// and succeeds.
pub proof fn law_reveal_guarded(grid: Seq<Seq<Cell>>, x: u16, y: u16)
    requires
        in_bounds(grid, x as int, y as int),
        grid[x as int][y as int].flagged || grid[x as int][y as int].opened,
    ensures
        after_open(grid, x as int, y as int) == grid,
        open_result(grid, x, y) == Ok::<(), MinesError>(()),
{
    let roots = set![(x as int, y as int)];
    let after = after_open(grid, x as int, y as int);
    assert forall|cx: int, cy: int| in_bounds(grid, cx, cy) implies !reveals(grid, roots, cx, cy) by {
        if reveals(grid, roots, cx, cy) {
            lemma_reveal_needs_root(grid, roots, cx, cy);
        }
    }
    assert forall|cx: int| 0 <= cx < grid.len() implies after[cx] =~= grid[cx] by {
        assert forall|cy: int| 0 <= cy < grid[cx].len() implies after[cx][cy] == grid[cx][cy] by {
            assert(in_bounds(grid, cx, cy));
        }
    }
    assert(after =~= grid);
}

/// Revealing the same cell twice is the same as revealing it once: the
/// second reveal changes nothing and does not fail.
pub proof fn law_reveal_twice(grid: Seq<Seq<Cell>>, x: u16, y: u16)
    requires
        in_bounds(grid, x as int, y as int),
    ensures
        after_open(after_open(grid, x as int, y as int), x as int, y as int) == after_open(
            grid,
            x as int,
            y as int,
        ),
        open_result(after_open(grid, x as int, y as int), x, y) == Ok::<(), MinesError>(()),
{
    let roots = set![(x as int, y as int)];
    let once = after_open(grid, x as int, y as int);
    assert(in_bounds(once, x as int, y as int));
    if openable(grid, x as int, y as int) {
        assert(roots.contains((x as int, y as int)));
        lemma_reveal_root(grid, roots, x as int, y as int);
        assert(once[x as int][y as int].opened);
    } else {
        assert(once[x as int][y as int] == grid[x as int][y as int]) by {
            if reveals(grid, roots, x as int, y as int) {
            }
        }
    }
    law_reveal_guarded(once, x, y);
}

/// A reveal opens the whole region without mines around the cells it sets
/// out from, and the border of that region: where it opens a cell that holds
/// no mine and has no mine around it, it opens every neighbour of that cell
/// that carries no flag.
pub proof fn law_cascade_opens_region(
    grid: Seq<Seq<Cell>>,
    roots: Set<(int, int)>,
    x: int,
    y: int,
    nx: int,
    ny: int,
)
    requires
        in_bounds(grid, x, y),
        !grid[x][y].opened,
        after_reveal(grid, roots)[x][y].opened,
        grid[x][y].value == CellValue::Water,
        neighbour_mines(grid, x, y) == 0,
        is_neighbour(grid, x, y, nx, ny),
        !grid[nx][ny].flagged,
    ensures
        after_reveal(grid, roots)[nx][ny].opened,
{
    assert(reveals(grid, roots, x, y));
    if !grid[nx][ny].opened {
        lemma_reveal_spreads(grid, roots, x, y, nx, ny);
    }
}

/// A reveal stops at the border of the region: a cell that it opens is one
/// of the cells it set out from, or a neighbour of a cell that it opened,
/// that holds no mine and that has no mine around it.
pub proof fn law_cascade_stops_at_border(grid: Seq<Seq<Cell>>, roots: Set<(int, int)>, x: int, y: int)
    requires
        in_bounds(grid, x, y),
        !grid[x][y].opened,
        after_reveal(grid, roots)[x][y].opened,
    ensures
        roots.contains((x, y)) || exists|cx: int, cy: int| #[trigger]
            is_neighbour(grid, x, y, cx, cy) && spreads(grid, cx, cy) && after_reveal(
                grid,
                roots,
            )[cx][cy].opened,
{
    assert(reveals(grid, roots, x, y));
    if !roots.contains((x, y)) {
        lemma_reveal_comes_from(grid, roots, x, y);
        let (cx, cy) = choose|cx: int, cy: int| #[trigger]
            is_neighbour(grid, x, y, cx, cy) && spreads(grid, cx, cy) && reveals(grid, roots, cx, cy);
        assert(is_neighbour(grid, x, y, cx, cy) && spreads(grid, cx, cy) && after_reveal(
            grid,
            roots,
        )[cx][cy].opened);
    }
}

/// A reveal opens no mine but among the cells it sets out from.
pub proof fn law_cascade_spares_mines(grid: Seq<Seq<Cell>>, roots: Set<(int, int)>, x: int, y: int)
    requires
        in_bounds(grid, x, y),
        !grid[x][y].opened,
        after_reveal(grid, roots)[x][y].opened,
        grid[x][y].value == CellValue::Mine,
    ensures
        roots.contains((x, y)),
{
    assert(reveals(grid, roots, x, y));
    if !roots.contains((x, y)) {
        lemma_reveal_comes_from(grid, roots, x, y);
        let (cx, cy) = choose|cx: int, cy: int| #[trigger]
            is_neighbour(grid, x, y, cx, cy) && spreads(grid, cx, cy) && reveals(grid, roots, cx, cy);
        assert(is_neighbour(grid, cx, cy, x, y));
        lemma_no_mine_around(grid, cx, cy, x, y);
    }
}

/// Toggling the flag of the same cell twice gives the board back.
pub proof fn law_flag_twice(grid: Seq<Seq<Cell>>, x: int, y: int)
    ensures
        after_flag(after_flag(grid, x, y), x, y) == grid,
{
    let once = after_flag(grid, x, y);
    let twice = after_flag(once, x, y);
    if in_bounds(grid, x, y) {
        assert(in_bounds(once, x, y));
        assert(once[x][y] == grid[x][y].toggled());
        assert(twice[x] =~= grid[x]);
        assert(twice =~= grid);
    }
}

/// Toggling the flag of an opened cell changes nothing.
pub proof fn law_flag_opened(grid: Seq<Seq<Cell>>, x: int, y: int)
    requires
        in_bounds(grid, x, y),
        grid[x][y].opened,
    ensures
        after_flag(grid, x, y) == grid,
{
    let after = after_flag(grid, x, y);
    assert(after[x] =~= grid[x]);
    assert(after =~= grid);
}

/// A chord on a cell that is concealed, or around which the flags are not
/// as many as the mines, changes nothing on the board and succeeds.
pub proof fn law_chord_refuses(grid: Seq<Seq<Cell>>, x: u16, y: u16)
    requires
        in_bounds(grid, x as int, y as int),
        !grid[x as int][y as int].opened || neighbour_flags(grid, x as int, y as int) != neighbour_mines(
            grid,
            x as int,
            y as int,
        ),
    ensures
        after_chord(grid, x as int, y as int) == grid,
        chord_result(grid, x, y) == Ok::<(), MinesError>(()),
{
}

/// A chord that applies opens every neighbour that carries no flag.
pub proof fn law_chord_opens_neighbours(grid: Seq<Seq<Cell>>, x: int, y: int, nx: int, ny: int)
    requires
        chord_applies(grid, x, y),
        is_neighbour(grid, x, y, nx, ny),
        !grid[nx][ny].flagged,
    ensures
        after_chord(grid, x, y)[nx][ny].opened,
{
    let roots = neighbours_of(grid, x, y);
    assert(roots.contains((nx, ny)));
    if !grid[nx][ny].opened {
        lemma_reveal_root(grid, roots, nx, ny);
    }
}

/// A chord that applies fails with `MineOpened` exactly if one of the
/// neighbours that it opens is a mine.
pub proof fn law_chord_loses(grid: Seq<Seq<Cell>>, x: u16, y: u16)
    requires
        chord_applies(grid, x as int, y as int),
    ensures
        chord_result(grid, x, y) == Err::<(), MinesError>(MinesError::MineOpened) <==> exists|
            nx: int,
            ny: int,
        | #[trigger]
            is_neighbour(grid, x as int, y as int, nx, ny) && !grid[nx][ny].opened && !grid[nx][ny].flagged
                && grid[nx][ny].value == CellValue::Mine,
{
    if mine_in_reach(grid, x as int, y as int) {
        let (nx, ny) = choose|nx: int, ny: int| #[trigger]
            is_neighbour(grid, x as int, y as int, nx, ny) && openable(grid, nx, ny) && grid[nx][ny].value
                == CellValue::Mine;
        assert(is_neighbour(grid, x as int, y as int, nx, ny) && !grid[nx][ny].opened
            && !grid[nx][ny].flagged && grid[nx][ny].value == CellValue::Mine);
    }
    if exists|nx: int, ny: int| #[trigger]
        is_neighbour(grid, x as int, y as int, nx, ny) && !grid[nx][ny].opened && !grid[nx][ny].flagged
            && grid[nx][ny].value == CellValue::Mine {
        let (nx, ny) = choose|nx: int, ny: int| #[trigger]
            is_neighbour(grid, x as int, y as int, nx, ny) && !grid[nx][ny].opened && !grid[nx][ny].flagged
                && grid[nx][ny].value == CellValue::Mine;
        assert(is_neighbour(grid, x as int, y as int, nx, ny) && openable(grid, nx, ny) && grid[nx][ny].value
            == CellValue::Mine);
    }
}

/// Whether the game is won depends on the cells without a mine alone: two
/// boards with the same mines that agree on which of the other cells are
/// opened are both won or both not, whatever flags they carry and whichever
/// mines are opened.
pub proof fn law_won_ignores_mines(one: Seq<Seq<Cell>>, other: Seq<Seq<Cell>>)
    requires
        one.len() == other.len(),
        forall|x: int| 0 <= x < one.len() ==> (#[trigger] one[x]).len() == other[x].len(),
        forall|x: int, y: int| #[trigger]
            in_bounds(one, x, y) ==> {
                &&& one[x][y].value == other[x][y].value
                &&& one[x][y].value == CellValue::Water ==> one[x][y].opened == other[x][y].opened
            },
    ensures
        all_clear(one) == all_clear(other),
{
    assert forall|x: int, y: int| #[trigger] in_bounds(other, x, y) <==> in_bounds(one, x, y) by {
        if 0 <= x < one.len() {
            assert(one[x].len() == other[x].len());
        }
    }
    if all_clear(one) {
        assert forall|x: int, y: int| #[trigger]
            in_bounds(other, x, y) && other[x][y].value == CellValue::Water implies other[x][y].opened by {
            assert(in_bounds(one, x, y));
        }
    }
    if all_clear(other) {
        assert forall|x: int, y: int| #[trigger]
            in_bounds(one, x, y) && one[x][y].value == CellValue::Water implies one[x][y].opened by {
            assert(in_bounds(other, x, y));
        }
    }
}

/// The game is not won while a cell without a mine is concealed.
pub proof fn law_not_won(grid: Seq<Seq<Cell>>, x: int, y: int)
    requires
        in_bounds(grid, x, y),
        grid[x][y].value == CellValue::Water,
        !grid[x][y].opened,
    ensures
        !all_clear(grid),
{
}

/// A board on which more than a tenth of the cells would be mined is not
/// generated, whatever its size.
pub proof fn law_too_many_mines(width: u16, height: u16, mines: u16)
    requires
        width * height < mines * 10,
    ensures
        generation_error(width, height, mines) == Some(MinesError::TooManyMines),
{
}

/// A board with both dimensions below 8 is not generated: where its mines
/// are not too many, it is too small.
pub proof fn law_field_too_small(width: u16, height: u16, mines: u16)
    requires
        width < 8,
        height < 8,
    ensures
        generation_error(width, height, mines) is Some,
        mines * 10 <= width * height ==> generation_error(width, height, mines) == Some(
            MinesError::FieldTooSmall(width, height),
        ),
{
}

/// A tenth of the cells, rounded down, are never too many mines.
pub proof fn law_tenth_is_allowed(width: u16, height: u16)
    requires
        width * height <= 0xffff,
    ensures
        generation_error(width, height, ((width * height) / 10) as u16) != Some(MinesError::TooManyMines),
{
}

} // verus!
