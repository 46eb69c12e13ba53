//! The generator of the initial placement of the mines.

use rand::rngs::ThreadRng;
use rand::Rng;
use vstd::prelude::*;
use vstd::relations::injective_on;
use vstd::set_lib::{lemma_int_range, lemma_len_subset, lemma_map_size, lemma_map_size_bound, set_int_range};

use crate::cell::{Cell, CellValue};
use crate::error::MinesError;
use crate::grid::{grid_view, in_bounds};

verus! {

/// The thread-local random number generator of `rand`. Nothing is known of
/// what is inside.
#[verifier::external_type_specification]
#[verifier::external_body]
pub struct ExThreadRng(ThreadRng);

/// How often a coordinate is drawn for one mine before the mine is put on
/// the first free cell instead. At most a tenth of the cells are mined, so a
/// draw hits a mine with probability of at most one in ten, and this many
/// hits in a row are not to be expected in the lifetime of a machine.
pub const ATTEMPTS: u32 = 128;

/// Why a board of this size with this many mines is not generated, if it is
/// not: more than a tenth of the cells would be mined, or else both
/// dimensions are below 8.
pub open spec fn generation_error(width: u16, height: u16, mines: u16) -> Option<MinesError> {
    if width * height < mines * 10 {
        Some(MinesError::TooManyMines)
    } else if width < 8 && height < 8 {
        Some(MinesError::FieldTooSmall(width, height))
    } else {
        None
    }
}

/// Whether `bombs` is a placement on a board of this size: no coordinate
/// occurs twice, and each lies on the board.
pub open spec fn is_placement(bombs: Seq<(u16, u16)>, width: u16, height: u16) -> bool {
    &&& bombs.no_duplicates()
    &&& forall|i: int| 0 <= i < bombs.len() ==> (#[trigger] bombs[i]).0 < width && bombs[i].1 < height
}

/// Whether the grid has this size and all its cells are concealed and
/// unflagged.
pub open spec fn is_fresh(grid: Seq<Seq<Cell>>, width: u16, height: u16) -> bool {
    &&& grid.len() == width
    &&& forall|x: int| 0 <= x < width ==> (#[trigger] grid[x]).len() == height
    &&& forall|x: int, y: int| #[trigger]
        in_bounds(grid, x, y) ==> !grid[x][y].opened && !grid[x][y].flagged
}

/// Whether the grid is the fresh board of this size with a mine exactly
/// where `bombs` names one.
pub open spec fn laid_out(grid: Seq<Seq<Cell>>, bombs: Seq<(u16, u16)>, width: u16, height: u16) -> bool {
    &&& is_fresh(grid, width, height)
    &&& forall|x: u16, y: u16|
        x < width && y < height ==> ((#[trigger] grid[x as int][y as int]).value == CellValue::Mine)
            == bombs.contains((x, y))
}

/// The positions of the mines on the grid.
pub open spec fn mines_of(grid: Seq<Seq<Cell>>) -> Set<(int, int)> {
    Set::new(|p: (int, int)| in_bounds(grid, p.0, p.1) && grid[p.0][p.1].value == CellValue::Mine)
}

/// A coordinate as a position.
spec fn widen(b: (u16, u16)) -> (int, int) {
    (b.0 as int, b.1 as int)
}

/// The positions that `bombs` names.
spec fn placement_set(bombs: Seq<(u16, u16)>) -> Set<(int, int)> {
    bombs.to_set().map(|b: (u16, u16)| widen(b))
}

/// All positions of a board of this size.
spec fn board(width: int, height: int) -> Set<(int, int)> {
    Set::new(|p: (int, int)| 0 <= p.0 < width && 0 <= p.1 < height)
}

/// A board has as many positions as its width times its height.
proof fn lemma_board_size(width: int, height: int)
    requires
        0 <= width,
        0 <= height,
    ensures
        board(width, height).finite(),
        board(width, height).len() == width * height,
    decreases width,
{
    if width == 0 {
        assert(board(width, height) =~= Set::<(int, int)>::empty());
    } else {
        lemma_board_size(width - 1, height);
        let rest = board(width - 1, height);
        let heights = set_int_range(0, height);
        let place = |y: int| (width - 1, y);
        lemma_int_range(0, height);
        let column = heights.map(place);
        assert(injective_on(place, heights));
        lemma_map_size(heights, column, place);
        assert(board(width, height) =~= rest.union(column)) by {
            assert forall|p: (int, int)| board(width, height).contains(p) implies rest.union(column).contains(
                p,
            ) by {
                if p.0 == width - 1 {
                    assert(heights.contains(p.1));
                    assert(p == place(p.1));
                }
            }
        }
        assert(rest.disjoint(column));
        vstd::set_lib::lemma_set_disjoint_lens(rest, column);
        assert(width * height == (width - 1) * height + height) by (nonlinear_arith);
    }
}

/// The positions that a sequence of coordinates names are no more than the
/// coordinates, and as many if none occurs twice.
proof fn lemma_placement_size(bombs: Seq<(u16, u16)>)
    ensures
        placement_set(bombs).finite(),
        placement_set(bombs).len() <= bombs.len(),
        bombs.no_duplicates() ==> placement_set(bombs).len() == bombs.len(),
        forall|x: u16, y: u16| #[trigger]
            placement_set(bombs).contains((x as int, y as int)) <==> bombs.contains((x, y)),
{
    let named = bombs.to_set();
    let f = |b: (u16, u16)| widen(b);
    vstd::seq_lib::seq_to_set_is_finite(bombs);
    bombs.lemma_cardinality_of_set();
    lemma_map_size_bound(named, placement_set(bombs), f);
    if bombs.no_duplicates() {
        bombs.unique_seq_to_set();
        assert(injective_on(f, named));
        lemma_map_size(named, placement_set(bombs), f);
    }
    assert forall|x: u16, y: u16| #[trigger]
        placement_set(bombs).contains((x as int, y as int)) <==> bombs.contains((x, y)) by {
        if bombs.contains((x, y)) {
            assert(named.contains((x, y)));
            assert(f((x, y)) == (x as int, y as int));
        }
        if placement_set(bombs).contains((x as int, y as int)) {
            let b = choose|b: (u16, u16)| named.contains(b) && (x as int, y as int) == f(b);
            assert(b == (x, y));
        }
    }
}

/// A placement that names every position of the board has at least as many
/// coordinates as the board has positions.
proof fn lemma_full_board(bombs: Seq<(u16, u16)>, width: u16, height: u16)
    requires
        forall|x: u16, y: u16| x < width && y < height ==> #[trigger] bombs.contains((x, y)),
    ensures
        width * height <= bombs.len(),
{
    lemma_board_size(width as int, height as int);
    lemma_placement_size(bombs);
    assert(board(width as int, height as int).subset_of(placement_set(bombs))) by {
        assert forall|p: (int, int)| board(width as int, height as int).contains(p) implies placement_set(
            bombs,
        ).contains(p) by {
            let x = p.0 as u16;
            let y = p.1 as u16;
            assert(bombs.contains((x, y)));
            assert(placement_set(bombs).contains((x as int, y as int)));
        }
    }
    lemma_len_subset(board(width as int, height as int), placement_set(bombs));
}

/// The mines of a board that was laid out from a placement are as many as
/// the placement has coordinates.
pub proof fn lemma_mines_counted(grid: Seq<Seq<Cell>>, bombs: Seq<(u16, u16)>, width: u16, height: u16)
    requires
        laid_out(grid, bombs, width, height),
        is_placement(bombs, width, height),
    ensures
        mines_of(grid).finite(),
        mines_of(grid).len() == bombs.len(),
{
    lemma_placement_size(bombs);
    assert(mines_of(grid) =~= placement_set(bombs)) by {
        assert forall|p: (int, int)| mines_of(grid).contains(p) <==> placement_set(bombs).contains(p) by {
            if mines_of(grid).contains(p) {
                let x = p.0 as u16;
                let y = p.1 as u16;
                assert(grid[x as int][y as int].value == CellValue::Mine);
                assert(bombs.contains((x, y)));
                assert(placement_set(bombs).contains((x as int, y as int)));
            }
            if placement_set(bombs).contains(p) {
                let b = choose|b: (u16, u16)| bombs.to_set().contains(b) && p == widen(b);
                let i = choose|i: int| 0 <= i < bombs.len() && bombs[i] == b;
                assert(bombs[i].0 < width && bombs[i].1 < height);
                assert(bombs.contains((b.0, b.1)));
                assert(grid[b.0 as int][b.1 as int].value == CellValue::Mine);
                assert(grid[b.0 as int].len() == height);
            }
        }
    }
}

/// Draws a number below `bound` with `Rng::gen_range(0, bound)`, which
/// returns a value of the range from 0 up to, not including, `bound`, and
/// panics on an empty range.
#[verifier::external_body]
fn gen_below(rng: &mut ThreadRng, bound: u16) -> (drawn: u16)
    requires
        bound > 0,
    ensures
        drawn < bound,
{
    rng.gen_range(0, bound)
}

/// Whether `coords` is among `bombs`.
pub fn has_mine(bombs: &Vec<(u16, u16)>, coords: (u16, u16)) -> (found: bool)
    ensures
        found == bombs@.contains(coords),
{
    let mut i: usize = 0;
    while i < bombs.len()
        invariant
            i <= bombs.len(),
            forall|j: int| 0 <= j < i ==> bombs@[j] != coords,
        decreases bombs.len() - i,
    {
        if bombs[i].0 == coords.0 && bombs[i].1 == coords.1 {
            return true;
        }
        i += 1;
    }
    false
}

/// Adds `coords` to `bombs` unless it is there already, and tells whether it
/// was added.
pub fn add_mine(bombs: &mut Vec<(u16, u16)>, coords: (u16, u16)) -> (added: bool)
    ensures
        added == !old(bombs)@.contains(coords),
        final(bombs)@ == if added {
            old(bombs)@.push(coords)
        } else {
            old(bombs)@
        },
{
    if has_mine(bombs, coords) {
        false
    } else {
        bombs.push(coords);
        true
    }
}

/// The first position, by columns, that holds no mine yet.
fn first_free(bombs: &Vec<(u16, u16)>, width: u16, height: u16) -> (free: (u16, u16))
    requires
        bombs@.len() < width * height,
    ensures
        free.0 < width,
        free.1 < height,
        !bombs@.contains(free),
{
    let mut x: u16 = 0;
    while x < width
        invariant
            x <= width,
            forall|cx: u16, cy: u16| cx < x && cy < height ==> #[trigger] bombs@.contains((cx, cy)),
        decreases width - x,
    {
        let mut y: u16 = 0;
        while y < height
            invariant
                x < width,
                y <= height,
                forall|cx: u16, cy: u16| cx < x && cy < height ==> #[trigger] bombs@.contains((cx, cy)),
                forall|cy: u16| cy < y ==> #[trigger] bombs@.contains((x, cy)),
            decreases height - y,
        {
            if !has_mine(bombs, (x, y)) {
                return (x, y);
            }
            y += 1;
        }
        x += 1;
    }
    proof {
        lemma_full_board(bombs@, width, height);
    }
    (0, 0)
}

/// Checks the size of the board and the number of mines: first that at most
/// a tenth of the cells are mined, then that one dimension is 8 or more.
pub fn check_size(width: u16, height: u16, mines: u16) -> (result: Result<(), MinesError>)
    ensures
        result == match generation_error(width, height, mines) {
            Some(e) => Err::<(), MinesError>(e),
            None => Ok::<(), MinesError>(()),
        },
{
    assert(width * height <= 0xffff * 0xffff) by (nonlinear_arith)
        requires
            width <= 0xffff,
            height <= 0xffff,
    ;
    if (width as u32) * (height as u32) < (mines as u32) * 10 {
        return Err(MinesError::TooManyMines);
    }
    if width < 8 && height < 8 {
        return Err(MinesError::FieldTooSmall(width, height));
    }
    Ok(())
}

/// The number of mines of a board that is mined as densely as a board may
/// be: a tenth of its cells, rounded down. `None` where the number of cells
/// itself is beyond 65535.
pub fn mine_count(width: u16, height: u16) -> (mines: Option<u16>)
    ensures
        mines == if width * height <= 0xffff {
            Some(((width * height) / 10) as u16)
        } else {
            None::<u16>
        },
{
    assert(width * height <= 0xffff * 0xffff) by (nonlinear_arith)
        requires
            width <= 0xffff,
            height <= 0xffff,
    ;
    let area: u32 = (width as u32) * (height as u32);
    if area <= 0xffff {
        Some((area / 10) as u16)
    } else {
        None
    }
}

/// Chooses where the mines go.
///
/// For each mine a coordinate of the board is drawn until one comes up that
/// holds no mine yet; after `ATTEMPTS` draws in vain the mine goes to the
/// first free position instead. Fails as `generation_error` says, before
/// anything is drawn.
pub fn generate_placement(rng: &mut ThreadRng, width: u16, height: u16, mines: u16) -> (result: Result<
    Vec<(u16, u16)>,
    MinesError,
>)
    ensures
        match result {
            Ok(bombs) => {
                &&& generation_error(width, height, mines) is None
                &&& bombs@.len() == mines
                &&& is_placement(bombs@, width, height)
            },
            Err(e) => generation_error(width, height, mines) == Some(e),
        },
{
    if let Err(e) = check_size(width, height, mines) {
        return Err(e);
    }
    let mut bombs: Vec<(u16, u16)> = Vec::new();
    while bombs.len() < mines as usize
        invariant
            mines * 10 <= width * height,
            bombs@.len() <= mines,
            is_placement(bombs@, width, height),
        decreases mines - bombs@.len(),
    {
        assert(width > 0 && height > 0 && bombs@.len() < width * height) by (nonlinear_arith)
            requires
                mines * 10 <= width * height,
                bombs@.len() < mines,
        ;
        let ghost placed = bombs@;
        let mut tries: u32 = ATTEMPTS;
        let mut added = false;
        while !added && tries > 0
            invariant
                width > 0,
                height > 0,
                is_placement(placed, width, height),
                is_placement(bombs@, width, height),
                bombs@.len() == if added {
                    placed.len() + 1
                } else {
                    placed.len()
                },
            decreases tries,
        {
            let coords = (gen_below(rng, width), gen_below(rng, height));
            added = add_mine(&mut bombs, coords);
            tries -= 1;
        }
        if !added {
            let free = first_free(&bombs, width, height);
            bombs.push(free);
        }
    }
    Ok(bombs)
}

/// The fresh board of this size with a mine at each position that `bombs`
/// names.
pub fn lay_mines(bombs: &Vec<(u16, u16)>, width: u16, height: u16) -> (cells: Vec<Vec<Cell>>)
    ensures
        laid_out(grid_view(cells), bombs@, width, height),
{
    let mut cells: Vec<Vec<Cell>> = Vec::new();
    let mut x: u16 = 0;
    while x < width
        invariant
            x <= width,
            cells@.len() == x,
            forall|i: int| 0 <= i < x ==> (#[trigger] cells@[i])@.len() == height,
            forall|i: u16, j: u16|
                i < x && j < height ==> (#[trigger] cells@[i as int]@[j as int]) == (Cell {
                    value: if bombs@.contains((i, j)) {
                        CellValue::Mine
                    } else {
                        CellValue::Water
                    },
                    opened: false,
                    flagged: false,
                }),
        decreases width - x,
    {
        let mut col: Vec<Cell> = Vec::new();
        let mut y: u16 = 0;
        while y < height
            invariant
                y <= height,
                col@.len() == y,
                forall|j: u16|
                    j < y ==> (#[trigger] col@[j as int]) == (Cell {
                        value: if bombs@.contains((x, j)) {
                            CellValue::Mine
                        } else {
                            CellValue::Water
                        },
                        opened: false,
                        flagged: false,
                    }),
            decreases height - y,
        {
            if has_mine(bombs, (x, y)) {
                col.push(Cell::mine());
            } else {
                col.push(Cell::water());
            }
            y += 1;
        }
        cells.push(col);
        x += 1;
    }
    proof {
        let grid = grid_view(cells);
        assert forall|i: int, j: int| #[trigger] in_bounds(grid, i, j) implies !grid[i][j].opened
            && !grid[i][j].flagged by {
            let a = i as u16;
            let b = j as u16;
            assert(cells@[a as int]@[b as int] == grid[i][j]);
        }
        assert forall|a: u16, b: u16| a < width && b < height implies ((#[trigger] grid[a as int][b as int]).value
            == CellValue::Mine) == bombs@.contains((a, b)) by {
            assert(cells@[a as int]@[b as int] == grid[a as int][b as int]);
        }
    }
    cells
}

/// The cells of a fresh board of this size with `mines` mines at random
/// positions. Fails as `generation_error` says.
pub fn generate_cells(rng: &mut ThreadRng, width: u16, height: u16, mines: u16) -> (result: Result<
    Vec<Vec<Cell>>,
    MinesError,
>)
    ensures
        match result {
            Ok(cells) => {
                &&& generation_error(width, height, mines) is None
                &&& is_fresh(grid_view(cells), width, height)
                &&& mines_of(grid_view(cells)).finite()
                &&& mines_of(grid_view(cells)).len() == mines
            },
            Err(e) => generation_error(width, height, mines) == Some(e),
        },
{
    match generate_placement(rng, width, height, mines) {
        Err(e) => Err(e),
        Ok(bombs) => {
            let cells = lay_mines(&bombs, width, height);
            proof {
                lemma_mines_counted(grid_view(cells), bombs@, width, height);
            }
            Ok(cells)
        },
    }
}

} // verus!
