//! The reveal as it is carried out: a worklist of opened cells without mines
//! around them, whose neighbours are opened in turn until none is left.

use vstd::prelude::*;
use vstd::set_lib::{lemma_int_range, set_int_range};

use crate::cell::{Cell, CellValue};
use crate::grid::{adjacent, do_with_neighbours, grid_view, in_bounds, is_neighbour, min_coord, Probe};
use crate::reach::{
    after_chord, after_reveal, cascade_path, chord_applies, counts_match, grows, lemma_counts_stay,
    lemma_no_mine_around, lemma_reveal_grows, lemma_reveal_root, lemma_reveal_spreads, mine_in_reach,
    neighbours_of, openable, reveals, spreads,
};

verus! {

/// Whether every neighbour of `(x, y)` that a reveal can open is opened.
spec fn around_done(start: Seq<Seq<Cell>>, now: Seq<Seq<Cell>>, x: int, y: int) -> bool {
    forall|nx: int, ny: int| #[trigger]
        is_neighbour(start, x, y, nx, ny) && openable(start, nx, ny) ==> now[nx][ny].opened
}

/// Whether `(x, y)` waits on the worklist.
spec fn on_stack(stack: Seq<(usize, usize)>, x: int, y: int) -> bool {
    exists|i: int| 0 <= i < stack.len() && (#[trigger] stack[i]).0 == x && stack[i].1 == y
}

/// Whether every root that a reveal can open is opened.
spec fn roots_done(start: Seq<Seq<Cell>>, roots: Set<(int, int)>, now: Seq<Seq<Cell>>) -> bool {
    forall|r: (int, int)| #[trigger]
        roots.contains(r) && openable(start, r.0, r.1) ==> now[r.0][r.1].opened
}

/// What holds while a reveal of `roots` on the grid `start` is under way:
/// only cells that the reveal reaches were opened, the worklist holds opened
/// cells that spread, and every other opened cell that spreads has had its
/// neighbours opened.
#[verifier::opaque]
spec fn flooding(
    start: Seq<Seq<Cell>>,
    roots: Set<(int, int)>,
    now: Seq<Seq<Cell>>,
    stack: Seq<(usize, usize)>,
) -> bool {
    &&& grows(start, now)
    &&& forall|x: int, y: int| #[trigger]
        in_bounds(start, x, y) && now[x][y].opened && !start[x][y].opened ==> reveals(
            start,
            roots,
            x,
            y,
        )
    &&& forall|i: int|
        0 <= i < stack.len() ==> {
            &&& spreads(start, (#[trigger] stack[i]).0 as int, stack[i].1 as int)
            &&& now[stack[i].0 as int][stack[i].1 as int].opened
        }
    &&& forall|x: int, y: int| #[trigger]
        spreads(start, x, y) && now[x][y].opened && !on_stack(stack, x, y) ==> around_done(
            start,
            now,
            x,
            y,
        )
    &&& stack.no_duplicates()
}

/// A cascade path that starts at a root ends in an opened cell once the
/// worklist is empty, if that cell can be opened at all.
proof fn lemma_path_is_opened(
    start: Seq<Seq<Cell>>,
    roots: Set<(int, int)>,
    now: Seq<Seq<Cell>>,
    path: Seq<(int, int)>,
)
    requires
        flooding(start, roots, now, Seq::empty()),
        roots_done(start, roots, now),
        cascade_path(start, path),
        roots.contains(path.first()),
        openable(start, path.last().0, path.last().1),
    ensures
        now[path.last().0][path.last().1].opened,
    decreases path.len(),
{
    reveal(flooding);
    let end = path.last();
    if path.len() == 1 {
        assert(roots.contains(end));
    } else {
        let shorter = path.drop_last();
        let before = shorter.last();
        assert(before == path[path.len() - 2]);
        assert(spreads(start, before.0, before.1));
        assert(adjacent(before.0, before.1, end.0, end.1));
        assert(cascade_path(start, shorter)) by {
            assert forall|i: int| 0 <= i < shorter.len() - 1 implies {
                &&& spreads(start, (#[trigger] shorter[i]).0, shorter[i].1)
                &&& adjacent(shorter[i].0, shorter[i].1, shorter[i + 1].0, shorter[i + 1].1)
            } by {
                assert(shorter[i] == path[i]);
                assert(shorter[i + 1] == path[i + 1]);
            }
        }
        lemma_path_is_opened(start, roots, now, shorter);
        assert(!on_stack(Seq::<(usize, usize)>::empty(), before.0, before.1));
        assert(around_done(start, now, before.0, before.1));
        assert(is_neighbour(start, before.0, before.1, end.0, end.1));
    }
}

/// Once the worklist is empty, the grid is the one that the reveal of the
/// roots is to leave.
proof fn lemma_flood_complete(start: Seq<Seq<Cell>>, roots: Set<(int, int)>, now: Seq<Seq<Cell>>)
    requires
        flooding(start, roots, now, Seq::empty()),
        roots_done(start, roots, now),
    ensures
        now == after_reveal(start, roots),
{
    reveal(flooding);
    let after = after_reveal(start, roots);
    assert(now.len() == after.len());
    assert forall|x: int| 0 <= x < now.len() implies now[x] == after[x] by {
        assert(now[x].len() == start[x].len());
        assert forall|y: int| 0 <= y < now[x].len() implies now[x][y] == after[x][y] by {
            assert(in_bounds(start, x, y));
            if reveals(start, roots, x, y) {
                let path = choose|path: Seq<(int, int)>|
                    #[trigger] cascade_path(start, path) && roots.contains(path.first())
                        && path.last() == (x, y);
                lemma_path_is_opened(start, roots, now, path);
            }
        }
        assert(now[x] =~= after[x]);
    }
    assert(now =~= after);
}

/// All positions of the grid.
spec fn positions(grid: Seq<Seq<Cell>>) -> Set<(int, int)> {
    Set::new(|p: (int, int)| in_bounds(grid, p.0, p.1))
}

/// The positions of the grid in the columns before `n`.
spec fn positions_before(grid: Seq<Seq<Cell>>, n: int) -> Set<(int, int)> {
    Set::new(|p: (int, int)| p.0 < n && in_bounds(grid, p.0, p.1))
}

/// The positions in the columns before `n` are finitely many.
proof fn lemma_positions_before_finite(grid: Seq<Seq<Cell>>, n: int)
    requires
        0 <= n <= grid.len(),
    ensures
        positions_before(grid, n).finite(),
    decreases n,
{
    if n == 0 {
        assert(positions_before(grid, n) =~= Set::<(int, int)>::empty());
    } else {
        lemma_positions_before_finite(grid, n - 1);
        let heights = set_int_range(0, grid[n - 1].len() as int);
        let place = |y: int| (n - 1, y);
        lemma_int_range(0, grid[n - 1].len() as int);
        heights.lemma_map_finite(place);
        let column = heights.map(place);
        assert(positions_before(grid, n) =~= positions_before(grid, n - 1).union(column)) by {
            assert forall|p: (int, int)| positions_before(grid, n).contains(p) implies positions_before(
                grid,
                n - 1,
            ).union(column).contains(p) by {
                if p.0 == n - 1 {
                    assert(heights.contains(p.1));
                    assert(p == place(p.1));
                }
            }
        }
    }
}

/// Whether `rest` holds every cell of the grid that is not opened.
spec fn covers(now: Seq<Seq<Cell>>, rest: Set<(int, int)>) -> bool {
    forall|x: int, y: int| #[trigger] in_bounds(now, x, y) && !now[x][y].opened ==> rest.contains((x, y))
}

/// Whether every cell on the worklist is an opened cell of the grid.
spec fn all_opened(now: Seq<Seq<Cell>>, stack: Seq<(usize, usize)>) -> bool {
    forall|i: int|
        0 <= i < stack.len() ==> {
            &&& in_bounds(now, (#[trigger] stack[i]).0 as int, stack[i].1 as int)
            &&& now[stack[i].0 as int][stack[i].1 as int].opened
        }
}

/// Whether `(cx, cy)` comes before `(nx, ny)` in a scan by columns.
spec fn scanned(nx: int, ny: int, cx: int, cy: int) -> bool {
    cx < nx || (cx == nx && cy < ny)
}

/// What holds while the neighbours of `(x, y)` are opened one by one, with
/// the scan at `(nx, ny)`: `before` is the grid and `waiting` the worklist
/// from which the scan set out.
#[verifier::opaque]
spec fn scanning(
    start: Seq<Seq<Cell>>,
    before: Seq<Seq<Cell>>,
    now: Seq<Seq<Cell>>,
    waiting: Seq<(usize, usize)>,
    stack: Seq<(usize, usize)>,
    x: int,
    y: int,
    nx: int,
    ny: int,
    lost: bool,
) -> bool {
    &&& grows(before, now)
    &&& forall|cx: int, cy: int| #[trigger]
        in_bounds(before, cx, cy) && now[cx][cy].opened && !before[cx][cy].opened ==> {
            &&& is_neighbour(start, x, y, cx, cy)
            &&& scanned(nx, ny, cx, cy)
            &&& !before[cx][cy].flagged
            &&& spreads(start, cx, cy) ==> on_stack(stack, cx, cy)
        }
    &&& forall|cx: int, cy: int| #[trigger]
        is_neighbour(start, x, y, cx, cy) && !before[cx][cy].flagged && scanned(nx, ny, cx, cy)
            ==> now[cx][cy].opened
    &&& stack.len() >= waiting.len()
    &&& stack.subrange(0, waiting.len() as int) =~= waiting
    &&& forall|i: int|
        0 <= i < waiting.len() ==> {
            &&& in_bounds(before, (#[trigger] waiting[i]).0 as int, waiting[i].1 as int)
            &&& before[waiting[i].0 as int][waiting[i].1 as int].opened
        }
    &&& forall|i: int|
        waiting.len() <= i < stack.len() ==> {
            &&& spreads(start, (#[trigger] stack[i]).0 as int, stack[i].1 as int)
            &&& now[stack[i].0 as int][stack[i].1 as int].opened
            &&& !before[stack[i].0 as int][stack[i].1 as int].opened
        }
    &&& stack.no_duplicates()
    &&& !lost ==> forall|cx: int, cy: int| #[trigger]
        is_neighbour(start, x, y, cx, cy) && scanned(nx, ny, cx, cy) ==> !(openable(before, cx, cy)
            && before[cx][cy].value == CellValue::Mine)
    &&& lost ==> exists|cx: int, cy: int| #[trigger]
        is_neighbour(start, x, y, cx, cy) && openable(before, cx, cy) && before[cx][cy].value
            == CellValue::Mine
}

/// The grid with the cell at `(x, y)` opened.
spec fn with_opened(grid: Seq<Seq<Cell>>, x: int, y: int) -> Seq<Seq<Cell>> {
    grid.update(x, grid[x].update(y, Cell { opened: true, ..grid[x][y] }))
}

/// A scan that has opened nothing yet.
proof fn lemma_scan_begins(
    start: Seq<Seq<Cell>>,
    now: Seq<Seq<Cell>>,
    stack: Seq<(usize, usize)>,
    x: int,
    y: int,
    nx: int,
)
    requires
        grows(start, now),
        nx < x,
        all_opened(now, stack),
        stack.no_duplicates(),
    ensures
        scanning(start, now, now, stack, stack, x, y, nx, y - 1, false),
{
    reveal(scanning);
}

/// The scan at the start of a column is where it was at the end of the one
/// before: no position of the grid lies between.
proof fn lemma_scan_enters_column(
    start: Seq<Seq<Cell>>,
    before: Seq<Seq<Cell>>,
    now: Seq<Seq<Cell>>,
    waiting: Seq<(usize, usize)>,
    stack: Seq<(usize, usize)>,
    x: int,
    y: int,
    nx: int,
    ny: int,
    lost: bool,
)
    requires
        scanning(start, before, now, waiting, stack, x, y, nx, y - 1, lost),
        ny == y - 1 || (ny == 0 && y == 0),
    ensures
        scanning(start, before, now, waiting, stack, x, y, nx, ny, lost),
{
    reveal(scanning);
    assert forall|cx: int, cy: int| scanned(nx, ny, cx, cy) && in_bounds(start, cx, cy) implies scanned(
        nx,
        y - 1,
        cx,
        cy,
    ) by {}
}

/// The scan past the last neighbour of a column is at the start of the next.
proof fn lemma_scan_leaves_column(
    start: Seq<Seq<Cell>>,
    before: Seq<Seq<Cell>>,
    now: Seq<Seq<Cell>>,
    waiting: Seq<(usize, usize)>,
    stack: Seq<(usize, usize)>,
    x: int,
    y: int,
    nx: int,
    ny: int,
    lost: bool,
)
    requires
        scanning(start, before, now, waiting, stack, x, y, nx, ny, lost),
        0 <= nx < start.len(),
        ny > y + 1 || ny >= start[nx].len(),
        ny <= y + 2,
    ensures
        scanning(start, before, now, waiting, stack, x, y, nx + 1, y - 1, lost),
{
    reveal(scanning);
    assert forall|cx: int, cy: int| is_neighbour(start, x, y, cx, cy) implies (scanned(nx + 1, y - 1, cx, cy)
        <==> scanned(nx, ny, cx, cy)) by {}
}

/// The scan goes on past a cell that it leaves alone: the cell in the
/// middle, an opened cell or a flagged one.
proof fn lemma_scan_passes(
    start: Seq<Seq<Cell>>,
    before: Seq<Seq<Cell>>,
    now: Seq<Seq<Cell>>,
    waiting: Seq<(usize, usize)>,
    stack: Seq<(usize, usize)>,
    x: int,
    y: int,
    nx: int,
    ny: int,
    lost: bool,
)
    requires
        scanning(start, before, now, waiting, stack, x, y, nx, ny, lost),
        grows(start, before),
        in_bounds(start, nx, ny),
        (nx == x && ny == y) || now[nx][ny].opened || now[nx][ny].flagged,
    ensures
        scanning(start, before, now, waiting, stack, x, y, nx, ny + 1, lost),
{
    reveal(scanning);
    assert(in_bounds(before, nx, ny));
    assert(!scanned(nx, ny, nx, ny));
    assert forall|cx: int, cy: int| scanned(nx, ny + 1, cx, cy) implies scanned(nx, ny, cx, cy) || (cx == nx
        && cy == ny) by {}
}

/// The scan goes on past a cell that it has opened, and that it has put on
/// the worklist if the cell spreads.
proof fn lemma_scan_opens(
    start: Seq<Seq<Cell>>,
    before: Seq<Seq<Cell>>,
    now: Seq<Seq<Cell>>,
    waiting: Seq<(usize, usize)>,
    piled: Seq<(usize, usize)>,
    stack: Seq<(usize, usize)>,
    x: int,
    y: int,
    nx: usize,
    ny: usize,
    lost: bool,
    found: bool,
)
    requires
        scanning(start, before, now, waiting, piled, x, y, nx as int, ny as int, lost),
        grows(start, before),
        in_bounds(start, nx as int, ny as int),
        adjacent(x, y, nx as int, ny as int),
        !now[nx as int][ny as int].opened,
        !now[nx as int][ny as int].flagged,
        found == (lost || start[nx as int][ny as int].value == CellValue::Mine),
        stack == if spreads(start, nx as int, ny as int) {
            piled.push((nx, ny))
        } else {
            piled
        },
    ensures
        scanning(
            start,
            before,
            with_opened(now, nx as int, ny as int),
            waiting,
            stack,
            x,
            y,
            nx as int,
            ny + 1,
            found,
        ),
        grows(start, with_opened(now, nx as int, ny as int)),
{
    reveal(scanning);
    let after = with_opened(now, nx as int, ny as int);
    assert(in_bounds(before, nx as int, ny as int));
    assert(is_neighbour(start, x, y, nx as int, ny as int));
    assert(grows(before, after)) by {
        assert forall|cx: int| 0 <= cx < before.len() implies (#[trigger] after[cx]).len() == before[cx].len() by {
            assert(now[cx].len() == before[cx].len());
        }
        assert forall|cx: int, cy: int| #[trigger] in_bounds(before, cx, cy) implies {
            &&& after[cx][cy].value == before[cx][cy].value
            &&& after[cx][cy].flagged == before[cx][cy].flagged
            &&& before[cx][cy].opened ==> after[cx][cy].opened
        } by {}
    }
    assert(grows(start, after)) by {
        assert forall|cx: int| 0 <= cx < start.len() implies (#[trigger] after[cx]).len() == start[cx].len() by {
            assert(before[cx].len() == start[cx].len());
            assert(after[cx].len() == before[cx].len());
        }
        assert forall|cx: int, cy: int| #[trigger] in_bounds(start, cx, cy) implies {
            &&& after[cx][cy].value == start[cx][cy].value
            &&& after[cx][cy].flagged == start[cx][cy].flagged
            &&& start[cx][cy].opened ==> after[cx][cy].opened
        } by {
            assert(in_bounds(before, cx, cy));
        }
    }
    assert forall|cx: int, cy: int| on_stack(piled, cx, cy) implies on_stack(stack, cx, cy) by {
        let i = choose|i: int| 0 <= i < piled.len() && (#[trigger] piled[i]).0 == cx && piled[i].1 == cy;
        assert(stack[i] == piled[i]);
    }
    if spreads(start, nx as int, ny as int) {
        assert(stack[piled.len() as int] == (nx, ny));
        assert(on_stack(stack, nx as int, ny as int));
    }
    assert forall|cx: int, cy: int| #[trigger]
        in_bounds(before, cx, cy) && after[cx][cy].opened && !before[cx][cy].opened implies {
        &&& is_neighbour(start, x, y, cx, cy)
        &&& scanned(nx as int, ny + 1, cx, cy)
        &&& !before[cx][cy].flagged
        &&& spreads(start, cx, cy) ==> on_stack(stack, cx, cy)
    } by {
        if cx == nx && cy == ny {
        } else {
            assert(after[cx][cy] == now[cx][cy]);
        }
    }
    assert forall|cx: int, cy: int| #[trigger]
        is_neighbour(start, x, y, cx, cy) && !before[cx][cy].flagged && scanned(nx as int, ny + 1, cx, cy)
        implies after[cx][cy].opened by {
        if cx == nx && cy == ny {
        } else {
            assert(scanned(nx as int, ny as int, cx, cy));
            assert(after[cx][cy] == now[cx][cy]);
        }
    }
    assert(stack.subrange(0, waiting.len() as int) =~= waiting) by {
        assert(piled.subrange(0, waiting.len() as int) =~= waiting);
    }
    assert forall|i: int| waiting.len() <= i < stack.len() implies {
        &&& spreads(start, (#[trigger] stack[i]).0 as int, stack[i].1 as int)
        &&& after[stack[i].0 as int][stack[i].1 as int].opened
        &&& !before[stack[i].0 as int][stack[i].1 as int].opened
    } by {
        if i < piled.len() {
            assert(stack[i] == piled[i]);
            assert(in_bounds(before, piled[i].0 as int, piled[i].1 as int));
        } else {
            assert(!scanned(nx as int, ny as int, nx as int, ny as int));
        }
    }
    assert(stack.no_duplicates()) by {
        if spreads(start, nx as int, ny as int) {
            assert forall|i: int| 0 <= i < piled.len() implies piled[i] != (nx, ny) by {
                if i < waiting.len() {
                    assert(piled[i] == piled.subrange(0, waiting.len() as int)[i]);
                    assert(in_bounds(before, waiting[i].0 as int, waiting[i].1 as int));
                } else {
                    assert(now[piled[i].0 as int][piled[i].1 as int].opened);
                }
            }
            assert forall|i: int, j: int| 0 <= i < stack.len() && 0 <= j < stack.len() && i != j implies stack[i]
                != stack[j] by {
                if i < piled.len() {
                    assert(stack[i] == piled[i]);
                }
                if j < piled.len() {
                    assert(stack[j] == piled[j]);
                }
            }
        }
    }
    if !found {
        assert forall|cx: int, cy: int| #[trigger]
            is_neighbour(start, x, y, cx, cy) && scanned(nx as int, ny + 1, cx, cy) implies !(openable(
            before,
            cx,
            cy,
        ) && before[cx][cy].value == CellValue::Mine) by {
            if cx == nx && cy == ny {
            } else {
                assert(scanned(nx as int, ny as int, cx, cy));
            }
        }
    } else if !lost {
        assert(!scanned(nx as int, ny as int, nx as int, ny as int));
        assert(openable(before, nx as int, ny as int));
    }
}

/// With a cell opened, the cells that are not opened are one fewer.
proof fn lemma_covers_opened(now: Seq<Seq<Cell>>, rest: Set<(int, int)>, x: int, y: int)
    requires
        covers(now, rest),
        in_bounds(now, x, y),
    ensures
        covers(with_opened(now, x, y), rest.remove((x, y))),
{
    let after = with_opened(now, x, y);
    assert forall|cx: int, cy: int| #[trigger] in_bounds(after, cx, cy) && !after[cx][cy].opened implies rest.remove(
        (x, y),
    ).contains((cx, cy)) by {
        assert(in_bounds(now, cx, cy));
        if cx == x && cy == y {
        } else {
            assert(after[cx][cy] == now[cx][cy]);
        }
    }
}

/// Marks the cell at `(x, y)` as opened.
fn mark_opened(cells: &mut Vec<Vec<Cell>>, x: usize, y: usize)
    requires
        in_bounds(grid_view(*old(cells)), x as int, y as int),
    ensures
        grid_view(*final(cells)) == with_opened(grid_view(*old(cells)), x as int, y as int),
{
    cells[x][y].opened = true;
    assert(grid_view(*cells) =~~= with_opened(grid_view(*old(cells)), x as int, y as int));
}

/// Opens every neighbour of `(x, y)` that is neither opened nor flagged, and
/// puts those that spread on the worklist. Tells whether a mine was opened.
///
/// `rest` holds the cells that are not opened; what comes back holds those
/// that are not opened afterwards, and has shrunk by at least as much as the
/// worklist has grown.
fn open_around(
    cells: &mut Vec<Vec<Cell>>,
    numbers: &Vec<Vec<u8>>,
    x: usize,
    y: usize,
    stack: &mut Vec<(usize, usize)>,
    Ghost(start): Ghost<Seq<Seq<Cell>>>,
    Ghost(rest): Ghost<Set<(int, int)>>,
) -> (out: (bool, Ghost<Set<(int, int)>>))
    requires
        grows(start, grid_view(*old(cells))),
        counts_match(start, grid_view(*numbers)),
        rest.finite(),
        covers(grid_view(*old(cells)), rest),
        all_opened(grid_view(*old(cells)), old(stack)@),
        old(stack)@.no_duplicates(),
    ensures
        scanning(
            start,
            grid_view(*old(cells)),
            grid_view(*final(cells)),
            old(stack)@,
            final(stack)@,
            x as int,
            y as int,
            x + 2,
            y - 1,
            out.0,
        ),
        grows(start, grid_view(*final(cells))),
        out.1@.finite(),
        covers(grid_view(*final(cells)), out.1@),
        out.1@.len() + final(stack)@.len() <= rest.len() + old(stack)@.len(),
{
    let ghost before = grid_view(*cells);
    let ghost waiting = stack@;
    let ghost mut left = rest;
    let mut lost = false;
    let mut nx: usize = min_coord(x);
    proof {
        lemma_scan_begins(start, before, waiting, x as int, y as int, x - 1);
        if nx != x - 1 {
            reveal(scanning);
        }
    }
    while nx < cells.len() && (nx <= x || nx - x <= 1)
        invariant
            grows(start, before),
            grows(start, grid_view(*cells)),
            counts_match(start, grid_view(*numbers)),
            x - 1 <= nx <= x + 2,
            scanning(
                start,
                before,
                grid_view(*cells),
                waiting,
                stack@,
                x as int,
                y as int,
                nx as int,
                y - 1,
                lost,
            ),
            left.finite(),
            covers(grid_view(*cells), left),
            left.len() + stack@.len() <= rest.len() + waiting.len(),
        decreases x + 2 - nx,
    {
        let mut ny: usize = min_coord(y);
        proof {
            lemma_scan_enters_column(
                start,
                before,
                grid_view(*cells),
                waiting,
                stack@,
                x as int,
                y as int,
                nx as int,
                ny as int,
                lost,
            );
        }
        while ny < cells[nx].len() && (ny <= y || ny - y <= 1)
            invariant
                grows(start, before),
                grows(start, grid_view(*cells)),
                counts_match(start, grid_view(*numbers)),
                nx < cells.len(),
                x - 1 <= nx <= x + 1,
                y - 1 <= ny <= y + 2,
                scanning(
                    start,
                    before,
                    grid_view(*cells),
                    waiting,
                    stack@,
                    x as int,
                    y as int,
                    nx as int,
                    ny as int,
                    lost,
                ),
                left.finite(),
                covers(grid_view(*cells), left),
                left.len() + stack@.len() <= rest.len() + waiting.len(),
            decreases y + 2 - ny,
        {
            let ghost now = grid_view(*cells);
            let ghost piled = stack@;
            let cell = cells[nx][ny];
            assert(in_bounds(start, nx as int, ny as int));
            assert(in_bounds(now, nx as int, ny as int));
            assert(cell == now[nx as int][ny as int]);
            if !(nx == x && ny == y) && !cell.opened && !cell.flagged {
                mark_opened(cells, nx, ny);
                let mine = cell.value == CellValue::Mine;
                if !mine && numbers[nx][ny] == 0 {
                    stack.push((nx, ny));
                }
                proof {
                    lemma_scan_opens(
                        start,
                        before,
                        now,
                        waiting,
                        piled,
                        stack@,
                        x as int,
                        y as int,
                        nx,
                        ny,
                        lost,
                        lost || mine,
                    );
                    lemma_covers_opened(now, left, nx as int, ny as int);
                    left = left.remove((nx as int, ny as int));
                }
                lost = lost || mine;
            } else {
                proof {
                    lemma_scan_passes(
                        start,
                        before,
                        now,
                        waiting,
                        piled,
                        x as int,
                        y as int,
                        nx as int,
                        ny as int,
                        lost,
                    );
                }
            }
            ny += 1;
        }
        proof {
            assert(grid_view(*cells)[nx as int].len() == start[nx as int].len());
            lemma_scan_leaves_column(
                start,
                before,
                grid_view(*cells),
                waiting,
                stack@,
                x as int,
                y as int,
                nx as int,
                ny as int,
                lost,
            );
        }
        nx += 1;
    }
    proof {
        if nx != x + 2 {
            reveal(scanning);
            assert forall|cx: int, cy: int| is_neighbour(start, x as int, y as int, cx, cy) implies (scanned(
                x + 2,
                y - 1,
                cx,
                cy,
            ) <==> scanned(nx as int, y - 1, cx, cy)) by {}
        }
    }
    (lost, Ghost(left))
}

/// After the neighbours of a waiting cell were opened, the reveal is still
/// under way, with that cell off the worklist.
proof fn lemma_flooding_goes_on(
    start: Seq<Seq<Cell>>,
    roots: Set<(int, int)>,
    before: Seq<Seq<Cell>>,
    now: Seq<Seq<Cell>>,
    waiting: Seq<(usize, usize)>,
    stack: Seq<(usize, usize)>,
    x: usize,
    y: usize,
    lost: bool,
)
    requires
        flooding(start, roots, before, waiting.push((x, y))),
        roots_done(start, roots, before),
        scanning(start, before, now, waiting, stack, x as int, y as int, x + 2, y - 1, lost),
    ensures
        flooding(start, roots, now, stack),
        roots_done(start, roots, now),
        !lost,
        grows(before, now),
        forall|cx: int, cy: int| #[trigger]
            in_bounds(before, cx, cy) && before[cx][cy].opened && !on_stack(waiting, cx, cy) ==> !on_stack(
                stack,
                cx,
                cy,
            ),
{
    reveal(flooding);
    reveal(scanning);
    let full = waiting.push((x, y));
    assert forall|cx: int, cy: int| #[trigger]
        in_bounds(before, cx, cy) && before[cx][cy].opened && !on_stack(waiting, cx, cy) implies !on_stack(
        stack,
        cx,
        cy,
    ) by {
        if on_stack(stack, cx, cy) {
            let i = choose|i: int| 0 <= i < stack.len() && (#[trigger] stack[i]).0 == cx && stack[i].1 == cy;
            if i < waiting.len() {
                assert(stack[i] == stack.subrange(0, waiting.len() as int)[i]);
                assert(waiting[i].0 == cx && waiting[i].1 == cy);
            }
        }
    }
    assert(full[waiting.len() as int] == (x, y));
    assert(spreads(start, x as int, y as int));
    assert(before[x as int][y as int].opened);
    assert(in_bounds(start, x as int, y as int));
    assert(reveals(start, roots, x as int, y as int));
    assert(grows(start, now)) by {
        assert forall|cx: int| 0 <= cx < start.len() implies (#[trigger] now[cx]).len() == start[cx].len() by {
            assert(before[cx].len() == start[cx].len());
        }
        assert forall|cx: int, cy: int| #[trigger] in_bounds(start, cx, cy) implies {
            &&& now[cx][cy].value == start[cx][cy].value
            &&& now[cx][cy].flagged == start[cx][cy].flagged
            &&& start[cx][cy].opened ==> now[cx][cy].opened
        } by {
            assert(in_bounds(before, cx, cy));
        }
    }
    assert forall|cx: int, cy: int| #[trigger]
        in_bounds(start, cx, cy) && now[cx][cy].opened && !start[cx][cy].opened implies reveals(
        start,
        roots,
        cx,
        cy,
    ) by {
        assert(in_bounds(before, cx, cy));
        if !before[cx][cy].opened {
            lemma_reveal_spreads(start, roots, x as int, y as int, cx, cy);
        }
    }
    assert forall|i: int| 0 <= i < stack.len() implies {
        &&& spreads(start, (#[trigger] stack[i]).0 as int, stack[i].1 as int)
        &&& now[stack[i].0 as int][stack[i].1 as int].opened
    } by {
        if i < waiting.len() {
            assert(stack[i] == stack.subrange(0, waiting.len() as int)[i]);
            assert(stack[i] == full[i]);
            assert(in_bounds(before, stack[i].0 as int, stack[i].1 as int));
        }
    }
    assert forall|cx: int, cy: int| #[trigger]
        spreads(start, cx, cy) && now[cx][cy].opened && !on_stack(stack, cx, cy) implies around_done(
        start,
        now,
        cx,
        cy,
    ) by {
        assert(in_bounds(before, cx, cy));
        if cx == x && cy == y {
            assert forall|nx: int, ny: int| #[trigger]
                is_neighbour(start, cx, cy, nx, ny) && openable(start, nx, ny) implies now[nx][ny].opened by {
                assert(in_bounds(before, nx, ny));
                assert(scanned(x + 2, y - 1, nx, ny));
            }
        } else {
            assert(before[cx][cy].opened);
            if on_stack(full, cx, cy) {
                let i = choose|i: int| 0 <= i < full.len() && (#[trigger] full[i]).0 == cx && full[i].1 == cy;
                assert(i < waiting.len());
                assert(stack[i] == stack.subrange(0, waiting.len() as int)[i]);
                assert(stack[i] == full[i]);
                assert(on_stack(stack, cx, cy));
            }
            assert(around_done(start, before, cx, cy));
            assert forall|nx: int, ny: int| #[trigger]
                is_neighbour(start, cx, cy, nx, ny) && openable(start, nx, ny) implies now[nx][ny].opened by {
                assert(in_bounds(before, nx, ny));
            }
        }
    }
    assert forall|r: (int, int)| #[trigger]
        roots.contains(r) && openable(start, r.0, r.1) implies now[r.0][r.1].opened by {
        assert(in_bounds(before, r.0, r.1));
    }
    if lost {
        let (cx, cy) = choose|cx: int, cy: int| #[trigger]
            is_neighbour(start, x as int, y as int, cx, cy) && openable(before, cx, cy) && before[cx][cy].value
                == CellValue::Mine;
        assert(in_bounds(start, cx, cy));
        lemma_no_mine_around(start, x as int, y as int, cx, cy);
    }
}

/// After the neighbours of `(x, y)` were opened on the grid `start`, a reveal
/// of those neighbours is under way, and a mine was opened exactly if one was
/// in reach.
proof fn lemma_flooding_begins(
    start: Seq<Seq<Cell>>,
    now: Seq<Seq<Cell>>,
    stack: Seq<(usize, usize)>,
    x: int,
    y: int,
    lost: bool,
)
    requires
        scanning(start, start, now, Seq::empty(), stack, x, y, x + 2, y - 1, lost),
    ensures
        flooding(start, neighbours_of(start, x, y), now, stack),
        roots_done(start, neighbours_of(start, x, y), now),
        lost == mine_in_reach(start, x, y),
{
    reveal(flooding);
    reveal(scanning);
    let roots = neighbours_of(start, x, y);
    assert forall|cx: int, cy: int| #[trigger]
        in_bounds(start, cx, cy) && now[cx][cy].opened && !start[cx][cy].opened implies reveals(
        start,
        roots,
        cx,
        cy,
    ) by {
        assert(roots.contains((cx, cy)));
        lemma_reveal_root(start, roots, cx, cy);
    }
    assert forall|cx: int, cy: int| #[trigger]
        spreads(start, cx, cy) && now[cx][cy].opened && !on_stack(stack, cx, cy) implies around_done(
        start,
        now,
        cx,
        cy,
    ) by {
        assert(in_bounds(start, cx, cy));
    }
    assert forall|r: (int, int)| #[trigger]
        roots.contains(r) && openable(start, r.0, r.1) implies now[r.0][r.1].opened by {
        assert(is_neighbour(start, x, y, r.0, r.1));
        assert(scanned(x + 2, y - 1, r.0, r.1));
    }
    if !lost {
        assert forall|cx: int, cy: int| #[trigger] is_neighbour(start, x, y, cx, cy) implies !(openable(start, cx, cy)
            && start[cx][cy].value == CellValue::Mine) by {
            assert(scanned(x + 2, y - 1, cx, cy));
        }
    }
}

/// Whether the cells in `visited` were taken from the worklist for good:
/// none of them occurs twice, each is an opened cell that spreads, and none
/// waits on the worklist.
#[verifier::opaque]
spec fn visited_once(
    start: Seq<Seq<Cell>>,
    now: Seq<Seq<Cell>>,
    stack: Seq<(usize, usize)>,
    visited: Seq<(usize, usize)>,
) -> bool {
    &&& visited.no_duplicates()
    &&& forall|i: int|
        0 <= i < visited.len() ==> {
            &&& spreads(start, (#[trigger] visited[i]).0 as int, visited[i].1 as int)
            &&& now[visited[i].0 as int][visited[i].1 as int].opened
            &&& !on_stack(stack, visited[i].0 as int, visited[i].1 as int)
        }
}

/// Works the worklist off: opens the neighbours of each waiting cell, and of
/// each cell that comes to wait on the way, until none is left.
///
/// What comes back are the cells whose neighbours were gone through, in that
/// order: no cell is visited twice, however the cells without mines around
/// them lie to each other.
fn spread(
    cells: &mut Vec<Vec<Cell>>,
    numbers: &Vec<Vec<u8>>,
    stack: Vec<(usize, usize)>,
    Ghost(start): Ghost<Seq<Seq<Cell>>>,
    Ghost(roots): Ghost<Set<(int, int)>>,
) -> (visits: Ghost<Seq<(usize, usize)>>)
    requires
        counts_match(start, grid_view(*numbers)),
        flooding(start, roots, grid_view(*old(cells)), stack@),
        roots_done(start, roots, grid_view(*old(cells))),
    ensures
        grid_view(*final(cells)) == after_reveal(start, roots),
        visits@.no_duplicates(),
        forall|i: int|
            0 <= i < visits@.len() ==> spreads(start, (#[trigger] visits@[i]).0 as int, visits@[i].1 as int),
{
    let mut stack = stack;
    let ghost mut left = positions(start);
    let ghost mut visited = Seq::<(usize, usize)>::empty();
    proof {
        reveal(visited_once);
        reveal(flooding);
        lemma_positions_cover(start);
        assert(covers(grid_view(*cells), left)) by {
            assert forall|x: int, y: int| #[trigger] in_bounds(grid_view(*cells), x, y) implies left.contains(
                (x, y),
            ) by {
                assert(grid_view(*cells)[x].len() == start[x].len());
            }
        }
    }
    while stack.len() > 0
        invariant
            counts_match(start, grid_view(*numbers)),
            flooding(start, roots, grid_view(*cells), stack@),
            roots_done(start, roots, grid_view(*cells)),
            left.finite(),
            covers(grid_view(*cells), left),
            visited_once(start, grid_view(*cells), stack@, visited),
        decreases left.len() + stack@.len(),
    {
        let ghost before = grid_view(*cells);
        let ghost full = stack@;
        let (x, y) = stack.pop().unwrap();
        let ghost waiting = stack@;
        proof {
            assert(full =~= waiting.push((x, y)));
            lemma_flooding_popped(start, roots, before, waiting, x, y);
        }
        let (lost, Ghost(rest)) = open_around(cells, numbers, x, y, &mut stack, Ghost(start), Ghost(left));
        proof {
            lemma_flooding_goes_on(start, roots, before, grid_view(*cells), waiting, stack@, x, y, lost);
            lemma_visit_is_new(start, before, grid_view(*cells), waiting, stack@, visited, x, y);
            left = rest;
            visited = visited.push((x, y));
        }
    }
    proof {
        assert(stack@ =~= Seq::<(usize, usize)>::empty());
        lemma_flood_complete(start, roots, grid_view(*cells));
        reveal(visited_once);
    }
    Ghost(visited)
}

/// With a cell taken from the worklist, the rest of the worklist still holds
/// opened cells, each once.
proof fn lemma_flooding_popped(
    start: Seq<Seq<Cell>>,
    roots: Set<(int, int)>,
    now: Seq<Seq<Cell>>,
    waiting: Seq<(usize, usize)>,
    x: usize,
    y: usize,
)
    requires
        flooding(start, roots, now, waiting.push((x, y))),
    ensures
        grows(start, now),
        all_opened(now, waiting),
        waiting.no_duplicates(),
        waiting.push((x, y)).no_duplicates(),
        spreads(start, x as int, y as int),
        now[x as int][y as int].opened,
{
    reveal(flooding);
    let full = waiting.push((x, y));
    assert(full[waiting.len() as int] == (x, y));
    assert forall|i: int| 0 <= i < waiting.len() implies {
        &&& in_bounds(now, (#[trigger] waiting[i]).0 as int, waiting[i].1 as int)
        &&& now[waiting[i].0 as int][waiting[i].1 as int].opened
    } by {
        assert(full[i] == waiting[i]);
        assert(in_bounds(start, waiting[i].0 as int, waiting[i].1 as int));
    }
    assert forall|i: int, j: int| 0 <= i < waiting.len() && 0 <= j < waiting.len() && i != j implies waiting[i]
        != waiting[j] by {
        assert(full[i] == waiting[i]);
        assert(full[j] == waiting[j]);
    }
}

/// The cell that was taken from the worklist had not been visited, and
/// after its neighbours were gone through no visited cell waits again.
proof fn lemma_visit_is_new(
    start: Seq<Seq<Cell>>,
    before: Seq<Seq<Cell>>,
    now: Seq<Seq<Cell>>,
    waiting: Seq<(usize, usize)>,
    stack: Seq<(usize, usize)>,
    visited: Seq<(usize, usize)>,
    x: usize,
    y: usize,
)
    requires
        visited_once(start, before, waiting.push((x, y)), visited),
        waiting.push((x, y)).no_duplicates(),
        spreads(start, x as int, y as int),
        before[x as int][y as int].opened,
        grows(start, before),
        grows(before, now),
        forall|cx: int, cy: int| #[trigger]
            in_bounds(before, cx, cy) && before[cx][cy].opened && !on_stack(waiting, cx, cy) ==> !on_stack(
                stack,
                cx,
                cy,
            ),
    ensures
        visited_once(start, now, stack, visited.push((x, y))),
{
    reveal(visited_once);
    let full = waiting.push((x, y));
    let longer = visited.push((x, y));
    assert(full[waiting.len() as int] == (x, y));
    assert(on_stack(full, x as int, y as int));
    assert forall|cx: int, cy: int| on_stack(waiting, cx, cy) implies on_stack(full, cx, cy) by {
        let i = choose|i: int| 0 <= i < waiting.len() && (#[trigger] waiting[i]).0 == cx && waiting[i].1 == cy;
        assert(full[i] == waiting[i]);
    }
    assert(!on_stack(waiting, x as int, y as int)) by {
        if on_stack(waiting, x as int, y as int) {
            let i = choose|i: int|
                0 <= i < waiting.len() && (#[trigger] waiting[i]).0 == x as int && waiting[i].1 == y as int;
            assert(full[i] == waiting[i]);
            assert(full[i] == full[waiting.len() as int]);
        }
    }
    assert forall|i: int| 0 <= i < visited.len() implies visited[i] != (x, y) by {
        assert(!on_stack(full, visited[i].0 as int, visited[i].1 as int));
    }
    assert forall|i: int| 0 <= i < longer.len() implies {
        &&& spreads(start, (#[trigger] longer[i]).0 as int, longer[i].1 as int)
        &&& now[longer[i].0 as int][longer[i].1 as int].opened
        &&& !on_stack(stack, longer[i].0 as int, longer[i].1 as int)
    } by {
        let cx = longer[i].0 as int;
        let cy = longer[i].1 as int;
        if i < visited.len() {
            assert(longer[i] == visited[i]);
            assert(!on_stack(full, cx, cy));
        }
        assert(in_bounds(start, cx, cy));
        assert(in_bounds(before, cx, cy));
    }
}

/// Every position of the grid is in the finite set of its positions.
proof fn lemma_positions_cover(grid: Seq<Seq<Cell>>)
    ensures
        positions(grid).finite(),
        covers(grid, positions(grid)),
{
    lemma_positions_before_finite(grid, grid.len() as int);
    assert(positions(grid) =~= positions_before(grid, grid.len() as int));
}

/// The reveal of one cell under way, right after the cell itself was dealt
/// with.
proof fn lemma_flooding_single(
    start: Seq<Seq<Cell>>,
    now: Seq<Seq<Cell>>,
    stack: Seq<(usize, usize)>,
    x: usize,
    y: usize,
)
    requires
        in_bounds(start, x as int, y as int),
        now == if openable(start, x as int, y as int) {
            with_opened(start, x as int, y as int)
        } else {
            start
        },
        stack == if spreads(start, x as int, y as int) {
            seq![(x, y)]
        } else {
            Seq::<(usize, usize)>::empty()
        },
    ensures
        flooding(start, set![(x as int, y as int)], now, stack),
        roots_done(start, set![(x as int, y as int)], now),
{
    reveal(flooding);
    let roots = set![(x as int, y as int)];
    assert(roots.contains((x as int, y as int)));
    assert(grows(start, now));
    assert forall|cx: int, cy: int| #[trigger]
        in_bounds(start, cx, cy) && now[cx][cy].opened && !start[cx][cy].opened implies reveals(
        start,
        roots,
        cx,
        cy,
    ) by {
        assert(cx == x && cy == y);
        lemma_reveal_root(start, roots, cx, cy);
    }
    assert forall|cx: int, cy: int| #[trigger]
        spreads(start, cx, cy) && now[cx][cy].opened && !on_stack(stack, cx, cy) implies around_done(
        start,
        now,
        cx,
        cy,
    ) by {
        assert(cx == x && cy == y);
        assert(stack[0] == (x, y));
        assert(on_stack(stack, cx, cy));
    }
}

/// Reveals the cell at `(x, y)`: opens it unless it is opened or flagged,
/// and lets the reveal spread from it. Tells whether a mine was opened, and
/// which cells had their neighbours gone through: none of them twice.
pub(crate) fn reveal_at(cells: &mut Vec<Vec<Cell>>, numbers: &Vec<Vec<u8>>, x: usize, y: usize) -> (out: (
    bool,
    Ghost<Seq<(usize, usize)>>,
))
    requires
        counts_match(grid_view(*old(cells)), grid_view(*numbers)),
        in_bounds(grid_view(*old(cells)), x as int, y as int),
    ensures
        grid_view(*final(cells)) == after_reveal(grid_view(*old(cells)), set![(x as int, y as int)]),
        counts_match(grid_view(*final(cells)), grid_view(*numbers)),
        out.0 == (openable(grid_view(*old(cells)), x as int, y as int) && grid_view(
            *old(cells),
        )[x as int][y as int].value == CellValue::Mine),
        out.1@.no_duplicates(),
        forall|i: int|
            0 <= i < out.1@.len() ==> spreads(
                grid_view(*old(cells)),
                (#[trigger] out.1@[i]).0 as int,
                out.1@[i].1 as int,
            ),
{
    let ghost start = grid_view(*cells);
    let cell = cells[x][y];
    let mut stack: Vec<(usize, usize)> = Vec::new();
    let mut lost = false;
    if !cell.opened && !cell.flagged {
        mark_opened(cells, x, y);
        match cell.value {
            CellValue::Mine => {
                lost = true;
            },
            CellValue::Water => {
                if numbers[x][y] == 0 {
                    stack.push((x, y));
                }
            },
        }
    }
    proof {
        assert(stack@ =~= if spreads(start, x as int, y as int) {
            seq![(x, y)]
        } else {
            Seq::<(usize, usize)>::empty()
        });
        lemma_flooding_single(start, grid_view(*cells), stack@, x, y);
    }
    let ghost roots = set![(x as int, y as int)];
    let visits = spread(cells, numbers, stack, Ghost(start), Ghost(roots));
    proof {
        lemma_reveal_grows(start, roots);
        lemma_counts_stay(start, grid_view(*cells), grid_view(*numbers));
    }
    (lost, visits)
}

/// Chords the cell at `(x, y)`: where the cell is opened and as many flags
/// as mines lie around it, reveals all its neighbours. Tells whether a mine
/// was opened, and which cells had their neighbours gone through after the
/// first round: none of them twice.
pub(crate) fn chord_at(cells: &mut Vec<Vec<Cell>>, numbers: &Vec<Vec<u8>>, x: usize, y: usize) -> (out: (
    bool,
    Ghost<Seq<(usize, usize)>>,
))
    requires
        counts_match(grid_view(*old(cells)), grid_view(*numbers)),
        in_bounds(grid_view(*old(cells)), x as int, y as int),
    ensures
        grid_view(*final(cells)) == after_chord(grid_view(*old(cells)), x as int, y as int),
        counts_match(grid_view(*final(cells)), grid_view(*numbers)),
        out.0 == (chord_applies(grid_view(*old(cells)), x as int, y as int) && mine_in_reach(
            grid_view(*old(cells)),
            x as int,
            y as int,
        )),
        out.1@.no_duplicates(),
        forall|i: int|
            0 <= i < out.1@.len() ==> spreads(
                grid_view(*old(cells)),
                (#[trigger] out.1@[i]).0 as int,
                out.1@[i].1 as int,
            ),
{
    let ghost start = grid_view(*cells);
    if !cells[x][y].opened {
        return (false, Ghost(Seq::empty()));
    }
    let flags = do_with_neighbours(cells, x, y, Probe::Flags);
    if numbers[x][y] != flags {
        return (false, Ghost(Seq::empty()));
    }
    let mut stack: Vec<(usize, usize)> = Vec::new();
    proof {
        lemma_positions_cover(start);
    }
    let ghost all = positions(start);
    let (lost, Ghost(_rest)) = open_around(cells, numbers, x, y, &mut stack, Ghost(start), Ghost(all));
    proof {
        lemma_flooding_begins(start, grid_view(*cells), stack@, x as int, y as int, lost);
    }
    let visits = spread(cells, numbers, stack, Ghost(start), Ghost(neighbours_of(start, x as int, y as int)));
    proof {
        lemma_reveal_grows(start, neighbours_of(start, x as int, y as int));
        lemma_counts_stay(start, grid_view(*cells), grid_view(*numbers));
    }
    (lost, visits)
}

} // verus!
