use mines::CellValue::{Mine, Water};
use mines::{Action, Cell, CellValue, Face, Field, MinesError};

fn cells_from_types(types: Vec<Vec<CellValue>>) -> Vec<Vec<Cell>> {
    types
        .into_iter()
        .map(|c| {
            c.into_iter()
                .map(|v| Cell {
                    value: v,
                    opened: false,
                    flagged: false,
                })
                .collect()
        })
        .collect()
}

fn opened(field: &Field) -> Vec<Vec<bool>> {
    field
        .cells()
        .iter()
        .map(|col| col.iter().map(|cell| cell.opened).collect())
        .collect()
}

fn flagged(field: &Field) -> Vec<Vec<bool>> {
    field
        .cells()
        .iter()
        .map(|col| col.iter().map(|cell| cell.flagged).collect())
        .collect()
}

fn corner_mine() -> Field {
    Field::with_cells(cells_from_types(vec![
        vec![Mine, Water, Water],
        vec![Water, Water, Water],
        vec![Water, Water, Water],
    ]))
}

#[test]
fn with_cells() {
    let cells = cells_from_types(vec![
        vec![Water, Water, Mine],
        vec![Mine, Water, Water],
        vec![Mine, Water, Mine],
    ]);
    let field = Field::with_cells(cells);
    let numbers = vec![vec![1, 2, 0], vec![1, 4, 2], vec![1, 3, 0]];
    assert_eq!(&numbers, field.numbers());
}

#[test]
fn flag_cell() {
    let cells = cells_from_types(vec![vec![Water, Mine], vec![Water, Water]]);
    let mut field = Field::with_cells(cells);
    field.flag(1, 0).unwrap();
    assert!(field.cells().get(1).unwrap().get(0).unwrap().flagged);
    field.flag(1, 0).unwrap();
    assert!(!field.cells().get(1).unwrap().get(0).unwrap().flagged);
}

#[test]
fn with_cells_keeps_the_cells() {
    let mut cells = cells_from_types(vec![vec![Water, Mine], vec![Water, Water]]);
    cells[0][0].opened = true;
    cells[1][1].flagged = true;
    let field = Field::with_cells(cells.clone());
    assert_eq!(&cells, field.cells());
}

#[test]
fn with_cells_empty() {
    let field = Field::with_cells(vec![]);
    assert!(field.cells().is_empty());
    assert!(field.numbers().is_empty());
    assert!(field.is_won());
}

#[test]
fn flag_out_of_bounds() {
    let mut field = corner_mine();
    assert_eq!(Err(MinesError::OutOfBounds(3, 0)), field.flag(3, 0));
    assert_eq!(Err(MinesError::OutOfBounds(0, 3)), field.flag(0, 3));
    assert_eq!(vec![vec![false; 3]; 3], flagged(&field));
}

#[test]
fn flag_opened_cell_is_no_op() {
    let mut field = corner_mine();
    field.open(1, 1).unwrap();
    assert_eq!(Ok(()), field.flag(1, 1));
    assert!(!field.cells()[1][1].flagged);
    assert!(field.cells()[1][1].opened);
}

#[test]
fn open_out_of_bounds() {
    let mut field = corner_mine();
    assert_eq!(Err(MinesError::OutOfBounds(3, 1)), field.open(3, 1));
    assert_eq!(Err(MinesError::OutOfBounds(1, 7)), field.open(1, 7));
    assert_eq!(vec![vec![false; 3]; 3], opened(&field));
}

#[test]
fn open_numbered_cell_opens_only_it() {
    let mut field = corner_mine();
    assert_eq!(Ok(()), field.open(1, 1));
    assert_eq!(
        vec![
            vec![false, false, false],
            vec![false, true, false],
            vec![false, false, false]
        ],
        opened(&field)
    );
}

#[test]
fn open_flagged_cell_stays_concealed() {
    let mut field = corner_mine();
    field.flag(2, 2).unwrap();
    assert_eq!(Ok(()), field.open(2, 2));
    assert_eq!(vec![vec![false; 3]; 3], opened(&field));
    field.flag(0, 0).unwrap();
    assert_eq!(Ok(()), field.open(0, 0));
    assert_eq!(vec![vec![false; 3]; 3], opened(&field));
}

#[test]
fn open_twice_is_idempotent() {
    let mut field = corner_mine();
    assert_eq!(Ok(()), field.open(2, 2));
    let once = field.cells().clone();
    assert_eq!(Ok(()), field.open(2, 2));
    assert_eq!(&once, field.cells());
}

#[test]
fn open_mine_fails_and_opens_it() {
    let mut field = corner_mine();
    assert_eq!(Err(MinesError::MineOpened), field.open(0, 0));
    assert_eq!(
        vec![
            vec![true, false, false],
            vec![false, false, false],
            vec![false, false, false]
        ],
        opened(&field)
    );
    assert_eq!(Ok(()), field.open(0, 0));
}

#[test]
fn open_mine_without_mines_around_does_not_cascade() {
    let mut field = Field::with_cells(cells_from_types(vec![
        vec![Mine, Water, Water],
        vec![Water, Water, Water],
    ]));
    assert_eq!(0, field.numbers()[0][0]);
    assert_eq!(Err(MinesError::MineOpened), field.open(0, 0));
    assert_eq!(vec![vec![true, false, false], vec![false, false, false]], opened(&field));
}

#[test]
fn cascade_opens_region_and_border() {
    let mut field = corner_mine();
    assert_eq!(Ok(()), field.open(2, 2));
    assert_eq!(
        vec![
            vec![false, true, true],
            vec![true, true, true],
            vec![true, true, true]
        ],
        opened(&field)
    );
    assert!(field.is_won());
}

#[test]
fn cascade_stops_at_numbers() {
    let mut field = Field::with_cells(cells_from_types(vec![vec![
        Water, Water, Water, Mine, Water, Water, Water,
    ]]));
    assert_eq!(&vec![vec![0u8, 0, 1, 0, 1, 0, 0]], field.numbers());
    assert_eq!(Ok(()), field.open(0, 0));
    assert_eq!(vec![vec![true, true, true, false, false, false, false]], opened(&field));
    assert!(!field.is_won());
    assert_eq!(Ok(()), field.open(0, 6));
    assert_eq!(vec![vec![true, true, true, false, true, true, true]], opened(&field));
    assert!(field.is_won());
}

#[test]
fn cascade_goes_round_a_ring() {
    let mut field = Field::with_cells(cells_from_types(vec![
        vec![Water, Water, Water, Water, Water],
        vec![Water, Water, Water, Water, Water],
        vec![Water, Water, Mine, Water, Water],
        vec![Water, Water, Water, Water, Water],
        vec![Water, Water, Water, Water, Water],
    ]));
    assert_eq!(Ok(()), field.open(0, 0));
    let mut expected = vec![vec![true; 5]; 5];
    expected[2][2] = false;
    assert_eq!(expected, opened(&field));
}

#[test]
fn cascade_passes_over_flags() {
    let mut field = Field::with_cells(cells_from_types(vec![vec![Water, Water, Water, Water, Water]]));
    field.flag(0, 2).unwrap();
    assert_eq!(Ok(()), field.open(0, 0));
    assert_eq!(vec![vec![true, true, false, false, false]], opened(&field));
    assert_eq!(vec![vec![false, false, true, false, false]], flagged(&field));
    field.flag(0, 2).unwrap();
    assert_eq!(Ok(()), field.open(0, 4));
    assert_eq!(vec![vec![true; 5]], opened(&field));
}

#[test]
fn cascade_on_large_board() {
    let mut field = Field::with_cells(vec![vec![Cell::water(); 300]; 300]);
    assert_eq!(Ok(()), field.open(150, 150));
    assert!(field.is_won());
}

#[test]
fn chord_out_of_bounds() {
    let mut field = corner_mine();
    assert_eq!(Err(MinesError::OutOfBounds(5, 5)), field.chord(5, 5));
}

#[test]
fn chord_on_concealed_cell_is_no_op() {
    let mut field = corner_mine();
    field.flag(0, 0).unwrap();
    let before = field.cells().clone();
    assert_eq!(Ok(()), field.chord(1, 1));
    assert_eq!(&before, field.cells());
}

#[test]
fn chord_unsatisfied_is_no_op() {
    let mut field = corner_mine();
    field.open(1, 1).unwrap();
    let before = field.cells().clone();
    assert_eq!(Ok(()), field.chord(1, 1));
    assert_eq!(&before, field.cells());
    field.flag(0, 0).unwrap();
    field.flag(2, 2).unwrap();
    let before = field.cells().clone();
    assert_eq!(Ok(()), field.chord(1, 1));
    assert_eq!(&before, field.cells());
}

#[test]
fn chord_satisfied_opens_neighbours() {
    let mut field = corner_mine();
    field.open(1, 1).unwrap();
    field.flag(0, 0).unwrap();
    assert_eq!(Ok(()), field.chord(1, 1));
    assert_eq!(
        vec![
            vec![false, true, true],
            vec![true, true, true],
            vec![true, true, true]
        ],
        opened(&field)
    );
    assert!(field.is_won());
}

#[test]
fn chord_cascades_from_neighbours() {
    let mut field = Field::with_cells(cells_from_types(vec![
        vec![Mine, Water, Water, Water, Water],
        vec![Water, Water, Water, Water, Water],
        vec![Water, Water, Water, Water, Water],
    ]));
    field.open(1, 1).unwrap();
    field.flag(0, 0).unwrap();
    assert_eq!(Ok(()), field.chord(1, 1));
    let mut expected = vec![vec![true; 5]; 3];
    expected[0][0] = false;
    assert_eq!(expected, opened(&field));
}

#[test]
fn chord_with_wrong_flag_opens_mine() {
    let mut field = corner_mine();
    field.open(1, 1).unwrap();
    field.flag(2, 2).unwrap();
    assert_eq!(Err(MinesError::MineOpened), field.chord(1, 1));
    assert_eq!(
        vec![
            vec![true, true, true],
            vec![true, true, true],
            vec![true, true, false]
        ],
        opened(&field)
    );
}

#[test]
fn chord_at_the_edge() {
    let mut field = Field::with_cells(cells_from_types(vec![vec![Water, Water], vec![Water, Mine]]));
    field.open(0, 0).unwrap();
    field.flag(1, 1).unwrap();
    assert_eq!(Ok(()), field.chord(0, 0));
    assert_eq!(vec![vec![true, true], vec![true, false]], opened(&field));
    let mut field = Field::with_cells(cells_from_types(vec![vec![Mine, Water], vec![Water, Water]]));
    field.open(1, 1).unwrap();
    field.flag(0, 0).unwrap();
    assert_eq!(Ok(()), field.chord(1, 1));
    assert_eq!(vec![vec![false, true], vec![true, true]], opened(&field));
}

#[test]
fn is_won_needs_every_water_cell() {
    let mut field = Field::with_cells(cells_from_types(vec![vec![Water, Mine, Water]]));
    assert!(!field.is_won());
    field.open(0, 0).unwrap();
    assert!(!field.is_won());
    field.open(0, 2).unwrap();
    assert!(field.is_won());
}

#[test]
fn is_won_ignores_mines_and_flags() {
    let mut field = Field::with_cells(cells_from_types(vec![vec![Water, Mine, Water]]));
    field.open(0, 0).unwrap();
    field.open(0, 2).unwrap();
    field.flag(0, 1).unwrap();
    assert!(field.is_won());
    field.flag(0, 1).unwrap();
    assert_eq!(Err(MinesError::MineOpened), field.open(0, 1));
    assert!(field.is_won());
    let only_mines = Field::with_cells(cells_from_types(vec![vec![Mine, Mine]]));
    assert!(only_mines.is_won());
}

#[test]
fn face_of_each_kind() {
    let mut field = corner_mine();
    assert_eq!(Ok(Face::Concealed), field.face(1, 1));
    field.open(1, 1).unwrap();
    assert_eq!(Ok(Face::Number(1)), field.face(1, 1));
    field.flag(2, 2).unwrap();
    assert_eq!(Ok(Face::Flagged), field.face(2, 2));
    let _ = field.open(0, 0);
    assert_eq!(Ok(Face::Mine), field.face(0, 0));
    assert_eq!(Err(MinesError::OutOfBounds(3, 3)), field.face(3, 3));
    field.flag(2, 2).unwrap();
    field.open(2, 2).unwrap();
    assert_eq!(Ok(Face::Number(0)), field.face(2, 2));
}

#[test]
fn apply_each_action() {
    let mut field = corner_mine();
    assert_eq!(Ok(()), field.apply(Action::Flag(0, 0)));
    assert!(field.cells()[0][0].flagged);
    assert_eq!(Ok(()), field.apply(Action::Reveal(1, 1)));
    assert!(field.cells()[1][1].opened);
    assert_eq!(Ok(()), field.apply(Action::Chord(1, 1)));
    assert!(field.is_won());
    assert_eq!(Err(MinesError::OutOfBounds(9, 0)), field.apply(Action::Reveal(9, 0)));
    assert_eq!(Err(MinesError::OutOfBounds(9, 0)), field.apply(Action::Flag(9, 0)));
    assert_eq!(Err(MinesError::OutOfBounds(9, 0)), field.apply(Action::Chord(9, 0)));
    assert_eq!(Ok(()), field.apply(Action::Flag(0, 0)));
    assert_eq!(Err(MinesError::MineOpened), field.apply(Action::Reveal(0, 0)));
}
