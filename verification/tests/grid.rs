use mines::CellValue::{Mine, Water};
use mines::{
    count_neighbours, do_with_neighbours, get_2d, get_2d_mut, min_coord, Cell, CellValue, MinesError, Probe,
};

fn column(values: Vec<CellValue>) -> Vec<Cell> {
    values
        .into_iter()
        .map(|value| Cell {
            value,
            opened: false,
            flagged: false,
        })
        .collect()
}

fn sample() -> Vec<Vec<Cell>> {
    vec![
        column(vec![Water, Water, Mine]),
        column(vec![Mine, Water, Water]),
        column(vec![Mine, Water, Mine]),
    ]
}

#[test]
fn min_coord_steps_back_and_stops_at_zero() {
    assert_eq!(0, min_coord(0));
    assert_eq!(0, min_coord(1));
    assert_eq!(4, min_coord(5));
    assert_eq!(usize::MAX - 1, min_coord(usize::MAX));
}

#[test]
fn get_2d_finds_item() {
    let grid = vec![vec![1u8, 2, 3], vec![4, 5]];
    assert_eq!(Ok(&3), get_2d(&grid, 0, 2));
    assert_eq!(Ok(&4), get_2d(&grid, 1, 0));
}

#[test]
fn get_2d_out_of_bounds() {
    let grid = vec![vec![1u8, 2, 3], vec![4, 5]];
    assert_eq!(Err(MinesError::OutOfBounds(2, 0)), get_2d(&grid, 2, 0));
    assert_eq!(Err(MinesError::OutOfBounds(1, 2)), get_2d(&grid, 1, 2));
    let empty: Vec<Vec<u8>> = vec![];
    assert_eq!(Err(MinesError::OutOfBounds(0, 0)), get_2d(&empty, 0, 0));
}

#[test]
fn get_2d_mut_changes_one_item() {
    let mut grid = vec![vec![1u8, 2, 3], vec![4, 5]];
    *get_2d_mut(&mut grid, 1, 1).unwrap() = 9;
    assert_eq!(vec![vec![1u8, 2, 3], vec![4, 9]], grid);
    assert_eq!(Err(MinesError::OutOfBounds(0, 3)), get_2d_mut(&mut grid, 0, 3).map(|v| *v));
    assert_eq!(vec![vec![1u8, 2, 3], vec![4, 9]], grid);
}

#[test]
fn count_neighbours_on_sample() {
    let cells = sample();
    let expected = vec![vec![1u8, 2, 0], vec![1, 4, 2], vec![1, 3, 0]];
    for x in 0..3u16 {
        for y in 0..3u16 {
            assert_eq!(Ok(expected[x as usize][y as usize]), count_neighbours(&cells, x, y));
        }
    }
}

#[test]
fn count_neighbours_all_eight() {
    let cells = vec![
        column(vec![Mine, Mine, Mine]),
        column(vec![Mine, Mine, Mine]),
        column(vec![Mine, Mine, Mine]),
    ];
    assert_eq!(Ok(8), count_neighbours(&cells, 1, 1));
    assert_eq!(Ok(3), count_neighbours(&cells, 0, 0));
    assert_eq!(Ok(3), count_neighbours(&cells, 2, 2));
    assert_eq!(Ok(5), count_neighbours(&cells, 0, 1));
    assert_eq!(Ok(5), count_neighbours(&cells, 1, 2));
}

#[test]
fn count_neighbours_empty_field() {
    let cells: Vec<Vec<Cell>> = vec![];
    assert_eq!(Err(MinesError::EmptyField), count_neighbours(&cells, 0, 0));
    assert_eq!(Err(MinesError::EmptyField), count_neighbours(&cells, 3, 1));
}

#[test]
fn count_neighbours_column_out_of_bounds() {
    let cells = sample();
    assert_eq!(Err(MinesError::OutOfBounds(3, 0)), count_neighbours(&cells, 3, 0));
}

#[test]
fn count_neighbours_beside_the_grid() {
    let cells = sample();
    assert_eq!(Ok(1), count_neighbours(&cells, 0, 3));
    assert_eq!(Ok(0), count_neighbours(&cells, 0, 4));
}

#[test]
fn count_neighbours_ragged_columns() {
    let cells = vec![column(vec![Water]), column(vec![Water, Mine, Mine]), column(vec![])];
    assert_eq!(Ok(1), count_neighbours(&cells, 0, 0));
    assert_eq!(Ok(1), count_neighbours(&cells, 1, 0));
    assert_eq!(Ok(1), count_neighbours(&cells, 1, 1));
    assert_eq!(Ok(2), count_neighbours(&cells, 2, 1));
}

#[test]
fn do_with_neighbours_counts_flags() {
    let mut cells = sample();
    cells[0][0].flagged = true;
    cells[1][1].flagged = true;
    cells[2][1].flagged = true;
    assert_eq!(2, do_with_neighbours(&cells, 1, 1, Probe::Flags));
    assert_eq!(1, do_with_neighbours(&cells, 0, 0, Probe::Flags));
    assert_eq!(4, do_with_neighbours(&cells, 1, 1, Probe::Mines));
    assert_eq!(0, do_with_neighbours(&cells, 7, 7, Probe::Mines));
}

#[test]
fn probe_matches() {
    let mut cell = Cell::mine();
    assert!(Probe::Mines.matches(&cell));
    assert!(!Probe::Flags.matches(&cell));
    cell.toggle_flag();
    assert!(Probe::Flags.matches(&cell));
    assert!(!Probe::Mines.matches(&Cell::water()));
}
