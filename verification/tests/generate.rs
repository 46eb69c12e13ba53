use mines::{
    add_mine, check_size, generate_cells, generate_placement, has_mine, lay_mines, mine_count, Cell,
    CellValue, Field, MinesError,
};

fn mines_in(cells: &Vec<Vec<Cell>>) -> usize {
    cells
        .iter()
        .map(|col| col.iter().filter(|cell| cell.value == CellValue::Mine).count())
        .sum()
}

#[test]
fn too_many_mines() {
    let mut rng = rand::thread_rng();
    assert_eq!(Err(MinesError::TooManyMines), generate_cells(&mut rng, 10, 10, 11));
    assert_eq!(Err(MinesError::TooManyMines), generate_cells(&mut rng, 0, 10, 1));
    assert_eq!(Err(MinesError::TooManyMines), generate_placement(&mut rng, 8, 8, 7));
    assert!(matches!(Field::generate(&mut rng, 9, 9, 9), Err(MinesError::TooManyMines)));
}

#[test]
fn too_many_mines_comes_first() {
    let mut rng = rand::thread_rng();
    assert_eq!(Err(MinesError::TooManyMines), generate_cells(&mut rng, 5, 5, 3));
    assert_eq!(Err(MinesError::TooManyMines), check_size(5, 5, 3));
}

#[test]
fn field_too_small() {
    let mut rng = rand::thread_rng();
    assert_eq!(Err(MinesError::FieldTooSmall(7, 7)), generate_cells(&mut rng, 7, 7, 4));
    assert_eq!(Err(MinesError::FieldTooSmall(5, 5)), generate_cells(&mut rng, 5, 5, 2));
    assert_eq!(Err(MinesError::FieldTooSmall(0, 0)), generate_placement(&mut rng, 0, 0, 0));
    assert!(matches!(Field::generate(&mut rng, 3, 7, 0), Err(MinesError::FieldTooSmall(3, 7))));
}

#[test]
fn one_long_side_is_enough() {
    assert_eq!(Ok(()), check_size(8, 1, 0));
    assert_eq!(Ok(()), check_size(1, 8, 0));
    assert_eq!(Ok(()), check_size(8, 7, 5));
    assert_eq!(Err(MinesError::TooManyMines), check_size(8, 7, 6));
    assert_eq!(Ok(()), check_size(65535, 65535, 65535));
}

#[test]
fn generated_cells_are_fresh_with_all_mines() {
    let mut rng = rand::thread_rng();
    for _ in 0..20 {
        let cells = generate_cells(&mut rng, 12, 9, 10).unwrap();
        assert_eq!(12, cells.len());
        for col in cells.iter() {
            assert_eq!(9, col.len());
            for cell in col.iter() {
                assert!(!cell.opened);
                assert!(!cell.flagged);
            }
        }
        assert_eq!(10, mines_in(&cells));
    }
}

#[test]
fn generated_placement_is_distinct_and_on_the_board() {
    let mut rng = rand::thread_rng();
    for _ in 0..20 {
        let bombs = generate_placement(&mut rng, 9, 20, 18).unwrap();
        assert_eq!(18, bombs.len());
        for (i, bomb) in bombs.iter().enumerate() {
            assert!(bomb.0 < 9);
            assert!(bomb.1 < 20);
            assert!(!bombs[..i].contains(bomb));
        }
    }
}

#[test]
fn generated_placement_stays_inside_a_narrow_board() {
    let mut rng = rand::thread_rng();
    for _ in 0..50 {
        let bombs = generate_placement(&mut rng, 1, 10, 1).unwrap();
        assert_eq!(1, bombs.len());
        assert_eq!(0, bombs[0].0);
        assert!(bombs[0].1 < 10);
    }
}

#[test]
fn generate_without_mines() {
    let mut rng = rand::thread_rng();
    let cells = generate_cells(&mut rng, 8, 2, 0).unwrap();
    assert_eq!(vec![vec![Cell::water(); 2]; 8], cells);
    let cells = generate_cells(&mut rng, 0, 8, 0).unwrap();
    assert!(cells.is_empty());
}

#[test]
fn generated_field_counts_its_mines() {
    let mut rng = rand::thread_rng();
    let field = Field::generate(&mut rng, 10, 10, 10).unwrap();
    assert_eq!(10, mines_in(field.cells()));
    for x in 0..10u16 {
        for y in 0..10u16 {
            assert_eq!(
                mines::count_neighbours(field.cells(), x, y).unwrap(),
                field.numbers()[x as usize][y as usize]
            );
        }
    }
    assert!(!field.is_won());
}

#[test]
fn has_mine_and_add_mine() {
    let mut bombs = vec![(1u16, 2u16), (3, 4)];
    assert!(has_mine(&bombs, (1, 2)));
    assert!(has_mine(&bombs, (3, 4)));
    assert!(!has_mine(&bombs, (2, 1)));
    assert!(!add_mine(&mut bombs, (3, 4)));
    assert_eq!(vec![(1u16, 2u16), (3, 4)], bombs);
    assert!(add_mine(&mut bombs, (4, 3)));
    assert_eq!(vec![(1u16, 2u16), (3, 4), (4, 3)], bombs);
}

#[test]
fn lay_mines_puts_each_mine() {
    let cells = lay_mines(&vec![(0, 1), (2, 0), (5, 5)], 3, 2);
    assert_eq!(
        vec![
            vec![Cell::water(), Cell::mine()],
            vec![Cell::water(), Cell::water()],
            vec![Cell::mine(), Cell::water()],
        ],
        cells
    );
}

#[test]
fn mine_count_is_a_tenth() {
    assert_eq!(Some(10), mine_count(10, 10));
    assert_eq!(Some(6), mine_count(8, 8));
    assert_eq!(Some(0), mine_count(3, 3));
    assert_eq!(Some(0), mine_count(0, 100));
    assert_eq!(Some(6553), mine_count(255, 257));
    assert_eq!(None, mine_count(256, 256));
    assert_eq!(None, mine_count(65535, 65535));
}
