use mines::{Cell, MinesError};

#[test]
fn open_water() {
    assert!(Cell::water().open().is_ok());
}

#[test]
fn open_mine() {
    assert_eq!(Err(MinesError::MineOpened), Cell::mine().open());
}

#[test]
fn toggle_flag() {
    let mut cell = Cell::mine();
    assert!(!cell.flagged);
    cell.toggle_flag();
    assert!(cell.flagged);
    cell.toggle_flag();
    assert!(!cell.flagged);
}

#[test]
fn toggle_opened() {
    let mut cell = Cell::water();
    let _ = cell.open();
    cell.toggle_flag();
    assert!(!cell.flagged);
}

#[test]
fn open_flagged() {
    let mut cell = Cell::water();
    cell.flagged = true;
    cell.open().unwrap();
    assert!(!cell.opened);
}

#[test]
fn fresh_cells() {
    let mine = Cell::mine();
    assert_eq!(mines::CellValue::Mine, mine.value);
    assert!(!mine.opened && !mine.flagged);
    let water = Cell::water();
    assert_eq!(mines::CellValue::Water, water.value);
    assert!(!water.opened && !water.flagged);
}

#[test]
fn open_mine_marks_it_opened() {
    let mut cell = Cell::mine();
    assert_eq!(Err(MinesError::MineOpened), cell.open());
    assert!(cell.opened);
    assert_eq!(Err(MinesError::MineOpened), cell.open());
}

#[test]
fn open_flagged_mine_is_safe() {
    let mut cell = Cell::mine();
    cell.toggle_flag();
    assert_eq!(Ok(()), cell.open());
    assert!(!cell.opened);
    assert!(cell.flagged);
}

#[test]
fn open_twice_changes_nothing() {
    let mut cell = Cell::water();
    assert_eq!(Ok(()), cell.open());
    let once = cell;
    assert_eq!(Ok(()), cell.open());
    assert_eq!(once, cell);
}
