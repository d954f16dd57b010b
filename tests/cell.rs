use minesweeper::{AdjacentMines, Cell};

#[test]
fn test_cell_creation() {
    let cell = Cell::new();
    assert!(!cell.is_open());
    assert!(!cell.is_flagged());
    assert!(!cell.is_mine());
    assert_eq!(cell.adjacent_mines(), Some(AdjacentMines::Zero));
}

#[test]
fn test_cell_open() {
    let mut cell = Cell::new();
    cell.open();
    assert!(cell.is_open());
}

#[test]
fn test_cell_open_flagged() {
    let mut cell = Cell::new();
    cell.toggle_flag();
    cell.open();
    assert!(!cell.is_open());
}

#[test]
fn test_cell_toggle_flag() {
    let mut cell = Cell::new();
    cell.toggle_flag();
    assert!(cell.is_flagged());
    cell.toggle_flag();
    assert!(!cell.is_flagged());
}

#[test]
fn test_cell_toggle_flag_on_opened() {
    let mut cell = Cell::new();
    cell.open();
    cell.toggle_flag();
    assert!(!cell.is_flagged());
}

#[test]
fn test_cell_become_mined() {
    let mut cell = Cell::new();
    cell.become_mined();
    assert!(cell.is_mine());
}

#[test]
fn test_cell_become_mined_on_opened() {
    let mut cell = Cell::new();
    cell.open();
    cell.become_mined();
    assert!(!cell.is_mine());
}

#[test]
fn test_cell_become_mined_on_flagged() {
    let mut cell = Cell::new();
    cell.toggle_flag();
    cell.become_mined();
    assert!(cell.is_mine());
}

#[test]
fn test_cell_increment_adjacent_mines() {
    let mut cell = Cell::new();
    for num in 1..=8 {
        cell.increment_adjacent_mines();
        assert_eq!(
            cell.adjacent_mines(),
            Some(AdjacentMines::try_from(num).unwrap())
        );
    }
    cell.increment_adjacent_mines();
    assert_eq!(cell.adjacent_mines(), Some(AdjacentMines::Eight));
}

#[test]
fn test_cell_increment_adjacent_mines_on_opened() {
    let mut cell = Cell::new();
    cell.open();
    cell.increment_adjacent_mines();
    assert_eq!(cell.adjacent_mines(), Some(AdjacentMines::Zero));
}

#[test]
fn test_cell_increment_adjacent_mines_on_mined() {
    let mut cell = Cell::new();
    cell.become_mined();
    cell.increment_adjacent_mines();
    assert_eq!(cell.adjacent_mines(), None);
}

#[test]
fn cell_default_is_fresh() {
    let cell = Cell::default();
    assert!(!cell.is_open());
    assert!(!cell.is_flagged());
    assert!(!cell.is_mine());
    assert_eq!(cell.adjacent_mines(), Some(AdjacentMines::Zero));
}

#[test]
fn cell_toggle_twice_restores_flag_state() {
    let mut cell = Cell::new();
    cell.increment_adjacent_mines();
    cell.toggle_flag();
    cell.toggle_flag();
    assert!(!cell.is_flagged());
    assert!(!cell.is_open());
    assert_eq!(cell.adjacent_mines(), Some(AdjacentMines::One));
    cell.toggle_flag();
    cell.toggle_flag();
    cell.toggle_flag();
    assert!(cell.is_flagged());
}

#[test]
fn cell_flagged_mine_cannot_open() {
    let mut cell = Cell::new();
    cell.become_mined();
    cell.toggle_flag();
    cell.open();
    assert!(!cell.is_open());
    cell.toggle_flag();
    cell.open();
    assert!(cell.is_open());
    assert!(cell.is_mine());
}

#[test]
fn cell_opened_count_is_frozen() {
    let mut cell = Cell::new();
    cell.increment_adjacent_mines();
    cell.increment_adjacent_mines();
    cell.open();
    cell.increment_adjacent_mines();
    cell.become_mined();
    assert_eq!(cell.adjacent_mines(), Some(AdjacentMines::Two));
    assert!(!cell.is_mine());
}

#[test]
fn adjacent_mines_conversions() {
    assert_eq!(u8::from(AdjacentMines::Zero), 0);
    assert_eq!(u8::from(AdjacentMines::Five), 5);
    assert_eq!(u8::from(AdjacentMines::Eight), 8);
    assert_eq!(AdjacentMines::try_from(3u8), Ok(AdjacentMines::Three));
    assert_eq!(AdjacentMines::try_from(9u8), Err(9));
    assert_eq!(AdjacentMines::default(), AdjacentMines::Zero);
    assert_eq!(AdjacentMines::Seven.checked_increment(), Some(AdjacentMines::Eight));
    assert_eq!(AdjacentMines::Eight.checked_increment(), None);
    assert_eq!(AdjacentMines::from_count(4), Some(AdjacentMines::Four));
    assert_eq!(AdjacentMines::Six.count(), 6);
}
