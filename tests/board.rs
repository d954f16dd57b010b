use minesweeper::{Board, BoardError, BoardState};

fn create_board(x: u8, y: u8, m: u16) -> Result<Board, BoardError> {
    Board::create_custom(x, y, m)
}

fn count_mines(board: &Board) -> usize {
    let mut mines = 0;
    for x in 0..board.get_width() {
        for y in 0..board.get_height() {
            if board.get_cell(x, y).unwrap().is_mine() {
                mines += 1;
            }
        }
    }
    mines
}

fn count_open(board: &Board) -> usize {
    let mut open = 0;
    for x in 0..board.get_width() {
        for y in 0..board.get_height() {
            if board.get_cell(x, y).unwrap().is_open() {
                open += 1;
            }
        }
    }
    open
}

#[test]
fn test_board_creation() {
    let board_check = create_board(5, 10, 15);
    assert!(board_check.is_ok());
    let board = board_check.unwrap();
    assert_eq!(board.get_width(), 5);
    assert_eq!(board.get_height(), 10);
    let mut cells = 0;
    for x in 0..5 {
        for y in 0..10 {
            if board.get_cell(x, y).is_some() {
                cells += 1;
            }
        }
    }
    assert_eq!(cells, 50);
    assert_eq!(board.get_mine_count(), 15);
    assert!(board.is_first_open());
}

#[test]
fn test_board_creation_invalid() {
    let board_check = create_board(1, 1, 1);
    assert!(board_check.is_err());
    let board_check = create_board(5, 10, 50);
    assert!(board_check.is_err());
    let board_check = create_board(5, 10, 51);
    assert!(board_check.is_err());
}

#[test]
fn test_board_get_cell() {
    let mut board = create_board(5, 5, 5).unwrap();
    assert!(board.get_cell(5, 5).is_none());
    assert!(board.get_cell(4, 5).is_none());
    assert!(board.get_cell(5, 4).is_none());
    assert!(board.get_cell(4, 4).is_some());
    assert!(board.get_cell_mut(5, 5).is_none());
    assert!(board.get_cell_mut(4, 5).is_none());
    assert!(board.get_cell_mut(5, 4).is_none());
    assert!(board.get_cell_mut(4, 4).is_some());
}

#[test]
fn test_board_check_normal() {
    for x in 0..5 {
        for y in 0..5 {
            let mut board = create_board(5, 5, 16).unwrap();
            board.open_cell(x, y);
            let cell = board.get_cell(x, y).unwrap();
            assert!(cell.is_open());
            assert_eq!(u8::from(cell.adjacent_mines().unwrap()), 0);
            for (sur_x, sur_y) in board.get_surrounding_coordinates(x, y) {
                assert!(!board.get_cell(sur_x, sur_y).unwrap().is_mine());
            }
        }
    }
}

#[test]
fn test_board_check_filled() {
    for x in 1..4 {
        for y in 1..4 {
            let mut board = create_board(5, 5, 24).unwrap();
            board.open_cell(x, y);
            let cell = board.get_cell(x, y).unwrap();
            assert!(cell.is_open());
            assert_eq!(u8::from(cell.adjacent_mines().unwrap()), 8);
            for (sur_x, sur_y) in board.get_surrounding_coordinates(x, y) {
                assert!(board.get_cell(sur_x, sur_y).unwrap().is_mine());
            }
        }
    }
}

#[test]
fn test_board_toggle_flag() {
    let mut board = create_board(5, 5, 5).unwrap();
    board.toggle_flag(0, 0);
    assert!(board.get_cell(0, 0).unwrap().is_flagged());
    board.toggle_flag(0, 0);
    assert!(!board.get_cell(0, 0).unwrap().is_flagged());
}

#[test]
fn test_board_no_op() {
    let mut board = create_board(5, 5, 5).unwrap();
    board.toggle_flag(0, 0);
    board.toggle_flag(0, 0);
    assert!(!board.get_cell(0, 0).unwrap().is_flagged());
    board.open_cell(0, 0);
    assert!(board.get_cell(0, 0).unwrap().is_open());
    let pre_double_check = board.get_unopened_coordinates();
    board.toggle_flag(0, 0);
    assert!(!board.get_cell(0, 0).unwrap().is_flagged());
    board.open_cell(0, 0);
    assert!(board.get_cell(0, 0).unwrap().is_open());
    assert_eq!(board.get_unopened_coordinates(), pre_double_check);
}

#[test]
fn create_reports_each_error() {
    assert!(matches!(create_board(1, 1, 1), Err(BoardError::InvalidBoardSize)));
    assert!(matches!(create_board(1, 1, 500), Err(BoardError::InvalidBoardSize)));
    assert!(matches!(create_board(5, 10, 50), Err(BoardError::TooManyMines(49))));
    assert!(matches!(create_board(2, 1, 2), Err(BoardError::TooManyMines(1))));
    assert!(matches!(create_board(255, 255, 65025), Err(BoardError::TooManyMines(65024))));
    assert!(create_board(1, 2, 1).is_ok());
    assert!(create_board(255, 255, 65024).is_ok());
}

#[test]
fn fresh_board_is_all_closed_and_safe() {
    let board = create_board(7, 3, 4).unwrap();
    assert_eq!(board.get_state(), BoardState::InProgress);
    assert_eq!(board.get_remaining_mines(), 4);
    assert_eq!(board.get_unopened_coordinates().len(), 21);
    for x in 0..7 {
        for y in 0..3 {
            let cell = board.get_cell(x, y).unwrap();
            assert!(!cell.is_open());
            assert!(!cell.is_flagged());
            assert!(!cell.is_mine());
        }
    }
}

#[test]
fn preset_boards() {
    let beginner = Board::create_beginner();
    assert_eq!((beginner.get_width(), beginner.get_height(), beginner.get_mine_count()), (9, 9, 10));
    let intermediate = Board::create_intermediate();
    assert_eq!(
        (intermediate.get_width(), intermediate.get_height(), intermediate.get_mine_count()),
        (16, 16, 40)
    );
    let expert = Board::create_expert();
    assert_eq!((expert.get_width(), expert.get_height(), expert.get_mine_count()), (30, 16, 99));
}

#[test]
fn first_open_places_exactly_the_mines() {
    for m in [1u16, 5, 16, 17, 24] {
        let mut board = create_board(5, 5, m).unwrap();
        assert_eq!(count_mines(&board), 0);
        board.open_cell(0, 0);
        assert!(!board.is_first_open());
        assert_eq!(count_mines(&board), m as usize);
        assert!(!board.get_cell(0, 0).unwrap().is_mine());
    }
}

#[test]
fn counts_match_neighbouring_mines() {
    let mut board = create_board(12, 9, 30).unwrap();
    board.open_cell(6, 4);
    for x in 0..12u8 {
        for y in 0..9u8 {
            let cell = board.get_cell(x, y).unwrap();
            let around = board
                .get_surrounding_coordinates(x, y)
                .into_iter()
                .filter(|(a, b)| board.get_cell(*a, *b).unwrap().is_mine())
                .count();
            match cell.adjacent_mines() {
                Some(n) => assert_eq!(u8::from(n) as usize, around),
                None => assert!(cell.is_mine()),
            }
        }
    }
}

#[test]
fn five_by_five_with_five_mines_floods_from_centre() {
    let mut board = create_board(5, 5, 5).unwrap();
    board.open_cell(2, 2);
    let centre = board.get_cell(2, 2).unwrap();
    assert!(centre.is_open());
    assert_eq!(u8::from(centre.adjacent_mines().unwrap()), 0);
    for (x, y) in board.get_surrounding_coordinates(2, 2) {
        assert!(board.get_cell(x, y).unwrap().is_open());
    }
    for x in 0..5u8 {
        for y in 0..5u8 {
            let cell = board.get_cell(x, y).unwrap();
            if cell.is_open() && u8::from(cell.adjacent_mines().unwrap()) == 0 {
                for (a, b) in board.get_surrounding_coordinates(x, y) {
                    let n = board.get_cell(a, b).unwrap();
                    assert!(n.is_open() || n.is_flagged());
                }
            }
            if cell.is_open() {
                assert!(!cell.is_mine());
            }
        }
    }
    assert!(count_open(&board) >= 9);
}

#[test]
fn one_safe_cell_wins_at_once() {
    let mut board = create_board(5, 5, 24).unwrap();
    board.open_cell(3, 1);
    assert_eq!(board.get_state(), BoardState::Won);
    assert_eq!(count_open(&board), 1);
    assert_eq!(board.get_unopened_coordinates().len(), 24);
}

#[test]
fn opening_a_mine_loses_and_locks_the_board() {
    let mut board = create_board(3, 3, 8).unwrap();
    board.open_cell(1, 1);
    assert_eq!(board.get_state(), BoardState::Won);
    let mut board = create_board(4, 4, 14).unwrap();
    board.open_cell(0, 0);
    assert_eq!(board.get_state(), BoardState::InProgress);
    let mut mine = None;
    for x in 0..4u8 {
        for y in 0..4u8 {
            if board.get_cell(x, y).unwrap().is_mine() && mine.is_none() {
                mine = Some((x, y));
            }
        }
    }
    let (mx, my) = mine.unwrap();
    board.open_cell(mx, my);
    assert_eq!(board.get_state(), BoardState::Lost);
    let opened = count_open(&board);
    for x in 0..4u8 {
        for y in 0..4u8 {
            board.open_cell(x, y);
        }
    }
    assert_eq!(count_open(&board), opened);
    assert_eq!(board.get_state(), BoardState::Lost);
}

#[test]
fn flags_block_opening_and_count_down() {
    let mut board = create_board(6, 6, 3).unwrap();
    board.toggle_flag(5, 5);
    board.toggle_flag(4, 5);
    assert_eq!(board.get_remaining_mines(), 1);
    board.toggle_flag(3, 5);
    board.toggle_flag(2, 5);
    assert_eq!(board.get_remaining_mines(), -1);
    board.open_cell(5, 5);
    assert!(!board.is_first_open());
    assert!(!board.get_cell(5, 5).unwrap().is_open());
    assert!(board.get_cell(5, 5).unwrap().is_flagged());
    board.toggle_flag(9, 9);
    assert_eq!(board.get_remaining_mines(), -1);
}

#[test]
fn flagging_an_open_cell_does_nothing() {
    let mut board = create_board(5, 5, 5).unwrap();
    board.open_cell(2, 2);
    board.toggle_flag(2, 2);
    assert!(!board.get_cell(2, 2).unwrap().is_flagged());
    assert!(board.get_cell(2, 2).unwrap().is_open());
}

#[test]
fn toggle_round_trip_leaves_board_unchanged() {
    let mut board = create_board(8, 8, 10).unwrap();
    board.open_cell(0, 0);
    let before = board.get_unopened_coordinates();
    let remaining = board.get_remaining_mines();
    let (x, y) = before[before.len() - 1];
    board.toggle_flag(x, y);
    assert!(board.get_cell(x, y).unwrap().is_flagged());
    board.toggle_flag(x, y);
    assert!(!board.get_cell(x, y).unwrap().is_flagged());
    assert_eq!(board.get_unopened_coordinates(), before);
    assert_eq!(board.get_remaining_mines(), remaining);
    assert_eq!(board.get_state(), BoardState::InProgress);
}

#[test]
fn chord_opens_unflagged_neighbours_when_flags_match() {
    let mut board = create_board(9, 9, 30).unwrap();
    board.open_cell(4, 4);
    let mut target = None;
    for x in 0..9u8 {
        for y in 0..9u8 {
            let cell = board.get_cell(x, y).unwrap();
            if target.is_none() && cell.is_open() && u8::from(cell.adjacent_mines().unwrap()) > 0 {
                let closed_safe = board
                    .get_surrounding_coordinates(x, y)
                    .into_iter()
                    .any(|(a, b)| {
                        let n = board.get_cell(a, b).unwrap();
                        !n.is_open() && !n.is_mine()
                    });
                if closed_safe {
                    target = Some((x, y));
                }
            }
        }
    }
    if let Some((x, y)) = target {
        let neighbours = board.get_surrounding_coordinates(x, y);
        let unopened_before = board.get_unopened_coordinates();
        board.chord_cell(x, y);
        assert_eq!(board.get_unopened_coordinates(), unopened_before);
        for (a, b) in neighbours.iter().copied() {
            if board.get_cell(a, b).unwrap().is_mine() {
                board.toggle_flag(a, b);
            }
        }
        board.chord_cell(x, y);
        for (a, b) in neighbours {
            let n = board.get_cell(a, b).unwrap();
            assert!(n.is_open() || n.is_flagged());
        }
        assert_ne!(board.get_state(), BoardState::Lost);
    }
}

#[test]
fn chord_on_closed_or_outside_cell_does_nothing() {
    let mut board = create_board(5, 5, 3).unwrap();
    board.chord_cell(2, 2);
    board.chord_cell(7, 7);
    assert!(board.is_first_open());
    assert_eq!(board.get_unopened_coordinates().len(), 25);
}

#[test]
fn chord_with_a_wrong_flag_loses() {
    let mut board = create_board(9, 9, 30).unwrap();
    board.open_cell(4, 4);
    let mut done = false;
    for x in 0..9u8 {
        for y in 0..9u8 {
            if done {
                continue;
            }
            let cell = board.get_cell(x, y).unwrap();
            if !cell.is_open() || u8::from(cell.adjacent_mines().unwrap()) != 1 {
                continue;
            }
            let neighbours = board.get_surrounding_coordinates(x, y);
            let safe = neighbours.iter().copied().find(|(a, b)| {
                let n = board.get_cell(*a, *b).unwrap();
                !n.is_open() && !n.is_mine()
            });
            if let Some((a, b)) = safe {
                board.toggle_flag(a, b);
                board.chord_cell(x, y);
                assert_eq!(board.get_state(), BoardState::Lost);
                done = true;
            }
        }
    }
}
