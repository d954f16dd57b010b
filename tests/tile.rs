use minesweeper::{
    MinedState, SurroundingMines, SurroundingMinesConversionError, Tile, TileState,
};

#[test]
fn test_creation() {
    let tile = Tile::default();
    assert!(matches!(
        tile.tile_state,
        TileState::Unopened { is_flagged: false }
    ));
    assert!(matches!(
        tile.mine_state,
        MinedState::Safe {
            surrounding_mines: SurroundingMines::Zero
        }
    ));
}

#[test]
fn tile_test_getters() {
    let default_tile = Tile::default();
    let mut mined_tile = Tile {
        tile_state: TileState::Unopened { is_flagged: false },
        mine_state: MinedState::Mined,
    };
    assert!(!default_tile.is_open());
    assert!(!mined_tile.is_open());
    assert!(!default_tile.is_flagged());
    assert!(!mined_tile.is_flagged());
    assert!(!default_tile.is_mined());
    assert!(mined_tile.is_mined());
    assert_eq!(
        default_tile
            .surrounding_mines()
            .expect("Should have surrounding mines"),
        0
    );
    assert!(mined_tile.surrounding_mines().is_none());
    let flagged_tile = Tile {
        tile_state: TileState::Unopened { is_flagged: true },
        mine_state: MinedState::Safe {
            surrounding_mines: SurroundingMines::One,
        },
    };
    mined_tile.tile_state = TileState::Unopened { is_flagged: true };
    assert!(!flagged_tile.is_open());
    assert!(!mined_tile.is_open());
    assert!(flagged_tile.is_flagged());
    assert!(mined_tile.is_flagged());
    assert!(!flagged_tile.is_mined());
    assert!(mined_tile.is_mined());
    assert_eq!(
        flagged_tile
            .surrounding_mines()
            .expect("Should have surrounding mines"),
        1
    );
    assert!(mined_tile.surrounding_mines().is_none());
    let opened_tile = Tile {
        tile_state: TileState::Opened,
        mine_state: MinedState::Safe {
            surrounding_mines: SurroundingMines::Two,
        },
    };
    mined_tile.tile_state = TileState::Opened;
    assert!(opened_tile.is_open());
    assert!(mined_tile.is_open());
    assert!(!opened_tile.is_flagged());
    assert!(!mined_tile.is_flagged());
    assert!(!opened_tile.is_mined());
    assert!(mined_tile.is_mined());
    assert_eq!(
        opened_tile
            .surrounding_mines()
            .expect("Should have surrounding mines"),
        2
    );
    assert!(mined_tile.surrounding_mines().is_none());
}

#[test]
fn test_open() {
    let mut tile = Tile::default();
    assert!(!tile.is_open());
    tile.open();
    assert!(tile.is_open());
    let mut flagged_tile = Tile {
        mine_state: MinedState::Safe {
            surrounding_mines: SurroundingMines::Zero,
        },
        tile_state: TileState::Unopened { is_flagged: true },
    };
    assert!(!flagged_tile.is_open());
    flagged_tile.open();
    assert!(!flagged_tile.is_open());
}

#[test]
fn test_toggle_flags() {
    let mut tile = Tile::default();
    assert!(!tile.is_flagged());
    tile.toggle_flag();
    assert!(tile.is_flagged());
    tile.toggle_flag();
    assert!(!tile.is_flagged());
    let mut opened_tile = Tile::default();
    opened_tile.open();
    assert!(!opened_tile.is_flagged());
    opened_tile.toggle_flag();
    assert!(!opened_tile.is_flagged());
}

#[test]
fn test_become_mined() {
    let mut tile = Tile::default();
    let mut flagged_tile = Tile::default();
    flagged_tile.toggle_flag();
    let mut opened_tile = Tile::default();
    opened_tile.open();
    assert!(!tile.is_mined());
    assert!(!flagged_tile.is_mined());
    assert!(!opened_tile.is_mined());
    tile.become_mined();
    flagged_tile.become_mined();
    opened_tile.become_mined();
    assert!(tile.is_mined());
    assert!(flagged_tile.is_mined());
    assert!(!opened_tile.is_mined());
}

#[test]
fn test_surrounding_mines() {
    let mut tile = Tile::default();
    let mut flagged_tile = Tile::default();
    flagged_tile.toggle_flag();
    let mut opened_tile = Tile::default();
    opened_tile.open();
    let mut mined_tile = Tile::default();
    mined_tile.become_mined();
    assert!(mined_tile.surrounding_mines().is_none());
    assert_eq!(tile.surrounding_mines(), Some(0));
    assert_eq!(flagged_tile.surrounding_mines(), Some(0));
    assert_eq!(opened_tile.surrounding_mines(), Some(0));
    for i in 1..8 {
        tile.increment_surrounding();
        flagged_tile.increment_surrounding();
        opened_tile.increment_surrounding();
        assert_eq!(tile.surrounding_mines(), Some(i));
        assert_eq!(flagged_tile.surrounding_mines(), Some(i));
        assert_eq!(opened_tile.surrounding_mines(), Some(0));
    }
}

#[test]
fn tile_count_reaches_eight() {
    let mut tile = Tile::default();
    for _ in 0..8 {
        tile.increment_surrounding();
    }
    assert_eq!(tile.surrounding_mines(), Some(8));
    let mut mined_tile = Tile::default();
    mined_tile.become_mined();
    mined_tile.increment_surrounding();
    assert_eq!(mined_tile.surrounding_mines(), None);
}

#[test]
fn surrounding_mines_conversions() {
    assert_eq!(u8::from(SurroundingMines::Three), 3);
    assert_eq!(SurroundingMines::try_from(8u8), Ok(SurroundingMines::Eight));
    assert_eq!(
        SurroundingMines::try_from(9u8),
        Err(SurroundingMinesConversionError::InvalidValue(9))
    );
}
