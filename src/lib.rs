//! The simulation core of a Minesweeper game: single cells with their
//! open/flag and mine/adjacency state, and a board that places mines on the
//! first reveal, flood-fills empty regions, chords numbered cells and tracks
//! whether the game is won or lost.

pub mod board;
pub mod cell;
pub mod flood;
pub mod grid;
pub mod model;
pub mod tile;

pub use board::{Board, BoardError, BoardState};
pub use model::BoardModel;
pub use cell::{AdjacentMines, Cell, CellEvent, CellModel};
pub use tile::{MinedState, SurroundingMines, SurroundingMinesConversionError, Tile, TileState};
