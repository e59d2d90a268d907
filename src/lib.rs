//! A turn-based minesweeper game: the board state machine with its reveal
//! cascade, player scoring, move validation and input parsing.
pub mod board;
pub mod game;
pub mod laws;
pub mod parse;
pub mod player;
mod random;
pub mod roster;
pub mod tiles;
pub mod validation;

pub use board::{Board, Coordinate, Tile, TileStatus};
pub use game::{Difficulty, Game, GameStatus};
pub use player::{Action, Player, PlayerAction, PlayerId, PlayerIds};
pub use validation::{
    validate_action, validate_board_size, validate_coordinate, BoardSize, CoordinateErr, InvalidErr, BOARD_MAX_SIZE,
};
pub use parse::{parse_action, parse_board_size, parse_coordinate, parse_difficulty, ParseErr};
