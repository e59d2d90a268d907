//! Checks on untrusted input: each returns the input when it is legal and a
//! typed error otherwise; none changes anything.
use vstd::prelude::*;

use crate::board::{Board, Coordinate, TileStatus};
use crate::game::Game;
use crate::player::{Action, Player, PlayerAction, PlayerId};

verus! {

/// Why a coordinate was refused.
#[derive(Debug, Clone, Copy, PartialEq, Eq, Structural)]
pub enum CoordinateErr {
    OutOfBounds,
    TileRevealed,
    /// Flagged by another player.
    TileFlagged,
}

/// Why an input was refused.
#[derive(Debug, Clone, Copy, PartialEq, Eq, Structural)]
pub enum InvalidErr {
    InvalidAction,
    /// No such player in the game.
    InvalidPlayer,
    InvalidCoordinate(CoordinateErr),
    /// A board extent above [`BOARD_MAX_SIZE`].
    InvalidSize,
}

/// The largest extent a board may have in either direction.
pub const BOARD_MAX_SIZE: u32 = 30;

/// Horizontal and vertical extents.
pub type BoardSize = (u32, u32);

/// The outcome of checking a board size.
pub open spec fn board_size_check(h_size: u32, v_size: u32) -> Result<BoardSize, InvalidErr> {
    if h_size > BOARD_MAX_SIZE || v_size > BOARD_MAX_SIZE {
        Err(InvalidErr::InvalidSize)
    } else {
        Ok((h_size, v_size))
    }
}

/// Accepts a board size unless an extent exceeds [`BOARD_MAX_SIZE`].
pub fn validate_board_size(h_size: u32, v_size: u32) -> (r: Result<BoardSize, InvalidErr>)
    ensures
        r == board_size_check(h_size, v_size),
{
    if h_size > BOARD_MAX_SIZE || v_size > BOARD_MAX_SIZE {
        Err(InvalidErr::InvalidSize)
    } else {
        Ok((h_size, v_size))
    }
}

/// The outcome of checking the coordinate a player picked: it must be on
/// the board and not revealed, and if flagged, flagged by that player.
pub open spec fn coordinate_check(board: Board, c: Coordinate, player_id: PlayerId) -> Result<
    Coordinate,
    InvalidErr,
> {
    if !board.in_bounds(c) {
        Err(InvalidErr::InvalidCoordinate(CoordinateErr::OutOfBounds))
    } else {
        match board.status(c) {
            TileStatus::Revealed(_) => Err(InvalidErr::InvalidCoordinate(CoordinateErr::TileRevealed)),
            TileStatus::Flagged(by) => if by == player_id {
                Ok(c)
            } else {
                Err(InvalidErr::InvalidCoordinate(CoordinateErr::TileFlagged))
            },
            TileStatus::Hidden => Ok(c),
        }
    }
}

/// Checks the coordinate `player` picked (see [`coordinate_check`]).
pub fn validate_coordinate(board: &Board, coordinate: &Coordinate, player: &Player) -> (r: Result<
    Coordinate,
    InvalidErr,
>)
    requires
        board.wf(),
    ensures
        r == coordinate_check(*board, *coordinate, player.id),
{
    if coordinate.x < board.h_size && coordinate.y < board.v_size {
        match board.get_tile(coordinate) {
            TileStatus::Revealed(_) => Err(InvalidErr::InvalidCoordinate(CoordinateErr::TileRevealed)),
            TileStatus::Flagged(by) => if *by == player.id {
                Ok(*coordinate)
            } else {
                Err(InvalidErr::InvalidCoordinate(CoordinateErr::TileFlagged))
            },
            TileStatus::Hidden => Ok(*coordinate),
        }
    } else {
        Err(InvalidErr::InvalidCoordinate(CoordinateErr::OutOfBounds))
    }
}

/// The outcome of checking a move against the tile at `c`: a hidden tile
/// may be revealed or flagged, a tile may be unflagged by the player who
/// flagged it, and nothing else is allowed.
pub open spec fn action_check(board: Board, action: PlayerAction, c: Coordinate) -> Result<
    PlayerAction,
    InvalidErr,
> {
    if !board.in_bounds(c) {
        Err(InvalidErr::InvalidCoordinate(CoordinateErr::OutOfBounds))
    } else {
        match (board.status(c), action.action) {
            (TileStatus::Hidden, Action::Flag) => Ok(action),
            (TileStatus::Hidden, Action::Reveal) => Ok(action),
            (TileStatus::Flagged(by), Action::Unflag) => if by == action.player_id {
                Ok(action)
            } else {
                Err(InvalidErr::InvalidAction)
            },
            _ => Err(InvalidErr::InvalidAction),
        }
    }
}

/// Checks `player_action` against the tile at `coordinate` (see
/// [`action_check`]).
pub fn validate_action(game: &Game, player_action: PlayerAction, coordinate: &Coordinate) -> (r:
    Result<PlayerAction, InvalidErr>)
    requires
        game.board.wf(),
    ensures
        r == action_check(game.board, player_action, *coordinate),
{
    if coordinate.x < game.board.h_size && coordinate.y < game.board.v_size {
        match (game.board.get_tile(coordinate), player_action.action) {
            (TileStatus::Hidden, Action::Flag) => Ok(player_action),
            (TileStatus::Hidden, Action::Reveal) => Ok(player_action),
            (TileStatus::Flagged(by), Action::Unflag) => if *by == player_action.player_id {
                Ok(player_action)
            } else {
                Err(InvalidErr::InvalidAction)
            },
            _ => Err(InvalidErr::InvalidAction),
        }
    } else {
        Err(InvalidErr::InvalidCoordinate(CoordinateErr::OutOfBounds))
    }
}

impl Board {
    /// Checks a board size (see [`validate_board_size`]).
    pub fn validate_size(h_size: u32, v_size: u32) -> (r: Result<BoardSize, InvalidErr>)
        ensures
            r == board_size_check(h_size, v_size),
    {
        validate_board_size(h_size, v_size)
    }
}

} // verus!
