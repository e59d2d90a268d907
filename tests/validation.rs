use minesweeper::{
    validate_action, validate_board_size, validate_coordinate, Action, Board, Coordinate,
    CoordinateErr, Game, InvalidErr, Player, PlayerAction, BOARD_MAX_SIZE,
};

#[test]
fn board_size_limits() {
    assert_eq!(validate_board_size(30, 30), Ok((30, 30)));
    assert_eq!(validate_board_size(31, 5), Err(InvalidErr::InvalidSize));
    assert_eq!(validate_board_size(5, 31), Err(InvalidErr::InvalidSize));
    assert_eq!(Board::validate_size(BOARD_MAX_SIZE + 1, BOARD_MAX_SIZE + 1), Err(InvalidErr::InvalidSize));
    assert_eq!(Board::validate_size(4, 7), Ok((4, 7)));
}

#[test]
fn coordinate_checks() {
    let board = Board::new_test(3, 3, vec![Coordinate { x: 0, y: 0 }]);
    let me = Player::new_with_id(1, "me");
    let other = Player::new_with_id(2, "other");
    let c = Coordinate { x: 2, y: 2 };
    assert_eq!(validate_coordinate(&board, &c, &me), Ok(c));
    assert_eq!(
        validate_coordinate(&board, &Coordinate { x: 3, y: 0 }, &me),
        Err(InvalidErr::InvalidCoordinate(CoordinateErr::OutOfBounds))
    );
    let flagged = board.update(&PlayerAction { player_id: 1, coordinate: c, action: Action::Flag });
    assert_eq!(validate_coordinate(&flagged, &c, &me), Ok(c));
    assert_eq!(
        validate_coordinate(&flagged, &c, &other),
        Err(InvalidErr::InvalidCoordinate(CoordinateErr::TileFlagged))
    );
    let revealed = board.update(&PlayerAction {
        player_id: 1,
        coordinate: Coordinate { x: 0, y: 1 },
        action: Action::Reveal,
    });
    assert_eq!(
        validate_coordinate(&revealed, &Coordinate { x: 0, y: 1 }, &me),
        Err(InvalidErr::InvalidCoordinate(CoordinateErr::TileRevealed))
    );
}

#[test]
fn action_checks() {
    let game = Game::new_test(3, 3, vec![Coordinate { x: 0, y: 0 }]).add_player(Player::new_with_id(1, "me"));
    let c = Coordinate { x: 1, y: 1 };
    let reveal = PlayerAction { player_id: 1, coordinate: c, action: Action::Reveal };
    let flag = PlayerAction { player_id: 1, coordinate: c, action: Action::Flag };
    let unflag = PlayerAction { player_id: 1, coordinate: c, action: Action::Unflag };
    assert_eq!(validate_action(&game, reveal, &c), Ok(reveal));
    assert_eq!(validate_action(&game, flag, &c), Ok(flag));
    assert_eq!(validate_action(&game, unflag, &c), Err(InvalidErr::InvalidAction));
    let flagged = game.update(&flag);
    assert_eq!(validate_action(&flagged, unflag, &c), Ok(unflag));
    assert_eq!(validate_action(&flagged, reveal, &c), Err(InvalidErr::InvalidAction));
    let theirs = PlayerAction { player_id: 2, coordinate: c, action: Action::Unflag };
    assert_eq!(validate_action(&flagged, theirs, &c), Err(InvalidErr::InvalidAction));
    let far = Coordinate { x: 9, y: 9 };
    assert_eq!(
        validate_action(&game, reveal, &far),
        Err(InvalidErr::InvalidCoordinate(CoordinateErr::OutOfBounds))
    );
}
