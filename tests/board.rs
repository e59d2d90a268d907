use minesweeper::{
    Action, Board, Coordinate, Difficulty, Player, PlayerAction, PlayerIds, Tile, TileStatus,
};

fn create_3x3() -> Board {
    let mine_coordinate = Coordinate { x: 0, y: 0 };
    Board::new_test(3, 3, vec![mine_coordinate])
}

fn reveal_at(board: &Board, x: u32, y: u32) -> Board {
    board.update(&PlayerAction { player_id: 1, coordinate: Coordinate { x, y }, action: Action::Reveal })
}

fn tile(board: &Board, x: u32, y: u32) -> TileStatus {
    *board.get_tile(&Coordinate { x, y })
}

#[test]
fn check_mines() {
    let board = Board::new(5, 5, Difficulty::Easy);
    assert_eq!(board.num_mines(), 3);
}

#[test]
fn board_num_mine_easy() {
    let new_board = Board::new(2, 2, Difficulty::Easy);
    assert_eq!(new_board.num_mines(), 1)
}

#[test]
fn board_num_mines_hard() {
    let new_board = Board::new(5, 5, Difficulty::Hard);
    assert_eq!(new_board.num_mines(), 5);
}

#[test]
fn board_test_update() {
    let test_coordinate: Coordinate = Coordinate { x: 0, y: 0 };
    let test_board: Board = Board::new_test(2, 2, vec![test_coordinate]);
    let mut ids = PlayerIds::new();
    let player = Player::new("hyeyoung".to_string(), &mut ids);

    let updated_board = test_board.update(&PlayerAction {
        player_id: player.id,
        coordinate: test_coordinate,
        action: Action::Flag,
    });

    assert_eq!(*updated_board.get_tile(&test_coordinate), TileStatus::Flagged(player.id))
}

#[test]
fn board_test_reveal() {
    let test_board: Board = Board::new_test(3, 3, vec![Coordinate { x: 0, y: 0 }]);
    let updated_board = reveal_at(&test_board, 0, 1);
    assert_eq!(tile(&updated_board, 0, 1), TileStatus::Revealed(Tile::Hint(1)))
}

#[test]
fn board_test_reveal_all() {
    let test_board: Board = Board::new_test(3, 3, vec![Coordinate { x: 0, y: 0 }]);
    let updated_board = reveal_at(&test_board, 0, 2);
    assert_eq!(tile(&updated_board, 0, 1), TileStatus::Revealed(Tile::Hint(1)))
}

#[test]
fn board_test_neighboring_coordinates() {
    let test_board = create_3x3();
    let player_coordinate = Coordinate { x: 0, y: 2 };
    assert_eq!(test_board.neighboring_coordinates(&player_coordinate).len(), 3)
}

#[test]
fn board_test_reveal_0_reveal_neighbor() {
    let test_board = create_3x3();
    let mut ids = PlayerIds::new();
    let player = Player::new("hyeyoung".to_string(), &mut ids);
    let player_coordinate = Coordinate { x: 0, y: 2 };
    let updated_board = test_board.update(&PlayerAction {
        player_id: player.id,
        coordinate: player_coordinate,
        action: Action::Reveal,
    });
    assert_eq!(tile(&updated_board, 0, 1), TileStatus::Revealed(Tile::Hint(1)));
    assert_eq!(tile(&updated_board, 2, 2), TileStatus::Revealed(Tile::Hint(0)));
    assert_eq!(tile(&updated_board, 1, 2), TileStatus::Revealed(Tile::Hint(0)));
    assert_eq!(tile(&updated_board, 0, 2), TileStatus::Revealed(Tile::Hint(0)));
    assert_eq!(tile(&updated_board, 0, 1), TileStatus::Revealed(Tile::Hint(1)));
}

#[test]
fn mine_counts_follow_density() {
    assert_eq!(Board::new(10, 10, Difficulty::Easy).num_mines(), 12);
    assert_eq!(Board::new(10, 10, Difficulty::Medium).num_mines(), 15);
    assert_eq!(Board::new(10, 10, Difficulty::Hard).num_mines(), 20);
    assert_eq!(Board::new(3, 3, Difficulty::Medium).num_mines(), 1);
    assert_eq!(Board::new(7, 3, Difficulty::Medium).num_mines(), 3);
    assert_eq!(Board::new(30, 30, Difficulty::Hard).num_mines(), 180);
}

#[test]
fn small_boards_get_one_mine() {
    assert_eq!(Board::new(1, 1, Difficulty::Hard).num_mines(), 1);
    assert_eq!(Board::new(4, 1, Difficulty::Easy).num_mines(), 1);
    assert_eq!(Board::new(2, 2, Difficulty::Medium).num_mines(), 1);
}

#[test]
fn random_mines_are_distinct_and_on_the_board() {
    let mines = Board::random_mine_coordinates(6, 4, Difficulty::Hard);
    assert_eq!(mines.len(), 4);
    for (i, a) in mines.iter().enumerate() {
        assert!(a.x < 6 && a.y < 4);
        for b in mines.iter().skip(i + 1) {
            assert_ne!(a, b);
        }
    }
}

#[test]
fn new_board_is_all_hidden() {
    let board = Board::new(4, 3, Difficulty::Easy);
    for x in 0..4 {
        for y in 0..3 {
            assert_eq!(tile(&board, x, y), TileStatus::Hidden);
        }
    }
}

#[test]
fn repeated_mines_count_once() {
    let c = Coordinate { x: 1, y: 1 };
    let board = Board::new_test(3, 3, vec![c, c, Coordinate { x: 2, y: 0 }]);
    assert_eq!(board.num_mines(), 2);
    assert!(board.is_mine(&c));
    assert!(!board.is_mine(&Coordinate { x: 0, y: 0 }));
}

#[test]
fn neighbor_counts_at_edges_and_inside() {
    let board = Board::new_test(3, 3, vec![]);
    assert_eq!(board.neighboring_coordinates(&Coordinate { x: 0, y: 0 }).len(), 3);
    assert_eq!(board.neighboring_coordinates(&Coordinate { x: 1, y: 0 }).len(), 5);
    assert_eq!(board.neighboring_coordinates(&Coordinate { x: 1, y: 1 }).len(), 8);
    let n = board.neighboring_coordinates(&Coordinate { x: 2, y: 2 });
    assert_eq!(n, vec![Coordinate { x: 1, y: 1 }, Coordinate { x: 2, y: 1 }, Coordinate { x: 1, y: 2 }]);
}

#[test]
fn hints_count_neighboring_mines() {
    let mut mines = Vec::new();
    for x in 0..3 {
        for y in 0..3 {
            if (x, y) != (1, 1) {
                mines.push(Coordinate { x, y });
            }
        }
    }
    let board = Board::new_test(3, 3, mines);
    assert_eq!(board.get_hint(&Coordinate { x: 1, y: 1 }), 8);
    assert_eq!(board.get_hint(&Coordinate { x: 0, y: 0 }), 2);
    assert_eq!(board.get_hint(&Coordinate { x: 1, y: 0 }), 4);
    let empty = Board::new_test(3, 3, vec![]);
    assert_eq!(empty.get_hint(&Coordinate { x: 1, y: 1 }), 0);
}

#[test]
fn within_bounds_checks_both_axes() {
    let board = Board::new_test(3, 2, vec![]);
    assert!(board.within_bounds(&(0, 0)));
    assert!(board.within_bounds(&(2, 1)));
    assert!(!board.within_bounds(&(3, 0)));
    assert!(!board.within_bounds(&(0, 2)));
    assert!(!board.within_bounds(&(-1, 0)));
    assert!(!board.within_bounds(&(0, -1)));
}

#[test]
fn reveal_of_revealed_tile_changes_nothing() {
    let board = Board::new_test(3, 3, vec![Coordinate { x: 0, y: 0 }]);
    let once = reveal_at(&board, 0, 1);
    let twice = reveal_at(&once, 0, 1);
    for x in 0..3 {
        for y in 0..3 {
            assert_eq!(tile(&once, x, y), tile(&twice, x, y));
        }
    }
    assert_eq!(tile(&twice, 1, 0), TileStatus::Hidden);
}

#[test]
fn cascade_reveals_around_every_zero() {
    let board = Board::new_test(5, 4, vec![Coordinate { x: 4, y: 0 }, Coordinate { x: 2, y: 3 }]);
    let after = reveal_at(&board, 0, 0);
    for x in 0..5u32 {
        for y in 0..4u32 {
            if tile(&after, x, y) == TileStatus::Revealed(Tile::Hint(0)) {
                for n in after.neighboring_coordinates(&Coordinate { x, y }) {
                    assert_ne!(*after.get_tile(&n), TileStatus::Hidden);
                }
            }
        }
    }
    assert_eq!(tile(&after, 4, 0), TileStatus::Hidden);
    assert_eq!(tile(&after, 2, 3), TileStatus::Hidden);
    assert_eq!(tile(&after, 4, 3), TileStatus::Hidden);
    assert_eq!(tile(&after, 4, 2), TileStatus::Hidden);
    assert_eq!(tile(&after, 3, 3), TileStatus::Hidden);
    assert_eq!(tile(&after, 3, 2), TileStatus::Revealed(Tile::Hint(1)));
    assert_eq!(tile(&after, 0, 3), TileStatus::Revealed(Tile::Hint(0)));
}

#[test]
fn cascade_stops_at_flags() {
    let board = Board::new_test(3, 1, vec![]);
    let flagged = board.update(&PlayerAction {
        player_id: 7,
        coordinate: Coordinate { x: 1, y: 0 },
        action: Action::Flag,
    });
    let after = reveal_at(&flagged, 0, 0);
    assert_eq!(tile(&after, 0, 0), TileStatus::Revealed(Tile::Hint(0)));
    assert_eq!(tile(&after, 1, 0), TileStatus::Flagged(7));
    assert_eq!(tile(&after, 2, 0), TileStatus::Hidden);
}

#[test]
fn three_by_three_cascade_scenario() {
    let board = create_3x3();
    let after = reveal_at(&board, 2, 2);
    assert_eq!(tile(&after, 0, 0), TileStatus::Hidden);
    assert_eq!(tile(&after, 0, 1), TileStatus::Revealed(Tile::Hint(1)));
    assert_eq!(tile(&after, 1, 0), TileStatus::Revealed(Tile::Hint(1)));
    assert_eq!(tile(&after, 1, 1), TileStatus::Revealed(Tile::Hint(1)));
    assert_eq!(tile(&after, 1, 2), TileStatus::Revealed(Tile::Hint(0)));
    assert_eq!(tile(&after, 0, 2), TileStatus::Revealed(Tile::Hint(0)));
    assert_eq!(tile(&after, 2, 0), TileStatus::Revealed(Tile::Hint(0)));
    assert_eq!(tile(&after, 2, 1), TileStatus::Revealed(Tile::Hint(0)));
    assert_eq!(tile(&after, 2, 2), TileStatus::Revealed(Tile::Hint(0)));
}

#[test]
fn revealing_a_mine_shows_it() {
    let board = create_3x3();
    let after = reveal_at(&board, 0, 0);
    assert_eq!(tile(&after, 0, 0), TileStatus::Revealed(Tile::Mine));
    assert_eq!(tile(&after, 1, 1), TileStatus::Hidden);
}

#[test]
fn flag_and_unflag_only_touch_matching_tiles() {
    let board = create_3x3();
    let c = Coordinate { x: 2, y: 0 };
    let flagged = board.update(&PlayerAction { player_id: 3, coordinate: c, action: Action::Flag });
    assert_eq!(*flagged.get_tile(&c), TileStatus::Flagged(3));
    let again = flagged.update(&PlayerAction { player_id: 4, coordinate: c, action: Action::Flag });
    assert_eq!(*again.get_tile(&c), TileStatus::Flagged(3));
    let unflagged = again.update(&PlayerAction { player_id: 3, coordinate: c, action: Action::Unflag });
    assert_eq!(*unflagged.get_tile(&c), TileStatus::Hidden);
    let revealed = reveal_at(&unflagged, 0, 1);
    let still = revealed.update(&PlayerAction {
        player_id: 3,
        coordinate: Coordinate { x: 0, y: 1 },
        action: Action::Unflag,
    });
    assert_eq!(tile(&still, 0, 1), TileStatus::Revealed(Tile::Hint(1)));
    // the earlier snapshots are unchanged
    assert_eq!(*board.get_tile(&c), TileStatus::Hidden);
    assert_eq!(*flagged.get_tile(&c), TileStatus::Flagged(3));
}
