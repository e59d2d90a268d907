use minesweeper::{
    Action, Coordinate, Difficulty, Game, GameStatus, Player, PlayerAction, PlayerIds, Tile,
    TileStatus,
};

fn act(game: &Game, player_id: u32, x: u32, y: u32, action: Action) -> Game {
    game.update(&PlayerAction { player_id, coordinate: Coordinate { x, y }, action })
}

#[test]
fn game_add_player() {
    let mut game = Game::new(3, 3, Difficulty::Easy);
    let player_1 = Player::new_with_id(1, "hyeyoung");
    game = game.add_player(player_1);
    assert_eq!(game.get_player(&1).id, 1);
}

#[test]
fn game_add_players() {
    let mut game = Game::new(3, 3, Difficulty::Easy);
    let player_1 = Player::new_with_id(1, "hyeyoung");
    let player_2 = Player::new_with_id(2, "charlie");
    game = game.add_player(player_1);
    game = game.add_player(player_2);
    assert_eq!(game.get_player(&2).id, 2);
}

#[test]
fn get_winner() {
    let game = Game::new(3, 3, Difficulty::Easy);
    let player_1 = Player::new_with_id(1, "hyeyoung");
    let player_2 = Player::new_with_id(2, "charlie");
    let player_3 = Player::new_with_id(3, "william");
    let up1 = player_1.add_points(-1);
    let up2 = player_2.add_points(30);
    let up3 = player_3.add_points(25);
    let ugame = game.add_player(up1).add_player(up2).add_player(up3);
    assert_eq!(ugame.get_winners().len(), 1);
}

#[test]
fn get_winners() {
    let game = Game::new(3, 3, Difficulty::Easy);
    let player_1 = Player::new_with_id(1, "hyeyoung");
    let player_2 = Player::new_with_id(2, "charlie");
    let player_3 = Player::new_with_id(3, "william");
    let player_4 = Player::new_with_id(4, "michael");
    let up1 = player_1.add_points(-1);
    let up2 = player_2.add_points(30);
    let up3 = player_3.add_points(25);
    let up4 = player_4.add_points(30);
    let ugame = game.add_player(up1).add_player(up2).add_player(up3).add_player(up4);
    assert_eq!(ugame.get_winners().len(), 2);
}

#[test]
fn check_win_test() {
    let mine_coordinates = vec![Coordinate { x: 0, y: 0 }, Coordinate { x: 1, y: 1 }];
    let mut ids = PlayerIds::new();
    let player = Player::new("hyeyoung".to_string(), &mut ids);
    let id = player.id;
    let mut test = Game::new_test(2, 2, mine_coordinates).add_player(player);
    test = act(&test, id, 0, 1, Action::Reveal);
    test = act(&test, id, 1, 0, Action::Reveal);
    assert_eq!(test.status, GameStatus::Win);
}

#[test]
fn two_by_two_win_scenario() {
    let mines = vec![Coordinate { x: 0, y: 0 }, Coordinate { x: 1, y: 1 }];
    let game = Game::new_test(2, 2, mines).add_player(Player::new_with_id(1, "ann"));
    let first = act(&game, 1, 0, 1, Action::Reveal);
    // both mines touch (0,1), so its hint is 2
    assert_eq!(*first.board.get_tile(&Coordinate { x: 0, y: 1 }), TileStatus::Revealed(Tile::Hint(2)));
    assert_eq!(*first.board.get_tile(&Coordinate { x: 1, y: 0 }), TileStatus::Hidden);
    assert_eq!(first.status, GameStatus::Continue);
    assert_eq!(first.get_player(&1).points, 1);
    let second = act(&first, 1, 1, 0, Action::Reveal);
    assert_eq!(*second.board.get_tile(&Coordinate { x: 1, y: 0 }), TileStatus::Revealed(Tile::Hint(2)));
    assert_eq!(second.status, GameStatus::Win);
    assert_eq!(second.get_player(&1).points, 2);
    // the mines were never flagged
    assert_eq!(*second.board.get_tile(&Coordinate { x: 0, y: 0 }), TileStatus::Hidden);
    assert_eq!(*second.board.get_tile(&Coordinate { x: 1, y: 1 }), TileStatus::Hidden);
}

#[test]
fn revealing_a_mine_ends_the_game() {
    let game = Game::new_test(4, 4, vec![Coordinate { x: 3, y: 3 }]).add_player(Player::new_with_id(5, "bo"));
    let over = act(&game, 5, 3, 3, Action::Reveal);
    assert_eq!(over.status, GameStatus::Over);
    assert_eq!(over.get_player(&5).points, -10);
    assert_eq!(*over.board.get_tile(&Coordinate { x: 0, y: 0 }), TileStatus::Hidden);
}

#[test]
fn zero_hint_reveal_scores_three() {
    let game = Game::new_test(3, 3, vec![Coordinate { x: 0, y: 0 }]).add_player(Player::new_with_id(2, "cy"));
    let after = act(&game, 2, 2, 2, Action::Reveal);
    assert_eq!(after.get_player(&2).points, 3);
    assert_eq!(after.status, GameStatus::Win);
}

#[test]
fn flag_scoring() {
    let game = Game::new_test(3, 3, vec![Coordinate { x: 0, y: 0 }]).add_player(Player::new_with_id(2, "cy"));
    let on_mine = act(&game, 2, 0, 0, Action::Flag);
    assert_eq!(on_mine.get_player(&2).points, 2);
    assert_eq!(on_mine.status, GameStatus::Continue);
    let on_safe = act(&on_mine, 2, 2, 2, Action::Flag);
    assert_eq!(on_safe.get_player(&2).points, 1);
    let unflag = act(&on_safe, 2, 2, 2, Action::Unflag);
    assert_eq!(unflag.get_player(&2).points, 1);
    assert_eq!(*unflag.board.get_tile(&Coordinate { x: 2, y: 2 }), TileStatus::Hidden);
}

#[test]
fn turns_rotate_through_players() {
    let game = Game::new_test(3, 3, vec![Coordinate { x: 0, y: 0 }])
        .add_player(Player::new_with_id(1, "a"))
        .add_player(Player::new_with_id(2, "b"));
    assert_eq!(game.current_player().id, 1);
    let g1 = act(&game, 1, 2, 0, Action::Flag);
    assert_eq!(g1.current_turn, 1);
    assert_eq!(g1.current_player().id, 2);
    let g2 = act(&g1, 2, 0, 0, Action::Flag);
    assert_eq!(g2.current_turn, 0);
    assert_eq!(g2.get_player(&1).points, -1);
    assert_eq!(g2.get_player(&2).points, 2);
    assert_eq!(g2.turn_order, vec![1, 2]);
}

#[test]
fn no_players_no_winners() {
    let game = Game::new(3, 3, Difficulty::Hard);
    assert!(game.get_winners().is_empty());
}

#[test]
fn winners_are_the_top_scorers() {
    let game = Game::new_test(2, 2, vec![])
        .add_player(Player::new_with_id(1, "a").add_points(4))
        .add_player(Player::new_with_id(2, "b").add_points(-3))
        .add_player(Player::new_with_id(3, "c").add_points(4));
    let mut ids: Vec<u32> = game.get_winners().iter().map(|p| p.id).collect();
    ids.sort();
    assert_eq!(ids, vec![1, 3]);
}

#[test]
fn add_player_by_name_issues_ids() {
    let mut ids = PlayerIds::new();
    let game = Game::new_test(2, 2, vec![])
        .add_player_by_name("ann", &mut ids)
        .add_player_by_name("bob", &mut ids);
    assert_eq!(game.turn_order, vec![1, 2]);
    assert_eq!(game.get_player(&2).name, "bob");
    assert_eq!(game.get_player(&1).points, 0);
}

#[test]
fn check_win_ignores_mines() {
    let game = Game::new_test(2, 1, vec![Coordinate { x: 0, y: 0 }]).add_player(Player::new_with_id(1, "a"));
    assert!(!Game::check_win(&game.board));
    let after = act(&game, 1, 1, 0, Action::Reveal);
    assert!(Game::check_win(&after.board));
}
