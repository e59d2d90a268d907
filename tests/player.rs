use minesweeper::{Player, PlayerIds};

#[test]
fn next_id() {
    let mut ids = PlayerIds::new();
    let p1 = Player::new("alice".to_string(), &mut ids);
    let p2 = Player::new("bob".to_string(), &mut ids);
    let p3 = Player::new("carol".to_string(), &mut ids);

    assert!(p2.id > p1.id);
    assert!(p3.id > p2.id);
}

#[test]
fn two_players() {
    let mut ids = PlayerIds::new();
    let new_player = Player::new("hyeyoung".to_string(), &mut ids);
    let newer_player = Player::new("william".to_string(), &mut ids);
    assert_ne!(new_player.id, newer_player.id);
}

#[test]
fn test_many_players_have_unique_ids() {
    let mut ids = PlayerIds::new();
    let players: Vec<_> = (0..100).map(|i| Player::new(format!("player{}", i), &mut ids)).collect();
    let ids: std::collections::HashSet<_> = players.iter().map(|p| p.id).collect();
    assert_eq!(ids.len(), 100);
}

#[test]
fn interleaved_creation_keeps_ids_distinct() {
    let mut ids = PlayerIds::new();
    let a = Player::new("a".to_string(), &mut ids);
    let scored = a.add_points(7);
    let b = Player::new("b".to_string(), &mut ids);
    let c = Player::new_with_id(99, "c");
    let d = Player::new("d".to_string(), &mut ids);
    assert_eq!((a.id, b.id, d.id), (1, 2, 3));
    assert_eq!(scored.id, a.id);
    assert_eq!(c.id, 99);
    assert!(ids.has_next());
}

#[test]
fn points_go_up_and_down() {
    let p = Player::new_with_id(4, "dee");
    let up = p.add_points(5);
    assert_eq!(up.points, 5);
    assert_eq!(up.name, "dee");
    let down = up.subtract_points(12);
    assert_eq!(down.points, -7);
    assert_eq!(down.id, 4);
}
