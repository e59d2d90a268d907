use minesweeper::{
    parse_action, parse_board_size, parse_coordinate, parse_difficulty, Action, Coordinate,
    Difficulty, ParseErr,
};

#[test]
fn coordinates_parse() {
    assert_eq!(parse_coordinate(&"2,3".to_string()), Ok(Coordinate { x: 2, y: 3 }));
    assert_eq!(parse_coordinate(&"  2,3\n".to_string()), Ok(Coordinate { x: 2, y: 3 }));
    assert_eq!(parse_coordinate(&"+7,0".to_string()), Ok(Coordinate { x: 7, y: 0 }));
    assert_eq!(parse_coordinate(&"2147483647,-0".to_string()), Ok(Coordinate { x: 2147483647, y: 0 }));
}

#[test]
fn coordinate_errors() {
    assert_eq!(parse_coordinate(&"4,k".to_string()), Err(ParseErr::NotNum));
    assert_eq!(parse_coordinate(&"1,2,3".to_string()), Err(ParseErr::BadFormat));
    assert_eq!(parse_coordinate(&"12".to_string()), Err(ParseErr::BadFormat));
    assert_eq!(parse_coordinate(&"-1,2".to_string()), Err(ParseErr::NegativeNum));
    assert_eq!(parse_coordinate(&"1, 2".to_string()), Err(ParseErr::NotNum));
    assert_eq!(parse_coordinate(&",2".to_string()), Err(ParseErr::NotNum));
    assert_eq!(parse_coordinate(&"2147483648,1".to_string()), Err(ParseErr::NotNum));
    assert_eq!(parse_coordinate(&"-,1".to_string()), Err(ParseErr::NotNum));
}

#[test]
fn board_sizes_parse() {
    assert_eq!(parse_board_size("5,5\n".to_string()), Ok((5, 5)));
    assert_eq!(parse_board_size("0,5".to_string()), Err(ParseErr::NegativeNum));
    assert_eq!(parse_board_size("5;5".to_string()), Err(ParseErr::BadFormat));
    assert_eq!(parse_board_size("a,5".to_string()), Err(ParseErr::NotNum));
}

#[test]
fn actions_parse() {
    assert_eq!(parse_action("Reveal\n".to_string()), Ok(Action::Reveal));
    assert_eq!(parse_action(" Flag".to_string()), Ok(Action::Flag));
    assert_eq!(parse_action("Unflag".to_string()), Ok(Action::Unflag));
    assert_eq!(parse_action("reveal".to_string()), Err(ParseErr::BadFormat));
    assert_eq!(parse_action("".to_string()), Err(ParseErr::BadFormat));
}

#[test]
fn difficulties_parse() {
    assert_eq!(parse_difficulty("Easy\r\n".to_string()), Ok(Difficulty::Easy));
    assert_eq!(parse_difficulty("Medium".to_string()), Ok(Difficulty::Medium));
    assert_eq!(parse_difficulty("\tHard ".to_string()), Ok(Difficulty::Hard));
    assert_eq!(parse_difficulty("Harder".to_string()), Err(ParseErr::BadFormat));
}
