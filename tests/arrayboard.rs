use connect4_ai::arrayboard::{ArrayBoard, Cell, GameState, MoveError};

#[test]
fn new_board_is_empty() {
    let board = ArrayBoard::new();
    assert!(board.player_one);
    assert_eq!(board.game, "");
    assert_eq!(board.num_moves, 0);
    assert!(matches!(board.state, GameState::Playing));
    assert!(board.cells.iter().all(|c| c.is_empty()));
    assert!(!board.check_draw_move());
}

#[test]
fn play_fills_the_lowest_cell() {
    let mut board = ArrayBoard::new();
    board.play(3);
    board.play(3);
    assert_eq!(board.cells[3], Cell::PlayerOne);
    assert_eq!(board.cells[3 + 7], Cell::PlayerTwo);
    assert_eq!(board.heights[3], 2);
    assert!(board.player_one);
    assert_eq!(board.num_moves, 2);
}

#[test]
fn play_checked_records_the_game() {
    let mut board = ArrayBoard::new();
    assert_eq!(board.play_checked(4), Ok(GameState::Playing));
    assert_eq!(board.play_checked(5), Ok(GameState::Playing));
    assert_eq!(board.game, "45");
    assert_eq!(board.play_checked(0), Err(MoveError::OutOfRange { column: 0 }));
    assert_eq!(board.play_checked(8), Err(MoveError::OutOfRange { column: 8 }));
    assert_eq!(board.game, "45");
}

#[test]
fn play_checked_rejects_full_column() {
    let mut board = ArrayBoard::from_str("121212").unwrap();
    let _ = board.play_checked(2);
    let _ = board.play_checked(1);
    assert_eq!(board.heights[0], 4);
    let mut board = ArrayBoard::from_str("131313").unwrap();
    assert_eq!(board.play_checked(2), Ok(GameState::Playing));
    let mut board = ArrayBoard::from_str("111111").unwrap();
    assert_eq!(board.play_checked(1), Err(MoveError::ColumnFull { column: 1 }));
}

#[test]
fn wins_are_detected() {
    // across, for player one
    let mut board = ArrayBoard::from_str("112233").unwrap();
    assert_eq!(board.play_checked(4), Ok(GameState::PlayerOneWin));
    // up a column, for player one
    let board = ArrayBoard::from_str("1212121").unwrap();
    assert!(matches!(board.state, GameState::PlayerOneWin));
    // up a column, for player two
    let mut board = ArrayBoard::from_str("3212121").unwrap();
    assert_eq!(board.play_checked(2), Ok(GameState::PlayerTwoWin));
    // a diagonal
    let mut board = ArrayBoard::from_str("122334344").unwrap();
    assert_eq!(board.play_checked(5), Ok(GameState::PlayerTwoWin));
    // a hole filled in the middle of a row
    let mut board = ArrayBoard::from_str("172746").unwrap();
    assert_eq!(board.play_checked(3), Ok(GameState::PlayerOneWin));
    let mut board = ArrayBoard::from_str("172746").unwrap();
    assert_eq!(board.play_checked(7), Ok(GameState::Playing));
}

#[test]
fn from_str_rejects_non_digits() {
    assert_eq!(ArrayBoard::from_str("12x").err(), Some(MoveError::InvalidCharacter { position: 2 }));
    assert_eq!(ArrayBoard::from_str("9").err(), Some(MoveError::OutOfRange { column: 9 }));
}

#[test]
fn last_cell_is_a_draw() {
    // fill all but the last cell without four in a row
    let moves = "12345671234567123456712345677654321765432176543217";
    let mut board = ArrayBoard::new();
    for ch in moves.chars().take(41) {
        let _ = board.play_checked(ch.to_digit(10).unwrap() as usize);
    }
    assert_eq!(board.num_moves, 41);
    assert!(board.check_draw_move());
}

#[test]
fn from_str_plays_every_move() {
    let board = ArrayBoard::from_str("4453").unwrap();
    assert_eq!(board.cells[3], Cell::PlayerOne);
    assert_eq!(board.cells[3 + 7], Cell::PlayerTwo);
    assert_eq!(board.cells[4], Cell::PlayerOne);
    assert_eq!(board.cells[2], Cell::PlayerTwo);
    assert_eq!(board.heights, [0, 0, 1, 2, 1, 0, 0]);
    assert!(board.player_one);
    assert_eq!(board.state, GameState::Playing);
    let board = ArrayBoard::from_str("1111111").err();
    assert_eq!(board, Some(MoveError::ColumnFull { column: 1 }));
}
