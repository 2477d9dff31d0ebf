use connect4_ai::bitboard::{bottom_mask, full_board_mask, BitBoard, BoardError};

fn popcount(x: u64) -> u32 {
    x.count_ones()
}

#[test]
fn huffman_coding() {
    let board = BitBoard::from_moves("22244444").unwrap();
    let code = board.unmirrored_code();
    assert_eq!(code, 0b010111000111011101100000);
}

#[test]
fn masks_of_the_board() {
    assert_eq!(bottom_mask(), 0x40810204081);
    assert_eq!(full_board_mask(), 0xfdfbf7efdfbf);
    assert_eq!(BitBoard::bottom_mask(2), 1 << 14);
    assert_eq!(BitBoard::top_mask(2), 1 << 19);
    assert_eq!(BitBoard::column_mask(1), 0b111111 << 7);
    assert_eq!(BitBoard::column_from_move(1 << 15), 2);
    assert_eq!(BitBoard::column_from_move(0), 7);
}

#[test]
fn from_moves_rejects_bad_characters() {
    assert_eq!(BitBoard::from_moves("0").err(), Some(BoardError::InvalidMove { position: 0 }));
    assert_eq!(BitBoard::from_moves("448").err(), Some(BoardError::InvalidMove { position: 2 }));
    assert_eq!(BitBoard::from_moves("4a").err(), Some(BoardError::InvalidMove { position: 1 }));
}

#[test]
fn from_moves_rejects_full_column() {
    assert_eq!(BitBoard::from_moves("1212121").err(), Some(BoardError::GameOver));
    assert_eq!(BitBoard::from_moves("1111111").err(), Some(BoardError::ColumnFull { column: 0 }));
}

#[test]
fn from_slice_matches_from_moves() {
    let a = BitBoard::from_slice(&[0, 0, 1, 1, 2, 2]).unwrap();
    let b = BitBoard::from_moves("112233").unwrap();
    assert_eq!(a.player_mask(), b.player_mask());
    assert_eq!(a.board_mask(), b.board_mask());
    assert_eq!(a.num_moves(), 6);
    assert!(a.check_winning_move(3));
    assert!(BitBoard::from_slice(&[7]).is_err());
    assert!(BitBoard::from_slice(&[0, 0, 0, 0, 0, 0, 0]).is_err());
    assert!(BitBoard::from_slice(&[0, 1, 0, 1, 0, 1, 0]).is_err());
}

#[test]
fn masks_stay_consistent_while_playing() {
    let moves = "445343221256776";
    for n in 0..=moves.len() {
        let board = BitBoard::from_moves(&moves[..n]).unwrap();
        assert_eq!(board.player_mask() & !board.board_mask(), 0);
        assert_eq!(popcount(board.board_mask()) as usize, board.num_moves());
        assert_eq!(board.num_moves(), n);
    }
}

#[test]
fn play_switches_sides() {
    let mut board = BitBoard::new();
    board.play(1 << 21);
    assert_eq!(board.player_mask(), 0);
    assert_eq!(board.board_mask(), 1 << 21);
    assert_eq!(board.num_moves(), 1);
    board.play(1 << 22);
    assert_eq!(board.player_mask(), 1 << 21);
    assert_eq!(board.board_mask(), (1 << 21) | (1 << 22));
    assert_eq!(board.key(), (1 << 21) + (1 << 21) + (1 << 22));
}

#[test]
fn same_position_same_key_and_code() {
    let a = BitBoard::from_moves("1234").unwrap();
    let b = BitBoard::from_moves("3214").unwrap();
    assert_eq!(a.board_mask(), b.board_mask());
    assert_eq!(a.player_mask(), b.player_mask());
    assert_eq!(a.key(), b.key());
    assert_eq!(a.unmirrored_code(), b.unmirrored_code());
    assert_eq!(a.huffman_code(), b.huffman_code());
    let c = BitBoard::from_moves("1243").unwrap();
    assert_ne!(a.key(), c.key());
}

#[test]
fn winning_moves_in_every_direction() {
    // across
    let board = BitBoard::from_moves("112233").unwrap();
    assert!(board.check_winning_move(3));
    assert!(!board.check_winning_move(4));
    // up a column
    let board = BitBoard::from_moves("121212").unwrap();
    assert!(board.check_winning_move(0));
    assert!(!board.check_winning_move(1));
    // diagonal rising to the right
    let board = BitBoard::from_moves("122334344").unwrap();
    assert!(board.check_winning_move(4));
    assert!(!board.check_winning_move(3));
    // no stones, no win
    assert!(!BitBoard::new().check_winning_move(0));
}

#[test]
fn non_losing_moves_are_possible_moves() {
    for moves in ["", "4", "112233", "1122", "445343221256776", "121213"] {
        let board = BitBoard::from_moves(moves).unwrap();
        let safe = board.non_losing_moves();
        assert_eq!(safe & !board.possible_moves(), 0);
    }
    // the opponent threatens column 4 (0-indexed 3): the only safe move blocks it
    let board = BitBoard::from_moves("11223").unwrap();
    assert_eq!(board.non_losing_moves(), BitBoard::bottom_mask(3));
    // two open threats: every move loses
    let board = BitBoard::from_moves("2233444").unwrap();
    assert_eq!(board.non_losing_moves(), 0);
}

#[test]
fn possible_moves_of_empty_board_is_bottom_row() {
    let board = BitBoard::new();
    assert_eq!(board.possible_moves(), bottom_mask());
    assert!(board.playable(0));
    let board = BitBoard::from_moves("111111").unwrap();
    assert!(!board.playable(0));
    assert_eq!(board.possible_moves() & BitBoard::column_mask(0), 0);
}

#[test]
fn move_score_counts_open_threats() {
    let board = BitBoard::new();
    assert_eq!(board.move_score(BitBoard::bottom_mask(3)), 0);
    // three in a row with both ends open after the candidate
    let board = BitBoard::from_moves("2636").unwrap();
    assert_eq!(board.move_score(BitBoard::bottom_mask(3)), 2);
}

#[test]
fn mirrored_positions_share_a_fingerprint() {
    let pairs = [("1", "7"), ("1122", "7766"), ("4453", "4435"), ("12345", "76543")];
    for (a, b) in pairs {
        let a = BitBoard::from_moves(a).unwrap();
        let b = BitBoard::from_moves(b).unwrap();
        assert_eq!(a.huffman_code(), b.huffman_code());
        assert_eq!(a.unmirrored_code(), b.huffman_code_mirror());
        assert_eq!(a.huffman_code_mirror(), b.unmirrored_code());
    }
    assert_ne!(
        BitBoard::from_moves("12").unwrap().huffman_code(),
        BitBoard::from_moves("21").unwrap().huffman_code()
    );
    let board = BitBoard::from_moves("22244444").unwrap();
    assert_eq!(board.huffman_code_mirror(), 0b000111011101100101110000);
    assert_eq!(board.huffman_code(), 0b000111011101100101110000);
}

#[test]
fn empty_board_fingerprint() {
    // seven separators, shifted left by one
    assert_eq!(BitBoard::new().huffman_code(), 0);
    assert_eq!(BitBoard::new().unmirrored_code(), 0);
    // a stone of the player who just moved reads `11`, then a separator
    let board = BitBoard::from_moves("1").unwrap();
    assert_eq!(board.unmirrored_code(), 0b110_000000_0);
    assert_eq!(board.huffman_code_mirror(), 0b000000_110_0);
    assert_eq!(board.huffman_code(), 0b1100);
    let board = BitBoard::from_moves("7").unwrap();
    assert_eq!(board.huffman_code(), 0b1100);
}

#[test]
fn validity_of_masks() {
    assert!(BitBoard::new().is_valid());
    assert!(BitBoard::from_moves("4453").unwrap().is_valid());
    // a stone floating above an empty cell
    assert!(!BitBoard::from_parts(0, 2, 1).is_valid());
    // the counter disagrees with the stones
    assert!(!BitBoard::from_parts(0, 1, 2).is_valid());
    // the mover holds more stones than half
    assert!(!BitBoard::from_parts(1, 1, 1).is_valid());
}

#[test]
fn from_parts_keeps_masks() {
    let b = BitBoard::from_parts(1, 3, 2);
    assert_eq!(b.player_mask(), 1);
    assert_eq!(b.board_mask(), 3);
    assert_eq!(b.num_moves(), 2);
}

#[test]
fn a_move_left_out_loses_at_once() {
    // the opponent threatens the bottom of column 4 (0-indexed 3)
    let board = BitBoard::from_moves("11223").unwrap();
    let safe = board.non_losing_moves();
    for column in 0..7 {
        let cell = (board.board_mask() + BitBoard::bottom_mask(column)) & BitBoard::column_mask(column);
        if safe & cell == 0 {
            let mut next = board;
            next.play(cell);
            assert!((0..7).any(|c| next.playable(c) && next.check_winning_move(c)));
        }
    }
    let after = BitBoard::from_moves("112231").unwrap();
    assert!(after.check_winning_move(3));
}

fn mirror(x: u64) -> u64 {
    let mut r = 0;
    for c in 0..7 {
        r |= ((x >> (7 * c)) & 0x7f) << (7 * (6 - c));
    }
    r
}

#[test]
fn mirror_image_keeps_the_fingerprint() {
    for moves in ["1", "4453", "12345", "2234445", "22244444", "112233"] {
        let b = BitBoard::from_moves(moves).unwrap();
        let m = BitBoard::from_parts(mirror(b.player_mask()), mirror(b.board_mask()), b.num_moves());
        assert!(m.is_valid());
        assert_eq!(b.huffman_code(), m.huffman_code());
        assert_eq!(b.unmirrored_code(), m.huffman_code_mirror());
    }
}
