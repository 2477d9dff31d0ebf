use connect4_ai::bitboard::BitBoard;
use connect4_ai::opening_database::{
    advance_sequence, book_position, encode_record, generation_done, OpeningDatabaseStorage,
    DATABASE_DEPTH, DATABASE_NUM_POSITIONS,
};

#[test]
fn records_encode_big_endian() {
    assert_eq!(encode_record(0x0102_0304, -5), [1, 2, 3, 4, 0xfb]);
    assert_eq!(encode_record(0xfedc_ba98, 18), [0xfe, 0xdc, 0xba, 0x98, 18]);
}

#[test]
fn records_read_back() {
    let mut bytes = Vec::with_capacity(DATABASE_NUM_POSITIONS * 5);
    for i in 0..DATABASE_NUM_POSITIONS {
        bytes.extend_from_slice(&encode_record(i as u32 * 3 + 1, (i % 5) as i8 - 2));
    }
    let book = OpeningDatabaseStorage::from_bytes(&bytes).unwrap();
    assert_eq!(book.positions[7], 22);
    assert_eq!(book.values[7], 0);
    assert_eq!(book.values[9], 2);
    assert_eq!(book.positions[DATABASE_NUM_POSITIONS - 1], (DATABASE_NUM_POSITIONS as u32 - 1) * 3 + 1);
}

#[test]
fn sequences_count_up() {
    let mut moves = [0usize; DATABASE_DEPTH];
    advance_sequence(&mut moves);
    assert_eq!(moves, [0, 0, 0, 0, 0, 0, 0, 0, 0, 0, 0, 1]);
    let mut moves = [2, 0, 0, 0, 0, 0, 0, 0, 3, 6, 6, 6];
    advance_sequence(&mut moves);
    assert_eq!(moves, [2, 0, 0, 0, 0, 0, 0, 0, 4, 0, 0, 0]);
    assert!(!generation_done(&moves));
    assert!(generation_done(&[1, 6, 6, 6, 6, 6, 6, 6, 0, 0, 0, 0]));
}

#[test]
fn book_positions_skip_wins_and_illegal_moves() {
    // four stones in a column end the game before the last move
    assert_eq!(book_position(&[0, 1, 0, 1, 0, 1, 0, 1, 2, 2, 2, 2]), None);
    // the player to move could win at once
    assert_eq!(book_position(&[0, 0, 1, 1, 2, 2, 4, 4, 5, 5, 6, 6]), None);
    let moves = [1, 4, 6, 6, 6, 0, 2, 0, 3, 6, 3, 3];
    let board = BitBoard::from_slice(&moves).unwrap();
    assert_eq!(
        book_position(&moves),
        Some((board.huffman_code(), board.player_mask(), board.board_mask()))
    );
}
