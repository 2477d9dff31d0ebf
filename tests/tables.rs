use connect4_ai::opening_database::{
    score_from_book, BookError, OpeningDatabase, OpeningDatabaseStorage, DATABASE_NUM_POSITIONS,
};
use connect4_ai::transposition_table::{
    shared_lookup, Entry, SharedTranspositionTable, TranspositionTable, TranspositionTableStorage,
    TABLE_MAX_SIZE,
};

#[test]
fn table_round_trip() {
    let mut table = TranspositionTable::new();
    assert_eq!(table.get(12345), 0);
    table.set(12345, 7);
    assert_eq!(table.get(12345), 7);
    // another slot leaves the entry alone
    table.set(12346, 9);
    assert_eq!(table.get(12345), 7);
    assert_eq!(table.get(12346), 9);
}

#[test]
fn table_collision_overwrites() {
    let mut table = TranspositionTableStorage::new();
    let key = 99u64;
    let other = key + TABLE_MAX_SIZE as u64;
    table.set(key, 3);
    table.set(other, 4);
    assert_eq!(table.get(other), 4);
    assert_eq!(table.get(key), 0);
    assert_eq!(table.entries.len(), TABLE_MAX_SIZE);
}

#[test]
fn empty_entry() {
    let e = Entry::new();
    assert_eq!((e.key, e.value), (0, 0));
}

#[test]
fn shared_table_round_trip() {
    let table = SharedTranspositionTable::new();
    assert_eq!(table.get(42), 0);
    table.set(42, 17);
    assert_eq!(table.get(42), 17);
    let copy = table.clone();
    assert_eq!(copy.get(42), 17);
    assert_eq!(copy.get(43), 0);
}

#[test]
fn shared_lookup_checks_the_tag() {
    assert_eq!(shared_lookup(42, 42 ^ 17, 17), 17);
    assert_eq!(shared_lookup(42, 42, 17), 0);
    assert_eq!(shared_lookup(43, 42 ^ 17, 17), 0);
}

#[test]
fn book_scores() {
    assert_eq!(score_from_book(0), 0);
    assert_eq!(score_from_book(1), -34);
    assert_eq!(score_from_book(100), 15);
    assert_eq!(score_from_book(-1), 33);
    assert_eq!(score_from_book(-100), -16);
    assert_eq!(score_from_book(127), 28);
    assert_eq!(score_from_book(-128), -30);
}

#[test]
fn book_too_short() {
    let bytes = vec![0u8; 10];
    assert_eq!(OpeningDatabaseStorage::from_bytes(&bytes).err(), Some(BookError::TooShort { len: 10 }));
    assert!(OpeningDatabase::from_bytes(&bytes).is_err());
}

fn book_bytes() -> Vec<u8> {
    let mut bytes = Vec::with_capacity(DATABASE_NUM_POSITIONS * 5);
    for i in 0..DATABASE_NUM_POSITIONS {
        let code = (2 * i + 2) as u32;
        bytes.extend_from_slice(&code.to_be_bytes());
        bytes.push(((i % 37) as i8 - 18) as u8);
    }
    bytes
}

#[test]
fn book_lookup() {
    let bytes = book_bytes();
    let book = OpeningDatabase::from_bytes(&bytes).unwrap();
    for i in [0usize, 1, 2, 1000, 123456, DATABASE_NUM_POSITIONS / 2, DATABASE_NUM_POSITIONS - 6, DATABASE_NUM_POSITIONS - 5, DATABASE_NUM_POSITIONS - 4, DATABASE_NUM_POSITIONS - 3, DATABASE_NUM_POSITIONS - 2, DATABASE_NUM_POSITIONS - 1] {
        let code = (2 * i + 2) as u32;
        let expected = score_from_book((i % 37) as i8 - 18);
        assert_eq!(book.get(code, code + 1), Some(expected));
        assert_eq!(book.get(code + 1, code), Some(expected));
    }
    assert_eq!(book.get(3, 5), None);
    assert_eq!(book.get(1, u32::MAX), None);
}
