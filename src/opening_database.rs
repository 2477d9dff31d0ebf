//! The opening book: the score of every position at a fixed number of
//! stones, looked up by fingerprint.
//!
//! On disk the book is a run of 5-byte records, each a big-endian `u32`
//! fingerprint followed by an `i8` score, in ascending fingerprint order.
use vstd::prelude::*;
use std::rc::Rc;
use crate::bitboard::{replay, BitBoard, BoardError};
use crate::solver::can_win_now;
use crate::WIDTH;

verus! {

/// The file the book is read from.
pub const DATABASE_PATH: &'static str = "opening_database.bin";

/// The file in which book generation keeps the positions before solving them.
pub const TEMP_FILE_PATH: &'static str = "temp_positions.bin";

/// The number of stones of the positions in the book.
pub const DATABASE_DEPTH: usize = 12;

/// The number of records in the book.
pub const DATABASE_NUM_POSITIONS: usize = 4200899;

/// The number of bytes of one record.
pub const RECORD_SIZE: usize = 5;

/// Why a byte buffer is not a book.
#[derive(Copy, Clone, Debug, PartialEq, Eq, Structural)]
pub enum BookError {
    /// The buffer holds `len` bytes, fewer than the book's records need.
    TooShort { len: usize },
}

/// The big-endian `u32` in four bytes.
pub open spec fn be_u32(b0: u8, b1: u8, b2: u8, b3: u8) -> u32 {
    (b0 as int * 0x100_0000 + b1 as int * 0x1_0000 + b2 as int * 0x100 + b3 as int) as u32
}

/// The fingerprint of record `i` of `bytes`.
pub open spec fn record_position(bytes: Seq<u8>, i: int) -> u32 {
    be_u32(bytes[5 * i], bytes[5 * i + 1], bytes[5 * i + 2], bytes[5 * i + 3])
}

/// The stored score of record `i` of `bytes`.
pub open spec fn record_value(bytes: Seq<u8>, i: int) -> i8 {
    #[verifier::truncate]
    (bytes[5 * i + 4] as i8)
}

/// Half of `x`, rounded toward zero, as integer division does.
pub open spec fn half(x: int) -> int {
    if x >= 0 {
        x / 2
    } else {
        -((-x) / 2)
    }
}

/// The solver's score for a stored book value.
pub open spec fn book_score(v: i8) -> i32 {
    if v > 0 {
        (21 - half(12 + (100 - v))) as i32
    } else if v < 0 {
        (-22 + half(12 + (100 + v))) as i32
    } else {
        0
    }
}

fn read_be_u32(b0: u8, b1: u8, b2: u8, b3: u8) -> (r: u32)
    ensures
        r == be_u32(b0, b1, b2, b3),
{
    (b0 as u32) * 0x100_0000 + (b1 as u32) * 0x1_0000 + (b2 as u32) * 0x100 + (b3 as u32)
}

/// Converts a stored book value to the solver's score.
pub fn score_from_book(v: i8) -> (r: i32)
    ensures
        r == book_score(v),
        -34 <= r <= 33,
{
    if v > 0 {
        21 - (12 + (100 - v as i32)) / 2
    } else if v < 0 {
        -22 + (12 + (100 + v as i32)) / 2
    } else {
        0
    }
}

/// The fingerprints are in ascending order, as in a book file.
pub open spec fn sorted_ascending(s: Seq<u32>) -> bool {
    forall|i: int, j: int| 0 <= i <= j < s.len() ==> s[i] <= s[j]
}

/// The records of the book, as two parallel arrays.
#[derive(Clone)]
pub struct OpeningDatabaseStorage {
    pub positions: Vec<u32>,
    pub values: Vec<i8>,
}

impl OpeningDatabaseStorage {
    /// Both arrays hold one entry per record.
    pub open spec fn wf(&self) -> bool {
        &&& self.positions@.len() == DATABASE_NUM_POSITIONS
        &&& self.values@.len() == DATABASE_NUM_POSITIONS
    }

    /// Reads the records from the bytes of a book file; bytes past the last
    /// record are ignored.
    pub fn from_bytes(bytes: &[u8]) -> (r: Result<Self, BookError>)
        ensures
            r is Ok <==> bytes@.len() >= DATABASE_NUM_POSITIONS * RECORD_SIZE,
            r matches Err(e) ==> e == (BookError::TooShort { len: bytes@.len() as usize }),
            r matches Ok(d) ==> d.wf() && (forall|i: int|
                0 <= i < DATABASE_NUM_POSITIONS ==> #[trigger] d.positions@[i] == record_position(bytes@, i))
                && (forall|i: int|
                0 <= i < DATABASE_NUM_POSITIONS ==> #[trigger] d.values@[i] == record_value(bytes@, i)),
    {
        if bytes.len() < DATABASE_NUM_POSITIONS * RECORD_SIZE {
            return Err(BookError::TooShort { len: bytes.len() });
        }
        let mut positions: Vec<u32> = Vec::with_capacity(DATABASE_NUM_POSITIONS);
        let mut values: Vec<i8> = Vec::with_capacity(DATABASE_NUM_POSITIONS);
        let mut i: usize = 0;
        while i < DATABASE_NUM_POSITIONS
            invariant
                i <= DATABASE_NUM_POSITIONS,
                bytes@.len() >= DATABASE_NUM_POSITIONS * RECORD_SIZE,
                positions@.len() == i,
                values@.len() == i,
                forall|j: int| 0 <= j < i ==> #[trigger] positions@[j] == record_position(bytes@, j),
                forall|j: int| 0 <= j < i ==> #[trigger] values@[j] == record_value(bytes@, j),
            decreases DATABASE_NUM_POSITIONS - i,
        {
            let at = i * RECORD_SIZE;
            assert(at == 5 * i);
            positions.push(read_be_u32(bytes[at], bytes[at + 1], bytes[at + 2], bytes[at + 3]));
            values.push(#[verifier::truncate] (bytes[at + 4] as i8));
            i += 1;
        }
        Ok(Self { positions, values })
    }

    /// The index of a record with fingerprint `code`, by binary search over
    /// the records in ascending order; it finds every stored fingerprint.
    fn find(&self, code: u32) -> (r: Option<usize>)
        requires
            self.wf(),
        ensures
            r matches Some(i) ==> i < DATABASE_NUM_POSITIONS && self.positions@[i as int] == code,
            sorted_ascending(self.positions@) && (exists|i: int|
                0 <= i < DATABASE_NUM_POSITIONS && #[trigger] self.positions@[i] == code) ==> r is Some,
    {
        let mut lo: usize = 0;
        let mut hi: usize = self.positions.len();
        while lo < hi
            invariant
                self.wf(),
                lo <= hi <= DATABASE_NUM_POSITIONS,
                sorted_ascending(self.positions@) ==> forall|i: int|
                    0 <= i < DATABASE_NUM_POSITIONS && #[trigger] self.positions@[i] == code ==> lo <= i < hi,
            decreases hi - lo,
        {
            let mid = lo + (hi - lo) / 2;
            let stored = self.positions[mid];
            if stored < code {
                lo = mid + 1;
            } else if stored > code {
                hi = mid;
            } else {
                return Some(mid);
            }
        }
        None
    }

    /// The score of the position whose fingerprint, read from either side,
    /// is `code` or `mirror_code`; `None` if the book holds neither.
    pub fn get(&self, code: u32, mirror_code: u32) -> (r: Option<i32>)
        requires
            self.wf(),
        ensures
            r matches Some(s) ==> exists|i: int|
                0 <= i < DATABASE_NUM_POSITIONS && (self.positions@[i] == code
                    || self.positions@[i] == mirror_code) && s == book_score(
                    #[trigger] self.values@[i],
                ),
            (forall|i: int|
                0 <= i < DATABASE_NUM_POSITIONS ==> #[trigger] self.positions@[i] != code
                    && self.positions@[i] != mirror_code) ==> r is None,
            sorted_ascending(self.positions@) && (exists|i: int|
                0 <= i < DATABASE_NUM_POSITIONS && (#[trigger] self.positions@[i] == code
                    || self.positions@[i] == mirror_code)) ==> r is Some,
    {
        proof {
            if sorted_ascending(self.positions@) && (exists|i: int|
                0 <= i < DATABASE_NUM_POSITIONS && (#[trigger] self.positions@[i] == code
                    || self.positions@[i] == mirror_code)) {
                let i = choose|i: int| 0 <= i < DATABASE_NUM_POSITIONS && (#[trigger] self.positions@[i] == code
                    || self.positions@[i] == mirror_code);
                assert(self.positions@[i] == code || self.positions@[i] == mirror_code);
            }
        }
        let found = match self.find(code) {
            Some(i) => Some(i),
            None => self.find(mirror_code),
        };
        match found {
            Some(i) => Some(score_from_book(self.values[i])),
            None => None,
        }
    }
}

/// A shared handle to a loaded opening book.
#[derive(Clone)]
pub struct OpeningDatabase {
    pub storage: Rc<OpeningDatabaseStorage>,
}

impl OpeningDatabase {
    /// The book holds one entry per record.
    pub open spec fn wf(&self) -> bool {
        (*self.storage).wf()
    }

    /// Reads a book from the bytes of a book file.
    pub fn from_bytes(bytes: &[u8]) -> (r: Result<Self, BookError>)
        ensures
            r is Ok <==> bytes@.len() >= DATABASE_NUM_POSITIONS * RECORD_SIZE,
            r matches Err(e) ==> e == (BookError::TooShort { len: bytes@.len() as usize }),
            r matches Ok(d) ==> d.wf() && (forall|i: int|
                0 <= i < DATABASE_NUM_POSITIONS ==> #[trigger] d.storage.positions@[i]
                    == record_position(bytes@, i)) && (forall|i: int|
                0 <= i < DATABASE_NUM_POSITIONS ==> #[trigger] d.storage.values@[i]
                    == record_value(bytes@, i)),
    {
        match OpeningDatabaseStorage::from_bytes(bytes) {
            Ok(storage) => Ok(Self { storage: Rc::new(storage) }),
            Err(e) => Err(e),
        }
    }

    /// The score of the position with fingerprints `code` and `mirror_code`,
    /// if the book holds it.
    pub fn get(&self, code: u32, mirror_code: u32) -> (r: Option<i32>)
        requires
            self.wf(),
        ensures
            r matches Some(s) ==> exists|i: int|
                0 <= i < DATABASE_NUM_POSITIONS && (self.storage.positions@[i] == code
                    || self.storage.positions@[i] == mirror_code) && s == book_score(
                    #[trigger] self.storage.values@[i],
                ),
            (forall|i: int|
                0 <= i < DATABASE_NUM_POSITIONS ==> #[trigger] self.storage.positions@[i] != code
                    && self.storage.positions@[i] != mirror_code) ==> r is None,
            sorted_ascending(self.storage.positions@) && (exists|i: int|
                0 <= i < DATABASE_NUM_POSITIONS && (#[trigger] self.storage.positions@[i] == code
                    || self.storage.positions@[i] == mirror_code)) ==> r is Some,
    {
        self.storage.get(code, mirror_code)
    }
}

/// The five bytes of a book record: the fingerprint, big-endian, then the score.
pub fn encode_record(code: u32, score: i8) -> (r: [u8; 5])
    ensures
        be_u32(r[0], r[1], r[2], r[3]) == code,
        #[verifier::truncate] (r[4] as i8) == score,
{
    let b0 = (code / 0x100_0000) as u8;
    let b1 = ((code / 0x1_0000) % 0x100) as u8;
    let b2 = ((code / 0x100) % 0x100) as u8;
    let b3 = (code % 0x100) as u8;
    let b4 = #[verifier::truncate] (score as u8);
    assert(#[verifier::truncate] (b4 as i8) == score) by (bit_vector)
        requires
            b4 == #[verifier::truncate] (score as u8),
    ;
    [b0, b1, b2, b3, b4]
}

/// A record written by `encode_record` reads back as the same fingerprint
/// and score.
pub proof fn lemma_record_round_trip(bytes: Seq<u8>, code: u32, score: i8)
    requires
        bytes.len() == 5,
        be_u32(bytes[0], bytes[1], bytes[2], bytes[3]) == code,
        #[verifier::truncate] (bytes[4] as i8) == score,
    ensures
        record_position(bytes, 0) == code,
        record_value(bytes, 0) == score,
{
}

/// The entry that book generation records for a sequence of 0-indexed moves:
/// the canonical fingerprint and the masks of the position, if the moves are
/// legal and the player to move cannot win at once.
pub fn book_position(moves: &[usize]) -> (r: Option<(u32, u64, u64)>)
    ensures
        r is Some <==> replay(moves@) is Ok && !can_win_now(replay(moves@)->Ok_0),
        r matches Some(e) ==> e == (
            replay(moves@)->Ok_0.huffman_spec(),
            replay(moves@)->Ok_0.player_mask,
            replay(moves@)->Ok_0.board_mask,
        ),
{
    let board = match BitBoard::from_slice(moves) {
        Ok(b) => b,
        Err(_) => {
            return None;
        },
    };
    // the search finds wins on the next move before it asks the book
    let mut column: usize = 0;
    while column < WIDTH
        invariant
            column <= WIDTH,
            board.wf(),
            replay(moves@) == Ok::<BitBoard, BoardError>(board),
            forall|c: u64| c < column ==> !(board.playable_spec(c) && #[trigger] board.winning_spec(c)),
        decreases WIDTH - column,
    {
        if board.playable(column) && board.check_winning_move(column) {
            assert(board.playable_spec(column as u64) && board.winning_spec(column as u64));
            return None;
        }
        column += 1;
    }
    Some((board.huffman_code(), board.player_mask(), board.board_mask()))
}

/// The sequences of one generation thread are exhausted once the moves after
/// the first, up to the height of a column, are all in the last column.
pub fn generation_done(moves: &[usize; DATABASE_DEPTH]) -> (r: bool)
    ensures
        r == forall|j: int| 1 <= j <= 7 ==> #[trigger] moves@[j] == WIDTH - 1,
{
    let mut j: usize = 1;
    while j <= 7
        invariant
            1 <= j <= 8,
            forall|k: int| 1 <= k < j ==> #[trigger] moves@[k] == WIDTH - 1,
        decreases 8 - j,
    {
        if moves[j] != WIDTH - 1 {
            return false;
        }
        j += 1;
    }
    true
}

/// Steps to the next sequence of moves, counting in base `WIDTH` with the
/// last move as the lowest digit.
pub fn advance_sequence(moves: &mut [usize; DATABASE_DEPTH])
    requires
        forall|j: int| 0 <= j < DATABASE_DEPTH ==> #[trigger] old(moves)@[j] < WIDTH,
        exists|j: int| 0 <= j < DATABASE_DEPTH && #[trigger] old(moves)@[j] < WIDTH - 1,
    ensures
        forall|j: int| 0 <= j < DATABASE_DEPTH ==> #[trigger] final(moves)@[j] < WIDTH,
        exists|k: int|
            0 <= k < DATABASE_DEPTH && #[trigger] final(moves)@[k] == old(moves)@[k] + 1 && (forall|j: int|
                0 <= j < k ==> #[trigger] final(moves)@[j] == old(moves)@[j]) && (forall|j: int|
                k < j < DATABASE_DEPTH ==> old(moves)@[j] == WIDTH - 1 && #[trigger] final(moves)@[j] == 0),
{
    let ghost before = moves@;
    let mut d: usize = DATABASE_DEPTH - 1;
    // the lowest digit that is not the last column takes the carry
    while moves[d] == WIDTH - 1
        invariant
            d < DATABASE_DEPTH,
            moves@ == before,
            forall|j: int| 0 <= j < DATABASE_DEPTH ==> #[trigger] before[j] < WIDTH,
            exists|j: int| 0 <= j <= d && #[trigger] before[j] < WIDTH - 1,
            forall|j: int| d < j < DATABASE_DEPTH ==> #[trigger] before[j] == WIDTH - 1,
        decreases d,
    {
        d -= 1;
    }
    let k = d;
    moves[k] = moves[k] + 1;
    let mut j: usize = k + 1;
    while j < DATABASE_DEPTH
        invariant
            k < j <= DATABASE_DEPTH,
            moves@[k as int] == before[k as int] + 1,
            forall|i: int| 0 <= i < k ==> #[trigger] moves@[i] == before[i],
            forall|i: int| k < i < j ==> #[trigger] moves@[i] == 0,
            forall|i: int| j <= i < DATABASE_DEPTH ==> #[trigger] moves@[i] == before[i],
            forall|i: int| k < i < DATABASE_DEPTH ==> #[trigger] before[i] == WIDTH - 1,
            forall|i: int| 0 <= i < DATABASE_DEPTH ==> #[trigger] before[i] < WIDTH,
            before[k as int] < WIDTH - 1,
        decreases DATABASE_DEPTH - j,
    {
        moves[j] = 0;
        j += 1;
    }
    assert(moves@[k as int] == before[k as int] + 1);
}

} // verus!
