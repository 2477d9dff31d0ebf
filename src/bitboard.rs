//! A compact, bit-packed Connect 4 board.
//!
//! Column `c` occupies bits `7c .. 7c + 5`, bottom to top; bit `7c + 6` is a
//! guard bit that always stays clear, so that shifts never carry one column
//! into the next.
use vstd::prelude::*;
use crate::bits::{count_ones, lemma_word_facts, lemma_popcount_add_bit, lemma_popcount_le, lemma_popcount_split, popcount, single_bit};
use crate::{HEIGHT, WIDTH};
use vstd::string::StringSliceAdditionalSpecFns;

verus! {

/// One bit at the bottom cell of each column.
pub const BOTTOM_ROW: u64 = 0x40810204081;

/// Every cell of the board, guard bits excluded.
pub const FULL_BOARD: u64 = 0xfdfbf7efdfbf;

/// Returns a mask of the bottom cell of every column.
pub fn bottom_mask() -> (r: u64)
    ensures
        r == BOTTOM_ROW,
        forall|c: u64| c < 7 ==> #[trigger] bottom_bit(c) & r == bottom_bit(c),
{
    let mut mask: u64 = 0;
    let mut column: usize = 0;
    while column < WIDTH
        invariant
            column <= WIDTH,
            mask == bottom_row_upto(column as u64),
        decreases WIDTH - column,
    {
        assert(column * (HEIGHT + 1) <= 42) by (nonlinear_arith)
            requires
                column < 7,
                HEIGHT == 6,
        ;
        mask = mask | (1u64 << ((column * (HEIGHT + 1)) as u64));
        column += 1;
    }
    proof {
        lemma_bottom_row_upto();
        assert forall|c: u64| c < 7 implies #[trigger] bottom_bit(c) & BOTTOM_ROW == bottom_bit(c) by {
            assert(c < 7 ==> (1u64 << (c * 7)) & 0x40810204081u64 == (1u64 << (c * 7))) by (bit_vector);
        }
    }
    mask
}

/// Returns a mask of every cell of the board.
pub fn full_board_mask() -> (r: u64)
    ensures
        r == FULL_BOARD,
{
    let b = bottom_mask();
    assert(b * 63 == FULL_BOARD);
    proof {
        lemma_word_facts(0, 0);
    }
    b * (((1u64 << (HEIGHT as u64)) - 1) as u64)
}

spec fn bottom_row_upto(n: u64) -> u64
    decreases n,
{
    if n == 0 {
        0
    } else {
        bottom_row_upto((n - 1) as u64) | (1u64 << ((n - 1) * 7) as u64)
    }
}

proof fn lemma_bottom_row_upto()
    ensures
        bottom_row_upto(7) == BOTTOM_ROW,
{
    reveal_with_fuel(bottom_row_upto, 8);
    assert((((((((0u64 | (1u64 << 0u64)) | (1u64 << 7u64)) | (1u64 << 14u64)) | (1u64 << 21u64))
        | (1u64 << 28u64)) | (1u64 << 35u64)) | (1u64 << 42u64)) == 0x40810204081u64) by (bit_vector);
}

/// The bottom cell of column `c`.
pub open spec fn bottom_bit(c: u64) -> u64 {
    1u64 << ((c * 7) as u64)
}

/// The top cell of column `c`.
pub open spec fn top_bit(c: u64) -> u64 {
    1u64 << ((c * 7 + 5) as u64)
}

/// The six cells of column `c`.
pub open spec fn column_bits(c: u64) -> u64 {
    63u64 << ((c * 7) as u64)
}


/// Index of the bottom bit of `column`.
fn column_offset(column: usize) -> (r: u64)
    requires
        column < WIDTH,
    ensures
        r == column * 7,
        r <= 42,
{
    assert(column * (HEIGHT + 1) <= 42) by (nonlinear_arith)
        requires
            column < 7,
            HEIGHT == 6,
    ;
    (column * (HEIGHT + 1)) as u64
}

/// The masks of a position are consistent: the mover's stones lie on the
/// board, no stone lies outside the board or in a guard bit, and every stone
/// rests on the bottom or on another stone.
pub open spec fn masks_valid(player: u64, board: u64) -> bool {
    &&& player & !board == 0
    &&& board & !FULL_BOARD == 0
    &&& (board >> 1u64) & !board & FULL_BOARD == 0
}

/// The lowest empty cell of every column that is not full.
pub open spec fn possible_of(board: u64) -> u64 {
    ((board + BOTTOM_ROW) as u64) & FULL_BOARD
}

/// A Connect 4 position.
///
/// `player_mask` holds the stones of the player to move, `board_mask` the
/// stones of both players, and `num_moves` the number of stones played.
#[derive(Copy, Clone)]
pub struct BitBoard {
    pub player_mask: u64,
    pub board_mask: u64,
    pub num_moves: usize,
}

impl BitBoard {
    /// The masks are consistent, the counter counts the stones, and the
    /// mover, who has played every second stone, holds half of them rounded
    /// down. Every position that play reaches has these properties; not every
    /// position that has them is reachable.
    pub open spec fn wf(self) -> bool {
        &&& masks_valid(self.player_mask, self.board_mask)
        &&& self.num_moves == popcount(self.board_mask)
        &&& self.num_moves <= WIDTH * HEIGHT
        &&& popcount(self.player_mask) == self.num_moves / 2
    }

    /// The stones of the player who does not move next.
    pub open spec fn opponent_spec(self) -> u64 {
        self.player_mask ^ self.board_mask
    }

    /// The cell that a stone dropped into column `c` would fill.
    pub open spec fn column_move(self, c: u64) -> u64 {
        ((self.board_mask + bottom_bit(c)) as u64) & column_bits(c)
    }

    /// `m` is a single cell among the lowest empty cells.
    pub open spec fn is_move(self, m: u64) -> bool {
        single_bit(m) && m & !possible_of(self.board_mask) == 0
    }

    /// The position after the mover places a stone on the cells `m`.
    pub open spec fn play_spec(self, m: u64) -> BitBoard {
        BitBoard {
            player_mask: self.player_mask ^ self.board_mask,
            board_mask: self.board_mask | m,
            num_moves: (self.num_moves + 1) as usize,
        }
    }

    /// The key of the position: the mover's stones plus one bit above the
    /// stones of each column.
    pub open spec fn key_spec(self) -> u64 {
        (self.player_mask + self.board_mask) as u64
    }

    /// Column `c` has room for another stone.
    pub open spec fn playable_spec(self, c: u64) -> bool {
        top_bit(c) & self.board_mask == 0
    }

    /// The empty position.
    pub open spec fn empty() -> BitBoard {
        BitBoard { player_mask: 0, board_mask: 0, num_moves: 0 }
    }

    /// Creates a new, empty board.
    pub fn new() -> (r: Self)
        ensures
            r == BitBoard::empty(),
            r.wf(),
    {
        proof {
            lemma_empty_valid();
        }
        Self { player_mask: 0, board_mask: 0, num_moves: 0 }
    }

    /// Creates a board from its masks and move counter.
    pub fn from_parts(player_mask: u64, board_mask: u64, num_moves: usize) -> (r: Self)
        ensures
            r.player_mask == player_mask,
            r.board_mask == board_mask,
            r.num_moves == num_moves,
    {
        Self { player_mask, board_mask, num_moves }
    }

    /// The mask of the stones of the player to move.
    pub fn player_mask(&self) -> (r: u64)
        ensures
            r == self.player_mask,
    {
        self.player_mask
    }

    /// The mask of all stones on the board.
    pub fn board_mask(&self) -> (r: u64)
        ensures
            r == self.board_mask,
    {
        self.board_mask
    }

    /// Whether the position is well formed (see `wf`).
    pub fn is_valid(&self) -> (r: bool)
        ensures
            r == self.wf(),
    {
        let p = self.player_mask;
        let b = self.board_mask;
        let masks_ok = p & !b == 0 && b & !FULL_BOARD == 0 && (b >> 1u64) & !b & FULL_BOARD == 0;
        let stones = count_ones(b);
        let own = count_ones(p);
        masks_ok && self.num_moves == stones as usize && self.num_moves <= WIDTH * HEIGHT && own as usize
            == self.num_moves / 2
    }

    /// The number of stones played.
    pub fn num_moves(&self) -> (r: usize)
        ensures
            r == self.num_moves,
    {
        self.num_moves
    }

    /// The mask of the top cell of `column`.
    pub fn top_mask(column: usize) -> (r: u64)
        requires
            column < WIDTH,
        ensures
            r == top_bit(column as u64),
    {
        1u64 << (column_offset(column) + (HEIGHT - 1) as u64)
    }

    /// The mask of the bottom cell of `column`.
    pub fn bottom_mask(column: usize) -> (r: u64)
        requires
            column < WIDTH,
        ensures
            r == bottom_bit(column as u64),
    {
        1u64 << column_offset(column)
    }

    /// The mask of the cells of `column`.
    pub fn column_mask(column: usize) -> (r: u64)
        requires
            column < WIDTH,
        ensures
            r == column_bits(column as u64),
    {
        proof {
        lemma_word_facts(0, 0);
    }
        (((1u64 << (HEIGHT as u64)) - 1) as u64) << column_offset(column)
    }

    /// The mask of the lowest empty cell of every column that is not full.
    pub fn possible_moves(&self) -> (r: u64)
        requires
            self.wf(),
        ensures
            r == possible_of(self.board_mask),
    {
        let b = self.board_mask;
        assert(b & !FULL_BOARD == 0 ==> b + BOTTOM_ROW < 0x1_0000_0000_0000_0000) by (bit_vector);
        (self.board_mask + bottom_mask()) & full_board_mask()
    }

    /// Whether a stone can be played in `column`.
    pub fn playable(&self, column: usize) -> (r: bool)
        requires
            column < WIDTH,
        ensures
            r == self.playable_spec(column as u64),
    {
        Self::top_mask(column) & self.board_mask == 0
    }

    /// Places a stone of the mover on the cell `move_bitmap` and hands the
    /// turn to the other player.
    pub fn play(&mut self, move_bitmap: u64)
        requires
            old(self).wf(),
            old(self).is_move(move_bitmap),
        ensures
            *final(self) == old(self).play_spec(move_bitmap),
            final(self).wf(),
    {
        proof {
            lemma_play_valid(*self, move_bitmap);
        }
        self.player_mask = self.player_mask ^ self.board_mask;
        self.board_mask = self.board_mask | move_bitmap;
        self.num_moves = self.num_moves + 1;
    }

    /// The key of the position, for the transposition table.
    pub fn key(&self) -> (r: u64)
        requires
            self.wf(),
        ensures
            r == self.key_spec(),
            r == self.player_mask + self.board_mask,
            r < 0x2_0000_0000_0000,
    {
        proof {
            lemma_key_small(*self);
        }
        self.player_mask + self.board_mask
    }
}

/// Some four cells in a row, `s` bits apart, are all set in `pos`: the pairs
/// `s` apart, paired again `2s` apart.
pub open spec fn aligned(pos: u64, s: u64, s2: u64) -> bool {
    (pos & (pos >> s)) & ((pos & (pos >> s)) >> s2) != 0
}

/// `pos` holds four in a row: across, on either diagonal, or up a column.
pub open spec fn has_four(pos: u64) -> bool {
    aligned(pos, 7, 14) || aligned(pos, 6, 12) || aligned(pos, 8, 16) || aligned(pos, 1, 2)
}

/// The cells that would complete a line of four for `mask` along step `s`:
/// three stones below-behind, or three ahead, or a hole inside.
pub open spec fn line_threats(mask: u64, s: u64) -> u64 {
    ((mask << s) & (mask << (2 * s) as u64) & (mask << (3 * s) as u64))
    | ((mask << s) & (mask << (2 * s) as u64) & (mask >> s))
    | ((mask >> s) & (mask >> (2 * s) as u64) & (mask >> (3 * s) as u64))
    | ((mask >> s) & (mask >> (2 * s) as u64) & (mask << s))
}

/// The empty cells of the board that would complete a line of four for the
/// stones `mask`: on top of three in a column, or in any of the three other
/// directions.
pub open spec fn threats_of(mask: u64, board: u64) -> u64 {
    (((mask << 1u64) & (mask << 2u64) & (mask << 3u64))
    | line_threats(mask, 7)
    | line_threats(mask, 6)
    | line_threats(mask, 8)) & (FULL_BOARD ^ board)
}

impl BitBoard {
    /// A stone of the mover in column `c` completes four in a row.
    pub open spec fn winning_spec(self, c: u64) -> bool {
        has_four(self.player_mask | self.column_move(c))
    }

    /// The moves that do not let the opponent win on the next turn: a single
    /// forced block if there is one, none if there are two, and never a cell
    /// right below a cell that wins for the opponent.
    pub open spec fn non_losing_spec(self) -> u64 {
        let possible = possible_of(self.board_mask);
        let threats = threats_of(self.opponent_spec(), self.board_mask);
        let forced = possible & threats;
        if forced != 0 && forced & ((forced - 1) as u64) != 0 {
            0
        } else if forced != 0 {
            forced & !(threats >> 1u64)
        } else {
            possible & !(threats >> 1u64)
        }
    }

    /// Whether placing the mover's stone in `column` forms four in a row.
    pub fn check_winning_move(&self, column: usize) -> (r: bool)
        requires
            self.wf(),
            column < WIDTH,
        ensures
            r == self.winning_spec(column as u64),
    {
        let mut pos = self.player_mask;
        proof {
            lemma_column_move(self.board_mask, column as u64);
        }
        pos = pos | ((self.board_mask + Self::bottom_mask(column)) & Self::column_mask(column));
        let h = HEIGHT as u64;
        // across
        let mut m = pos & (pos >> (h + 1));
        if m & (m >> (2 * (h + 1))) != 0 {
            return true;
        }
        // diagonal, rising to the left
        m = pos & (pos >> h);
        if m & (m >> (2 * h)) != 0 {
            return true;
        }
        // diagonal, rising to the right
        m = pos & (pos >> (h + 2));
        if m & (m >> (2 * (h + 2))) != 0 {
            return true;
        }
        // up a column
        m = pos & (pos >> 1u64);
        if m & (m >> 2u64) != 0 {
            return true;
        }
        false
    }

    /// The empty cells that would complete a line of four for the stones `mask`.
    fn winning_positions(&self, mask: u64) -> (r: u64)
        ensures
            r == threats_of(mask, self.board_mask),
    {
        let h = HEIGHT as u64;
        // up a column: the cell on top of three
        let mut r = (mask << 1u64) & (mask << 2u64) & (mask << 3u64);

        // across
        let mut p = (mask << (h + 1)) & (mask << (2 * (h + 1)));
        r = r | (p & (mask << (3 * (h + 1))));
        r = r | (p & (mask >> (h + 1)));
        p = (mask >> (h + 1)) & (mask >> (2 * (h + 1)));
        r = r | (p & (mask >> (3 * (h + 1))));
        r = r | (p & (mask << (h + 1)));

        // diagonal, one way
        p = (mask << h) & (mask << (2 * h));
        r = r | (p & (mask << (3 * h)));
        r = r | (p & (mask >> h));
        p = (mask >> h) & (mask >> (2 * h));
        r = r | (p & (mask >> (3 * h)));
        r = r | (p & (mask << h));

        // diagonal, the other way
        p = (mask << (h + 2)) & (mask << (2 * (h + 2)));
        r = r | (p & (mask << (3 * (h + 2))));
        r = r | (p & (mask >> (h + 2)));
        p = (mask >> (h + 2)) & (mask >> (2 * (h + 2)));
        r = r | (p & (mask >> (3 * (h + 2))));
        r = r | (p & (mask << (h + 2)));

        let out = r & (full_board_mask() ^ self.board_mask);
        proof {
            lemma_threats_unfold(mask, self.board_mask);
        }
        out
    }

    /// The empty cells that would complete a line of four for the opponent.
    fn opponent_winning_positions(&self) -> (r: u64)
        ensures
            r == threats_of(self.opponent_spec(), self.board_mask),
    {
        let opponent = self.player_mask ^ self.board_mask;
        self.winning_positions(opponent)
    }

    /// The moves that do not hand the opponent a win on the next turn.
    pub fn non_losing_moves(&self) -> (r: u64)
        requires
            self.wf(),
        ensures
            r == self.non_losing_spec(),
            r & !possible_of(self.board_mask) == 0,
    {
        let mut possible = self.possible_moves();
        let threats = self.opponent_winning_positions();
        let forced = possible & threats;
        if forced != 0 {
            if forced & (forced - 1) != 0 {
                proof {
                    lemma_word_facts(!possible_of(self.board_mask), 0);
                }
                return 0;
            } else {
                possible = forced;
            }
        }
        let r = possible & !(threats >> 1u64);
        proof {
            lemma_non_losing_within_possible(*self);
        }
        r
    }

    /// Scores a candidate move by the number of cells that would then
    /// complete a line of four for the mover.
    pub fn move_score(&self, candidate: u64) -> (r: i32)
        ensures
            r == popcount(threats_of(self.player_mask | candidate, self.board_mask)),
    {
        let n = count_ones(self.winning_positions(self.player_mask | candidate));
        proof {
            crate::bits::lemma_popcount_bound(threats_of(self.player_mask | candidate, self.board_mask));
        }
        n as i32
    }
}

/// The cell in column `col`, row `row`; row 6 is the guard row, which
/// never holds a stone.
pub open spec fn tile_of(col: u64, row: u64) -> u64 {
    column_bits(col) & (BOTTOM_ROW << row)
}

/// `mask` holds a stone in column `col`, row `row`.
pub open spec fn has_tile(mask: u64, col: u64, row: u64) -> bool {
    mask & tile_of(col, row) != 0
}

/// Appends the code of column `col` from row `row` upwards to `code`: `10`
/// for a stone of the mover, `11` for one of the opponent, and `0` at the
/// first empty cell.
pub open spec fn code_rows(player: u64, board: u64, col: u64, row: u64, code: u32) -> u32
    decreases 7 - row,
{
    if row >= 7 {
        code
    } else if !has_tile(board, col, row) {
        code << 1u32
    } else if has_tile(player, col, row) {
        code_rows(player, board, col, (row + 1) as u64, ((code << 2u32) + 2) as u32)
    } else {
        code_rows(player, board, col, (row + 1) as u64, ((code << 2u32) + 3) as u32)
    }
}

/// Appends the codes of the columns from the `i`-th on, left to right, or
/// right to left when `mirror` holds.
pub open spec fn code_columns(player: u64, board: u64, mirror: bool, i: u64, code: u32) -> u32
    decreases 7 - i,
{
    if i >= 7 {
        code
    } else {
        let col = if mirror { (6 - i) as u64 } else { i };
        code_columns(player, board, mirror, (i + 1) as u64, code_rows(player, board, col, 0, code))
    }
}

/// The code of the position read left to right (or right to left), shifted
/// left by one.
pub open spec fn code_of(player: u64, board: u64, mirror: bool) -> u32 {
    code_columns(player, board, mirror, 0, 0) << 1u32
}

impl BitBoard {
    /// The canonical fingerprint: the smaller of the codes read from either side.
    pub open spec fn huffman_spec(self) -> u32 {
        let a = code_of(self.player_mask, self.board_mask, false);
        let b = code_of(self.player_mask, self.board_mask, true);
        if a <= b { a } else { b }
    }

    /// The code of the position read column by column from the left.
    ///
    /// Above 13 stones the code loses its high bits and is no longer unique.
    pub fn unmirrored_code(&self) -> (r: u32)
        ensures
            r == code_of(self.player_mask, self.board_mask, false),
    {
        self.huffman_code_from(false)
    }

    /// The code of the mirror image of the position: the columns read from
    /// the right.
    pub fn huffman_code_mirror(&self) -> (r: u32)
        ensures
            r == code_of(self.player_mask, self.board_mask, true),
    {
        self.huffman_code_from(true)
    }

    /// The fingerprint of the position for the opening book: the smaller of
    /// its code and the code of its mirror image, the same for a position and
    /// its mirror image.
    pub fn huffman_code(&self) -> (r: u32)
        ensures
            r == self.huffman_spec(),
    {
        let a = self.unmirrored_code();
        let b = self.huffman_code_mirror();
        if a <= b { a } else { b }
    }

    /// The code of the position read left to right, or right to left.
    fn huffman_code_from(&self, mirror: bool) -> (r: u32)
        ensures
            r == code_of(self.player_mask, self.board_mask, mirror),
    {
        let mut code: u32 = 0;
        let mut i: usize = 0;
        while i < WIDTH
            invariant
                i <= WIDTH,
                code_columns(self.player_mask, self.board_mask, mirror, i as u64, code)
                    == code_columns(self.player_mask, self.board_mask, mirror, 0, 0),
            decreases WIDTH - i,
        {
            let column = if mirror { WIDTH - 1 - i } else { i };
            let column_mask = Self::column_mask(column);
            let ghost start = code;
            let mut row: usize = 0;
            // one row past the top, to append the separator of a full column
            while row <= HEIGHT
                invariant_except_break
                    code_rows(self.player_mask, self.board_mask, column as u64, row as u64, code)
                        == code_rows(self.player_mask, self.board_mask, column as u64, 0, start),
                invariant
                    row <= HEIGHT + 1,
                    column < WIDTH,
                    column_mask == column_bits(column as u64),
                ensures
                    code == code_rows(self.player_mask, self.board_mask, column as u64, 0, start),
                decreases HEIGHT + 1 - row,
            {
                let tile_mask = column_mask & (bottom_mask() << (row as u64));
                if self.board_mask & tile_mask == 0 {
                    code = code << 1u32;
                    break;
                } else if self.player_mask & tile_mask != 0 {
                    assert((code << 2u32) + 2 <= 0xffff_ffffu32) by (bit_vector);
                    code = (code << 2u32) + 2;
                } else {
                    assert((code << 2u32) + 3 <= 0xffff_ffffu32) by (bit_vector);
                    code = (code << 2u32) + 3;
                }
                row += 1;
            }
            i += 1;
        }
        code << 1u32
    }

    /// The first column that `move_bitmap` touches, or `WIDTH` if none.
    pub fn column_from_move(move_bitmap: u64) -> (r: usize)
        ensures
            r <= WIDTH,
            r < WIDTH ==> move_bitmap & column_bits(r as u64) != 0,
            forall|c: u64| c < r ==> move_bitmap & #[trigger] column_bits(c) == 0,
    {
        let mut column: usize = 0;
        while column < WIDTH
            invariant
                column <= WIDTH,
                forall|c: u64| c < column ==> move_bitmap & #[trigger] column_bits(c) == 0,
            decreases WIDTH - column,
        {
            if move_bitmap & Self::column_mask(column) != 0 {
                return column;
            }
            column += 1;
        }
        WIDTH
    }
}

/// Why a sequence of moves does not give a position.
#[derive(Copy, Clone, Debug, PartialEq, Eq, Structural)]
pub enum BoardError {
    /// The move at `position` names no column of the board.
    InvalidMove { position: usize },
    /// The (0-indexed) `column` is full.
    ColumnFull { column: usize },
    /// A move was made after four in a row had formed.
    GameOver,
}

/// The column named by a move character, 0-indexed; `WIDTH` for a character
/// that names no column.
pub open spec fn column_of_char(ch: u8) -> usize {
    if 49 <= ch && ch <= 48 + WIDTH {
        (ch - 49) as usize
    } else {
        WIDTH
    }
}

/// The 0-indexed columns that a string of move characters names.
pub open spec fn columns_of(moves: Seq<u8>) -> Seq<usize> {
    moves.map_values(|ch: u8| column_of_char(ch))
}

/// The position reached by playing the 0-indexed `moves` from the empty
/// board, or the first reason why that fails.
pub open spec fn replay(moves: Seq<usize>) -> Result<BitBoard, BoardError>
    decreases moves.len(),
{
    if moves.len() == 0 {
        Ok(BitBoard::empty())
    } else {
        match replay(moves.drop_last()) {
            Err(e) => Err(e),
            Ok(b) => {
                let c = moves.last();
                if c >= WIDTH {
                    Err(BoardError::InvalidMove { position: (moves.len() - 1) as usize })
                } else if !b.playable_spec(c as u64) {
                    Err(BoardError::ColumnFull { column: c })
                } else if b.winning_spec(c as u64) {
                    Err(BoardError::GameOver)
                } else {
                    Ok(b.play_spec(b.column_move(c as u64)))
                }
            },
        }
    }
}

/// Every position that `replay` reaches is well formed: in particular the
/// mover's stones lie on the board, and the board holds one stone per move.
pub proof fn lemma_replay_wf(moves: Seq<usize>)
    ensures
        replay(moves) is Ok ==> replay(moves)->Ok_0.wf(),
        replay(moves) is Ok ==> replay(moves)->Ok_0.player_mask & !replay(moves)->Ok_0.board_mask == 0,
        replay(moves) is Ok ==> popcount(replay(moves)->Ok_0.board_mask) == replay(moves)->Ok_0.num_moves,
        replay(moves) is Ok ==> replay(moves)->Ok_0.num_moves == moves.len(),
    decreases moves.len(),
{
    if moves.len() == 0 {
        lemma_empty_valid();
    } else {
        lemma_replay_wf(moves.drop_last());
        if let Ok(b) = replay(moves.drop_last()) {
            let c = moves.last();
            if c < WIDTH && b.playable_spec(c as u64) {
                lemma_column_move(b.board_mask, c as u64);
                lemma_play_valid(b, b.column_move(c as u64));
            }
        }
    }
}

/// Once a prefix of the moves fails, the whole sequence fails the same way.
proof fn lemma_replay_err_extends(moves: Seq<usize>, n: int)
    requires
        0 <= n <= moves.len(),
        replay(moves.take(n)) is Err,
    ensures
        replay(moves) == replay(moves.take(n)),
    decreases moves.len() - n,
{
    if n < moves.len() {
        assert(moves.take(n + 1).drop_last() == moves.take(n));
        lemma_replay_err_extends(moves, n + 1);
    } else {
        assert(moves.take(n) == moves);
    }
}

impl BitBoard {
    /// Plays one more 0-indexed move, as `replay` does.
    fn play_column(&mut self, column: usize) -> (r: Result<(), BoardError>)
        requires
            old(self).wf(),
            column < WIDTH,
        ensures
            final(self).wf(),
            r is Ok ==> *final(self) == old(self).play_spec(old(self).column_move(column as u64)),
            r is Ok <==> old(self).playable_spec(column as u64) && !old(self).winning_spec(column as u64),
            r matches Err(e) ==> e == (if !old(self).playable_spec(column as u64) {
                BoardError::ColumnFull { column }
            } else {
                BoardError::GameOver
            }),
    {
        if !self.playable(column) {
            return Err(BoardError::ColumnFull { column });
        }
        // the game ends at four in a row
        if self.check_winning_move(column) {
            return Err(BoardError::GameOver);
        }
        proof {
            lemma_column_move(self.board_mask, column as u64);
        }
        let move_bitmap = (self.board_mask + Self::bottom_mask(column)) & Self::column_mask(column);
        self.play(move_bitmap);
        Ok(())
    }

    /// Creates a board from a string of 1-indexed columns, one character per move.
    ///
    /// Fails on a character that names no column, on a move into a full
    /// column, and on a move after four in a row.
    pub fn from_moves(moves: &str) -> (r: Result<Self, BoardError>)
        ensures
            r == replay(columns_of(moves.spec_bytes())),
            r matches Ok(b) ==> b.wf(),
    {
        let bytes = moves.as_bytes();
        let ghost columns = columns_of(bytes@);
        let mut board = Self::new();
        let mut i: usize = 0;
        while i < bytes.len()
            invariant
                i <= bytes@.len(),
                columns == columns_of(moves.spec_bytes()),
                bytes@ == moves.spec_bytes(),
                board.wf(),
                replay(columns.take(i as int)) == Ok::<BitBoard, BoardError>(board),
            decreases bytes@.len() - i,
        {
            let ch = bytes[i];
            proof {
                assert(columns.take(i + 1).drop_last() == columns.take(i as int));
                assert(columns.take(i + 1).last() == column_of_char(ch));
            }
            if ch < 49u8 || ch > 48u8 + (WIDTH as u8) {
                proof {
                    assert(replay(columns.take(i + 1)) == Err::<BitBoard, BoardError>(
                        BoardError::InvalidMove { position: i },
                    ));
                    lemma_replay_err_extends(columns, i + 1);
                }
                return Err(BoardError::InvalidMove { position: i });
            }
            let column = (ch - 49u8) as usize;
            let step = board.play_column(column);
            if let Err(e) = step {
                proof {
                    assert(replay(columns.take(i + 1)) == Err::<BitBoard, BoardError>(e));
                    lemma_replay_err_extends(columns, i + 1);
                }
                return Err(e);
            }
            i += 1;
        }
        proof {
            assert(columns.take(i as int) == columns);
        }
        Ok(board)
    }

    /// Creates a board from a slice of 0-indexed columns.
    ///
    /// Fails on the same moves as `from_moves`, without saying why.
    pub fn from_slice(moves: &[usize]) -> (r: Result<Self, ()>)
        ensures
            r is Ok <==> replay(moves@) is Ok,
            r matches Ok(b) ==> replay(moves@) == Ok::<BitBoard, BoardError>(b) && b.wf(),
    {
        let mut board = Self::new();
        let mut i: usize = 0;
        while i < moves.len()
            invariant
                i <= moves@.len(),
                board.wf(),
                replay(moves@.take(i as int)) == Ok::<BitBoard, BoardError>(board),
            decreases moves@.len() - i,
        {
            let column = moves[i];
            proof {
                assert(moves@.take(i + 1).drop_last() == moves@.take(i as int));
            }
            if column >= WIDTH {
                proof {
                    lemma_replay_err_extends(moves@, i + 1);
                }
                return Err(());
            }
            if board.play_column(column).is_err() {
                proof {
                    lemma_replay_err_extends(moves@, i + 1);
                }
                return Err(());
            }
            i += 1;
        }
        proof {
            assert(moves@.take(i as int) == moves@);
        }
        Ok(board)
    }
}

/// Two move histories that reach the same masks give the same key and the
/// same fingerprint; and a history extended by one legal move reaches the
/// position that `play` makes from the shorter one.
pub proof fn lemma_history_determines_keys(h1: Seq<usize>, h2: Seq<usize>, c: usize)
    requires
        replay(h1) is Ok,
        replay(h2) is Ok,
        replay(h1)->Ok_0.player_mask == replay(h2)->Ok_0.player_mask,
        replay(h1)->Ok_0.board_mask == replay(h2)->Ok_0.board_mask,
    ensures
        replay(h1)->Ok_0.key_spec() == replay(h2)->Ok_0.key_spec(),
        replay(h1)->Ok_0.huffman_spec() == replay(h2)->Ok_0.huffman_spec(),
        code_of(replay(h1)->Ok_0.player_mask, replay(h1)->Ok_0.board_mask, false) == code_of(
            replay(h2)->Ok_0.player_mask,
            replay(h2)->Ok_0.board_mask,
            false,
        ),
        replay(h1.push(c)) is Ok ==> replay(h1.push(c))->Ok_0 == replay(h1)->Ok_0.play_spec(
            replay(h1)->Ok_0.column_move(c as u64),
        ),
{
    assert(h1.push(c).drop_last() == h1);
}

/// Different positions have different keys: the key is an injection from
/// well-formed positions.
pub proof fn lemma_key_injective(a: BitBoard, b: BitBoard)
    requires
        a.wf(),
        b.wf(),
        a.key_spec() == b.key_spec(),
    ensures
        a.player_mask == b.player_mask,
        a.board_mask == b.board_mask,
{
    let p1 = a.player_mask;
    let b1 = a.board_mask;
    let p2 = b.player_mask;
    let b2 = b.board_mask;
    assert(masks_valid(p1, b1) && masks_valid(p2, b2) && ((p1 + b1) as u64) == ((p2 + b2) as u64) ==> p1
        == p2 && b1 == b2) by (bit_vector);
}

/// A position and its mirror image have the same fingerprint.
pub proof fn lemma_huffman_mirror(a: BitBoard, b: BitBoard)
    requires
        forall|col: u64, row: u64|
            col < 7 && row < 7 ==> #[trigger] has_tile(b.board_mask, col, row) == has_tile(
                a.board_mask,
                (6 - col) as u64,
                row,
            ) && has_tile(b.player_mask, col, row) == has_tile(a.player_mask, (6 - col) as u64, row),
    ensures
        b.huffman_spec() == a.huffman_spec(),
{
    lemma_code_columns_mirror(a, b, false, 0, 0);
    lemma_code_columns_mirror(a, b, true, 0, 0);
}

/// `x` with the bits of column `c` moved to column `6 - c`.
pub open spec fn mirror_mask(x: u64) -> u64 {
    ((x & 0x7f) << 42u64) | (((x >> 7u64) & 0x7f) << 35u64) | (((x >> 14u64) & 0x7f) << 28u64) | (((x
        >> 21u64) & 0x7f) << 21u64) | (((x >> 28u64) & 0x7f) << 14u64) | (((x >> 35u64) & 0x7f) << 7u64) | ((x
        >> 42u64) & 0x7f)
}

proof fn lemma_mirror_mask_tiles(x: u64, col: u64, row: u64)
    requires
        col < 7,
        row < 7,
    ensures
        has_tile(mirror_mask(x), col, row) == has_tile(x, (6 - col) as u64, row),
{
    assert(col < 7 && row < 7 ==> (mirror_mask(x) & ((63u64 << ((col * 7) as u64)) & (0x40810204081u64 << row))
        != 0) == (x & ((63u64 << (((6 - col) * 7) as u64)) & (0x40810204081u64 << row)) != 0)) by (bit_vector);
}

/// The mirror image of a position, with every column moved to the other
/// side, has the same fingerprint.
pub proof fn lemma_huffman_mirror_image(a: BitBoard)
    ensures
        (BitBoard {
            player_mask: mirror_mask(a.player_mask),
            board_mask: mirror_mask(a.board_mask),
            num_moves: a.num_moves,
        }).huffman_spec() == a.huffman_spec(),
{
    let b = BitBoard {
        player_mask: mirror_mask(a.player_mask),
        board_mask: mirror_mask(a.board_mask),
        num_moves: a.num_moves,
    };
    assert forall|col: u64, row: u64|
        col < 7 && row < 7 implies #[trigger] has_tile(b.board_mask, col, row) == has_tile(
            a.board_mask,
            (6 - col) as u64,
            row,
        ) && has_tile(b.player_mask, col, row) == has_tile(a.player_mask, (6 - col) as u64, row) by {
        lemma_mirror_mask_tiles(a.board_mask, col, row);
        lemma_mirror_mask_tiles(a.player_mask, col, row);
    }
    lemma_huffman_mirror(a, b);
}

proof fn lemma_code_rows_mirror(a: BitBoard, b: BitBoard, col: u64, row: u64, code: u32)
    requires
        col < 7,
        forall|col: u64, row: u64|
            col < 7 && row < 7 ==> #[trigger] has_tile(b.board_mask, col, row) == has_tile(
                a.board_mask,
                (6 - col) as u64,
                row,
            ) && has_tile(b.player_mask, col, row) == has_tile(a.player_mask, (6 - col) as u64, row),
    ensures
        code_rows(b.player_mask, b.board_mask, col, row, code) == code_rows(
            a.player_mask,
            a.board_mask,
            (6 - col) as u64,
            row,
            code,
        ),
    decreases 7 - row,
{
    if row < 7 {
        assert(has_tile(b.board_mask, col, row) == has_tile(a.board_mask, (6 - col) as u64, row));
        lemma_code_rows_mirror(a, b, col, (row + 1) as u64, ((code << 2u32) + 2) as u32);
        lemma_code_rows_mirror(a, b, col, (row + 1) as u64, ((code << 2u32) + 3) as u32);
    }
}

proof fn lemma_code_columns_mirror(a: BitBoard, b: BitBoard, mirror: bool, i: u64, code: u32)
    requires
        forall|col: u64, row: u64|
            col < 7 && row < 7 ==> #[trigger] has_tile(b.board_mask, col, row) == has_tile(
                a.board_mask,
                (6 - col) as u64,
                row,
            ) && has_tile(b.player_mask, col, row) == has_tile(a.player_mask, (6 - col) as u64, row),
    ensures
        code_columns(b.player_mask, b.board_mask, mirror, i, code) == code_columns(
            a.player_mask,
            a.board_mask,
            !mirror,
            i,
            code,
        ),
    decreases 7 - i,
{
    if i < 7 {
        let col = if mirror { (6 - i) as u64 } else { i };
        lemma_code_rows_mirror(a, b, col, 0, code);
        lemma_code_columns_mirror(a, b, mirror, (i + 1) as u64, code_rows(b.player_mask, b.board_mask, col, 0, code));
    }
}

proof fn lemma_threats_unfold(mask: u64, board: u64)
    ensures
        threats_of(mask, board) == ((((mask << 1u64) & (mask << 2u64) & (mask << 3u64))
            | (((mask << 7u64) & (mask << 14u64)) & (mask << 21u64))
            | (((mask << 7u64) & (mask << 14u64)) & (mask >> 7u64))
            | (((mask >> 7u64) & (mask >> 14u64)) & (mask >> 21u64))
            | (((mask >> 7u64) & (mask >> 14u64)) & (mask << 7u64))
            | (((mask << 6u64) & (mask << 12u64)) & (mask << 18u64))
            | (((mask << 6u64) & (mask << 12u64)) & (mask >> 6u64))
            | (((mask >> 6u64) & (mask >> 12u64)) & (mask >> 18u64))
            | (((mask >> 6u64) & (mask >> 12u64)) & (mask << 6u64))
            | (((mask << 8u64) & (mask << 16u64)) & (mask << 24u64))
            | (((mask << 8u64) & (mask << 16u64)) & (mask >> 8u64))
            | (((mask >> 8u64) & (mask >> 16u64)) & (mask >> 24u64))
            | (((mask >> 8u64) & (mask >> 16u64)) & (mask << 8u64))) & (FULL_BOARD ^ board)),
{
    assert(threats_of(mask, board) == ((((mask << 1u64) & (mask << 2u64) & (mask << 3u64))
        | (((mask << 7u64) & (mask << 14u64)) & (mask << 21u64))
        | (((mask << 7u64) & (mask << 14u64)) & (mask >> 7u64))
        | (((mask >> 7u64) & (mask >> 14u64)) & (mask >> 21u64))
        | (((mask >> 7u64) & (mask >> 14u64)) & (mask << 7u64))
        | (((mask << 6u64) & (mask << 12u64)) & (mask << 18u64))
        | (((mask << 6u64) & (mask << 12u64)) & (mask >> 6u64))
        | (((mask >> 6u64) & (mask >> 12u64)) & (mask >> 18u64))
        | (((mask >> 6u64) & (mask >> 12u64)) & (mask << 6u64))
        | (((mask << 8u64) & (mask << 16u64)) & (mask << 24u64))
        | (((mask << 8u64) & (mask << 16u64)) & (mask >> 8u64))
        | (((mask >> 8u64) & (mask >> 16u64)) & (mask >> 24u64))
        | (((mask >> 8u64) & (mask >> 16u64)) & (mask << 8u64))) & (FULL_BOARD ^ board)))
        by (bit_vector);
}

/// Bit `i` of `x` is set.
pub open spec fn bit_set(x: u64, i: u64) -> bool {
    (x >> i) & 1 == 1
}

/// Four set bits of `pos`, `s` apart, starting at bit `i`.
pub open spec fn four_from(pos: u64, i: u64, s: u64) -> bool {
    &&& i < 64
    &&& i + 3 * s < 64
    &&& bit_set(pos, i)
    &&& bit_set(pos, (i + s) as u64)
    &&& bit_set(pos, (i + 2 * s) as u64)
    &&& bit_set(pos, (i + 3 * s) as u64)
}

/// `pos` holds four cells in a line: up a column (step 1), along a
/// diagonal (steps 6 and 8) or across (step 7).
pub open spec fn has_run_of_four(pos: u64) -> bool {
    exists|i: u64, s: u64| (s == 1 || s == 6 || s == 7 || s == 8) && #[trigger] four_from(pos, i, s)
}

proof fn lemma_aligned_iff_run(pos: u64, s: u64)
    requires
        1 <= s <= 8,
    ensures
        aligned(pos, s, (2 * s) as u64) <==> exists|i: u64| #[trigger] four_from(pos, i, s),
{
    let s2 = (2 * s) as u64;
    let y = (pos & (pos >> s)) & ((pos & (pos >> s)) >> s2);
    assert forall|i: u64| #[trigger] four_from(pos, i, s) implies aligned(pos, s, s2) by {
        assert(i < 64 && 1 <= s <= 8 && s2 == 2 * s && (pos >> i) & 1 == 1 && (pos >> ((i + s) as u64)) & 1 == 1
            && (pos >> ((i + 2 * s) as u64)) & 1 == 1 && (pos >> ((i + 3 * s) as u64)) & 1 == 1
            ==> (pos & (pos >> s)) & ((pos & (pos >> s)) >> s2) != 0) by (bit_vector);
    }
    if aligned(pos, s, s2) {
        vstd::std_specs::bits::axiom_u64_trailing_zeros(y);
        let i = vstd::std_specs::bits::u64_trailing_zeros(y) as u64;
        assert(i < 64 && 1 <= s <= 8 && s2 == 2 * s && y == (pos & (pos >> s)) & ((pos & (pos >> s)) >> s2)
            && (y >> i) & 1 == 1 ==> i + 3 * s < 64 && (pos >> i) & 1 == 1 && (pos >> ((i + s) as u64)) & 1 == 1
            && (pos >> ((i + 2 * s) as u64)) & 1 == 1 && (pos >> ((i + 3 * s) as u64)) & 1 == 1)
            by (bit_vector);
        assert(four_from(pos, i, s));
    }
}

/// A stone of the mover in column `c` is a winning move exactly when the
/// mover's stones, with that one, hold four cells in a line.
pub proof fn lemma_winning_move_is_run_of_four(b: BitBoard, c: u64)
    ensures
        b.winning_spec(c) <==> has_run_of_four(b.player_mask | b.column_move(c)),
{
    let pos = b.player_mask | b.column_move(c);
    lemma_aligned_iff_run(pos, 7);
    lemma_aligned_iff_run(pos, 6);
    lemma_aligned_iff_run(pos, 8);
    lemma_aligned_iff_run(pos, 1);
    if has_run_of_four(pos) {
        let (i, s) = choose|i: u64, s: u64| (s == 1 || s == 6 || s == 7 || s == 8) && #[trigger] four_from(pos, i, s);
        assert(four_from(pos, i, s));
    }
}

/// The cells that would complete a line of four for `mask`, before empty
/// cells are picked out.
pub open spec fn threat_cells(mask: u64) -> u64 {
    ((mask << 1u64) & (mask << 2u64) & (mask << 3u64))
    | line_threats(mask, 7)
    | line_threats(mask, 6)
    | line_threats(mask, 8)
}

proof fn lemma_line_threat_wins(mask: u64, t: u64, s: u64)
    requires
        s == 6 || s == 7 || s == 8,
        single_bit(t),
        t & line_threats(mask, s) != 0,
    ensures
        aligned(mask | t, s, (2 * s) as u64),
{
    assert((single_bit(t) && t & line_threats(mask, 6) != 0 ==> aligned(mask | t, 6, 12)) && (single_bit(t) && t
        & line_threats(mask, 7) != 0 ==> aligned(mask | t, 7, 14)) && (single_bit(t) && t & line_threats(mask, 8)
        != 0 ==> aligned(mask | t, 8, 16))) by (bit_vector);
}

/// A stone on a cell that completes a line of four for `mask` makes four in a row.
proof fn lemma_threat_cell_wins(mask: u64, t: u64)
    requires
        single_bit(t),
        t & threat_cells(mask) != 0,
    ensures
        has_four(mask | t),
{
    let v = (mask << 1u64) & (mask << 2u64) & (mask << 3u64);
    let a = line_threats(mask, 7);
    let b = line_threats(mask, 6);
    let c = line_threats(mask, 8);
    assert(t & (v | a | b | c) != 0 ==> t & v != 0 || t & a != 0 || t & b != 0 || t & c != 0)
        by (bit_vector);
    if t & v != 0 {
        assert(single_bit(t) && t & ((mask << 1u64) & (mask << 2u64) & (mask << 3u64)) != 0 ==> aligned(
            mask | t,
            1,
            2,
        )) by (bit_vector);
    } else if t & a != 0 {
        lemma_line_threat_wins(mask, t, 7);
    } else if t & b != 0 {
        lemma_line_threat_wins(mask, t, 6);
    } else {
        lemma_line_threat_wins(mask, t, 8);
    }
}

/// Every cell of `threats_of(mask, board)` is an empty cell of the board on
/// which a stone of `mask` completes four in a row.
pub proof fn lemma_threats_complete_four(mask: u64, board: u64, t: u64)
    requires
        single_bit(t),
        board & !FULL_BOARD == 0,
        t & threats_of(mask, board) != 0,
    ensures
        t & board == 0,
        t & FULL_BOARD != 0,
        has_four(mask | t),
{
    let core = threat_cells(mask);
    assert(threats_of(mask, board) == core & (FULL_BOARD ^ board));
    assert(single_bit(t) && board & !FULL_BOARD == 0 && t & (core & (FULL_BOARD ^ board)) != 0 ==> t & board == 0 && t & FULL_BOARD != 0
        && t & core != 0) by (bit_vector);
    lemma_threat_cell_wins(mask, t);
}

/// Conversely, an empty cell of the board on which a stone of `mask`
/// completes four in a row, where `mask` alone has none, is among
/// `threats_of(mask, board)`.
pub proof fn lemma_four_cells_are_threats(mask: u64, board: u64, t: u64)
    requires
        masks_valid(mask, board),
        single_bit(t),
        t & board == 0,
        t & FULL_BOARD != 0,
        has_four(mask | t),
        !has_four(mask),
    ensures
        t & threats_of(mask, board) != 0,
{
    lemma_threats_unfold(mask, board);
    assert(masks_valid(mask, board) && single_bit(t) && t & board == 0 && t & FULL_BOARD != 0 && has_four(mask | t) && !has_four(mask)
        ==> t & ((((mask << 1u64) & (mask << 2u64) & (mask << 3u64))
        | (((mask << 7u64) & (mask << 14u64)) & (mask << 21u64))
        | (((mask << 7u64) & (mask << 14u64)) & (mask >> 7u64))
        | (((mask >> 7u64) & (mask >> 14u64)) & (mask >> 21u64))
        | (((mask >> 7u64) & (mask >> 14u64)) & (mask << 7u64))
        | (((mask << 6u64) & (mask << 12u64)) & (mask << 18u64))
        | (((mask << 6u64) & (mask << 12u64)) & (mask >> 6u64))
        | (((mask >> 6u64) & (mask >> 12u64)) & (mask >> 18u64))
        | (((mask >> 6u64) & (mask >> 12u64)) & (mask << 6u64))
        | (((mask << 8u64) & (mask << 16u64)) & (mask << 24u64))
        | (((mask << 8u64) & (mask << 16u64)) & (mask >> 8u64))
        | (((mask >> 8u64) & (mask >> 16u64)) & (mask >> 24u64))
        | (((mask >> 8u64) & (mask >> 16u64)) & (mask << 8u64))) & (FULL_BOARD ^ board)) != 0)
        by (bit_vector);
}

/// A move that `non_losing_moves` keeps does not let the opponent win with
/// their next stone, provided the opponent has no four in a row already.
pub proof fn lemma_kept_move_is_safe(b: BitBoard, c: u64, d: u64)
    requires
        b.wf(),
        c < 7,
        b.playable_spec(c),
        b.column_move(c) & b.non_losing_spec() != 0,
        !has_four(b.opponent_spec()),
        d < 7,
    ensures
        !(b.play_spec(b.column_move(c)).playable_spec(d) && b.play_spec(b.column_move(c)).winning_spec(d)),
{
    let m = b.column_move(c);
    let b2 = b.play_spec(m);
    lemma_column_move(b.board_mask, c);
    lemma_play_valid(b, m);
    if b2.playable_spec(d) && b2.winning_spec(d) {
        let board = b.board_mask;
        let opp = b.opponent_spec();
        let t = b2.column_move(d);
        lemma_column_move(b2.board_mask, d);
        assert(b2.player_mask == opp);
        let board2 = board | m;
        assert(masks_valid(b2.player_mask, board2));
        assert(t & !possible_of(board2) == 0 && t & FULL_BOARD != 0 && t & board2 == 0) by (bit_vector)
            requires
                single_bit(t),
                t & !((((board2 + BOTTOM_ROW) as u64) & FULL_BOARD)) == 0,
                board2 & !FULL_BOARD == 0,
                (board2 >> 1u64) & !board2 & FULL_BOARD == 0,
        ;
        lemma_four_cells_are_threats(opp, board2, t);
        lemma_threats_unfold(opp, board2);
        let core = threat_cells(opp);
        assert(threats_of(opp, board2) == core & (FULL_BOARD ^ board2));
        let threats = core & (FULL_BOARD ^ board);
        assert(threats_of(opp, board) == threats);
        let p = possible_of(board);
        let forced = p & threats;
        assert(b.non_losing_spec() == (if forced != 0 && forced & ((forced - 1) as u64) != 0 {
            0
        } else if forced != 0 {
            forced & !(threats >> 1u64)
        } else {
            p & !(threats >> 1u64)
        }));
        assert(board & !FULL_BOARD == 0 && (board >> 1u64) & !board & FULL_BOARD == 0 && single_bit(m) && m & !p
            == 0 && board2 == board | m && single_bit(t) && t
            & !possible_of(board2) == 0 && t & (core & (FULL_BOARD ^ board2)) != 0 && p == ((board + BOTTOM_ROW)
            as u64) & FULL_BOARD && threats == core & (FULL_BOARD ^ board) && forced == p & threats && m & (if forced
            != 0 && forced & ((forced - 1) as u64) != 0 {
            0
        } else if forced != 0 {
            forced & !(threats >> 1u64)
        } else {
            p & !(threats >> 1u64)
        }) != 0 ==> false) by (bit_vector);
    }
}

/// A lowest empty cell of a well-formed board lies in a column with room,
/// and is the move into that column.
proof fn lemma_possible_cell_is_move(b: BitBoard, t: u64)
    requires
        b.wf(),
        single_bit(t),
        t & !possible_of(b.board_mask) == 0,
    ensures
        exists|d: u64| d < 7 && b.playable_spec(d) && #[trigger] b.column_move(d) == t,
{
    let board = b.board_mask;
    let p = possible_of(board);
    assert(single_bit(t) && t & !p == 0 && p & !FULL_BOARD == 0 ==> t & (63u64 << 0u64) != 0 || t & (63u64
        << 7u64) != 0 || t & (63u64 << 14u64) != 0 || t & (63u64 << 21u64) != 0 || t & (63u64 << 28u64)
        != 0 || t & (63u64 << 35u64) != 0 || t & (63u64 << 42u64) != 0) by (bit_vector);
    assert(p & !FULL_BOARD == 0) by (bit_vector)
        requires
            p == ((board + BOTTOM_ROW) as u64) & FULL_BOARD,
    ;
    let d: u64 = if t & column_bits(0) != 0 {
        0
    } else if t & column_bits(1) != 0 {
        1
    } else if t & column_bits(2) != 0 {
        2
    } else if t & column_bits(3) != 0 {
        3
    } else if t & column_bits(4) != 0 {
        4
    } else if t & column_bits(5) != 0 {
        5
    } else {
        6
    };
    assert(t & column_bits(d) != 0);
    // a column whose lowest empty cell exists is not full
    assert(board & !FULL_BOARD == 0 && (board >> 1u64) & !board & FULL_BOARD == 0 && d < 7 && t & column_bits(
        d,
    ) != 0 && t & !(((board + BOTTOM_ROW) as u64) & FULL_BOARD) == 0 ==> top_bit(d) & board == 0)
        by (bit_vector);
    lemma_candidate_is_move(b, d, t);
    assert(t & column_bits(d) == t) by (bit_vector)
        requires
            single_bit(t),
            t & column_bits(d) != 0,
    ;
    assert(b.column_move(d) == t);
}

/// After the move `m`, the opponent can win on a cell `t` that was a lowest
/// empty cell threatened by them and is not `m`, or on the cell right above `m`
/// when that cell is threatened.
proof fn lemma_threat_after_move(b: BitBoard, m: u64, t: u64)
    requires
        b.wf(),
        b.is_move(m),
        single_bit(t),
        t & threat_cells(b.opponent_spec()) != 0,
        t & !possible_of(b.board_mask) == 0 && t & m == 0 || t == m << 1u64 && t & FULL_BOARD != 0,
    ensures
        exists|d: u64| d < 7 && b.play_spec(m).playable_spec(d) && #[trigger] b.play_spec(m).winning_spec(d),
{
    let b2 = b.play_spec(m);
    lemma_play_valid(b, m);
    let board = b.board_mask;
    let player = b.player_mask;
    assert(masks_valid(player, board) && single_bit(m) && m & !possible_of(board) == 0 && single_bit(t)
        && (t & !possible_of(board) == 0 && t & m == 0 || t == m << 1u64 && t & FULL_BOARD != 0)
        ==> t & !possible_of(board | m) == 0) by (bit_vector);
    lemma_possible_cell_is_move(b2, t);
    let d = choose|d: u64| d < 7 && b2.playable_spec(d) && #[trigger] b2.column_move(d) == t;
    assert(b2.player_mask == b.opponent_spec());
    lemma_threat_cell_wins(b.opponent_spec(), t);
    assert(b2.winning_spec(d));
}

/// A possible move that `non_losing_moves` leaves out lets the opponent win
/// with their very next stone.
pub proof fn lemma_removed_move_loses(b: BitBoard, c: u64)
    requires
        b.wf(),
        c < 7,
        b.playable_spec(c),
        b.column_move(c) & b.non_losing_spec() == 0,
    ensures
        exists|d: u64|
            d < 7 && b.play_spec(b.column_move(c)).playable_spec(d) && #[trigger] b.play_spec(
                b.column_move(c),
            ).winning_spec(d),
{
    let m = b.column_move(c);
    lemma_column_move(b.board_mask, c);
    let board = b.board_mask;
    let p = possible_of(board);
    let opp = b.opponent_spec();
    let core = threat_cells(opp);
    let threats = threats_of(opp, board);
    assert(threats == core & (FULL_BOARD ^ board));
    let forced = p & threats;
    if forced != 0 && forced & ((forced - 1) as u64) != 0 || forced != 0 && forced != m {
        // a threatened lowest cell other than m stays open
        let x = forced & !m;
        let t = x & !((x - 1) as u64);
        assert(single_bit(m) && forced != 0 && (forced & ((forced - 1) as u64) != 0 || forced != m) ==> forced
            & !m != 0) by (bit_vector);
        assert(x != 0 && t == x & !((x - 1) as u64) ==> single_bit(t) && t & !x == 0) by (bit_vector);
        assert(t & !x == 0 && x == forced & !m && forced == p & threats && threats == core & (FULL_BOARD
            ^ board) && t != 0 ==> t & core != 0 && t & !p == 0 && t & m == 0) by (bit_vector);
        lemma_threat_after_move(b, m, t);
    } else {
        // m lies right below a cell that the opponent threatens
        let u = m << 1u64;
        assert(b.non_losing_spec() == (if forced != 0 { forced } else { p }) & !(threats >> 1u64));
        assert(single_bit(m) && m & !p == 0 && (forced == 0 || forced == m) && m & ((if forced != 0 {
            forced
        } else {
            p
        }) & !(threats >> 1u64)) == 0 ==> m & (threats >> 1u64) != 0) by (bit_vector);
        assert(single_bit(m) && m & (threats >> 1u64) != 0 ==> (m << 1u64) & threats != 0 && single_bit(
            m << 1u64,
        )) by (bit_vector);
        assert(u & threats != 0 && threats == core & (FULL_BOARD ^ board) && board & !FULL_BOARD == 0
            ==> u & core != 0 && u & FULL_BOARD != 0) by (bit_vector);
        lemma_threat_after_move(b, m, u);
    }
}

/// Four bits `s` apart from bit `i` hold four ones.
proof fn lemma_four_bits_count(i: u64, s: u64)
    requires
        1 <= s <= 8,
        i + 3 * s < 64,
    ensures
        popcount((1u64 << i) | (1u64 << ((i + s) as u64)) | (1u64 << ((i + 2 * s) as u64)) | (1u64 << ((i + 3
            * s) as u64))) == 4,
{
    let a = 1u64 << i;
    let b2 = 1u64 << ((i + s) as u64);
    let c = 1u64 << ((i + 2 * s) as u64);
    let d = 1u64 << ((i + 3 * s) as u64);
    assert(single_bit(a) && single_bit(b2) && single_bit(c) && single_bit(d) && a & b2 == 0 && (a | b2) & c == 0
        && (a | b2 | c) & d == 0) by (bit_vector)
        requires
            1 <= s <= 8,
            i + 3 * s < 64,
            a == 1u64 << i,
            b2 == 1u64 << ((i + s) as u64),
            c == 1u64 << ((i + 2 * s) as u64),
            d == 1u64 << ((i + 3 * s) as u64),
    ;
    lemma_word_facts(a, 0);
    lemma_popcount_add_bit(0, a);
    reveal_with_fuel(popcount, 1);
    lemma_popcount_add_bit(a, b2);
    lemma_popcount_add_bit(a | b2, c);
    lemma_popcount_add_bit(a | b2 | c, d);
}

/// Four in a row made with one more stone `t` needs three stones of `mask`.
pub proof fn lemma_four_needs_three(mask: u64, t: u64)
    requires
        single_bit(t),
        has_four(mask | t),
    ensures
        popcount(mask) >= 3,
{
    let pos = mask | t;
    lemma_aligned_iff_run(pos, 7);
    lemma_aligned_iff_run(pos, 6);
    lemma_aligned_iff_run(pos, 8);
    lemma_aligned_iff_run(pos, 1);
    let s: u64 = if aligned(pos, 7, 14) {
        7
    } else if aligned(pos, 6, 12) {
        6
    } else if aligned(pos, 8, 16) {
        8
    } else {
        1
    };
    let i = choose|i: u64| #[trigger] four_from(pos, i, s);
    let q = (1u64 << i) | (1u64 << ((i + s) as u64)) | (1u64 << ((i + 2 * s) as u64)) | (1u64 << ((i + 3 * s)
        as u64));
    lemma_four_bits_count(i, s);
    let rest = q & !t;
    assert(four_from(pos, i, s) && 1 <= s <= 8 && pos == mask | t && single_bit(t) && q == (1u64 << i) | (1u64
        << ((i + s) as u64)) | (1u64 << ((i + 2 * s) as u64)) | (1u64 << ((i + 3 * s) as u64)) && rest == q
        & !t ==> rest & !mask == 0 && q & !(rest | t) == 0 && rest & t == 0) by (bit_vector);
    lemma_popcount_le(q, rest | t);
    lemma_popcount_add_bit(rest, t);
    lemma_popcount_le(rest, mask);
}

/// A mover who can win at once has played at least three stones, so the
/// position holds at least six.
pub proof fn lemma_win_needs_six_stones(b: BitBoard, c: u64)
    requires
        b.wf(),
        c < 7,
        b.playable_spec(c),
        b.winning_spec(c),
    ensures
        b.num_moves >= 6,
{
    lemma_column_move(b.board_mask, c);
    lemma_four_needs_three(b.player_mask, b.column_move(c));
}

/// When the opponent threatens a cell, they hold three stones, so the
/// position holds at least five.
pub proof fn lemma_threat_needs_five_stones(b: BitBoard, t: u64)
    requires
        b.wf(),
        single_bit(t),
        t & threat_cells(b.opponent_spec()) != 0,
    ensures
        b.num_moves >= 5,
{
    lemma_threat_cell_wins(b.opponent_spec(), t);
    lemma_four_needs_three(b.opponent_spec(), t);
    lemma_popcount_split(b.player_mask, b.board_mask);
    lemma_word_facts(b.board_mask, b.player_mask);
}

/// When no move is safe on a board with room, the opponent threatens a
/// cell, so the position holds at least five stones.
pub proof fn lemma_no_safe_move_needs_five_stones(b: BitBoard)
    requires
        b.wf(),
        b.non_losing_spec() == 0,
        possible_of(b.board_mask) != 0,
    ensures
        b.num_moves >= 5,
{
    let board = b.board_mask;
    let p = possible_of(board);
    let opp = b.opponent_spec();
    let core = threat_cells(opp);
    let threats = threats_of(opp, board);
    assert(threats == core & (FULL_BOARD ^ board));
    let forced = p & threats;
    let t = threats & !((threats - 1) as u64);
    assert((p != 0 && (if forced != 0 && forced & ((forced - 1) as u64) != 0 {
        0
    } else if forced != 0 {
        forced & !(threats >> 1u64)
    } else {
        p & !(threats >> 1u64)
    }) == 0 && forced == p & threats ==> threats != 0) && (threats != 0 && t == threats & !((threats - 1)
        as u64) && threats == core & (FULL_BOARD ^ board) ==> single_bit(t) && t & core != 0)) by (bit_vector);
    lemma_threat_needs_five_stones(b, t);
}

/// A column with room whose move `non_losing_moves` leaves out lets the
/// opponent win with their very next stone.
pub proof fn lemma_unsafe_column_loses(b: BitBoard, c: u64)
    requires
        b.wf(),
        c < 7,
        b.playable_spec(c),
        b.non_losing_spec() & column_bits(c) == 0,
    ensures
        exists|d: u64|
            d < 7 && b.play_spec(b.column_move(c)).playable_spec(d) && #[trigger] b.play_spec(
                b.column_move(c),
            ).winning_spec(d),
{
    let nl = b.non_losing_spec();
    let cb = column_bits(c);
    let y = (b.board_mask + bottom_bit(c)) as u64;
    assert(nl & cb == 0 ==> (y & cb) & nl == 0) by (bit_vector);
    lemma_removed_move_loses(b, c);
}

/// The safe moves are among the lowest empty cells.
pub proof fn lemma_non_losing_within_possible(b: BitBoard)
    ensures
        b.non_losing_spec() & !possible_of(b.board_mask) == 0,
{
    let all = possible_of(b.board_mask);
    let threats = threats_of(b.opponent_spec(), b.board_mask);
    assert((all & threats) & !(threats >> 1u64) & !all == 0 && all & !(threats >> 1u64) & !all == 0 && 0u64
        & !all == 0) by (bit_vector);
}

/// When some move is safe, some column with room holds one.
pub proof fn lemma_safe_column_exists(b: BitBoard)
    requires
        b.wf(),
        b.non_losing_spec() != 0,
    ensures
        exists|d: u64| d < 7 && b.playable_spec(d) && #[trigger] (b.non_losing_spec() & column_bits(d)) != 0,
{
    let nl = b.non_losing_spec();
    let p = possible_of(b.board_mask);
    lemma_non_losing_within_possible(b);
    let t = nl & !((nl - 1) as u64);
    assert(nl != 0 && nl & !p == 0 && t == nl & !((nl - 1) as u64) ==> single_bit(t) && t & !p == 0 && t & !nl
        == 0) by (bit_vector);
    lemma_possible_cell_is_move(b, t);
    let d = choose|d: u64| d < 7 && b.playable_spec(d) && #[trigger] b.column_move(d) == t;
    let cb = column_bits(d);
    let y = (b.board_mask + bottom_bit(d)) as u64;
    assert(t == y & cb && t != 0 && t & !nl == 0 ==> nl & cb != 0) by (bit_vector);
}

/// A well-formed board with 42 stones has no column with room.
pub proof fn lemma_full_has_no_room(b: BitBoard, d: u64)
    requires
        b.wf(),
        b.num_moves == 42,
        d < 7,
    ensures
        !b.playable_spec(d),
{
    if b.playable_spec(d) {
        let top = top_bit(d);
        let board = b.board_mask;
        assert(d < 7 && top == 1u64 << ((d * 7 + 5) as u64) && board & !FULL_BOARD == 0 && top & board == 0
            ==> single_bit(top) && (FULL_BOARD ^ top) & top == 0 && (FULL_BOARD ^ top) | top == FULL_BOARD
            && board & !(FULL_BOARD ^ top) == 0) by (bit_vector);
        lemma_popcount_add_bit(FULL_BOARD ^ top, top);
        lemma_popcount_full();
        lemma_popcount_le(board, FULL_BOARD ^ top);
    }
}

/// The key of a well-formed position is below 2^49.
pub proof fn lemma_key_small(b: BitBoard)
    requires
        b.wf(),
    ensures
        b.player_mask + b.board_mask < 0x2_0000_0000_0000,
        b.key_spec() < 0x2_0000_0000_0000,
{
    let p = b.player_mask;
    let bm = b.board_mask;
    assert(p & !bm == 0 && bm & !FULL_BOARD == 0 ==> p + bm < 0x2_0000_0000_0000) by (bit_vector);
}

/// Dropping a stone into a column that is not full fills exactly one cell,
/// the lowest empty cell of that column.
pub(crate) proof fn lemma_column_move(board: u64, c: u64)
    by (bit_vector)
    requires
        board & !FULL_BOARD == 0,
        (board >> 1u64) & !board & FULL_BOARD == 0,
        c < 7,
    ensures
        ((board + (1u64 << (c * 7) as u64)) as u64) == board + (1u64 << (c * 7) as u64),
        (1u64 << ((c * 7 + 5) as u64)) & board == 0 ==> single_bit(
            ((board + (1u64 << (c * 7) as u64)) as u64) & (63u64 << (c * 7) as u64),
        ) && (((board + (1u64 << (c * 7) as u64)) as u64) & (63u64 << (c * 7) as u64)) & !(
        ((board + BOTTOM_ROW) as u64) & FULL_BOARD) == 0,
{
}

/// A non-empty part of the lowest empty cells, taken in a column with room,
/// is the move into that column.
pub(crate) proof fn lemma_candidate_is_move(b: BitBoard, c: u64, x: u64)
    requires
        b.wf(),
        c < 7,
        b.playable_spec(c),
        x & !possible_of(b.board_mask) == 0,
        x & column_bits(c) != 0,
    ensures
        x & column_bits(c) == b.column_move(c),
        b.is_move(x & column_bits(c)),
{
    lemma_column_move(b.board_mask, c);
    let board = b.board_mask;
    assert(((board + BOTTOM_ROW) as u64) & FULL_BOARD & (63u64 << (c * 7) as u64) == ((board + (1u64
        << (c * 7) as u64)) as u64) & (63u64 << (c * 7) as u64)) by (bit_vector)
        requires
            board & !FULL_BOARD == 0,
            c < 7,
    ;
    let p = possible_of(board);
    let cb = column_bits(c);
    assert(x & !p == 0 && single_bit(p & cb) && x & cb != 0 ==> x & cb == p & cb) by (bit_vector);
}

/// A well-formed board whose every column is full holds all 42 stones.
pub(crate) proof fn lemma_no_room_means_full(b: BitBoard)
    requires
        b.wf(),
        forall|c: u64| c < 7 ==> !#[trigger] b.playable_spec(c),
    ensures
        b.num_moves == 42,
{
    let board = b.board_mask;
    assert(!b.playable_spec(0) && !b.playable_spec(1) && !b.playable_spec(2) && !b.playable_spec(3));
    assert(!b.playable_spec(4) && !b.playable_spec(5) && !b.playable_spec(6));
    assert(board == FULL_BOARD) by (bit_vector)
        requires
            board & !FULL_BOARD == 0,
            (board >> 1u64) & !board & FULL_BOARD == 0,
            (1u64 << 5u64) & board != 0,
            (1u64 << 12u64) & board != 0,
            (1u64 << 19u64) & board != 0,
            (1u64 << 26u64) & board != 0,
            (1u64 << 33u64) & board != 0,
            (1u64 << 40u64) & board != 0,
            (1u64 << 47u64) & board != 0,
    ;
    lemma_popcount_full();
}

impl Default for BitBoard {
    fn default() -> (r: Self)
        ensures
            r == BitBoard::empty(),
    {
        Self::new()
    }
}

proof fn lemma_empty_valid()
    ensures
        BitBoard::empty().wf(),
{
    lemma_word_facts(!0u64, 0);
    lemma_word_facts(!FULL_BOARD, 0);
    lemma_word_facts(FULL_BOARD, 0);
    reveal_with_fuel(popcount, 1);
}

proof fn lemma_masks_after_move(p: u64, b: u64, m: u64)
    by (bit_vector)
    requires
        masks_valid(p, b),
        m != 0,
        m & ((m - 1) as u64) == 0,
        m & !((((b + BOTTOM_ROW) as u64) & FULL_BOARD)) == 0,
    ensures
        masks_valid(p ^ b, b | m),
        b & m == 0,
{
}

proof fn lemma_popcount_full()
    ensures
        popcount(FULL_BOARD) == 42,
{
    reveal_with_fuel(popcount, 50);
}

pub(crate) proof fn lemma_play_valid(b: BitBoard, m: u64)
    requires
        b.wf(),
        b.is_move(m),
    ensures
        b.play_spec(m).wf(),
{
    lemma_masks_after_move(b.player_mask, b.board_mask, m);
    lemma_popcount_add_bit(b.board_mask, m);
    lemma_popcount_split(b.player_mask, b.board_mask);
    lemma_word_facts(b.board_mask, b.player_mask);
    lemma_popcount_le(b.board_mask | m, FULL_BOARD);
    lemma_popcount_full();
}

} // verus!
