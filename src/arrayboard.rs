//! A plain array board, cell by cell, that keeps the record of a game for
//! display.
use vstd::prelude::*;
use crate::{HEIGHT, WIDTH};
use vstd::string::StringSliceAdditionalSpecFns;

verus! {

/// The number of cells of the board.
pub const NUM_CELLS: usize = WIDTH * HEIGHT;

/// The content of one cell.
#[derive(Copy, Clone, Eq, PartialEq, Debug, Structural)]
pub enum Cell {
    PlayerOne,
    PlayerTwo,
    Empty,
}

impl Cell {
    /// Whether the cell holds no stone.
    pub fn is_empty(&self) -> (r: bool)
        ensures
            r == (*self == Cell::Empty),
    {
        match self {
            Cell::Empty => true,
            _ => false,
        }
    }
}

/// Where a game stands.
#[derive(Copy, Clone, Debug, PartialEq, Eq, Structural)]
pub enum GameState {
    Playing,
    PlayerOneWin,
    PlayerTwoWin,
    Draw,
}

/// Why a move cannot be played.
#[derive(Copy, Clone, Debug, PartialEq, Eq, Structural)]
pub enum MoveError {
    /// The 1-indexed `column` is not a column of the board.
    OutOfRange { column: usize },
    /// The 1-indexed `column` is full.
    ColumnFull { column: usize },
    /// The character at `position` of a move string is not a digit.
    InvalidCharacter { position: usize },
}

/// The number of empty cells among `cells`.
pub open spec fn count_empty(cells: Seq<Cell>) -> nat
    decreases cells.len(),
{
    if cells.len() == 0 {
        0
    } else {
        count_empty(cells.drop_last()) + if cells.last() == Cell::Empty {
            1nat
        } else {
            0nat
        }
    }
}

/// The number of times `ch` occurs in `s`.
pub open spec fn count_of(s: Seq<u8>, ch: u8) -> nat
    decreases s.len(),
{
    if s.len() == 0 {
        0
    } else {
        count_of(s.drop_last(), ch) + if s.last() == ch {
            1nat
        } else {
            0nat
        }
    }
}

/// A prefix holds a character at most as often as the whole.
proof fn lemma_count_prefix(s: Seq<u8>, k: int, ch: u8)
    requires
        0 <= k <= s.len(),
    ensures
        count_of(s.take(k), ch) <= count_of(s, ch),
    decreases s.len() - k,
{
    if k < s.len() {
        assert(s.take(k + 1).drop_last() == s.take(k));
        lemma_count_prefix(s, k + 1, ch);
    } else {
        assert(s.take(k) == s);
    }
}

/// The number of cells holding `p` in a straight line from column `x`, row
/// `y` (that cell included), stepping `dx` columns and `dy` rows at a time.
pub open spec fn run_from(cells: Seq<Cell>, p: Cell, x: int, y: int, dx: int, dy: int) -> nat
    decreases (if dx > 0 {
        8 - x
    } else {
        x + 1
    }),
{
    if x < 0 || x >= 7 || y < 0 || y >= 6 || (dx != 1 && dx != -1) || cells[x + 7 * y] != p {
        0
    } else {
        1 + run_from(cells, p, x + dx, y + dy, dx, dy)
    }
}

/// A stone `p` on top of a column `column` holding `h` stones forms four in
/// a row: three below it, or three more across or along either diagonal
/// through it.
pub open spec fn wins_in(cells: Seq<Cell>, h: int, p: Cell, column: int) -> bool {
    ||| h >= 3 && cells[column + 7 * (h - 1)] == p && cells[column + 7 * (h - 2)] == p && cells[column + 7 * (h
        - 3)] == p
    ||| exists|slope: int|
        -1 <= slope <= 1 && #[trigger] run_from(cells, p, column - 1, h - slope, -1, -slope) + run_from(
            cells,
            p,
            column + 1,
            h + slope,
            1,
            slope,
        ) >= 3
}

/// The stone of the player who makes move number `k`, counting from 0.
pub open spec fn mover_at(k: int) -> Cell {
    if k % 2 == 0 {
        Cell::PlayerOne
    } else {
        Cell::PlayerTwo
    }
}

/// The cells after the moves of a string of column digits '1' to '7'.
pub open spec fn cells_after(s: Seq<u8>) -> Seq<Cell>
    decreases s.len(),
{
    if s.len() == 0 {
        Seq::new(NUM_CELLS as nat, |i: int| Cell::Empty)
    } else {
        let prev = s.drop_last();
        let c = s.last() - 49;
        cells_after(prev).update(c + 7 * count_of(prev, s.last()), mover_at(prev.len() as int))
    }
}

/// The state of the game after the moves of a string of column digits, as
/// `play_checked` reports it after the last one (a move after a win is
/// played all the same).
pub open spec fn state_after(s: Seq<u8>) -> GameState {
    if s.len() == 0 {
        GameState::Playing
    } else {
        let prev = s.drop_last();
        let c = s.last() - 49;
        let p = mover_at(prev.len() as int);
        if wins_in(cells_after(prev), count_of(prev, s.last()) as int, p, c) {
            if p == Cell::PlayerOne {
                GameState::PlayerOneWin
            } else {
                GameState::PlayerTwoWin
            }
        } else if count_empty(cells_after(prev)) == 1 {
            GameState::Draw
        } else {
            GameState::Playing
        }
    }
}

/// Relies on `String::push`: appends the character to the string.
#[verifier::external_body]
fn push_char(s: &mut String, c: char)
    ensures
        final(s)@ == old(s)@.push(c),
{
    s.push(c)
}

/// A board that stores each cell, for display and for the game record.
pub struct ArrayBoard {
    /// left to right, bottom to top
    pub cells: [Cell; NUM_CELLS],
    pub heights: [usize; WIDTH],
    pub player_one: bool,
    /// the 1-indexed columns played so far
    pub game: String,
    pub num_moves: usize,
    pub state: GameState,
}

impl ArrayBoard {
    /// The stone of the player to move.
    pub open spec fn mover(&self) -> Cell {
        if self.player_one {
            Cell::PlayerOne
        } else {
            Cell::PlayerTwo
        }
    }

    /// Every column holds at most six stones, and the counter counts them.
    pub open spec fn wf(&self) -> bool {
        &&& forall|c: int| 0 <= c < 7 ==> #[trigger] self.heights@[c] <= 6
        &&& self.num_moves == self.heights@[0] + self.heights@[1] + self.heights@[2] + self.heights@[3]
            + self.heights@[4] + self.heights@[5] + self.heights@[6]
    }

    /// The mover's stone in `column` forms four in a row: three below it, or
    /// three more across or along either diagonal through it.
    pub open spec fn wins_at(&self, column: int) -> bool {
        wins_in(self.cells@, self.heights@[column] as int, self.mover(), column)
    }

    /// An empty board, player one to move.
    pub fn new() -> (r: Self)
        ensures
            r.wf(),
            forall|i: int| 0 <= i < NUM_CELLS ==> #[trigger] r.cells@[i] == Cell::Empty,
            forall|c: int| 0 <= c < WIDTH ==> #[trigger] r.heights@[c] == 0,
            r.player_one,
            r.game@ == Seq::<char>::empty(),
            r.num_moves == 0,
            r.state == GameState::Playing,
    {
        Self {
            cells: [Cell::Empty; NUM_CELLS],
            heights: [0; WIDTH],
            player_one: true,
            game: String::new(),
            num_moves: 0,
            state: GameState::Playing,
        }
    }

    /// Plays a string of 1-indexed columns.
    ///
    /// Fails at the first character that is not a digit and at the first
    /// move that `play_checked` refuses; it does not stop at a win.
    pub fn from_str(moves: &str) -> (r: Result<Self, MoveError>)
        ensures
            r is Ok <==> (forall|j: int| 0 <= j < moves.spec_bytes().len() ==> 49 <= #[trigger] moves.spec_bytes()[j]
                <= 55) && (forall|c: int| 0 <= c < 7 ==> #[trigger] count_of(moves.spec_bytes(), (49 + c) as u8)
                <= 6),
            r matches Ok(b) ==> b.wf() && b.num_moves == moves.spec_bytes().len() && b.game@.len()
                == moves.spec_bytes().len() && (forall|j: int|
                0 <= j < moves.spec_bytes().len() ==> 49 <= #[trigger] moves.spec_bytes()[j] <= 55
                    && b.game@[j] == moves.spec_bytes()[j] as char) && (forall|c: int|
                0 <= c < 7 ==> #[trigger] b.heights@[c] == count_of(moves.spec_bytes(), (49 + c) as u8))
                && b.cells@ == cells_after(moves.spec_bytes()) && b.player_one == (moves.spec_bytes().len() % 2
                == 0) && b.state == state_after(moves.spec_bytes()),
            r matches Err(MoveError::InvalidCharacter { position }) ==> position < moves.spec_bytes().len()
                && !(48 <= moves.spec_bytes()[position as int] <= 57),
            r matches Err(MoveError::OutOfRange { column }) ==> (column == 0 || column > 7) && exists|j: int|
                0 <= j < moves.spec_bytes().len() && #[trigger] moves.spec_bytes()[j] == 48 + column,
            r matches Err(MoveError::ColumnFull { column }) ==> 1 <= column <= 7 && count_of(
                moves.spec_bytes(),
                (48 + column) as u8,
            ) > 6,
    {
        let bytes = moves.as_bytes();
        let mut board = Self::new();
        proof {
            assert(board.cells@ =~= cells_after(bytes@.take(0)));
        }
        let mut i: usize = 0;
        while i < bytes.len()
            invariant
                board.wf(),
                i <= bytes@.len(),
                bytes@ == moves.spec_bytes(),
                board.num_moves == i,
                board.game@.len() == i,
                forall|j: int| 0 <= j < i ==> 49 <= #[trigger] bytes@[j] <= 55 && board.game@[j] == bytes@[j] as char,
                forall|c: int| 0 <= c < 7 ==> #[trigger] board.heights@[c] == count_of(bytes@.take(i as int), (49 + c) as u8),
                board.cells@ == cells_after(bytes@.take(i as int)),
                board.player_one == (i % 2 == 0),
                board.state == state_after(bytes@.take(i as int)),
            decreases bytes@.len() - i,
        {
            let ch = bytes[i];
            proof {
                assert(bytes@.take(i + 1).drop_last() == bytes@.take(i as int));
                assert(bytes@.take(i + 1).last() == ch);
            }
            if ch < 48u8 || ch > 57u8 {
                return Err(MoveError::InvalidCharacter { position: i });
            }
            let ghost before = board;
            let step = board.play_checked((ch - 48u8) as usize);
            if let Err(e) = step {
                proof {
                    if ch >= 49 && ch <= 55 {
                        let c = ch - 49;
                        assert(board.heights@[c as int] == count_of(bytes@.take(i as int), (49 + c) as u8));
                        lemma_count_prefix(bytes@, i + 1, ch);
                    }
                }
                return Err(e);
            }
            i += 1;
        }
        proof {
            assert(bytes@.take(i as int) == bytes@);
        }
        Ok(board)
    }

    /// Plays the 1-indexed column and returns the state of the game after it.
    pub fn play_checked(&mut self, column_one_indexed: usize) -> (r: Result<GameState, MoveError>)
        requires
            old(self).wf(),
        ensures
            final(self).wf(),
            column_one_indexed < 1 || column_one_indexed > WIDTH ==> r == Err::<GameState, MoveError>(
                MoveError::OutOfRange { column: column_one_indexed },
            ) && *final(self) == *old(self),
            1 <= column_one_indexed <= WIDTH && old(self).heights@[column_one_indexed - 1] >= HEIGHT
                ==> r == Err::<GameState, MoveError>(MoveError::ColumnFull { column: column_one_indexed })
                && *final(self) == *old(self),
            r is Ok <==> 1 <= column_one_indexed <= WIDTH && old(self).heights@[column_one_indexed - 1]
                < HEIGHT,
            r matches Ok(s) ==> {
                let c = column_one_indexed - 1;
                &&& s == final(self).state
                &&& s == (if old(self).wins_at(c) {
                    if old(self).player_one {
                        GameState::PlayerOneWin
                    } else {
                        GameState::PlayerTwoWin
                    }
                } else if count_empty(old(self).cells@) == 1 {
                    GameState::Draw
                } else {
                    GameState::Playing
                })
                &&& final(self).cells@ == old(self).cells@.update(
                    c + 7 * old(self).heights@[c],
                    old(self).mover(),
                )
                &&& final(self).heights@ == old(self).heights@.update(c, (old(self).heights@[c] + 1) as usize)
                &&& final(self).player_one == !old(self).player_one
                &&& final(self).num_moves == old(self).num_moves + 1
                &&& final(self).game@ == old(self).game@.push(
                    (column_one_indexed + 48) as char,
                )
            },
    {
        if column_one_indexed < 1 || column_one_indexed > WIDTH {
            return Err(MoveError::OutOfRange { column: column_one_indexed });
        }
        let column = column_one_indexed - 1;
        if !self.playable(column) {
            return Err(MoveError::ColumnFull { column: column_one_indexed });
        }
        if self.check_winning_move(column) {
            self.state = if self.player_one {
                GameState::PlayerOneWin
            } else {
                GameState::PlayerTwoWin
            };
        } else {
            self.state = if self.check_draw_move() {
                GameState::Draw
            } else {
                GameState::Playing
            };
        }
        self.play(column);
        push_char(&mut self.game, ((column_one_indexed as u8) + 48u8) as char);
        Ok(self.state)
    }

    /// Whether exactly one cell is left empty.
    pub fn check_draw_move(&self) -> (r: bool)
        ensures
            r == (count_empty(self.cells@) == 1),
    {
        let mut count: usize = 0;
        let mut i: usize = 0;
        while i < NUM_CELLS
            invariant
                i <= NUM_CELLS,
                count == count_empty(self.cells@.take(i as int)),
                count <= i,
            decreases NUM_CELLS - i,
        {
            proof {
                assert(self.cells@.take(i + 1).drop_last() == self.cells@.take(i as int));
            }
            if self.cells[i].is_empty() {
                count += 1;
            }
            i += 1;
        }
        proof {
            assert(self.cells@.take(NUM_CELLS as int) == self.cells@);
        }
        count == 1
    }

    /// Whether `column` has room for another stone.
    fn playable(&self, column: usize) -> (r: bool)
        requires
            column < WIDTH,
        ensures
            r == (self.heights@[column as int] < HEIGHT),
    {
        self.heights[column] < HEIGHT
    }

    /// Drops a stone of the player to move into `column` and passes the turn.
    pub fn play(&mut self, column: usize)
        requires
            old(self).wf(),
            column < WIDTH,
            old(self).heights@[column as int] < HEIGHT,
        ensures
            final(self).wf(),
            final(self).cells@ == old(self).cells@.update(
                column + 7 * old(self).heights@[column as int],
                old(self).mover(),
            ),
            final(self).heights@ == old(self).heights@.update(
                column as int,
                (old(self).heights@[column as int] + 1) as usize,
            ),
            final(self).player_one == !old(self).player_one,
            final(self).num_moves == old(self).num_moves + 1,
            final(self).game == old(self).game,
            final(self).state == old(self).state,
    {
        let player = if self.player_one {
            Cell::PlayerOne
        } else {
            Cell::PlayerTwo
        };
        let h = self.heights[column];
        self.cells[column + WIDTH * h] = player;
        self.heights[column] = h + 1;
        self.num_moves = self.num_moves + 1;
        self.player_one = !self.player_one;
    }

    /// Whether the mover's stone in `column` forms four in a row.
    fn check_winning_move(&self, column: usize) -> (r: bool)
        requires
            self.wf(),
            column < WIDTH,
        ensures
            r == self.wins_at(column as int),
    {
        let player = if self.player_one {
            Cell::PlayerOne
        } else {
            Cell::PlayerTwo
        };
        let h = self.heights[column];
        // up a column: three of the mover's stones right below
        if h >= 3 && self.cells[column + WIDTH * (h - 1)] == player && self.cells[column + WIDTH * (h
            - 2)] == player && self.cells[column + WIDTH * (h - 3)] == player {
            return true;
        }
        // across and along the diagonals
        let mut slope: i32 = -1;
        while slope <= 1
            invariant
                -1 <= slope <= 2,
                self.wf(),
                column < WIDTH,
                h == self.heights@[column as int],
                player == self.mover(),
                !(h >= 3 && self.cells@[column + 7 * (h - 1)] == player && self.cells@[column + 7 * (h - 2)]
                    == player && self.cells@[column + 7 * (h - 3)] == player),
                forall|s: int|
                    -1 <= s < slope ==> #[trigger] run_from(self.cells@, player, column - 1, h - s, -1, -s)
                        + run_from(self.cells@, player, column + 1, h + s, 1, s) < 3,
            decreases 2 - slope,
        {
            let left = self.run_length(player, column as i32 - 1, h as i32 - slope, -1, -slope);
            let right = self.run_length(player, column as i32 + 1, h as i32 + slope, 1, slope);
            if left + right >= 3 {
                return true;
            }
            slope += 1;
        }
        false
    }

    /// The number of cells holding `p` from column `x`, row `y` onwards,
    /// stepping `dx` columns and `dy` rows at a time.
    fn run_length(&self, p: Cell, x: i32, y: i32, dx: i32, dy: i32) -> (r: u32)
        requires
            -1 <= x <= 7,
            -2 <= y <= 8,
            dx == 1 || dx == -1,
            -1 <= dy <= 1,
        ensures
            r == run_from(self.cells@, p, x as int, y as int, dx as int, dy as int),
            r <= 7,
    {
        let ghost x0 = x as int;
        let ghost y0 = y as int;
        let mut x = x;
        let mut y = y;
        let mut run: u32 = 0;
        while 0 <= x && x < 7 && 0 <= y && y < 6 && self.cells[(x + 7 * y) as usize] == p
            invariant
                -1 <= x <= 7,
                -9 <= y <= 15,
                dx == 1 || dx == -1,
                -1 <= dy <= 1,
                run <= 7,
                dx == 1 ==> run == x - x0,
                dx == -1 ==> run == x0 - x,
                run > 0 ==> 0 <= x0 < 7,
                run + run_from(self.cells@, p, x as int, y as int, dx as int, dy as int) == run_from(
                    self.cells@,
                    p,
                    x0,
                    y0,
                    dx as int,
                    dy as int,
                ),
            decreases (if dx > 0 {
                8 - x
            } else {
                x + 1
            }),
        {
            x = x + dx;
            y = y + dy;
            run = run + 1;
        }
        run
    }
}

} // verus!
