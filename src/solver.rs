//! An exact game-tree search for Connect 4.
//!
//! Scores count how early a forced win comes: a win with the mover's last
//! possible stone scores 1, a win with their fourth stone scores 18, a draw 0,
//! and losses score the same values negated.
use vstd::prelude::*;
use crate::bitboard::{
    code_of, column_bits, lemma_candidate_is_move, lemma_column_move, lemma_key_injective, lemma_key_small,
    lemma_no_room_means_full, lemma_no_safe_move_needs_five_stones, lemma_play_valid, lemma_safe_column_exists,
    lemma_full_has_no_room, lemma_unsafe_column_loses,
    lemma_win_needs_six_stones, possible_of, BitBoard,
};
use crate::opening_database::{book_score, sorted_ascending, DATABASE_NUM_POSITIONS};
use crate::transposition_table::{lemma_table_exact, table_get, table_set, Entry, TABLE_MAX_SIZE};
use crate::opening_database::{OpeningDatabase, DATABASE_DEPTH};
use crate::transposition_table::TranspositionTable;
use crate::{HEIGHT, WIDTH};

verus! {

/// The lowest score of a position.
pub const MIN_SCORE: i32 = -((WIDTH * HEIGHT / 2) as i32) + 3;

/// The highest score of a position.
pub const MAX_SCORE: i32 = ((WIDTH * HEIGHT + 1) / 2) as i32 - 3;

/// A bound on every score, window end and table value that the search
/// handles, far from the limits of `i32`.
pub open spec fn in_bounds(x: int) -> bool {
    -1000 <= x <= 1000
}

/// The score of a win on the next stone, with `n` stones played.
pub open spec fn win_score(n: int) -> int {
    (43 - n) / 2
}

/// The score of a loss on the opponent's next stone, with `n` stones played.
pub open spec fn loss_score(n: int) -> int {
    -((42 - n) / 2)
}

/// The mover can win with their next stone.
pub open spec fn can_win_now(b: BitBoard) -> bool {
    exists|c: u64| c < 7 && b.playable_spec(c) && #[trigger] b.winning_spec(c)
}

/// `c` is the leftmost column where the mover wins at once.
pub open spec fn is_first_win(b: BitBoard, c: usize) -> bool {
    &&& c < WIDTH
    &&& b.playable_spec(c as u64)
    &&& b.winning_spec(c as u64)
    &&& forall|d: u64| d < c ==> !(b.playable_spec(d) && #[trigger] b.winning_spec(d))
}

/// `c` is the leftmost column that has room.
pub open spec fn is_first_playable(b: BitBoard, c: usize) -> bool {
    &&& c < WIDTH
    &&& b.playable_spec(c as u64)
    &&& forall|d: u64| d < c ==> !#[trigger] b.playable_spec(d)
}

/// The position after the mover drops a stone into column `c`.
pub open spec fn child(b: BitBoard, c: u64) -> BitBoard {
    b.play_spec(b.column_move(c))
}

/// The value of the position under perfect play by both sides: the win
/// score if the mover wins with this stone, 0 on a full board, else the
/// best over the columns with room of the negated value after that move.
pub open spec fn game_value(b: BitBoard) -> int
    decreases 42 - b.num_moves, 1int, 0int,
{
    if can_win_now(b) {
        win_score(b.num_moves as int)
    } else if b.num_moves >= 42 {
        0
    } else {
        best_from(b, 0)
    }
}

/// The best negated child value over the columns from `c` on that have
/// room; -1000 if none has.
pub open spec fn best_from(b: BitBoard, c: int) -> int
    decreases 42 - b.num_moves, 0int, 7 - c,
{
    if c >= 7 || c < 0 || b.num_moves >= 42 {
        -1000
    } else {
        let rest = best_from(b, c + 1);
        if b.playable_spec(c as u64) {
            let v = -game_value(child(b, c as u64));
            if v > rest {
                v
            } else {
                rest
            }
        } else {
            rest
        }
    }
}

/// What a search with the window `alpha`..`beta` owes: a result at or below
/// `alpha` bounds the value from above, one at or above `beta` bounds it from
/// below, and one strictly inside is the value.
pub open spec fn window_ok(r: int, alpha: int, beta: int, v: int) -> bool {
    &&& r <= alpha ==> v <= r
    &&& r >= beta ==> v >= r
    &&& alpha < r < beta ==> v == r
}

/// A table tag is a true bound of value `v`: 0 says nothing, 1 to 37 store
/// an upper bound offset by 19, and 38 to 74 a lower bound offset by 56.
pub open spec fn tag_sound(t: u8, v: int) -> bool {
    ||| t == 0
    ||| 1 <= t <= 37 && v <= t - 19
    ||| 38 <= t <= 74 && v >= t - 56
}

/// Every tag that a lookup returns for a well-formed position bounds its value.
pub open spec fn table_sound(entries: Seq<Entry>) -> bool {
    forall|b: BitBoard| b.wf() ==> #[trigger] tag_sound(table_get(entries, b.key_spec()), game_value(b))
}

/// Every record of the book whose fingerprint matches a position at the
/// book's depth, read from either side, holds that position's value.
pub open spec fn book_sound(d: OpeningDatabase) -> bool {
    forall|b: BitBoard, i: int|
        #![trigger game_value(b), d.storage.positions@[i]]
        b.wf() && b.num_moves == DATABASE_DEPTH && 0 <= i < DATABASE_NUM_POSITIONS && (d.storage.positions@[i]
            == code_of(b.player_mask, b.board_mask, false) || d.storage.positions@[i] == code_of(
            b.player_mask,
            b.board_mask,
            true,
        )) ==> book_score(d.storage.values@[i]) == game_value(b)
}

/// Record `i` of the book holds the fingerprint of `b`, read from either side.
pub open spec fn matches_record(d: OpeningDatabase, b: BitBoard, i: int) -> bool {
    d.storage.positions@[i] == code_of(b.player_mask, b.board_mask, false) || d.storage.positions@[i]
        == code_of(b.player_mask, b.board_mask, true)
}

/// The book is in fingerprint order and holds a record of `b`.
pub open spec fn book_holds(d: OpeningDatabase, b: BitBoard) -> bool {
    &&& sorted_ascending(d.storage.positions@)
    &&& exists|i: int| 0 <= i < DATABASE_NUM_POSITIONS && #[trigger] matches_record(d, b, i)
}

/// `r` is the score of a record of `b` in the book.
pub open spec fn book_answer(d: OpeningDatabase, b: BitBoard, r: int) -> bool {
    exists|i: int| 0 <= i < DATABASE_NUM_POSITIONS && #[trigger] matches_record(d, b, i) && r == book_score(
        d.storage.values@[i],
    )
}

/// Every slot that differs between the two tables holds a tag of 1 to 74:
/// never the empty tag, never a truncated one.
pub open spec fn changed_tags_in_range(before: Seq<Entry>, after: Seq<Entry>) -> bool {
    &&& before.len() == after.len()
    &&& forall|i: int| 0 <= i < after.len() && #[trigger] after[i] != before[i] ==> 1 <= after[i].value <= 74
}

/// The number of positions counted after one more, wrapping at the top.
pub open spec fn counted_once_more(n: usize) -> usize {
    if n == usize::MAX {
        0
    } else {
        (n + 1) as usize
    }
}

proof fn lemma_changed_tags_trans(a: Seq<Entry>, b: Seq<Entry>, c: Seq<Entry>)
    requires
        changed_tags_in_range(a, b),
        changed_tags_in_range(b, c),
    ensures
        changed_tags_in_range(a, c),
{
    assert forall|i: int| 0 <= i < c.len() && #[trigger] c[i] != a[i] implies 1 <= c[i].value <= 74 by {
        if c[i] == b[i] {
            assert(b[i] != a[i]);
        }
    }
}

proof fn lemma_changed_tags_set(a: Seq<Entry>, key: u64, t: u8)
    requires
        a.len() == TABLE_MAX_SIZE,
        1 <= t <= 74,
    ensures
        changed_tags_in_range(a, table_set(a, key, t)),
{
}

/// Column `d` has room and a move among `non_losing`.
pub open spec fn is_safe_column(b: BitBoard, non_losing: u64, d: u64) -> bool {
    d < 7 && b.playable_spec(d) && non_losing & column_bits(d) != 0
}

/// The child of a well-formed position, through a column with room, is
/// well formed and has one more stone.
pub proof fn lemma_child_wf(b: BitBoard, c: u64)
    requires
        b.wf(),
        c < 7,
        b.playable_spec(c),
    ensures
        b.is_move(b.column_move(c)),
        child(b, c).wf(),
        child(b, c).num_moves == b.num_moves + 1,
{
    lemma_column_move(b.board_mask, c);
    lemma_play_valid(b, b.column_move(c));
}

/// A board with fewer than 42 stones has a column with room.
pub proof fn lemma_some_room(b: BitBoard)
    requires
        b.wf(),
        b.num_moves < 42,
    ensures
        exists|d: u64| d < 7 && #[trigger] b.playable_spec(d),
{
    if forall|d: u64| d < 7 ==> !#[trigger] b.playable_spec(d) {
        lemma_no_room_means_full(b);
    }
}

/// The value of a well-formed position lies between the loss on the next
/// stone and the win with this one, and within the score range.
pub proof fn lemma_value_bounds(b: BitBoard)
    requires
        b.wf(),
    ensures
        MIN_SCORE <= game_value(b) <= MAX_SCORE,
        loss_score(b.num_moves as int) <= game_value(b) <= win_score(b.num_moves as int),
        !can_win_now(b) && b.num_moves < 42 ==> game_value(b) <= (41 - b.num_moves) / 2,
    decreases 42 - b.num_moves, 1int, 0int,
{
    if can_win_now(b) {
        let c = choose|c: u64| c < 7 && b.playable_spec(c) && #[trigger] b.winning_spec(c);
        lemma_win_needs_six_stones(b, c);
    } else if b.num_moves >= 42 {
    } else {
        lemma_some_room(b);
        lemma_best_bounds(b, 0);
    }
}

/// Bounds of `best_from`, from those of the children.
pub proof fn lemma_best_bounds(b: BitBoard, c: int)
    requires
        b.wf(),
        b.num_moves < 42,
        0 <= c <= 7,
    ensures
        (exists|d: u64| c <= d < 7 && #[trigger] b.playable_spec(d)) ==> loss_score(b.num_moves as int)
            <= best_from(b, c) <= (41 - b.num_moves) / 2 && MIN_SCORE <= best_from(b, c) <= MAX_SCORE,
        !(exists|d: u64| c <= d < 7 && #[trigger] b.playable_spec(d)) ==> best_from(b, c) == -1000,
    decreases 42 - b.num_moves, 0int, 7 - c,
{
    if c < 7 {
        lemma_best_bounds(b, c + 1);
        if b.playable_spec(c as u64) {
            lemma_child_wf(b, c as u64);
            lemma_value_bounds(child(b, c as u64));
        } else {
            if exists|d: u64| c <= d < 7 && #[trigger] b.playable_spec(d) {
                let d = choose|d: u64| c <= d < 7 && #[trigger] b.playable_spec(d);
                assert(c + 1 <= d);
            }
        }
    }
}

/// `best_from` is at least every negated child value of a column with room.
pub proof fn lemma_best_ge(b: BitBoard, c: int, d: u64)
    requires
        0 <= c <= d < 7,
        b.num_moves < 42,
        b.playable_spec(d),
    ensures
        best_from(b, c) >= -game_value(child(b, d)),
    decreases 7 - c,
{
    if c < d {
        lemma_best_ge(b, c + 1, d);
    }
}

/// `best_from` is at most a bound of every negated child value.
pub proof fn lemma_best_le(b: BitBoard, c: int, a: int)
    requires
        0 <= c <= 7,
        b.num_moves < 42,
        a >= -1000,
        forall|d: u64| c <= d < 7 && #[trigger] b.playable_spec(d) ==> -game_value(child(b, d)) <= a,
    ensures
        best_from(b, c) <= a,
    decreases 7 - c,
{
    if c < 7 {
        lemma_best_le(b, c + 1, a);
        if b.playable_spec(c as u64) {
            assert(-game_value(child(b, c as u64)) <= a);
        }
    }
}

/// A column with room outside `non_losing_moves` has the lowest value there is.
pub proof fn lemma_unsafe_column_value(b: BitBoard, d: u64)
    requires
        b.wf(),
        d < 7,
        b.playable_spec(d),
        b.non_losing_spec() & column_bits(d) == 0,
    ensures
        -game_value(child(b, d)) == loss_score(b.num_moves as int),
{
    lemma_child_wf(b, d);
    lemma_unsafe_column_loses(b, d);
    let e = choose|e: u64| e < 7 && child(b, d).playable_spec(e) && #[trigger] child(b, d).winning_spec(e);
    assert(can_win_now(child(b, d)));
}

/// With no safe move, the value is the loss on the next stone.
pub proof fn lemma_no_safe_move_value(b: BitBoard)
    requires
        b.wf(),
        !can_win_now(b),
        b.non_losing_spec() == 0,
    ensures
        game_value(b) == loss_score(b.num_moves as int),
{
    if b.num_moves < 42 {
        assert forall|d: u64| 0 <= d < 7 && #[trigger] b.playable_spec(d) implies -game_value(child(b, d))
            <= loss_score(b.num_moves as int) by {
            crate::bits::lemma_word_facts(column_bits(d), 0);
            lemma_unsafe_column_value(b, d);
        }
        lemma_best_le(b, 0, loss_score(b.num_moves as int));
        lemma_some_room(b);
        let d = choose|d: u64| d < 7 && #[trigger] b.playable_spec(d);
        crate::bits::lemma_word_facts(column_bits(d), 0);
        lemma_unsafe_column_value(b, d);
        lemma_best_ge(b, 0, d);
    }
}

/// With a safe move, the value is at most any bound of the negated values of
/// the safe columns.
pub proof fn lemma_safe_columns_bound(b: BitBoard, a: int)
    requires
        b.wf(),
        !can_win_now(b),
        b.num_moves < 42,
        exists|d: u64| #[trigger] is_safe_column(b, b.non_losing_spec(), d),
        forall|d: u64| #[trigger] is_safe_column(b, b.non_losing_spec(), d) ==> -game_value(child(b, d)) <= a,
    ensures
        game_value(b) <= a,
{
    let d0 = choose|d: u64| #[trigger] is_safe_column(b, b.non_losing_spec(), d);
    lemma_child_wf(b, d0);
    lemma_value_bounds(child(b, d0));
    assert forall|d: u64| 0 <= d < 7 && #[trigger] b.playable_spec(d) implies -game_value(child(b, d)) <= a by {
        if !is_safe_column(b, b.non_losing_spec(), d) {
            lemma_unsafe_column_value(b, d);
        }
    }
    lemma_best_le(b, 0, a);
}

/// The value of a position where the mover cannot win at once is the best,
/// over the columns with room, of the negated value after that move: at least
/// each of them, and equal to one of them.
pub proof fn lemma_value_antisymmetric(b: BitBoard)
    requires
        b.wf(),
        b.num_moves < 42,
        !can_win_now(b),
    ensures
        forall|c: u64| c < 7 && #[trigger] b.playable_spec(c) ==> game_value(b) >= -game_value(child(b, c)),
        exists|c: u64| c < 7 && #[trigger] b.playable_spec(c) && game_value(b) == -game_value(child(b, c)),
{
    assert forall|c: u64| c < 7 && #[trigger] b.playable_spec(c) implies game_value(b) >= -game_value(
        child(b, c),
    ) by {
        lemma_best_ge(b, 0, c);
    }
    lemma_some_room(b);
    lemma_best_attained(b, 0);
}

proof fn lemma_best_attained(b: BitBoard, c: int)
    requires
        b.wf(),
        0 <= c <= 7,
        b.num_moves < 42,
        exists|d: u64| c <= d < 7 && #[trigger] b.playable_spec(d),
    ensures
        exists|d: u64| c <= d < 7 && #[trigger] b.playable_spec(d) && best_from(b, c) == -game_value(child(b, d)),
    decreases 7 - c,
{
    let d0 = choose|d: u64| c <= d < 7 && #[trigger] b.playable_spec(d);
    if b.playable_spec(c as u64) {
        if exists|d: u64| c + 1 <= d < 7 && #[trigger] b.playable_spec(d) {
            lemma_best_attained(b, c + 1);
            let d1 = choose|d: u64| c + 1 <= d < 7 && #[trigger] b.playable_spec(d) && best_from(b, c + 1)
                == -game_value(child(b, d));
            if -game_value(child(b, c as u64)) > best_from(b, c + 1) {
                assert(best_from(b, c) == -game_value(child(b, c as u64)));
            } else {
                assert(best_from(b, c) == -game_value(child(b, d1)));
            }
        } else {
            lemma_best_rest_empty(b, c + 1);
            lemma_child_wf(b, c as u64);
            lemma_value_bounds(child(b, c as u64));
            assert(best_from(b, c) == -game_value(child(b, c as u64)));
        }
    } else {
        assert(c + 1 <= d0);
        lemma_best_attained(b, c + 1);
        let d1 = choose|d: u64| c + 1 <= d < 7 && #[trigger] b.playable_spec(d) && best_from(b, c + 1)
            == -game_value(child(b, d));
        assert(best_from(b, c) == -game_value(child(b, d1)));
    }
}

proof fn lemma_best_rest_empty(b: BitBoard, c: int)
    requires
        0 <= c <= 7,
        b.num_moves < 42,
        !exists|d: u64| c <= d < 7 && #[trigger] b.playable_spec(d),
    ensures
        best_from(b, c) == -1000,
    decreases 7 - c,
{
    if c < 7 {
        assert(!b.playable_spec(c as u64));
        lemma_best_rest_empty(b, c + 1);
    }
}

/// Storing a true bound of a position keeps every tag of the table true.
pub proof fn lemma_store_sound(entries: Seq<Entry>, b: BitBoard, t: u8)
    requires
        entries.len() == TABLE_MAX_SIZE,
        table_sound(entries),
        b.wf(),
        tag_sound(t, game_value(b)),
    ensures
        table_sound(table_set(entries, b.key_spec(), t)),
{
    assert forall|c: BitBoard| c.wf() implies #[trigger] tag_sound(
        table_get(table_set(entries, b.key_spec(), t), c.key_spec()),
        game_value(c),
    ) by {
        lemma_key_small(b);
        lemma_key_small(c);
        lemma_table_exact(entries, b.key_spec(), t, c.key_spec());
        if c.key_spec() == b.key_spec() {
            lemma_key_injective(c, b);
            assert(c == b);
        } else {
            assert(tag_sound(table_get(entries, c.key_spec()), game_value(c)));
        }
    }
}

/// Entry `i` of the centre-outward column order: the centre, then one step
/// right, one step left, two steps right, and so on.
pub open spec fn order_at(i: int) -> int {
    if i % 2 == 1 {
        3 + (i / 2 + 1)
    } else {
        3 - i / 2
    }
}

/// Returns the columns from the centre outwards, as the central columns are
/// more often the better moves.
pub fn move_order() -> (r: [usize; WIDTH])
    ensures
        r@ == seq![3usize, 4, 2, 5, 1, 6, 0],
{
    let mut order: [usize; WIDTH] = [0; WIDTH];
    let mut i: usize = 0;
    while i < WIDTH
        invariant
            i <= WIDTH,
            forall|j: int| 0 <= j < i ==> #[trigger] order@[j] == order_at(j),
        decreases WIDTH - i,
    {
        let v = if i % 2 == 1 {
            (WIDTH / 2) + (i / 2 + 1)
        } else {
            (WIDTH / 2) - (i / 2)
        };
        order[i] = v;
        i += 1;
    }
    assert(order@[0] == 3 && order@[1] == 4 && order@[2] == 2 && order@[3] == 5);
    assert(order@[4] == 1 && order@[5] == 6 && order@[6] == 0);
    assert(order@ =~= seq![3usize, 4, 2, 5, 1, 6, 0]);
    order
}

/// Half of `x`, rounded toward zero.
fn halve(x: i32) -> (r: i32)
    requires
        in_bounds(x as int),
    ensures
        r == (if x >= 0 {
            x / 2
        } else {
            -((-x) / 2)
        }),
{
    if x >= 0 {
        x / 2
    } else {
        -((-x) / 2)
    }
}

/// `e` is a move of `board` among `non_losing`, with its column.
pub open spec fn is_candidate(board: BitBoard, non_losing: u64, e: (u64, usize, i32)) -> bool {
    &&& board.is_move(e.0)
    &&& e.1 < WIDTH
    &&& board.playable_spec(e.1 as u64)
    &&& e.0 == non_losing & column_bits(e.1 as u64)
}

/// The probe of one null-window search within `min`..`max`: the middle,
/// moved toward 0, where most scores lie.
pub open spec fn window_target(min: int, max: int) -> int {
    let mid = min + (max - min) / 2;
    let low = if min >= 0 { min / 2 } else { -((-min) / 2) };
    let high = if max >= 0 { max / 2 } else { -((-max) / 2) };
    if mid <= 0 && low < mid {
        low
    } else if mid >= 0 && high > mid {
        high
    } else {
        mid
    }
}

/// The value to test the score against in the next null-window search,
/// with the score known to lie in `min..=max`.
pub fn null_window_target(min: i32, max: i32) -> (r: i32)
    requires
        in_bounds(min as int),
        in_bounds(max as int),
        min < max,
    ensures
        r == window_target(min as int, max as int),
        min <= r < max,
{
    let mut mid = min + (max - min) / 2;
    // most scores lie near 0: probe closer to it
    if mid <= 0 && halve(min) < mid {
        mid = halve(min);
    } else if mid >= 0 && halve(max) > mid {
        mid = halve(max);
    }
    mid
}

/// A small buffer of candidate moves kept sorted by ascending score, so that
/// taking from its end yields the best-scored move first.
pub struct MoveSorter {
    pub size: usize,
    /// move bitmap, column and score
    pub moves: [(u64, usize, i32); WIDTH],
}

impl MoveSorter {
    /// The entries in use are ordered by score.
    pub open spec fn sorted(&self) -> bool {
        &&& self.size <= WIDTH
        &&& forall|i: int, j: int|
            0 <= i < j < self.size ==> (#[trigger] self.moves@[i]).2 <= (#[trigger] self.moves@[j]).2
    }

    /// An empty sorter.
    pub fn new() -> (r: Self)
        ensures
            r.size == 0,
            r.sorted(),
    {
        Self { size: 0, moves: [(0, 0, 0); WIDTH] }
    }

    /// Inserts a move, keeping the entries ordered by score; among equal
    /// scores the newest comes last.
    pub fn push(&mut self, new_move: u64, column: usize, score: i32)
        requires
            old(self).size < WIDTH,
            old(self).sorted(),
        ensures
            final(self).size == old(self).size + 1,
            final(self).sorted(),
            forall|k: int|
                0 <= k < final(self).size ==> #[trigger] final(self).moves@[k] == (
                new_move,
                column,
                score,
            ) || exists|j: int| 0 <= j < old(self).size && final(self).moves@[k] == old(self).moves@[j],
            exists|pos: int|
                0 <= pos <= old(self).size && (forall|j: int| 0 <= j < pos ==> (#[trigger] old(self).moves@[j]).2
                    <= score) && (forall|j: int| pos <= j < old(self).size ==> (#[trigger] old(self).moves@[j]).2
                    > score) && final(self).moves@.take(final(self).size as int) == old(self).moves@.take(pos)
                    + seq![(new_move, column, score)] + old(self).moves@.subrange(pos, old(self).size as int),
    {
        let ghost before = self.moves@;
        let ghost n = self.size as int;
        let mut pos = self.size;
        self.size = self.size + 1;
        while pos != 0 && self.moves[pos - 1].2 > score
            invariant
                0 <= pos <= n,
                n < WIDTH,
                self.size == n + 1,
                self.moves@.len() == WIDTH,
                forall|i: int, j: int| 0 <= i < j < n ==> (#[trigger] before[i]).2 <= (#[trigger] before[j]).2,
                forall|i: int| 0 <= i < pos ==> #[trigger] self.moves@[i] == before[i],
                forall|i: int| pos < i <= n ==> #[trigger] self.moves@[i] == before[i - 1],
                forall|i: int| pos <= i < n ==> (#[trigger] before[i]).2 > score,
            decreases pos,
        {
            let shifted = self.moves[pos - 1];
            self.moves[pos] = shifted;
            pos = pos - 1;
        }
        self.moves[pos] = (new_move, column, score);
        proof {
            let p = pos as int;
            assert(self.moves@.take(self.size as int) =~= before.take(p) + seq![(new_move, column, score)]
                + before.subrange(p, n));
            assert forall|j: int| 0 <= j < p implies (#[trigger] before[j]).2 <= score by {
                if p > 0 {
                    assert(before[j].2 <= before[p - 1].2 || j == p - 1);
                }
            }
            assert forall|k: int| 0 <= k < self.size implies #[trigger] self.moves@[k] == (
                new_move,
                column,
                score,
            ) || exists|j: int| 0 <= j < n && self.moves@[k] == before[j] by {
                if k < pos {
                    assert(self.moves@[k] == before[k]);
                } else if k > pos {
                    assert(self.moves@[k] == before[k - 1]);
                }
            }
            assert forall|i: int, j: int| 0 <= i < j < self.size implies (#[trigger] self.moves@[i]).2
                <= (#[trigger] self.moves@[j]).2 by {
                if j < pos {
                } else if j == pos {
                    if i < pos && pos > 0 {
                        assert(before[i].2 <= before[pos - 1].2 || i == pos - 1);
                    }
                } else if i < pos {
                    assert(before[i].2 <= before[j - 1].2);
                } else if i == pos {
                    assert(before[j - 1].2 > score);
                } else {
                    assert(before[i - 1].2 <= before[j - 1].2);
                }
            }
        }
    }

    /// Takes out the entry with the highest score (the newest among equals).
    pub fn next(&mut self) -> (r: Option<(u64, usize)>)
        requires
            old(self).sorted(),
        ensures
            final(self).sorted(),
            final(self).moves == old(self).moves,
            old(self).size == 0 ==> r is None && final(self).size == 0,
            old(self).size > 0 ==> final(self).size == old(self).size - 1 && r == Some(
                (
                    old(self).moves@[old(self).size - 1].0,
                    old(self).moves@[old(self).size - 1].1,
                ),
            ),
    {
        if self.size == 0 {
            None
        } else {
            self.size = self.size - 1;
            Some((self.moves[self.size].0, self.moves[self.size].1))
        }
    }
}

/// An exact solver for one Connect 4 position.
pub struct Solver {
    pub board: BitBoard,
    /// The number of positions searched so far, for diagnostics only.
    pub node_count: usize,
    pub transposition_table: TranspositionTable,
    pub opening_database: Option<OpeningDatabase>,
}

impl Solver {
    /// Every tag of the table is a true bound, and so is every score of the
    /// book, if one is attached.
    pub open spec fn sound(&self) -> bool {
        &&& table_sound(self.transposition_table.view_entries())
        &&& (self.opening_database matches Some(d) ==> book_sound(d))
    }

    /// The board is well formed, and so are the table and the book.
    pub open spec fn wf(&self) -> bool {
        &&& self.board.wf()
        &&& self.transposition_table.wf()
        &&& (self.opening_database matches Some(d) ==> d.wf())
    }

    /// Creates a solver for `board` with an empty transposition table.
    pub fn new(board: BitBoard) -> (r: Self)
        requires
            board.wf(),
        ensures
            r.wf(),
            r.sound(),
            r.board == board,
            r.node_count == 0,
            r.opening_database is None,
    {
        let transposition_table = TranspositionTable::new();
        proof {
            assert forall|b: BitBoard| b.wf() implies #[trigger] tag_sound(
                table_get(transposition_table.view_entries(), b.key_spec()),
                game_value(b),
            ) by {
                assert(table_get(transposition_table.view_entries(), b.key_spec()) == 0);
            }
        }
        Self { board, node_count: 0, transposition_table, opening_database: None }
    }

    /// Creates a solver for `board` that reuses `transposition_table`.
    pub fn new_with_transposition_table(board: BitBoard, transposition_table: TranspositionTable) -> (r: Self)
        requires
            board.wf(),
            transposition_table.wf(),
        ensures
            r.wf(),
            r.board == board,
            r.node_count == 0,
            r.transposition_table == transposition_table,
            r.opening_database is None,
            table_sound(transposition_table.view_entries()) ==> r.sound(),
    {
        Self { board, node_count: 0, transposition_table, opening_database: None }
    }

    /// Attaches an opening book to the solver.
    pub fn with_opening_database(self, opening_database: OpeningDatabase) -> (r: Self)
        requires
            self.wf(),
            opening_database.wf(),
        ensures
            r.wf(),
            r.board == self.board,
            r.node_count == self.node_count,
            r.opening_database == Some(opening_database),
            self.sound() && book_sound(opening_database) ==> r.sound(),
    {
        let mut s = self;
        s.opening_database = Some(opening_database);
        s
    }

    /// Searches `board` with the window `alpha`..`beta` and returns its score:
    /// exact inside the window, a bound at or outside it.
    ///
    /// When the table's tags and the book are true bounds, and the window lies
    /// in the score range, the result bounds the game value as `window_ok`
    /// says and every tag stored is a true bound.
    fn negamax(&mut self, board: BitBoard, alpha: i32, beta: i32) -> (r: i32)
        requires
            old(self).wf(),
            board.wf(),
            in_bounds(alpha as int),
            in_bounds(beta as int),
        ensures
            final(self).wf(),
            final(self).board == old(self).board,
            final(self).opening_database == old(self).opening_database,
            in_bounds(r as int),
            can_win_now(board) ==> r == win_score(board.num_moves as int)
                && final(self).transposition_table.view_entries() == old(self).transposition_table.view_entries(),
            !can_win_now(board) && board.non_losing_spec() == 0 ==> r == loss_score(
                board.num_moves as int,
            ),
            can_win_now(board) ==> final(self).node_count == counted_once_more(old(self).node_count),
            !can_win_now(board) && board.non_losing_spec() != 0 && board.num_moves == DATABASE_DEPTH
                && old(self).opening_database is Some && book_holds(old(self).opening_database->Some_0, board)
                ==> book_answer(old(self).opening_database->Some_0, board, r as int)
                && final(self).transposition_table.view_entries() == old(self).transposition_table.view_entries(),
            old(self).sound() && MIN_SCORE <= alpha < beta <= MAX_SCORE ==> final(self).sound() && MIN_SCORE
                <= r <= MAX_SCORE && window_ok(r as int, alpha as int, beta as int, game_value(board))
                && changed_tags_in_range(
                old(self).transposition_table.view_entries(),
                final(self).transposition_table.view_entries(),
            ),
        decreases WIDTH * HEIGHT - board.num_moves,
    {
        let ghost ok = old(self).sound() && MIN_SCORE <= alpha < beta <= MAX_SCORE;
        let ghost a0 = alpha as int;
        let ghost b0 = beta as int;
        let ghost v = game_value(board);
        let mut lo = alpha;
        let mut hi = beta;
        self.node_count = self.node_count.wrapping_add(1);
        proof {
            lemma_value_bounds(board);
        }

        // a win on this move is the best there is
        let mut column: usize = 0;
        while column < WIDTH
            invariant
                column <= WIDTH,
                board.wf(),
                self.wf(),
                self.board == old(self).board,
                self.opening_database == old(self).opening_database,
                self.transposition_table == old(self).transposition_table,
                self.node_count == counted_once_more(old(self).node_count),
                forall|c: u64| c < column ==> !(board.playable_spec(c) && #[trigger] board.winning_spec(c)),
            decreases WIDTH - column,
        {
            if board.playable(column) && board.check_winning_move(column) {
                proof {
                    assert(board.winning_spec(column as u64));
                }
                proof {
                    lemma_value_bounds(board);
                }
                return ((WIDTH * HEIGHT + 1 - board.num_moves()) / 2) as i32;
            }
            column += 1;
        }

        // every move lets the opponent win next
        let non_losing_moves = board.non_losing_moves();
        if non_losing_moves == 0 {
            proof {
                lemma_no_safe_move_value(board);
            }
            return -(((WIDTH * HEIGHT - board.num_moves()) / 2) as i32);
        }

        // the board is full
        if board.num_moves() == WIDTH * HEIGHT {
            return 0;
        }

        // the opening book holds every position at its depth
        if board.num_moves() == DATABASE_DEPTH {
            if let Some(database) = &self.opening_database {
                let code = board.unmirrored_code();
                let mirror_code = board.huffman_code_mirror();
                let found = database.get(code, mirror_code);
                proof {
                    if book_holds(*database, board) {
                        let i = choose|i: int| 0 <= i < DATABASE_NUM_POSITIONS && #[trigger] matches_record(*database, board, i);
                        assert(database.storage.positions@[i] == code || database.storage.positions@[i] == mirror_code);
                    }
                }
                if let Some(score) = found {
                    proof {
                        let i = choose|i: int|
                            0 <= i < DATABASE_NUM_POSITIONS && (database.storage.positions@[i] == code
                                || database.storage.positions@[i] == mirror_code) && score == book_score(
                                #[trigger] database.storage.values@[i],
                            );
                        assert(matches_record(*database, board, i));
                        if ok {
                            let i = choose|i: int|
                                0 <= i < DATABASE_NUM_POSITIONS && (database.storage.positions@[i] == code
                                    || database.storage.positions@[i] == mirror_code) && score == book_score(
                                    #[trigger] database.storage.values@[i],
                                );
                            assert(book_sound(*database));
                            assert(book_score(database.storage.values@[i]) == game_value(board));
                        }
                    }
                    return score;
                }
                proof {
                    assert(!book_holds(*database, board));
                }
            }
        }
        let ghost book_case = board.num_moves == DATABASE_DEPTH && old(self).opening_database is Some && book_holds(
            old(self).opening_database->Some_0,
            board,
        );
        assert(!book_case);
        let ghost entries0 = self.transposition_table.view_entries();
        assert(entries0 == old(self).transposition_table.view_entries());

        // upper bound of the score
        let mut max = ((WIDTH * HEIGHT - 1 - board.num_moves()) / 2) as i32;

        // a bound from an earlier search of this position
        let key = board.key();
        let value = self.transposition_table.get(key) as i32;
        proof {
            if ok {
                assert(tag_sound(table_get(self.transposition_table.view_entries(), board.key_spec()), v));
            }
        }
        if value != 0 {
            if value > MAX_SCORE - MIN_SCORE + 1 {
                // a lower bound
                let min = value + 2 * MIN_SCORE - MAX_SCORE - 2;
                if lo < min {
                    lo = min;
                    if lo >= hi {
                        return lo;
                    }
                }
            } else {
                // an upper bound
                let upper = value + MIN_SCORE - 1;
                if hi > upper {
                    hi = upper;
                    if lo >= hi {
                        return hi;
                    }
                }
            }
            max = value + MIN_SCORE - 1;
        }
        if hi > max {
            hi = max;
            if lo >= hi {
                return hi;
            }
        }

        let mut moves = self.order_moves(&board, non_losing_moves);
        proof {
            lemma_safe_column_exists(board);
            let d0 = choose|d0: u64| d0 < 7 && board.playable_spec(d0) && #[trigger] (non_losing_moves & column_bits(d0)) != 0;
            assert(is_safe_column(board, non_losing_moves, d0));
        }

        while moves.size > 0
            invariant
                self.wf(),
                self.board == old(self).board,
                self.opening_database == old(self).opening_database,
                board.wf(),
                !can_win_now(board),
                non_losing_moves == board.non_losing_spec(),
                non_losing_moves != 0,
                non_losing_moves & !possible_of(board.board_mask) == 0,
                board.num_moves < WIDTH * HEIGHT,
                key == board.key_spec(),
                ok == (old(self).sound() && MIN_SCORE <= alpha < beta <= MAX_SCORE),
                a0 == alpha,
                b0 == beta,
                v == best_from(board, 0),
                v == game_value(board),
                in_bounds(lo as int),
                in_bounds(hi as int),
                moves.sorted(),
                forall|k: int| 0 <= k < moves.size ==> is_candidate(board, non_losing_moves, #[trigger] moves.moves@[k]),
                !book_case,
                book_case == (board.num_moves == DATABASE_DEPTH && old(self).opening_database is Some && book_holds(
                    old(self).opening_database->Some_0,
                    board,
                )),
                ok ==> self.sound(),
                ok ==> changed_tags_in_range(old(self).transposition_table.view_entries(), self.transposition_table.view_entries()),
                ok ==> MIN_SCORE <= lo < hi <= MAX_SCORE && a0 <= lo && hi <= b0,
                ok ==> lo == a0 || v >= lo,
                ok ==> hi == b0 || v <= hi,
                ok ==> forall|d: u64|
                    #[trigger] is_safe_column(board, non_losing_moves, d) ==> (exists|k: int|
                        0 <= k < moves.size && #[trigger] moves.moves@[k].1 == d as usize) || -game_value(
                        child(board, d),
                    ) <= lo,
                exists|d: u64| #[trigger] is_safe_column(board, non_losing_moves, d),
            decreases moves.size,
        {
            let ghost top = moves.moves@[moves.size - 1];
            let ghost before = moves;
            let ghost lo_before = lo;
            let (move_bitmap, move_column) = match moves.next() {
                Some(m) => m,
                None => (0, 0),
            };
            assert(is_candidate(board, non_losing_moves, top));
            proof {
                lemma_candidate_is_move(board, move_column as u64, non_losing_moves);
                lemma_child_wf(board, move_column as u64);
                lemma_best_ge(board, 0, move_column as u64);
            }
            let mut next = board;
            next.play(move_bitmap);
            assert(next == child(board, move_column as u64));
            // the window turns round for the other player
            let ghost entries_before = self.transposition_table.view_entries();
            let score = -self.negamax(next, -hi, -lo);
            proof {
                if ok {
                    lemma_changed_tags_trans(
                        old(self).transposition_table.view_entries(),
                        entries_before,
                        self.transposition_table.view_entries(),
                    );
                }
            }
            if score >= hi {
                // keep a lower bound of the score
                let tag = #[verifier::truncate] ((score + MAX_SCORE - 2 * MIN_SCORE + 2) as u8);
                proof {
                    if ok {
                        assert(v >= -game_value(child(board, move_column as u64)));
                        assert(v >= score);
                        assert(tag == score + 56);
                        lemma_store_sound(self.transposition_table.view_entries(), board, tag);
                        lemma_changed_tags_set(self.transposition_table.view_entries(), key, tag);
                        lemma_changed_tags_trans(
                            old(self).transposition_table.view_entries(),
                            self.transposition_table.view_entries(),
                            table_set(self.transposition_table.view_entries(), key, tag),
                        );
                    }
                }
                self.transposition_table.set(key, tag);
                proof {
                    if ok {
                        assert(self.sound());
                        assert(MIN_SCORE <= score <= MAX_SCORE);
                        assert(window_ok(score as int, a0, b0, v));
                    }
                }
                return score;
            }
            if score > lo {
                lo = score;
            }
            proof {
                if ok {
                    assert forall|d: u64| #[trigger] is_safe_column(board, non_losing_moves, d) implies (exists|k: int|
                        0 <= k < moves.size && #[trigger] moves.moves@[k].1 == d as usize) || -game_value(
                        child(board, d),
                    ) <= lo by {
                        if -game_value(child(board, d)) > lo {
                            assert(-game_value(child(board, d)) > lo_before);
                            let k = choose|k: int| 0 <= k < before.size && #[trigger] before.moves@[k].1 == d as usize;
                            if k == before.size - 1 {
                                assert(top.1 == d as usize);
                            } else {
                                assert(moves.moves@[k].1 == d as usize);
                            }
                        }
                    }
                }
            }
        }

        proof {
            if ok {
                lemma_safe_columns_bound(board, lo as int);
            }
        }
        // keep an upper bound of the score, offset so that it is never 0
        let tag = #[verifier::truncate] ((lo - MIN_SCORE + 1) as u8);
        proof {
            if ok {
                assert(tag == lo + 19);
                lemma_store_sound(self.transposition_table.view_entries(), board, tag);
                lemma_changed_tags_set(self.transposition_table.view_entries(), key, tag);
                lemma_changed_tags_trans(
                    old(self).transposition_table.view_entries(),
                    self.transposition_table.view_entries(),
                    table_set(self.transposition_table.view_entries(), key, tag),
                );
            }
        }
        self.transposition_table.set(key, tag);
        lo
    }

    /// Searches the solver's board with the window `alpha`..`beta`, without
    /// the table's bounds or the opening book, and returns the score with the
    /// move that gave it.
    ///
    /// A win on this move returns its column; when every move loses, the
    /// leftmost column with room; otherwise the best column searched. The
    /// column is `WIDTH` only on a full board.
    pub fn top_level_search(&mut self, alpha: i32, beta: i32) -> (r: (i32, usize))
        requires
            old(self).wf(),
            in_bounds(alpha as int),
            in_bounds(beta as int),
        ensures
            final(self).wf(),
            final(self).board == old(self).board,
            final(self).opening_database == old(self).opening_database,
            in_bounds(r.0 as int),
            r.1 <= WIDTH,
            (exists|d: u64| d < 7 && #[trigger] old(self).board.playable_spec(d)) ==> r.1 < WIDTH
                && old(self).board.playable_spec(r.1 as u64),
            old(self).board.num_moves == WIDTH * HEIGHT ==> r == (0i32, WIDTH),
            can_win_now(old(self).board) ==> r.0 == win_score(old(self).board.num_moves as int)
                && is_first_win(old(self).board, r.1),
            !can_win_now(old(self).board) && old(self).board.non_losing_spec() == 0
                && old(self).board.num_moves < WIDTH * HEIGHT ==> r.0 == loss_score(
                old(self).board.num_moves as int,
            ) && is_first_playable(old(self).board, r.1),
            !can_win_now(old(self).board) && old(self).board.non_losing_spec() != 0 && r.1 < WIDTH
                ==> old(self).board.non_losing_spec() & column_bits(r.1 as u64) != 0,
            old(self).sound() && MIN_SCORE <= alpha < beta <= MAX_SCORE ==> final(self).sound() && MIN_SCORE
                <= r.0 <= MAX_SCORE && window_ok(r.0 as int, alpha as int, beta as int, game_value(old(self).board)),
            old(self).sound() && MIN_SCORE <= alpha < beta <= MAX_SCORE && r.0 >= beta && !can_win_now(
                old(self).board,
            ) && r.1 < WIDTH ==> -game_value(child(old(self).board, r.1 as u64)) >= r.0,
    {
        let ghost ok = old(self).sound() && MIN_SCORE <= alpha < beta <= MAX_SCORE;
        let mut lo = alpha;
        self.node_count = self.node_count.wrapping_add(1);
        let board = self.board;
        let ghost v = game_value(board);
        proof {
            lemma_value_bounds(board);
            if board.num_moves == 42 {
                assert forall|d: u64| d < 7 implies !#[trigger] board.playable_spec(d) by {
                    lemma_full_has_no_room(board, d);
                }
            }
        }

        // a win on this move
        let mut column: usize = 0;
        while column < WIDTH
            invariant
                column <= WIDTH,
                board == self.board,
                board == old(self).board,
                self.wf(),
                self.opening_database == old(self).opening_database,
                self.transposition_table == old(self).transposition_table,
                board.wf(),
                board.num_moves < WIDTH * HEIGHT || forall|d: u64| d < 7 ==> !#[trigger] board.playable_spec(d),
                forall|c: u64| c < column ==> !(board.playable_spec(c) && #[trigger] board.winning_spec(c)),
            decreases WIDTH - column,
        {
            if board.playable(column) && board.check_winning_move(column) {
                proof {
                    assert(board.winning_spec(column as u64));
                    lemma_value_bounds(board);
                }
                return (((WIDTH * HEIGHT + 1 - board.num_moves()) / 2) as i32, column);
            }
            column += 1;
        }

        // every move loses: return the first one with room
        let non_losing_moves = board.non_losing_moves();
        if non_losing_moves == 0 {
            proof {
                lemma_no_safe_move_value(board);
            }
            let loss = -(((WIDTH * HEIGHT - board.num_moves()) / 2) as i32);
            let mut first: usize = 0;
            while first < WIDTH
                invariant
                    first <= WIDTH,
                    board.wf(),
                    board == self.board,
                    board == old(self).board,
                    self.wf(),
                    self.opening_database == old(self).opening_database,
                    self.transposition_table == old(self).transposition_table,
                    !can_win_now(board),
                    non_losing_moves == 0,
                    non_losing_moves == board.non_losing_spec(),
                    loss == loss_score(board.num_moves as int),
                    loss == game_value(board),
                    board.num_moves < WIDTH * HEIGHT || forall|d: u64| d < 7 ==> !#[trigger] board.playable_spec(d),
                    forall|c: u64| c < first ==> !#[trigger] board.playable_spec(c),
                decreases WIDTH - first,
            {
                if board.playable(first) {
                    proof {
                        lemma_value_bounds(board);
                        crate::bits::lemma_word_facts(column_bits(first as u64), 0);
                        lemma_unsafe_column_value(board, first as u64);
                    }
                    return (loss, first);
                }
                first += 1;
            }
            proof {
                lemma_no_room_means_full(board);
                lemma_value_bounds(board);
            }
            return (loss, WIDTH);
        }

        // the board is full
        if board.num_moves() == WIDTH * HEIGHT {
            return (0, WIDTH);
        }

        let mut moves = self.order_moves(&board, non_losing_moves);
        proof {
            lemma_safe_column_exists(board);
            let d0 = choose|d0: u64| d0 < 7 && board.playable_spec(d0) && #[trigger] (non_losing_moves & column_bits(d0)) != 0;
            assert(is_safe_column(board, non_losing_moves, d0));
            lemma_value_bounds(board);
        }
        let ghost initial = moves.size;
        let mut best_score = MIN_SCORE;
        let mut best_move = WIDTH;
        while moves.size > 0
            invariant
                self.wf(),
                self.board == board,
                self.opening_database == old(self).opening_database,
                board == old(self).board,
                board.wf(),
                !can_win_now(board),
                non_losing_moves == board.non_losing_spec(),
                non_losing_moves != 0,
                non_losing_moves & !possible_of(board.board_mask) == 0,
                board.num_moves < WIDTH * HEIGHT,
                v == game_value(board),
                v == best_from(board, 0),
                MIN_SCORE <= v <= MAX_SCORE,
                ok == (old(self).sound() && MIN_SCORE <= alpha < beta <= MAX_SCORE),
                in_bounds(lo as int),
                in_bounds(beta as int),
                moves.sorted(),
                initial > 0,
                moves.size <= initial,
                forall|k: int| 0 <= k < moves.size ==> is_candidate(board, non_losing_moves, #[trigger] moves.moves@[k]),
                best_move <= WIDTH,
                moves.size < initial ==> best_move < WIDTH,
                best_move < WIDTH ==> non_losing_moves & column_bits(best_move as u64) != 0
                    && board.playable_spec(best_move as u64),
                ok ==> self.sound(),
                ok ==> MIN_SCORE <= lo < beta && alpha <= lo,
                ok ==> lo == alpha || v >= lo,
                ok ==> forall|d: u64|
                    #[trigger] is_safe_column(board, non_losing_moves, d) ==> (exists|k: int|
                        0 <= k < moves.size && #[trigger] moves.moves@[k].1 == d as usize) || -game_value(
                        child(board, d),
                    ) <= lo,
                exists|d: u64| #[trigger] is_safe_column(board, non_losing_moves, d),
            decreases moves.size,
        {
            let ghost top = moves.moves@[moves.size - 1];
            let ghost before = moves;
            let ghost lo_before = lo;
            let (move_bitmap, move_column) = match moves.next() {
                Some(m) => m,
                None => (0, 0),
            };
            assert(is_candidate(board, non_losing_moves, top));
            proof {
                lemma_candidate_is_move(board, move_column as u64, non_losing_moves);
                lemma_child_wf(board, move_column as u64);
                lemma_best_ge(board, 0, move_column as u64);
            }
            let mut next = board;
            next.play(move_bitmap);
            assert(next == child(board, move_column as u64));
            let score = -self.negamax(next, -beta, -lo);
            // the opponent will not allow a line that reaches beta
            if score >= beta {
                proof {
                    if ok {
                        assert(v >= -game_value(child(board, move_column as u64)));
                        assert(-game_value(child(board, move_column as u64)) >= score);
                    }
                }
                return (score, move_column);
            }
            if score > lo {
                lo = score;
            }
            if best_move == WIDTH || score > best_score {
                best_score = score;
                best_move = move_column;
            }
            proof {
                if ok {
                    assert forall|d: u64| #[trigger] is_safe_column(board, non_losing_moves, d) implies (exists|k: int|
                        0 <= k < moves.size && #[trigger] moves.moves@[k].1 == d as usize) || -game_value(
                        child(board, d),
                    ) <= lo by {
                        if -game_value(child(board, d)) > lo {
                            assert(-game_value(child(board, d)) > lo_before);
                            let k = choose|k: int| 0 <= k < before.size && #[trigger] before.moves@[k].1 == d as usize;
                            if k == before.size - 1 {
                                assert(top.1 == d as usize);
                            } else {
                                assert(moves.moves@[k].1 == d as usize);
                            }
                        }
                    }
                }
            }
        }
        proof {
            if ok {
                lemma_safe_columns_bound(board, lo as int);
            }
        }
        (lo, best_move)
    }

    /// One null-window search of the score, known to lie in `min..=max`:
    /// probes `window_target(min, max)` and returns the narrowed range with the
    /// column the probe found.
    pub fn solve_step(&mut self, min: i32, max: i32) -> (r: (i32, i32, usize))
        requires
            old(self).wf(),
            in_bounds(min as int),
            in_bounds(max as int),
            min < max,
        ensures
            final(self).wf(),
            final(self).board == old(self).board,
            final(self).opening_database == old(self).opening_database,
            in_bounds(r.0 as int),
            in_bounds(r.1 as int),
            r.2 <= WIDTH,
            r.0 == min && r.1 <= window_target(min as int, max as int) || r.1 == max && r.0 > window_target(
                min as int,
                max as int,
            ),
            (exists|d: u64| d < 7 && #[trigger] old(self).board.playable_spec(d)) ==> r.2 < WIDTH
                && old(self).board.playable_spec(r.2 as u64),
            can_win_now(old(self).board) && max == win_score(old(self).board.num_moves as int) ==> r.0 == max
                && r.1 == max && is_first_win(old(self).board, r.2),
            !can_win_now(old(self).board) && old(self).board.non_losing_spec() == 0
                && old(self).board.num_moves < WIDTH * HEIGHT && min == loss_score(
                old(self).board.num_moves as int,
            ) ==> r.0 == min && r.1 == min && is_first_playable(old(self).board, r.2),
            !can_win_now(old(self).board) && old(self).board.non_losing_spec() != 0 && r.2 < WIDTH
                ==> old(self).board.non_losing_spec() & column_bits(r.2 as u64) != 0,
            old(self).sound() && MIN_SCORE <= min && max <= MAX_SCORE && min <= game_value(old(self).board)
                <= max ==> final(self).sound() && MIN_SCORE <= r.0 && r.1 <= MAX_SCORE && r.0 <= game_value(
                old(self).board,
            ) <= r.1,
            old(self).sound() && MIN_SCORE <= min && max <= MAX_SCORE && r.0 > min && !can_win_now(
                old(self).board,
            ) && r.2 < WIDTH ==> -game_value(child(old(self).board, r.2 as u64)) >= r.0,
    {
        let mid = null_window_target(min, max);
        // whatever else `r` says, it tells whether the score is above mid
        let (r, best_move) = self.top_level_search(mid, mid + 1);
        if r <= mid {
            (min, r, best_move)
        } else {
            (r, max, best_move)
        }
    }

    /// Calculates the score of the position and a best move, by null-window
    /// searches that narrow the range of the score until it is exact.
    ///
    /// When the table's tags and the book are true bounds, the score is the
    /// game value and the column is a move that attains it. The column has
    /// room whenever some column has: it is the leftmost such column until a
    /// probe finds the score above its target, and then the move that probe
    /// found. A win on this move returns the leftmost winning column, and a
    /// full board scores 0 with no move.
    pub fn solve(&mut self) -> (r: (i32, usize))
        requires
            old(self).wf(),
        ensures
            final(self).wf(),
            final(self).board == old(self).board,
            final(self).opening_database == old(self).opening_database,
            old(self).sound() ==> final(self).sound() && r.0 == game_value(old(self).board),
            (exists|d: u64| d < 7 && #[trigger] old(self).board.playable_spec(d)) ==> r.1 < WIDTH
                && old(self).board.playable_spec(r.1 as u64),
            loss_score(old(self).board.num_moves as int) <= r.0,
            in_bounds(r.0 as int),
            r.1 <= WIDTH,
            old(self).board.num_moves < WIDTH * HEIGHT && can_win_now(old(self).board) ==> r.0
                == win_score(old(self).board.num_moves as int) && is_first_win(old(self).board, r.1),
            old(self).board.num_moves < WIDTH * HEIGHT && !can_win_now(old(self).board)
                && old(self).board.non_losing_spec() == 0 ==> r.0 == loss_score(
                old(self).board.num_moves as int,
            ) && is_first_playable(old(self).board, r.1),
            old(self).board.num_moves == WIDTH * HEIGHT ==> r == (0i32, WIDTH),
            old(self).sound() && !can_win_now(old(self).board) && r.1 < WIDTH ==> -game_value(
                child(old(self).board, r.1 as u64),
            ) == r.0,
    {
        let board = self.board;
        let ghost n = board.num_moves as int;
        let ghost ok = old(self).sound();
        let ghost v = game_value(board);
        proof {
            lemma_value_bounds(board);
            if !can_win_now(board) && board.non_losing_spec() == 0 {
                lemma_no_safe_move_value(board);
            }
            if n < 42 {
                lemma_some_room(board);
            } else {
                assert forall|d: u64| d < 7 implies !#[trigger] board.playable_spec(d) by {
                    lemma_full_has_no_room(board, d);
                }
            }
        }
        // the score lies between the loss on the next stone and the win on
        // this one, and within the score range
        let mut min = -(((WIDTH * HEIGHT - self.board.num_moves()) / 2) as i32);
        if min < MIN_SCORE {
            min = MIN_SCORE;
        }
        let mut max = ((WIDTH * HEIGHT + 1 - self.board.num_moves()) / 2) as i32;
        if max > MAX_SCORE {
            max = MAX_SCORE;
        }
        // until a probe says better, the leftmost column with room
        let mut next_move: usize = 0;
        while next_move < WIDTH && !board.playable(next_move)
            invariant
                next_move <= WIDTH,
                board.wf(),
                forall|c: u64| c < next_move ==> !#[trigger] board.playable_spec(c),
            decreases WIDTH - next_move,
        {
            next_move += 1;
        }
        proof {
            if next_move < WIDTH {
                lemma_child_wf(board, next_move as u64);
                lemma_value_bounds(child(board, next_move as u64));
            } else if n < 42 {
                let d = choose|d: u64| d < 7 && #[trigger] board.playable_spec(d);
                assert(!board.playable_spec(d));
            }
        }
        while min < max
            invariant
                self.wf(),
                self.board == board,
                board == old(self).board,
                self.opening_database == old(self).opening_database,
                n == board.num_moves,
                v == game_value(board),
                ok == old(self).sound(),
                MIN_SCORE <= v <= MAX_SCORE,
                loss_score(n) <= v <= win_score(n),
                in_bounds(min as int),
                in_bounds(max as int),
                loss_score(n) <= min,
                next_move <= WIDTH,
                n == WIDTH * HEIGHT ==> min == 0 && max == 0 && next_move == WIDTH,
                (exists|d: u64| d < 7 && #[trigger] board.playable_spec(d)) ==> next_move < WIDTH
                    && board.playable_spec(next_move as u64),
                n < WIDTH * HEIGHT && can_win_now(board) ==> max == win_score(n) && min <= max && (min
                    == max ==> min == win_score(n) && is_first_win(board, next_move)),
                n < WIDTH * HEIGHT && !can_win_now(board) && board.non_losing_spec() == 0 ==> min
                    == loss_score(n) && min <= max && is_first_playable(board, next_move),
                ok ==> self.sound() && MIN_SCORE <= min && max <= MAX_SCORE && min <= v <= max,
                ok && !can_win_now(board) && next_move < WIDTH ==> -game_value(child(board, next_move as u64))
                    >= min,
            decreases if min < max {
                max - min
            } else {
                0
            },
        {
            let (new_min, new_max, best_move) = self.solve_step(min, max);
            // only a probe that finds the score above its target finds a
            // move that reaches the score
            if new_min > min {
                next_move = best_move;
            }
            min = new_min;
            max = new_max;
        }
        proof {
            if ok && !can_win_now(board) && next_move < WIDTH {
                lemma_best_ge(board, 0, next_move as u64);
            }
        }
        (min, next_move)
    }

    /// Converts a score of the solver's position to the number of the
    /// winner's moves until the game ends (for a draw, the number of plies
    /// left).
    pub fn score_to_win_distance(&self, score: i32) -> (r: usize)
        requires
            self.wf(),
            score > 0 ==> score + self.board.num_moves / 2 <= WIDTH * HEIGHT / 2 + 1,
            score < 0 ==> -score + self.board.num_moves / 2 <= WIDTH * HEIGHT / 2 + 1,
        ensures
            score == 0 ==> r == WIDTH * HEIGHT - self.board.num_moves,
            score > 0 ==> r == (WIDTH * HEIGHT / 2 + 1 - score) - self.board.num_moves / 2,
            score < 0 ==> r == (WIDTH * HEIGHT / 2 + 1) - (-score) - self.board.num_moves / 2,
    {
        if score == 0 {
            WIDTH * HEIGHT - self.board.num_moves()
        } else if score > 0 {
            (WIDTH * HEIGHT / 2 + 1 - score as usize) - self.board.num_moves() / 2
        } else {
            (WIDTH * HEIGHT / 2 + 1) - (-score) as usize - self.board.num_moves() / 2
        }
    }

    /// The moves among `non_losing_moves`, one per column, sorted by their
    /// heuristic score; edge columns go in first, as they are worse on average.
    fn order_moves(&self, board: &BitBoard, non_losing_moves: u64) -> (r: MoveSorter)
        requires
            board.wf(),
            non_losing_moves & !possible_of(board.board_mask) == 0,
        ensures
            r.sorted(),
            forall|k: int| 0 <= k < r.size ==> is_candidate(*board, non_losing_moves, #[trigger] r.moves@[k]),
            forall|d: u64|
                #[trigger] is_safe_column(*board, non_losing_moves, d) ==> exists|k: int|
                    0 <= k < r.size && #[trigger] r.moves@[k].1 == d as usize,
    {
        let order = move_order();
        let mut moves = MoveSorter::new();
        let mut i: usize = WIDTH;
        while i > 0
            invariant
                i <= WIDTH,
                order@ == seq![3usize, 4, 2, 5, 1, 6, 0],
                board.wf(),
                non_losing_moves & !possible_of(board.board_mask) == 0,
                moves.sorted(),
                moves.size <= WIDTH - i,
                forall|k: int| 0 <= k < moves.size ==> is_candidate(*board, non_losing_moves, #[trigger] moves.moves@[k]),
                forall|j: int|
                    i <= j < 7 && is_safe_column(*board, non_losing_moves, #[trigger] order@[j] as u64)
                        ==> exists|k: int| 0 <= k < moves.size && #[trigger] moves.moves@[k].1 == order@[j],
            decreases i,
        {
            i -= 1;
            let column = order[i];
            let candidate = non_losing_moves & BitBoard::column_mask(column);
            let ghost before = moves;
            if candidate != 0 && board.playable(column) {
                proof {
                    lemma_candidate_is_move(*board, column as u64, non_losing_moves);
                }
                let score = board.move_score(candidate);
                moves.push(candidate, column, score);
                proof {
                    assert forall|k: int| 0 <= k < moves.size implies is_candidate(
                        *board,
                        non_losing_moves,
                        #[trigger] moves.moves@[k],
                    ) by {
                        if moves.moves@[k].0 != candidate || moves.moves@[k].1 != column {
                            let j = choose|j: int| 0 <= j < before.size && moves.moves@[k] == before.moves@[j];
                            assert(is_candidate(*board, non_losing_moves, before.moves@[j]));
                        }
                    }
                    let pos = choose|pos: int|
                        0 <= pos <= before.size && (forall|j: int| 0 <= j < pos ==> (#[trigger] before.moves@[j]).2
                            <= score) && (forall|j: int| pos <= j < before.size
                            ==> (#[trigger] before.moves@[j]).2 > score)
                            && moves.moves@.take(moves.size as int) == before.moves@.take(pos) + seq![
                            (candidate, column, score)] + before.moves@.subrange(
                            pos,
                            before.size as int,
                        );
                    assert(moves.moves@.take(moves.size as int)[pos] == (candidate, column, score));
                    assert(moves.moves@[pos].1 == column);
                    assert forall|j: int|
                        i <= j < 7 && is_safe_column(*board, non_losing_moves, #[trigger] order@[j] as u64)
                            implies exists|k: int| 0 <= k < moves.size && #[trigger] moves.moves@[k].1 == order@[j] by {
                        if j == i {
                            assert(moves.moves@[pos].1 == order@[j]);
                        } else {
                            let k = choose|k: int| 0 <= k < before.size && #[trigger] before.moves@[k].1 == order@[j];
                            if k < pos {
                                assert(moves.moves@.take(moves.size as int)[k] == before.moves@[k]);
                                assert(moves.moves@[k].1 == order@[j]);
                            } else {
                                assert(moves.moves@.take(moves.size as int)[k + 1] == before.moves@[k]);
                                assert(moves.moves@[k + 1].1 == order@[j]);
                            }
                        }
                    }
                }
            }
        }
        proof {
            assert forall|d: u64| #[trigger] is_safe_column(*board, non_losing_moves, d) implies exists|k: int|
                0 <= k < moves.size && #[trigger] moves.moves@[k].1 == d as usize by {
                let j: int = if d == 3 {
                    0
                } else if d == 4 {
                    1
                } else if d == 2 {
                    2
                } else if d == 5 {
                    3
                } else if d == 1 {
                    4
                } else if d == 6 {
                    5
                } else {
                    6
                };
                assert(order@[j] == d as usize);
            }
        }
        moves
    }
}

} // verus!
