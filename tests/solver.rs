use connect4_ai::bitboard::BitBoard;
use connect4_ai::solver::{move_order, null_window_target, MoveSorter, Solver, MAX_SCORE, MIN_SCORE};

#[test]
fn score_limits() {
    assert_eq!(MIN_SCORE, -18);
    assert_eq!(MAX_SCORE, 18);
}

#[test]
fn centre_outward_order() {
    assert_eq!(move_order(), [3, 4, 2, 5, 1, 6, 0]);
}

#[test]
fn sorter_yields_best_first() {
    let mut sorter = MoveSorter::new();
    sorter.push(1, 0, 2);
    sorter.push(2, 1, 5);
    sorter.push(4, 2, 1);
    sorter.push(8, 3, 5);
    assert_eq!(sorter.next(), Some((8, 3)));
    assert_eq!(sorter.next(), Some((2, 1)));
    assert_eq!(sorter.next(), Some((1, 0)));
    assert_eq!(sorter.next(), Some((4, 2)));
    assert_eq!(sorter.next(), None);
}

#[test]
fn null_window_targets_lean_to_zero() {
    assert_eq!(null_window_target(-18, 19), -9);
    assert_eq!(null_window_target(0, 19), 9);
    assert_eq!(null_window_target(-3, -1), -2);
    assert_eq!(null_window_target(4, 5), 4);
}

#[test]
fn immediate_win_is_found() {
    let mut solver = Solver::new(BitBoard::from_moves("112233").unwrap());
    assert_eq!(solver.solve(), (18, 3));
}

#[test]
fn lost_position_plays_first_column() {
    // two open threats of the opponent
    let mut solver = Solver::new(BitBoard::from_moves("2233444").unwrap());
    let (score, column) = solver.solve();
    assert_eq!(score, -((42 - 7) / 2));
    assert_eq!(column, 0);
}

#[test]
fn end_game_position_is_solved() {
    let mut solver = Solver::new(BitBoard::from_moves("2252576253462244111563365343671351441").unwrap());
    let (score, column) = solver.solve();
    assert_eq!(score, -1);
    assert!(column < 7);
}

#[test]
fn win_distance() {
    let solver = Solver::new(BitBoard::from_moves("112233").unwrap());
    assert_eq!(solver.score_to_win_distance(18), 1);
    assert_eq!(solver.score_to_win_distance(0), 36);
    assert_eq!(solver.score_to_win_distance(-1), 18);
}

#[test]
fn solving_twice_gives_the_same_answer() {
    let mut solver = Solver::new(BitBoard::from_moves("445343221256776").unwrap());
    let first = solver.solve();
    let second = solver.solve();
    assert_eq!(first, second);
    assert!(first.1 < 7);
}

#[test]
fn solve_step_narrows_the_range() {
    let mut solver = Solver::new(BitBoard::from_moves("112233").unwrap());
    let (min, max, column) = solver.solve_step(-15, 18);
    assert_eq!((min, max, column), (18, 18, 3));
}

#[test]
fn scores_of_children_are_negated() {
    // the value of a position is the best of the negated values of its children
    let moves = "4462131637415743461412721366";
    let mut solver = Solver::new(BitBoard::from_moves(moves).unwrap());
    let (score, column) = solver.solve();
    let mut best = i32::MIN;
    for c in 0..7usize {
        let child = format!("{}{}", moves, c + 1);
        if let Ok(board) = BitBoard::from_moves(&child) {
            let (child_score, _) = Solver::new(board).solve();
            assert!(score >= -child_score);
            best = best.max(-child_score);
        }
    }
    assert_eq!(score, best);
    assert!(column < 7);
    // the returned column reaches the score
    let chosen = format!("{}{}", moves, column + 1);
    let (chosen_score, _) = Solver::new(BitBoard::from_moves(&chosen).unwrap()).solve();
    assert_eq!(-chosen_score, score);
}
