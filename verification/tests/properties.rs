//! Concrete checks of the solver's general properties: idempotence of
//! assignment, summary consistency, exclusivity, monotone progress, and
//! determinism of whole solving runs.

use rudoku::rudoku::Sudoku;

/// All candidate flags, read back through the public query.
fn candidate_matrix(s: &Sudoku) -> Vec<bool> {
    let mut flags = Vec::new();
    for number in 1..=9 {
        for col in 0..9 {
            for row in 0..9 {
                flags.push(s.is_candidate(number, col, row));
            }
        }
    }
    flags
}

/// Total number of set candidate flags across the whole store.
fn total_candidates(s: &Sudoku) -> usize {
    candidate_matrix(s).iter().filter(|&&b| b).count()
}

#[test]
fn assign_twice_changes_nothing() {
    let mut s = Sudoku::new();
    s.add_number(5, 0, 0);
    let board = s.board.clone();
    let summary = s.summary.clone();
    let flags = candidate_matrix(&s);
    s.add_number(5, 0, 0);
    assert_eq!(board, s.board);
    assert_eq!(summary, s.summary);
    assert_eq!(flags, candidate_matrix(&s));
}

#[test]
fn summary_matches_candidate_flags() {
    let mut s = Sudoku::new();
    s.add_number(5, 0, 0);
    s.add_number(3, 4, 2);
    s.add_number(9, 8, 8);
    for col in 0..9 {
        for row in 0..9 {
            let mut count = 0;
            for number in 1..=9 {
                if s.is_candidate(number, col, row) {
                    count += 1;
                }
            }
            assert_eq!(s.candidate_count(col, row), count);
            assert_eq!(s.summary[col * 9 + row], count);
        }
    }
}

#[test]
fn assigned_digit_excluded_from_peers() {
    let mut s = Sudoku::new();
    s.add_number(7, 4, 4);
    for c in 0..9 {
        if c != 4 {
            assert!(!s.is_candidate(7, c, 4));
        }
    }
    for r in 0..9 {
        if r != 4 {
            assert!(!s.is_candidate(7, 4, r));
        }
    }
    for c in 3..6 {
        for r in 3..6 {
            if !(c == 4 && r == 4) {
                assert!(!s.is_candidate(7, c, r));
            }
        }
    }
    assert!(s.is_candidate(7, 4, 4));
    assert_eq!(s.candidate_count(4, 4), 1);
}

#[test]
fn assign_reduces_total_candidates() {
    let mut s = Sudoku::new();
    let mut before = total_candidates(&s);
    let givens = [(5, 0, 0), (3, 4, 2), (9, 8, 8), (1, 2, 7)];
    for &(number, col, row) in givens.iter() {
        s.add_number(number, col, row);
        let after = total_candidates(&s);
        assert!(after < before);
        before = after;
    }
}

#[test]
fn solve_runs_are_identical() {
    let puzzle = "...24...1.......6.36....574..3.8..1.5.4.....8...7........6.9.....8...6...7...4.92";
    let mut first = Sudoku::new();
    assert!(first.from_string(puzzle).is_ok());
    let mut second = Sudoku::new();
    assert!(second.from_string(puzzle).is_ok());
    let mut first_moves = Vec::new();
    while let Some(m) = first.next_move() {
        first_moves.push(m);
        first.add_number(m.0, m.1, m.2);
    }
    let mut second_moves = Vec::new();
    while let Some(m) = second.next_move() {
        second_moves.push(m);
        second.add_number(m.0, m.1, m.2);
    }
    assert_eq!(first_moves, second_moves);
    assert_eq!(first.board, second.board);
    assert_eq!(first.summary, second.summary);
}

#[test]
fn fresh_state_all_candidates() {
    let s = Sudoku::new();
    for col in 0..9 {
        for row in 0..9 {
            assert_eq!(s.board[col * 9 + row], 0);
            assert_eq!(s.candidate_count(col, row), 9);
            for number in 1..=9 {
                assert!(s.is_candidate(number, col, row));
            }
        }
    }
}
