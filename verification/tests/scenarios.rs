//! End-to-end runs: empty, solvable, malformed, and stalling puzzles, and
//! the scan order of the deduction rules.

use rudoku::rudoku::{InputError, Sudoku};

#[test]
fn empty_puzzle_has_no_move() {
    let mut s = Sudoku::new();
    let dots: String = ".".repeat(81);
    assert!(s.from_string(&dots).is_ok());
    assert!(s.next_move().is_none());
    s.solve();
    for i in 0..81 {
        assert_eq!(s.board[i], 0);
        assert_eq!(s.summary[i], 9);
    }
    assert!(!s.check_sanity());
}

#[test]
fn propagation_solves_full_puzzle() {
    let mut s = Sudoku::new();
    let res = s.from_string(
        "...24...1.......6.36....574..3.8..1.5.4.....8...7........6.9.....8...6...7...4.92",
    );
    assert!(res.is_ok());
    s.solve();
    for i in 0..81 {
        assert!(s.board[i] >= 1 && s.board[i] <= 9);
    }
    assert!(s.check_sanity());
}

#[test]
fn length_eighty_is_rejected() {
    let mut s = Sudoku::new();
    let short: String = ".".repeat(80);
    assert_eq!(s.from_string(&short), Err(InputError::InvalidLength));
}

#[test]
fn foreign_character_is_rejected() {
    let mut s = Sudoku::new();
    let mut text: String = ".".repeat(40);
    text.push('x');
    text.push_str(&".".repeat(40));
    assert_eq!(s.from_string(&text), Err(InputError::InvalidChar('x')));
}

#[test]
fn length_checked_before_characters() {
    let mut s = Sudoku::new();
    let mut text: String = ".".repeat(40);
    text.push('x');
    text.push_str(&".".repeat(39));
    assert_eq!(s.from_string(&text), Err(InputError::InvalidLength));
}

#[test]
fn hard_puzzle_stalls_without_error() {
    let mut s = Sudoku::new();
    let res = s.from_string(
        "..53.....8......2..7..1.5..4....53...1..7...6..32...8..6.5....9..4....3......97..",
    );
    assert!(res.is_ok());
    s.solve();
    assert!(s.next_move().is_none());
    let empty = s.board.iter().filter(|&&v| v == 0).count();
    assert!(empty > 0);
    assert!(!s.check_sanity());
}

#[test]
fn digits_map_column_major() {
    let mut s = Sudoku::new();
    let mut text = String::new();
    text.push('1');
    text.push_str(&".".repeat(9));
    text.push('5');
    text.push_str(&".".repeat(70));
    assert_eq!(text.chars().count(), 81);
    assert!(s.from_string(&text).is_ok());
    // index 0 fills cell (0, 0), index 10 fills cell (1, 1)
    assert_eq!(s.board[0 * 9 + 0], 1);
    assert_eq!(s.board[1 * 9 + 1], 5);
    let filled = s.board.iter().filter(|&&v| v != 0).count();
    assert_eq!(filled, 2);
}

#[test]
fn naked_single_found_in_scan_order() {
    let mut s = Sudoku::new();
    for c in 0..8 {
        s.add_number((c + 1) as i32, c, 0);
    }
    // only digit 9 is left for cell (8, 0)
    assert_eq!(s.next_move(), Some((9, 8, 0)));
}

#[test]
fn row_hidden_single_found() {
    let mut s = Sudoku::new();
    s.add_number(1, 3, 1);
    s.add_number(1, 6, 2);
    s.add_number(1, 1, 4);
    s.add_number(1, 2, 5);
    // digit 1 fits row 0 only at column 0, while that cell still has
    // all nine candidates
    assert_eq!(s.candidate_count(0, 0), 9);
    assert_eq!(s.next_move(), Some((1, 0, 0)));
}

#[test]
fn col_hidden_single_found() {
    let mut s = Sudoku::new();
    s.add_number(1, 1, 3);
    s.add_number(1, 2, 6);
    s.add_number(1, 4, 1);
    s.add_number(1, 5, 2);
    // digit 1 fits column 0 only at row 0
    assert_eq!(s.candidate_count(0, 0), 9);
    assert_eq!(s.next_move(), Some((1, 0, 0)));
}

#[test]
fn box_hidden_single_found() {
    let mut s = Sudoku::new();
    s.add_number(1, 1, 4);
    s.add_number(1, 2, 5);
    s.add_number(1, 4, 1);
    s.add_number(1, 5, 2);
    // digit 1 fits the top-left box only at cell (0, 0)
    assert_eq!(s.candidate_count(0, 0), 9);
    assert_eq!(s.next_move(), Some((1, 0, 0)));
}

#[test]
fn loading_a_given_prunes_its_peers() {
    let mut s = Sudoku::new();
    let mut text = String::from("1");
    text.push_str(&".".repeat(80));
    assert!(s.from_string(&text).is_ok());
    // the given cell collapses to its own digit
    assert_eq!(s.candidate_count(0, 0), 1);
    assert!(s.is_candidate(1, 0, 0));
    // digit 1 is gone from the rest of row 0, column 0, and the top-left box
    for c in 1..9 {
        assert!(!s.is_candidate(1, c, 0));
    }
    for r in 1..9 {
        assert!(!s.is_candidate(1, 0, r));
    }
    for c in 0..3 {
        for r in 0..3 {
            if !(c == 0 && r == 0) {
                assert!(!s.is_candidate(1, c, r));
            }
        }
    }
    // an untouched cell keeps all nine candidates
    assert_eq!(s.candidate_count(5, 5), 9);
}

#[test]
fn solve_keeps_the_givens() {
    let puzzle = "...24...1.......6.36....574..3.8..1.5.4.....8...7........6.9.....8...6...7...4.92";
    let mut s = Sudoku::new();
    assert!(s.from_string(puzzle).is_ok());
    let before = s.board.clone();
    s.solve();
    for i in 0..81 {
        if before[i] != 0 {
            assert_eq!(s.board[i], before[i]);
        }
    }
}
