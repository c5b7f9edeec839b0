//! General properties of the solver, stated and proved once and for all:
//! assigning is idempotent, the cached counts always agree with the store,
//! an assigned digit is exclusive in its row, column, and box, propagation
//! never adds candidates, and both the choice of the next move and the
//! state after a move are functions of the current state alone, which makes
//! a whole solving run deterministic.

use vstd::prelude::*;

verus! {

use crate::grid::bidx;
use crate::grid::box_cell_col;
use crate::grid::box_cell_row;
use crate::grid::cell_count;
use crate::grid::lemma_box_count_one_unique;
use crate::grid::lemma_col_count_one_unique;
use crate::grid::lemma_row_count_one_unique;
use crate::grid::pidx;
use crate::grid::sees;
use crate::grid::total;
use crate::rudoku::assign_flag;
use crate::rudoku::assign_post;
use crate::rudoku::Sudoku;

/// Two well-formed states that agree cell by cell and flag by flag are the
/// same board, the same candidate store, and the same summary.
proof fn lemma_states_agree(sa: Sudoku, sb: Sudoku)
    requires
        sa.wf(),
        sb.wf(),
        forall|c: int, r: int|
            0 <= c < 9 && 0 <= r < 9 ==> #[trigger] sa.cell(c, r) == sb.cell(c, r),
        forall|p: int, c: int, r: int|
            0 <= p < 9 && 0 <= c < 9 && 0 <= r < 9 ==> (#[trigger] sa.cand(p, c, r) <==> sb.cand(
                p,
                c,
                r,
            )),
    ensures
        sa.board@ == sb.board@,
        sa.possibilities@ == sb.possibilities@,
        sa.summary@ == sb.summary@,
{
    assert forall|j: int| 0 <= j < 81 implies #[trigger] sa.board@[j] == sb.board@[j] by {
        let cx = j / 9;
        let rx = j % 9;
        assert(0 <= cx < 9 && 0 <= rx < 9);
        assert(j == bidx(cx, rx));
        assert(sa.cell(cx, rx) == sb.cell(cx, rx));
    }
    assert(sa.board@ =~= sb.board@);
    assert forall|j: int| 0 <= j < 729 implies #[trigger] sa.possibilities@[j]
        == sb.possibilities@[j] by {
        let q = j / 81;
        let b = j % 81;
        let cx = b / 9;
        let rx = b % 9;
        assert(0 <= q < 9 && 0 <= cx < 9 && 0 <= rx < 9);
        assert(j == pidx(q, cx, rx));
        assert(sa.cand(q, cx, rx) <==> sb.cand(q, cx, rx));
        assert(sa.possibilities@[j] == 0 || sa.possibilities@[j] == 1);
        assert(sb.possibilities@[j] == 0 || sb.possibilities@[j] == 1);
    }
    assert(sa.possibilities@ =~= sb.possibilities@);
    assert forall|j: int| 0 <= j < 81 implies #[trigger] sa.summary@[j] == sb.summary@[j] by {
        let cx = j / 9;
        let rx = j % 9;
        assert(0 <= cx < 9 && 0 <= rx < 9);
        assert(j == bidx(cx, rx));
        assert(sa.summary@[bidx(cx, rx)] == sa.count(cx, rx));
        assert(sb.summary@[bidx(cx, rx)] == sb.count(cx, rx));
        assert(cell_count(sa.possibilities@, cx, rx) == cell_count(sb.possibilities@, cx, rx));
    }
    assert(sa.summary@ =~= sb.summary@);
}

/// Assigning is idempotent: assigning the same digit to the same cell a
/// second time leaves the board, the candidate store, and the summary
/// exactly as the first assignment left them.
pub proof fn lemma_assign_idempotent(s0: Sudoku, s1: Sudoku, s2: Sudoku, n: int, col: int, row: int)
    requires
        s1.wf(),
        s2.wf(),
        1 <= n <= 9,
        0 <= col < 9,
        0 <= row < 9,
        assign_post(s0, s1, n, col, row),
        assign_post(s1, s2, n, col, row),
    ensures
        s2.board@ == s1.board@,
        s2.possibilities@ == s1.possibilities@,
        s2.summary@ == s1.summary@,
{
    assert forall|c: int, r: int|
        0 <= c < 9 && 0 <= r < 9 implies #[trigger] s2.cell(c, r) == s1.cell(c, r) by {
        assert(s1.cell(col, row) == n);
    }
    assert forall|p: int, c: int, r: int|
        0 <= p < 9 && 0 <= c < 9 && 0 <= r < 9 implies (#[trigger] s2.cand(p, c, r) <==> s1.cand(
        p,
        c,
        r,
    )) by {
        assert(s2.cand(p, c, r) <==> assign_flag(s1, n, col, row, p, c, r));
        assert(s1.cand(p, c, r) <==> assign_flag(s0, n, col, row, p, c, r));
    }
    lemma_states_agree(s2, s1);
}

/// The state after an assignment is a function of the state before it: two
/// assignments of the same digit to the same cell from the same state end
/// in the same board, candidate store, and summary.
pub proof fn lemma_assign_deterministic(
    pre: Sudoku,
    post1: Sudoku,
    post2: Sudoku,
    n: int,
    col: int,
    row: int,
)
    requires
        post1.wf(),
        post2.wf(),
        1 <= n <= 9,
        0 <= col < 9,
        0 <= row < 9,
        assign_post(pre, post1, n, col, row),
        assign_post(pre, post2, n, col, row),
    ensures
        post1.board@ == post2.board@,
        post1.possibilities@ == post2.possibilities@,
        post1.summary@ == post2.summary@,
{
    assert forall|p: int, c: int, r: int|
        0 <= p < 9 && 0 <= c < 9 && 0 <= r < 9 implies (#[trigger] post1.cand(p, c, r)
        <==> post2.cand(p, c, r)) by {
        assert(post1.cand(p, c, r) <==> assign_flag(pre, n, col, row, p, c, r));
        assert(post2.cand(p, c, r) <==> assign_flag(pre, n, col, row, p, c, r));
    }
    lemma_states_agree(post1, post2);
}

/// The cached summary is consistent: under well-formedness, every summary
/// entry equals the number of set candidate flags of its cell.
pub proof fn lemma_summary_consistent(s: Sudoku, c: int, r: int)
    requires
        s.wf(),
        0 <= c < 9,
        0 <= r < 9,
    ensures
        s.summary@[bidx(c, r)] == cell_count(s.possibilities@, c, r),
{
    assert(s.summary@[bidx(c, r)] == s.count(c, r));
}

/// Exclusivity: after a digit is assigned to a cell, that digit is no
/// longer a candidate at any other cell of the same row, column, or box.
pub proof fn lemma_assign_exclusive(pre: Sudoku, post: Sudoku, n: int, col: int, row: int)
    requires
        1 <= n <= 9,
        0 <= col < 9,
        0 <= row < 9,
        assign_post(pre, post, n, col, row),
    ensures
        forall|c: int, r: int|
            0 <= c < 9 && 0 <= r < 9 && sees(c, r, col, row) && !(c == col && r == row)
                ==> !#[trigger] post.cand(n - 1, c, r),
{
    assert forall|c: int, r: int|
        0 <= c < 9 && 0 <= r < 9 && sees(c, r, col, row) && !(c == col && r == row)
        implies !#[trigger] post.cand(n - 1, c, r) by {
        assert(!assign_flag(pre, n, col, row, n - 1, c, r));
    }
}

/// Monotonic progress: assigning a digit that was still a candidate for the
/// target cell never raises the total number of set candidate flags, and
/// strictly lowers it whenever the target cell still had other candidates.
/// (A repeated assignment of an already collapsed cell whose digit is gone
/// from all its peers changes nothing, so the strict form needs the extra
/// premise.)
pub proof fn lemma_assign_monotonic(pre: Sudoku, post: Sudoku, n: int, col: int, row: int)
    requires
        pre.wf(),
        post.wf(),
        1 <= n <= 9,
        0 <= col < 9,
        0 <= row < 9,
        pre.cand(n - 1, col, row),
        assign_post(pre, post, n, col, row),
    ensures
        total(post.possibilities@) <= total(pre.possibilities@),
        pre.count(col, row) != 1 ==> total(post.possibilities@) < total(pre.possibilities@),
{
    crate::rudoku::lemma_assign_progress(pre, post, n, col, row);
}

/// Determinism of the move choice: the contract of the move selection pins
/// a single possible answer, so two selections from equal states agree.
/// Together with [`lemma_assign_deterministic`] this makes a whole solving
/// run a function of the starting state: the same puzzle always yields the
/// same sequence of moves and the same final grid.
pub proof fn lemma_next_move_deterministic(
    s: Sudoku,
    m1: Option<(i32, usize, usize)>,
    m2: Option<(i32, usize, usize)>,
)
    requires
        s.wf(),
        s.next_move_post(m1),
        s.next_move_post(m2),
    ensures
        m1 == m2,
{
    if s.has_naked() {
        match (m1, m2) {
            (Some(a), Some(b)) => {
                if a.2 < b.2 || (a.2 == b.2 && a.1 < b.1) {
                    assert(!s.naked_at(a.1 as int, a.2 as int));
                    assert(false);
                }
                if b.2 < a.2 || (a.2 == b.2 && b.1 < a.1) {
                    assert(!s.naked_at(b.1 as int, b.2 as int));
                    assert(false);
                }
                if a.0 != b.0 {
                    assert(!s.cand(b.0 - 1, a.1 as int, a.2 as int));
                    assert(s.cand(b.0 - 1, b.1 as int, b.2 as int));
                    assert(false);
                }
            },
            (None, _) => {
                let (cw, rw) = choose|cw: int, rw: int|
                    0 <= cw < 9 && 0 <= rw < 9 && #[trigger] s.naked_at(cw, rw);
                assert(!s.naked_at(cw, rw));
                assert(false);
            },
            (_, None) => {
                let (cw, rw) = choose|cw: int, rw: int|
                    0 <= cw < 9 && 0 <= rw < 9 && #[trigger] s.naked_at(cw, rw);
                assert(!s.naked_at(cw, rw));
                assert(false);
            },
        }
    } else if s.has_row_single() {
        match (m1, m2) {
            (Some(a), Some(b)) => {
                assert(s.row_qual(a.0 - 1, a.2 as int));
                assert(s.row_qual(b.0 - 1, b.2 as int));
                if a.2 < b.2 || (a.2 == b.2 && a.0 < b.0) {
                    assert(!s.row_qual(a.0 - 1, a.2 as int));
                    assert(false);
                }
                if b.2 < a.2 || (a.2 == b.2 && b.0 < a.0) {
                    assert(!s.row_qual(b.0 - 1, b.2 as int));
                    assert(false);
                }
                assert(s.possibilities@[pidx(a.0 - 1, a.1 as int, a.2 as int)] == 1);
                assert(s.possibilities@[pidx(a.0 - 1, b.1 as int, a.2 as int)] == 1);
                lemma_row_count_one_unique(
                    s.possibilities@,
                    a.0 - 1,
                    a.2 as int,
                    a.1 as int,
                    b.1 as int,
                );
            },
            (None, _) => {
                let (pw, rw) = choose|pw: int, rw: int|
                    0 <= pw < 9 && 0 <= rw < 9 && #[trigger] s.row_qual(pw, rw);
                assert(!s.row_qual(pw, rw));
                assert(false);
            },
            (_, None) => {
                let (pw, rw) = choose|pw: int, rw: int|
                    0 <= pw < 9 && 0 <= rw < 9 && #[trigger] s.row_qual(pw, rw);
                assert(!s.row_qual(pw, rw));
                assert(false);
            },
        }
    } else if s.has_col_single() {
        match (m1, m2) {
            (Some(a), Some(b)) => {
                assert(s.col_qual(a.0 - 1, a.1 as int));
                assert(s.col_qual(b.0 - 1, b.1 as int));
                if a.1 < b.1 || (a.1 == b.1 && a.0 < b.0) {
                    assert(!s.col_qual(a.0 - 1, a.1 as int));
                    assert(false);
                }
                if b.1 < a.1 || (a.1 == b.1 && b.0 < a.0) {
                    assert(!s.col_qual(b.0 - 1, b.1 as int));
                    assert(false);
                }
                assert(s.possibilities@[pidx(a.0 - 1, a.1 as int, a.2 as int)] == 1);
                assert(s.possibilities@[pidx(a.0 - 1, a.1 as int, b.2 as int)] == 1);
                lemma_col_count_one_unique(
                    s.possibilities@,
                    a.0 - 1,
                    a.1 as int,
                    a.2 as int,
                    b.2 as int,
                );
            },
            (None, _) => {
                let (pw, cw) = choose|pw: int, cw: int|
                    0 <= pw < 9 && 0 <= cw < 9 && #[trigger] s.col_qual(pw, cw);
                assert(!s.col_qual(pw, cw));
                assert(false);
            },
            (_, None) => {
                let (pw, cw) = choose|pw: int, cw: int|
                    0 <= pw < 9 && 0 <= cw < 9 && #[trigger] s.col_qual(pw, cw);
                assert(!s.col_qual(pw, cw));
                assert(false);
            },
        }
    } else if s.has_box_single() {
        match (m1, m2) {
            (Some(a), Some(b)) => {
                let ka = (a.2 as int % 3) * 3 + (a.1 as int % 3);
                let kb = (b.2 as int % 3) * 3 + (b.1 as int % 3);
                assert(box_cell_col(a.1 as int / 3, ka) == a.1 as int);
                assert(box_cell_row(a.2 as int / 3, ka) == a.2 as int);
                assert(box_cell_col(b.1 as int / 3, kb) == b.1 as int);
                assert(box_cell_row(b.2 as int / 3, kb) == b.2 as int);
                assert(s.cand(a.0 - 1, box_cell_col(a.1 as int / 3, ka), box_cell_row(
                    a.2 as int / 3,
                    ka,
                )) && s.count(box_cell_col(a.1 as int / 3, ka), box_cell_row(a.2 as int / 3, ka))
                    != 1);
                assert(s.box_qual(a.0 - 1, a.1 as int / 3, a.2 as int / 3));
                assert(s.cand(b.0 - 1, box_cell_col(b.1 as int / 3, kb), box_cell_row(
                    b.2 as int / 3,
                    kb,
                )) && s.count(box_cell_col(b.1 as int / 3, kb), box_cell_row(b.2 as int / 3, kb))
                    != 1);
                assert(s.box_qual(b.0 - 1, b.1 as int / 3, b.2 as int / 3));
                if a.2 as int / 3 < b.2 as int / 3 || (a.2 as int / 3 == b.2 as int / 3 && (a.1
                    as int / 3 < b.1 as int / 3 || (a.1 as int / 3 == b.1 as int / 3 && a.0 < b.0))) {
                    assert(!s.box_qual(a.0 - 1, a.1 as int / 3, a.2 as int / 3));
                    assert(false);
                }
                if b.2 as int / 3 < a.2 as int / 3 || (a.2 as int / 3 == b.2 as int / 3 && (b.1
                    as int / 3 < a.1 as int / 3 || (a.1 as int / 3 == b.1 as int / 3 && b.0 < a.0))) {
                    assert(!s.box_qual(b.0 - 1, b.1 as int / 3, b.2 as int / 3));
                    assert(false);
                }
                assert(a.0 == b.0 && a.1 as int / 3 == b.1 as int / 3 && a.2 as int / 3 == b.2
                    as int / 3);
                assert(s.possibilities@[pidx(
                    a.0 - 1,
                    box_cell_col(a.1 as int / 3, ka),
                    box_cell_row(a.2 as int / 3, ka),
                )] == 1);
                assert(s.possibilities@[pidx(
                    a.0 - 1,
                    box_cell_col(a.1 as int / 3, kb),
                    box_cell_row(a.2 as int / 3, kb),
                )] == 1);
                lemma_box_count_one_unique(
                    s.possibilities@,
                    a.0 - 1,
                    a.1 as int / 3,
                    a.2 as int / 3,
                    ka,
                    kb,
                );
                assert(a.1 == b.1 && a.2 == b.2);
            },
            (None, _) => {
                let (pw, bcw, brw) = choose|pw: int, bcw: int, brw: int|
                    0 <= pw < 9 && 0 <= bcw < 3 && 0 <= brw < 3 && #[trigger] s.box_qual(
                        pw,
                        bcw,
                        brw,
                    );
                assert(!s.box_qual(pw, bcw, brw));
                assert(false);
            },
            (_, None) => {
                let (pw, bcw, brw) = choose|pw: int, bcw: int, brw: int|
                    0 <= pw < 9 && 0 <= bcw < 3 && 0 <= brw < 3 && #[trigger] s.box_qual(
                        pw,
                        bcw,
                        brw,
                    );
                assert(!s.box_qual(pw, bcw, brw));
                assert(false);
            },
        }
    }
}

} // verus!
