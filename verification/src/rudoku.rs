//! The solver: a 9x9 board, the per-cell candidate store, the per-cell
//! candidate counts, the assignment step that propagates constraints, the
//! four deduction rules, and the loop that drives them to a fixpoint.

use vstd::prelude::*;

verus! {

use crate::grid::bidx;
use crate::grid::box_cell_col;
use crate::grid::box_cell_row;
use crate::grid::box_count;
use crate::grid::cell_count;
use crate::grid::cell_count_upto;
use crate::grid::col_count;
use crate::grid::col_count_upto;
use crate::grid::col_sum;
use crate::grid::col_sum_upto;
use crate::grid::box_count_upto;
use crate::grid::box_sum;
use crate::grid::box_sum_upto;
use crate::grid::flags01;
use crate::grid::lemma_cell_count_congruent;
use crate::grid::lemma_cell_count_one_unique;
use crate::grid::lemma_cell_count_upto_single;
use crate::grid::lemma_cell_count_upto_zero;
use crate::grid::lemma_box_count_one_unique;
use crate::grid::lemma_col_count_one_unique;
use crate::grid::lemma_row_count_one_unique;
use crate::grid::lemma_total_upto_le;
use crate::grid::lemma_total_upto_lt;
use crate::grid::lemma_total_upto_nonneg;
use crate::grid::lemma_zeros_upto_nonneg;
use crate::grid::lemma_zeros_upto_update;
use crate::grid::pidx;
use crate::grid::row_count;
use crate::grid::row_count_upto;
use crate::grid::row_sum;
use crate::grid::row_sum_upto;
use crate::grid::sees;
use crate::grid::total;
use crate::grid::zeros;
use vstd::pervasive::VecAdditionalExecFns;
use vstd::string::StrSliceExecFns;

/// Why an 81-character puzzle encoding was rejected.
#[derive(Clone, Copy, Debug, PartialEq, Eq)]
pub enum InputError {
    /// The encoding does not hold exactly 81 characters.
    InvalidLength,
    /// The encoding holds a character other than '1'..'9' or '.'; the
    /// offending character is carried along.
    InvalidChar(char),
}

/// `ch` encodes a given digit.
pub open spec fn digit_char(ch: char) -> bool {
    49 <= ch as u32 <= 57
}

/// The digit encoded by `ch`.
pub open spec fn char_digit(ch: char) -> int {
    ch as u32 - 48
}

/// `ch` is legal in a puzzle encoding: a digit or the empty-cell mark '.'.
pub open spec fn valid_char(ch: char) -> bool {
    digit_char(ch) || ch as u32 == 46
}

/// A legal puzzle encoding: exactly 81 characters, each a digit or '.'.
pub open spec fn valid_input(s: Seq<char>) -> bool {
    &&& s.len() == 81
    &&& forall|i: int| 0 <= i < s.len() ==> valid_char(#[trigger] s[i])
}

/// The givens of an encoding do not clash: no two given cells that share a
/// row, a column, or a box carry the same digit. (Character `i` addresses
/// cell (`i % 9`, `i / 9`).)
pub open spec fn consistent_givens(s: Seq<char>) -> bool {
    forall|i: int, j: int|
        #![trigger s[i], s[j]]
        0 <= i < 81 && 0 <= j < 81 && i != j && digit_char(s[i]) && digit_char(s[j]) && char_digit(
            s[i],
        ) == char_digit(s[j]) ==> !sees(i % 9, i / 9, j % 9, j / 9)
}

/// Some given among the first `m` characters carries digit `p + 1` and sits
/// in another cell of the row, the column, or the box of cell (`c`, `r`),
/// so loading it wipes that candidate flag.
pub open spec fn given_kills(s: Seq<char>, m: int, p: int, c: int, r: int) -> bool {
    exists|j: int|
        0 <= j < m && digit_char(#[trigger] s[j]) && char_digit(s[j]) - 1 == p && sees(
            c,
            r,
            j % 9,
            j / 9,
        ) && !(c == j % 9 && r == j / 9)
}

/// One puzzle in progress: the grid, the candidate store, and the cached
/// per-cell candidate counts.
pub struct Sudoku {
    /// The grid, cell (`c`, `r`) at index `c * 9 + r`; 0 is an empty cell.
    pub board: Vec<i32>,
    /// One 0/1 flag per (digit, column, row); 1 while the digit is still a
    /// legal candidate for the cell.
    pub possibilities: Vec<i32>,
    /// Per cell, the number of digits still marked possible there.
    pub summary: Vec<i32>,
}

impl Sudoku {
    /// Value of cell (`c`, `r`); 0 when the cell is empty.
    pub open spec fn cell(self, c: int, r: int) -> int {
        self.board@[bidx(c, r)] as int
    }

    /// Raw candidate flag of digit index `p` at cell (`c`, `r`).
    pub open spec fn flag(self, p: int, c: int, r: int) -> int {
        self.possibilities@[pidx(p, c, r)] as int
    }

    /// Digit `p + 1` is still a legal candidate for cell (`c`, `r`).
    pub open spec fn cand(self, p: int, c: int, r: int) -> bool {
        self.flag(p, c, r) == 1
    }

    /// Number of digits still marked possible for cell (`c`, `r`).
    pub open spec fn count(self, c: int, r: int) -> int {
        cell_count(self.possibilities@, c, r)
    }

    /// Well-formedness: the three structures have their fixed sizes, cells
    /// hold 0..9, flags are 0/1, and every summary entry equals the number
    /// of set flags of its cell.
    pub open spec fn wf(self) -> bool {
        &&& self.board@.len() == 81
        &&& self.summary@.len() == 81
        &&& flags01(self.possibilities@)
        &&& forall|i: int| 0 <= i < 81 ==> 0 <= #[trigger] self.board@[i] <= 9
        &&& forall|c: int, r: int|
            0 <= c < 9 && 0 <= r < 9 ==> self.summary@[bidx(c, r)] == #[trigger] self.count(c, r)
    }

    /// A filled cell keeps exactly its own digit as candidate, and that digit
    /// is no longer a candidate anywhere else in its row, column, or box.
    pub open spec fn inv(self) -> bool {
        &&& self.wf()
        &&& forall|c: int, r: int|
            0 <= c < 9 && 0 <= r < 9 && #[trigger] self.cell(c, r) != 0 ==> self.count(c, r) == 1
                && self.cand(self.cell(c, r) - 1, c, r)
        &&& forall|p: int, c: int, r: int, c2: int, r2: int|
            #![trigger self.cell(c, r), self.cand(p, c2, r2)]
            0 <= p < 9 && 0 <= c < 9 && 0 <= r < 9 && 0 <= c2 < 9 && 0 <= r2 < 9 && self.cell(c, r)
                == p + 1 && sees(c2, r2, c, r) && !(c2 == c && r2 == r) ==> !self.cand(p, c2, r2)
    }

    /// Cell (`c`, `r`) is a naked single: empty, with exactly one candidate left.
    pub open spec fn naked_at(self, c: int, r: int) -> bool {
        self.count(c, r) == 1 && self.cell(c, r) == 0
    }

    /// Some cell is a naked single.
    pub open spec fn has_naked(self) -> bool {
        exists|c: int, r: int| 0 <= c < 9 && 0 <= r < 9 && #[trigger] self.naked_at(c, r)
    }

    /// Digit `p + 1` is a hidden single of row `r`: exactly one cell of the
    /// row still admits it, and that cell is not already a naked single.
    pub open spec fn row_qual(self, p: int, r: int) -> bool {
        &&& row_count(self.possibilities@, p, r) == 1
        &&& exists|c: int| 0 <= c < 9 && #[trigger] self.cand(p, c, r) && self.count(c, r) != 1
    }

    /// Some row has a hidden single.
    pub open spec fn has_row_single(self) -> bool {
        exists|p: int, r: int| 0 <= p < 9 && 0 <= r < 9 && #[trigger] self.row_qual(p, r)
    }

    /// Digit `p + 1` is a hidden single of column `c`.
    pub open spec fn col_qual(self, p: int, c: int) -> bool {
        &&& col_count(self.possibilities@, p, c) == 1
        &&& exists|r: int| 0 <= r < 9 && #[trigger] self.cand(p, c, r) && self.count(c, r) != 1
    }

    /// Some column has a hidden single.
    pub open spec fn has_col_single(self) -> bool {
        exists|p: int, c: int| 0 <= p < 9 && 0 <= c < 9 && #[trigger] self.col_qual(p, c)
    }

    /// Digit `p + 1` is a hidden single of the box at (`bc`, `br`).
    pub open spec fn box_qual(self, p: int, bc: int, br: int) -> bool {
        &&& box_count(self.possibilities@, p, bc, br) == 1
        &&& exists|k: int|
            0 <= k < 9 && #[trigger] self.cand(p, box_cell_col(bc, k), box_cell_row(br, k))
                && self.count(box_cell_col(bc, k), box_cell_row(br, k)) != 1
    }

    /// Some box has a hidden single.
    pub open spec fn has_box_single(self) -> bool {
        exists|p: int, bc: int, br: int|
            0 <= p < 9 && 0 <= bc < 3 && 0 <= br < 3 && #[trigger] self.box_qual(p, bc, br)
    }

    /// What the naked-single rule returns: nothing when no empty cell has
    /// exactly one candidate left; otherwise the first such cell in row-major
    /// scan order (row outer, column inner), paired with its one candidate.
    pub open spec fn obvious_post(self, res: Option<(i32, usize, usize)>) -> bool {
        match res {
            Some(m) => {
                &&& 1 <= m.0 <= 9
                &&& m.1 < 9
                &&& m.2 < 9
                &&& self.naked_at(m.1 as int, m.2 as int)
                &&& self.cand(m.0 - 1, m.1 as int, m.2 as int)
                &&& forall|q: int|
                    0 <= q < 9 && q != m.0 - 1 ==> !#[trigger] self.cand(q, m.1 as int, m.2 as int)
                &&& forall|c: int, r: int|
                    0 <= c < 9 && 0 <= r < 9 && (r < m.2 || (r == m.2 && c < m.1))
                        ==> !#[trigger] self.naked_at(c, r)
            },
            None => forall|c: int, r: int|
                0 <= c < 9 && 0 <= r < 9 ==> !#[trigger] self.naked_at(c, r),
        }
    }

    /// What the row rule returns: nothing when no row has a hidden single;
    /// otherwise the first one found scanning rows outer, digits inner.
    pub open spec fn row_post(self, res: Option<(i32, usize, usize)>) -> bool {
        match res {
            Some(m) => {
                &&& 1 <= m.0 <= 9
                &&& m.1 < 9
                &&& m.2 < 9
                &&& self.cand(m.0 - 1, m.1 as int, m.2 as int)
                &&& row_count(self.possibilities@, m.0 - 1, m.2 as int) == 1
                &&& self.count(m.1 as int, m.2 as int) != 1
                &&& forall|p: int, r: int|
                    0 <= p < 9 && 0 <= r < 9 && (r < m.2 || (r == m.2 && p < m.0 - 1))
                        ==> !#[trigger] self.row_qual(p, r)
            },
            None => forall|p: int, r: int|
                0 <= p < 9 && 0 <= r < 9 ==> !#[trigger] self.row_qual(p, r),
        }
    }

    /// What the column rule returns: nothing when no column has a hidden
    /// single; otherwise the first one found scanning columns outer, digits inner.
    pub open spec fn col_post(self, res: Option<(i32, usize, usize)>) -> bool {
        match res {
            Some(m) => {
                &&& 1 <= m.0 <= 9
                &&& m.1 < 9
                &&& m.2 < 9
                &&& self.cand(m.0 - 1, m.1 as int, m.2 as int)
                &&& col_count(self.possibilities@, m.0 - 1, m.1 as int) == 1
                &&& self.count(m.1 as int, m.2 as int) != 1
                &&& forall|p: int, c: int|
                    0 <= p < 9 && 0 <= c < 9 && (c < m.1 || (c == m.1 && p < m.0 - 1))
                        ==> !#[trigger] self.col_qual(p, c)
            },
            None => forall|p: int, c: int|
                0 <= p < 9 && 0 <= c < 9 ==> !#[trigger] self.col_qual(p, c),
        }
    }

    /// What the box rule returns: nothing when no box has a hidden single;
    /// otherwise the first one found scanning box rows, then box columns,
    /// then digits.
    pub open spec fn box_post(self, res: Option<(i32, usize, usize)>) -> bool {
        match res {
            Some(m) => {
                &&& 1 <= m.0 <= 9
                &&& m.1 < 9
                &&& m.2 < 9
                &&& self.cand(m.0 - 1, m.1 as int, m.2 as int)
                &&& box_count(self.possibilities@, m.0 - 1, m.1 as int / 3, m.2 as int / 3) == 1
                &&& self.count(m.1 as int, m.2 as int) != 1
                &&& forall|p: int, bc: int, br: int|
                    0 <= p < 9 && 0 <= bc < 3 && 0 <= br < 3 && (br < m.2 as int / 3 || (br == m.2
                        as int / 3 && (bc < m.1 as int / 3 || (bc == m.1 as int / 3 && p < m.0
                        - 1)))) ==> !#[trigger] self.box_qual(p, bc, br)
            },
            None => forall|p: int, bc: int, br: int|
                0 <= p < 9 && 0 <= bc < 3 && 0 <= br < 3 ==> !#[trigger] self.box_qual(p, bc, br),
        }
    }

    /// What the move selection returns: the result of the first rule, in the
    /// fixed priority naked single, row, column, box, that has anything to
    /// report; nothing once no rule does.
    pub open spec fn next_move_post(self, res: Option<(i32, usize, usize)>) -> bool {
        if self.has_naked() {
            self.obvious_post(res)
        } else if self.has_row_single() {
            self.row_post(res)
        } else if self.has_col_single() {
            self.col_post(res)
        } else if self.has_box_single() {
            self.box_post(res)
        } else {
            res is None
        }
    }

    /// No deduction rule yields a further move.
    pub open spec fn at_fixpoint(self) -> bool {
        &&& !self.has_naked()
        &&& !self.has_row_single()
        &&& !self.has_col_single()
        &&& !self.has_box_single()
    }

    /// A fresh, empty puzzle: no cell filled, every digit a candidate
    /// everywhere, every summary entry 9.
    pub fn new() -> (s: Sudoku)
        ensures
            s.wf(),
            s.inv(),
            forall|c: int, r: int| 0 <= c < 9 && 0 <= r < 9 ==> #[trigger] s.cell(c, r) == 0,
            forall|p: int, c: int, r: int|
                0 <= p < 9 && 0 <= c < 9 && 0 <= r < 9 ==> #[trigger] s.cand(p, c, r),
            forall|c: int, r: int| 0 <= c < 9 && 0 <= r < 9 ==> #[trigger] s.count(c, r) == 9,
    {
        let mut board: Vec<i32> = Vec::new();
        let mut i: usize = 0;
        while i < 81
            invariant
                board@.len() == i,
                i <= 81,
                forall|j: int| 0 <= j < i ==> #[trigger] board@[j] == 0,
            decreases 81 - i,
        {
            board.push(0);
            i = i + 1;
        }
        let mut possibilities: Vec<i32> = Vec::new();
        let mut k: usize = 0;
        while k < 729
            invariant
                possibilities@.len() == k,
                k <= 729,
                forall|j: int| 0 <= j < k ==> #[trigger] possibilities@[j] == 1,
            decreases 729 - k,
        {
            possibilities.push(1);
            k = k + 1;
        }
        let mut summary: Vec<i32> = Vec::new();
        let mut m: usize = 0;
        while m < 81
            invariant
                summary@.len() == m,
                m <= 81,
                forall|j: int| 0 <= j < m ==> #[trigger] summary@[j] == 9,
            decreases 81 - m,
        {
            summary.push(9);
            m = m + 1;
        }
        let s = Sudoku { board, possibilities, summary };
        proof {
            assert forall|c: int, r: int| 0 <= c < 9 && 0 <= r < 9 implies s.summary@[bidx(c, r)]
                == #[trigger] s.count(c, r) by {
                lemma_cell_count_upto_ones(s.possibilities@, c, r, 9);
            }
        }
        s
    }

    /// Recompute every cached candidate count from the candidate store.
    fn update_summary(&mut self)
        requires
            flags01(old(self).possibilities@),
            old(self).summary@.len() == 81,
        ensures
            final(self).board@ == old(self).board@,
            final(self).possibilities@ == old(self).possibilities@,
            final(self).summary@.len() == 81,
            forall|c: int, r: int|
                0 <= c < 9 && 0 <= r < 9 ==> final(self).summary@[bidx(c, r)]
                    == #[trigger] final(self).count(c, r),
    {
        let mut row: usize = 0;
        while row < 9
            invariant
                row <= 9,
                self.board@ == old(self).board@,
                self.possibilities@ == old(self).possibilities@,
                flags01(self.possibilities@),
                self.summary@.len() == 81,
                forall|c: int, r: int|
                    0 <= c < 9 && 0 <= r < row ==> self.summary@[#[trigger] bidx(c, r)] as int
                        == cell_count(self.possibilities@, c, r),
            decreases 9 - row,
        {
            let mut col: usize = 0;
            while col < 9
                invariant
                    row < 9,
                    col <= 9,
                    self.board@ == old(self).board@,
                    self.possibilities@ == old(self).possibilities@,
                    flags01(self.possibilities@),
                    self.summary@.len() == 81,
                    forall|c: int, r: int|
                        0 <= c < 9 && 0 <= r < row ==> self.summary@[#[trigger] bidx(c, r)] as int
                            == cell_count(self.possibilities@, c, r),
                    forall|c: int|
                        0 <= c < col ==> self.summary@[#[trigger] bidx(c, row as int)] as int
                            == cell_count(self.possibilities@, c, row as int),
                decreases 9 - col,
            {
                let mut sum: i32 = 0;
                let mut p: usize = 0;
                while p < 9
                    invariant
                        row < 9,
                        col < 9,
                        p <= 9,
                        flags01(self.possibilities@),
                        0 <= sum <= p,
                        sum == cell_count_upto(self.possibilities@, col as int, row as int, p as int),
                    decreases 9 - p,
                {
                    let i = p * 81 + col * 9 + row;
                    proof {
                        assert(i == pidx(p as int, col as int, row as int));
                        assert(0 <= i < 729);
                    }
                    sum = sum + self.possibilities[i];
                    p = p + 1;
                }
                self.summary.set(col * 9 + row, sum);
                col = col + 1;
            }
            row = row + 1;
        }
    }

    /// Digit `number` is still marked possible for cell (`col`, `row`).
    pub fn is_candidate(&self, number: i32, col: usize, row: usize) -> (b: bool)
        requires
            self.wf(),
            1 <= number <= 9,
            col < 9,
            row < 9,
        ensures
            b == self.cand(number - 1, col as int, row as int),
    {
        let n: usize = (number - 1) as usize;
        let i = n * 81 + col * 9 + row;
        proof {
            assert(i == pidx(number - 1, col as int, row as int));
            assert(0 <= i < 729);
        }
        self.possibilities[i] == 1
    }

    /// Number of digits still marked possible for cell (`col`, `row`).
    pub fn candidate_count(&self, col: usize, row: usize) -> (cnt: i32)
        requires
            self.wf(),
            col < 9,
            row < 9,
        ensures
            cnt == self.count(col as int, row as int),
    {
        proof {
            assert(self.summary@[bidx(col as int, row as int)] == self.count(
                col as int,
                row as int,
            ));
        }
        self.summary[col * 9 + row]
    }

    /// Assign `number` to cell (`col`, `row`): write it into the grid, clear
    /// the digit as a candidate everywhere else in the cell's row, column,
    /// and box, collapse the cell's own candidates to exactly this digit,
    /// and refresh the cached counts.
    #[verifier::rlimit(100)]
    pub fn add_number(&mut self, number: i32, col: usize, row: usize)
        requires
            old(self).wf(),
            1 <= number <= 9,
            col < 9,
            row < 9,
        ensures
            final(self).wf(),
            assign_post(*old(self), *final(self), number as int, col as int, row as int),
            old(self).inv() && old(self).cand(number - 1, col as int, row as int)
                ==> final(self).inv(),
    {
        let n: usize = (number - 1) as usize;
        self.board.set(col * 9 + row, number);
        let mut p: usize = 0;
        while p < 9
            invariant
                col < 9,
                row < 9,
                p <= 9,
                n == number - 1,
                1 <= number <= 9,
                old(self).wf(),
                self.board@ == old(self).board@.update(bidx(col as int, row as int), number),
                self.summary@ == old(self).summary@,
                self.possibilities@.len() == 729,
                forall|q: int, cx: int, rx: int|
                    0 <= q < 9 && 0 <= cx < 9 && 0 <= rx < 9 ==> self.possibilities@[#[trigger] pidx(
                        q,
                        cx,
                        rx,
                    )] as int == (if cx == col && rx == row && q < p {
                        0int
                    } else {
                        old(self).possibilities@[pidx(q, cx, rx)] as int
                    }),
            decreases 9 - p,
        {
            proof {
                assert(p * 81 + col * 9 + row == pidx(p as int, col as int, row as int));
            }
            self.possibilities.set(p * 81 + col * 9 + row, 0);
            p = p + 1;
        }
        let mut c: usize = 0;
        while c < 9
            invariant
                col < 9,
                row < 9,
                c <= 9,
                n == number - 1,
                1 <= number <= 9,
                old(self).wf(),
                self.board@ == old(self).board@.update(bidx(col as int, row as int), number),
                self.summary@ == old(self).summary@,
                self.possibilities@.len() == 729,
                forall|q: int, cx: int, rx: int|
                    0 <= q < 9 && 0 <= cx < 9 && 0 <= rx < 9 ==> self.possibilities@[#[trigger] pidx(
                        q,
                        cx,
                        rx,
                    )] as int == (if cx == col && rx == row {
                        0int
                    } else if q == n && rx == row && cx < c {
                        0int
                    } else {
                        old(self).possibilities@[pidx(q, cx, rx)] as int
                    }),
            decreases 9 - c,
        {
            proof {
                assert(n * 81 + c * 9 + row == pidx(n as int, c as int, row as int));
            }
            self.possibilities.set(n * 81 + c * 9 + row, 0);
            c = c + 1;
        }
        let mut r: usize = 0;
        while r < 9
            invariant
                col < 9,
                row < 9,
                r <= 9,
                n == number - 1,
                1 <= number <= 9,
                old(self).wf(),
                self.board@ == old(self).board@.update(bidx(col as int, row as int), number),
                self.summary@ == old(self).summary@,
                self.possibilities@.len() == 729,
                forall|q: int, cx: int, rx: int|
                    0 <= q < 9 && 0 <= cx < 9 && 0 <= rx < 9 ==> self.possibilities@[#[trigger] pidx(
                        q,
                        cx,
                        rx,
                    )] as int == (if cx == col && rx == row {
                        0int
                    } else if q == n && rx == row {
                        0int
                    } else if q == n && cx == col && rx < r {
                        0int
                    } else {
                        old(self).possibilities@[pidx(q, cx, rx)] as int
                    }),
            decreases 9 - r,
        {
            proof {
                assert(n * 81 + col * 9 + r == pidx(n as int, col as int, r as int));
            }
            self.possibilities.set(n * 81 + col * 9 + r, 0);
            r = r + 1;
        }
        let bc0 = (col / 3) * 3;
        let br0 = (row / 3) * 3;
        let mut k: usize = 0;
        while k < 9
            invariant
                col < 9,
                row < 9,
                k <= 9,
                n == number - 1,
                1 <= number <= 9,
                bc0 == (col / 3) * 3,
                br0 == (row / 3) * 3,
                flags01(old(self).possibilities@),
                self.board@ == old(self).board@.update(bidx(col as int, row as int), number),
                self.summary@ == old(self).summary@,
                self.possibilities@.len() == 729,
                forall|q: int, cx: int, rx: int|
                    0 <= q < 9 && 0 <= cx < 9 && 0 <= rx < 9 ==> self.possibilities@[#[trigger] pidx(
                        q,
                        cx,
                        rx,
                    )] as int == (if cx == col && rx == row {
                        0int
                    } else if q == n && rx == row {
                        0int
                    } else if q == n && cx == col {
                        0int
                    } else if q == n && cx / 3 == col / 3 && rx / 3 == row / 3 && (rx - br0) * 3 + (
                    cx - bc0) < k {
                        0int
                    } else {
                        old(self).possibilities@[pidx(q, cx, rx)] as int
                    }),
            decreases 9 - k,
        {
            let bcol = bc0 + k % 3;
            let brow = br0 + k / 3;
            proof {
                assert(n * 81 + bcol * 9 + brow == pidx(n as int, bcol as int, brow as int));
                assert(bcol as int / 3 == col as int / 3);
                assert(brow as int / 3 == row as int / 3);
                assert((brow as int - br0 as int) * 3 + (bcol as int - bc0 as int) == k as int);
            }
            self.possibilities.set(n * 81 + bcol * 9 + brow, 0);
            k = k + 1;
        }
        self.possibilities.set(n * 81 + col * 9 + row, 1);
        proof {
            assert forall|i: int| 0 <= i < 729 implies #[trigger] self.possibilities@[i] == 0
                || self.possibilities@[i] == 1 by {
                let q = i / 81;
                let b = i % 81;
                let cx = b / 9;
                let rx = b % 9;
                assert(0 <= q < 9 && 0 <= cx < 9 && 0 <= rx < 9);
                assert(i == pidx(q, cx, rx));
                assert(self.flag(q, cx, rx) == self.possibilities@[i]);
                assert(old(self).flag(q, cx, rx) == old(self).possibilities@[i]);
            }
        }
        let ghost mid = *self;
        self.update_summary();
        proof {
            let pre = *old(self);
            let nn = number as int;
            assert(self.possibilities@ == mid.possibilities@);
            assert forall|q: int, cx: int, rx: int|
                0 <= q < 9 && 0 <= cx < 9 && 0 <= rx < 9 implies (#[trigger] self.cand(q, cx, rx)
                <==> assign_flag(pre, nn, col as int, row as int, q, cx, rx)) by {
                assert(self.flag(q, cx, rx) == mid.flag(q, cx, rx));
                if cx == col && rx == row {
                } else if q == nn - 1 && sees(cx, rx, col as int, row as int) {
                    assert(mid.flag(q, cx, rx) == 0);
                } else {
                    assert(mid.flag(q, cx, rx) == pre.flag(q, cx, rx));
                }
            }
            assert forall|i: int| 0 <= i < 81 implies 0 <= #[trigger] self.board@[i] <= 9 by {
                assert(self.board@ == pre.board@.update(bidx(col as int, row as int), number));
            }
            assert(assign_post(pre, *self, nn, col as int, row as int));
            if pre.inv() && pre.cand(number - 1, col as int, row as int) {
                lemma_assign_preserves_inv(pre, *self, nn, col as int, row as int);
            }
        }
    }

    /// Naked-single rule: scan the cells row by row and report the first
    /// empty cell whose candidate set has collapsed to a single digit.
    pub fn obvious(&self) -> (res: Option<(i32, usize, usize)>)
        requires
            self.wf(),
        ensures
            self.obvious_post(res),
    {
        let mut row: usize = 0;
        while row < 9
            invariant
                self.wf(),
                row <= 9,
                forall|c2: int, r2: int|
                    0 <= c2 < 9 && 0 <= r2 < row ==> !#[trigger] self.naked_at(c2, r2),
            decreases 9 - row,
        {
            let mut col: usize = 0;
            while col < 9
                invariant
                    self.wf(),
                    row < 9,
                    col <= 9,
                    forall|c2: int, r2: int|
                        0 <= c2 < 9 && 0 <= r2 < row ==> !#[trigger] self.naked_at(c2, r2),
                    forall|c2: int| 0 <= c2 < col ==> !#[trigger] self.naked_at(c2, row as int),
                decreases 9 - col,
            {
                let bi = col * 9 + row;
                proof {
                    assert(bi == bidx(col as int, row as int));
                    assert(self.summary@[bidx(col as int, row as int)] == self.count(
                        col as int,
                        row as int,
                    ));
                }
                if self.summary[bi] == 1 && self.board[bi] == 0 {
                    let mut p: usize = 0;
                    while p < 9
                        invariant
                            self.wf(),
                            col < 9,
                            row < 9,
                            p <= 9,
                            self.naked_at(col as int, row as int),
                            forall|c2: int, r2: int|
                                0 <= c2 < 9 && 0 <= r2 < row ==> !#[trigger] self.naked_at(c2, r2),
                            forall|c2: int|
                                0 <= c2 < col ==> !#[trigger] self.naked_at(c2, row as int),
                            forall|q: int|
                                0 <= q < p ==> !#[trigger] self.cand(q, col as int, row as int),
                        decreases 9 - p,
                    {
                        let pi = p * 81 + col * 9 + row;
                        proof {
                            assert(pi == pidx(p as int, col as int, row as int));
                        }
                        if self.possibilities[pi] == 1 {
                            proof {
                                assert(self.cand(p as int, col as int, row as int));
                                assert forall|q: int| 0 <= q < 9 && q != p implies !self.cand(
                                    q,
                                    col as int,
                                    row as int,
                                ) by {
                                    if self.cand(q, col as int, row as int) {
                                        lemma_cell_count_one_unique(
                                            self.possibilities@,
                                            col as int,
                                            row as int,
                                            p as int,
                                            q,
                                        );
                                    }
                                }
                            }
                            return Some(((p + 1) as i32, col, row));
                        }
                        p = p + 1;
                    }
                    proof {
                        assert forall|q: int| 0 <= q < 9 implies self.possibilities@[#[trigger] pidx(
                            q,
                            col as int,
                            row as int,
                        )] == 0 by {
                            assert(!self.cand(q, col as int, row as int));
                            assert(0 <= pidx(q, col as int, row as int) < 729);
                        }
                        lemma_cell_count_upto_zero(self.possibilities@, col as int, row as int, 9);
                        assert(false);
                    }
                    // a cell counted as a naked single always has its one flag set
                    return vstd::pervasive::unreached();
                }
                col = col + 1;
            }
            row = row + 1;
        }
        None
    }

    /// Row hidden-single rule: scan rows outer, digits inner, and report the
    /// first digit that fits only one cell of its row, unless that cell is
    /// already a naked single.
    pub fn conclude_row(&self) -> (res: Option<(i32, usize, usize)>)
        requires
            self.wf(),
        ensures
            self.row_post(res),
    {
        let mut r: usize = 0;
        while r < 9
            invariant
                self.wf(),
                r <= 9,
                forall|p2: int, r2: int|
                    0 <= p2 < 9 && 0 <= r2 < r ==> !#[trigger] self.row_qual(p2, r2),
            decreases 9 - r,
        {
            let mut p: usize = 0;
            while p < 9
                invariant
                    self.wf(),
                    r < 9,
                    p <= 9,
                    forall|p2: int, r2: int|
                        0 <= p2 < 9 && 0 <= r2 < r ==> !#[trigger] self.row_qual(p2, r2),
                    forall|p2: int| 0 <= p2 < p ==> !#[trigger] self.row_qual(p2, r as int),
                decreases 9 - p,
            {
                let mut sum: i32 = 0;
                let mut col: usize = 9;
                let mut c: usize = 0;
                while c < 9
                    invariant
                        self.wf(),
                        r < 9,
                        p < 9,
                        c <= 9,
                        0 <= sum <= c,
                        sum == row_count_upto(self.possibilities@, p as int, r as int, c as int),
                        sum >= 1 ==> col < c && self.cand(p as int, col as int, r as int),
                    decreases 9 - c,
                {
                    let pi = p * 81 + c * 9 + r;
                    proof {
                        assert(pi == pidx(p as int, c as int, r as int));
                    }
                    let v = self.possibilities[pi];
                    sum = sum + v;
                    if v == 1 {
                        col = c;
                    }
                    c = c + 1;
                }
                if sum == 1 {
                    let bi = col * 9 + r;
                    proof {
                        assert(bi == bidx(col as int, r as int));
                        assert(self.summary@[bidx(col as int, r as int)] == self.count(
                            col as int,
                            r as int,
                        ));
                    }
                    if self.summary[bi] != 1 {
                        return Some(((p + 1) as i32, col, r));
                    }
                    proof {
                        if self.row_qual(p as int, r as int) {
                            let c2 = choose|c2: int|
                                0 <= c2 < 9 && self.cand(p as int, c2, r as int) && self.count(
                                    c2,
                                    r as int,
                                ) != 1;
                            assert(self.possibilities@[pidx(p as int, c2, r as int)] == 1);
                            assert(self.possibilities@[pidx(p as int, col as int, r as int)] == 1);
                            lemma_row_count_one_unique(
                                self.possibilities@,
                                p as int,
                                r as int,
                                c2,
                                col as int,
                            );
                            assert(false);
                        }
                    }
                } else {
                    proof {
                        assert(row_count(self.possibilities@, p as int, r as int) != 1);
                        assert(!self.row_qual(p as int, r as int));
                    }
                }
                p = p + 1;
            }
            r = r + 1;
        }
        None
    }

    /// Column hidden-single rule: scan columns outer, digits inner, and
    /// report the first digit that fits only one cell of its column, unless
    /// that cell is already a naked single.
    pub fn conclude_col(&self) -> (res: Option<(i32, usize, usize)>)
        requires
            self.wf(),
        ensures
            self.col_post(res),
    {
        let mut c: usize = 0;
        while c < 9
            invariant
                self.wf(),
                c <= 9,
                forall|p2: int, c2: int|
                    0 <= p2 < 9 && 0 <= c2 < c ==> !#[trigger] self.col_qual(p2, c2),
            decreases 9 - c,
        {
            let mut p: usize = 0;
            while p < 9
                invariant
                    self.wf(),
                    c < 9,
                    p <= 9,
                    forall|p2: int, c2: int|
                        0 <= p2 < 9 && 0 <= c2 < c ==> !#[trigger] self.col_qual(p2, c2),
                    forall|p2: int| 0 <= p2 < p ==> !#[trigger] self.col_qual(p2, c as int),
                decreases 9 - p,
            {
                let mut sum: i32 = 0;
                let mut row: usize = 9;
                let mut r: usize = 0;
                while r < 9
                    invariant
                        self.wf(),
                        c < 9,
                        p < 9,
                        r <= 9,
                        0 <= sum <= r,
                        sum == col_count_upto(self.possibilities@, p as int, c as int, r as int),
                        sum >= 1 ==> row < r && self.cand(p as int, c as int, row as int),
                    decreases 9 - r,
                {
                    let pi = p * 81 + c * 9 + r;
                    proof {
                        assert(pi == pidx(p as int, c as int, r as int));
                    }
                    let v = self.possibilities[pi];
                    sum = sum + v;
                    if v == 1 {
                        row = r;
                    }
                    r = r + 1;
                }
                if sum == 1 {
                    let bi = c * 9 + row;
                    proof {
                        assert(bi == bidx(c as int, row as int));
                        assert(self.summary@[bidx(c as int, row as int)] == self.count(
                            c as int,
                            row as int,
                        ));
                    }
                    if self.summary[bi] != 1 {
                        return Some(((p + 1) as i32, c, row));
                    }
                    proof {
                        if self.col_qual(p as int, c as int) {
                            let r2 = choose|r2: int|
                                0 <= r2 < 9 && self.cand(p as int, c as int, r2) && self.count(
                                    c as int,
                                    r2,
                                ) != 1;
                            assert(self.possibilities@[pidx(p as int, c as int, r2)] == 1);
                            assert(self.possibilities@[pidx(p as int, c as int, row as int)] == 1);
                            lemma_col_count_one_unique(
                                self.possibilities@,
                                p as int,
                                c as int,
                                r2,
                                row as int,
                            );
                            assert(false);
                        }
                    }
                } else {
                    proof {
                        assert(col_count(self.possibilities@, p as int, c as int) != 1);
                        assert(!self.col_qual(p as int, c as int));
                    }
                }
                p = p + 1;
            }
            c = c + 1;
        }
        None
    }

    /// Box hidden-single rule: scan boxes row by row, digits inner, and
    /// report the first digit that fits only one cell of its box, unless
    /// that cell is already a naked single.
    pub fn conclude_submatrix(&self) -> (res: Option<(i32, usize, usize)>)
        requires
            self.wf(),
        ensures
            self.box_post(res),
    {
        let mut br: usize = 0;
        while br < 3
            invariant
                self.wf(),
                br <= 3,
                forall|p2: int, bc2: int, br2: int|
                    0 <= p2 < 9 && 0 <= bc2 < 3 && 0 <= br2 < br ==> !#[trigger] self.box_qual(
                        p2,
                        bc2,
                        br2,
                    ),
            decreases 3 - br,
        {
            let mut bc: usize = 0;
            while bc < 3
                invariant
                    self.wf(),
                    br < 3,
                    bc <= 3,
                    forall|p2: int, bc2: int, br2: int|
                        0 <= p2 < 9 && 0 <= bc2 < 3 && 0 <= br2 < br ==> !#[trigger] self.box_qual(
                            p2,
                            bc2,
                            br2,
                        ),
                    forall|p2: int, bc2: int|
                        0 <= p2 < 9 && 0 <= bc2 < bc ==> !#[trigger] self.box_qual(
                            p2,
                            bc2,
                            br as int,
                        ),
                decreases 3 - bc,
            {
                let mut p: usize = 0;
                while p < 9
                    invariant
                        self.wf(),
                        br < 3,
                        bc < 3,
                        p <= 9,
                        forall|p2: int, bc2: int, br2: int|
                            0 <= p2 < 9 && 0 <= bc2 < 3 && 0 <= br2 < br ==> !#[trigger] self.box_qual(
                                p2,
                                bc2,
                                br2,
                            ),
                        forall|p2: int, bc2: int|
                            0 <= p2 < 9 && 0 <= bc2 < bc ==> !#[trigger] self.box_qual(
                                p2,
                                bc2,
                                br as int,
                            ),
                        forall|p2: int|
                            0 <= p2 < p ==> !#[trigger] self.box_qual(p2, bc as int, br as int),
                    decreases 9 - p,
                {
                    let mut sum: i32 = 0;
                    let mut ccol: usize = 9;
                    let mut rrow: usize = 9;
                    let mut kk: usize = 9;
                    let mut k: usize = 0;
                    while k < 9
                        invariant
                            self.wf(),
                            br < 3,
                            bc < 3,
                            p < 9,
                            k <= 9,
                            0 <= sum <= k,
                            sum == box_count_upto(
                                self.possibilities@,
                                p as int,
                                bc as int,
                                br as int,
                                k as int,
                            ),
                            sum >= 1 ==> kk < k && ccol == box_cell_col(bc as int, kk as int)
                                && rrow == box_cell_row(br as int, kk as int) && self.cand(
                                p as int,
                                ccol as int,
                                rrow as int,
                            ),
                        decreases 9 - k,
                    {
                        let bcol = bc * 3 + k % 3;
                        let brow = br * 3 + k / 3;
                        let pi = p * 81 + bcol * 9 + brow;
                        proof {
                            assert(bcol == box_cell_col(bc as int, k as int));
                            assert(brow == box_cell_row(br as int, k as int));
                            assert(pi == pidx(p as int, bcol as int, brow as int));
                            assert(0 <= pi < 729);
                        }
                        let v = self.possibilities[pi];
                        sum = sum + v;
                        if v == 1 {
                            ccol = bcol;
                            rrow = brow;
                            kk = k;
                        }
                        k = k + 1;
                    }
                    if sum == 1 {
                        let bi = ccol * 9 + rrow;
                        proof {
                            assert(bi == bidx(ccol as int, rrow as int));
                            assert(self.summary@[bidx(ccol as int, rrow as int)] == self.count(
                                ccol as int,
                                rrow as int,
                            ));
                        }
                        if self.summary[bi] != 1 {
                            proof {
                                assert(ccol as int / 3 == bc as int);
                                assert(rrow as int / 3 == br as int);
                            }
                            return Some(((p + 1) as i32, ccol, rrow));
                        }
                        proof {
                            if self.box_qual(p as int, bc as int, br as int) {
                                let k2 = choose|k2: int|
                                    0 <= k2 < 9 && self.cand(
                                        p as int,
                                        box_cell_col(bc as int, k2),
                                        box_cell_row(br as int, k2),
                                    ) && self.count(
                                        box_cell_col(bc as int, k2),
                                        box_cell_row(br as int, k2),
                                    ) != 1;
                                assert(self.possibilities@[pidx(
                                    p as int,
                                    box_cell_col(bc as int, k2),
                                    box_cell_row(br as int, k2),
                                )] == 1);
                                assert(self.possibilities@[pidx(
                                    p as int,
                                    box_cell_col(bc as int, kk as int),
                                    box_cell_row(br as int, kk as int),
                                )] == 1);
                                lemma_box_count_one_unique(
                                    self.possibilities@,
                                    p as int,
                                    bc as int,
                                    br as int,
                                    k2,
                                    kk as int,
                                );
                                assert(false);
                            }
                        }
                    } else {
                        proof {
                            assert(box_count(self.possibilities@, p as int, bc as int, br as int)
                                != 1);
                            assert(!self.box_qual(p as int, bc as int, br as int));
                        }
                    }
                    p = p + 1;
                }
                bc = bc + 1;
            }
            br = br + 1;
        }
        None
    }

    /// Pick the next move, trying the rules in fixed priority: naked single,
    /// then hidden single in a row, a column, and a box.
    pub fn next_move(&self) -> (res: Option<(i32, usize, usize)>)
        requires
            self.wf(),
        ensures
            self.next_move_post(res),
            res is None ==> self.at_fixpoint(),
            res matches Some(m) ==> 1 <= m.0 <= 9 && m.1 < 9 && m.2 < 9 && self.cand(
                m.0 - 1,
                m.1 as int,
                m.2 as int,
            ) && (self.cell(m.1 as int, m.2 as int) == 0 && self.count(m.1 as int, m.2 as int) == 1
                || self.count(m.1 as int, m.2 as int) != 1),
    {
        let r0 = self.obvious();
        if let Some(m) = r0 {
            proof {
                assert(self.naked_at(m.1 as int, m.2 as int));
                assert(self.has_naked());
            }
            return r0;
        }
        proof {
            if self.has_naked() {
                let (c2, r2) = choose|c2: int, r2: int|
                    0 <= c2 < 9 && 0 <= r2 < 9 && #[trigger] self.naked_at(c2, r2);
                assert(false);
            }
        }
        let r1 = self.conclude_row();
        if let Some(m) = r1 {
            proof {
                assert(self.cand(m.0 - 1, m.1 as int, m.2 as int) && self.count(
                    m.1 as int,
                    m.2 as int,
                ) != 1);
                assert(self.row_qual(m.0 - 1, m.2 as int));
                assert(self.has_row_single());
            }
            return r1;
        }
        proof {
            if self.has_row_single() {
                let (p2, r2) = choose|p2: int, r2: int|
                    0 <= p2 < 9 && 0 <= r2 < 9 && #[trigger] self.row_qual(p2, r2);
                assert(false);
            }
        }
        let r2m = self.conclude_col();
        if let Some(m) = r2m {
            proof {
                assert(self.cand(m.0 - 1, m.1 as int, m.2 as int) && self.count(
                    m.1 as int,
                    m.2 as int,
                ) != 1);
                assert(self.col_qual(m.0 - 1, m.1 as int));
                assert(self.has_col_single());
            }
            return r2m;
        }
        proof {
            if self.has_col_single() {
                let (p2, c2) = choose|p2: int, c2: int|
                    0 <= p2 < 9 && 0 <= c2 < 9 && #[trigger] self.col_qual(p2, c2);
                assert(false);
            }
        }
        let r3 = self.conclude_submatrix();
        if let Some(m) = r3 {
            proof {
                assert(self.cand(m.0 - 1, m.1 as int, m.2 as int) && self.count(
                    m.1 as int,
                    m.2 as int,
                ) != 1);
                let kw = (m.2 as int % 3) * 3 + (m.1 as int % 3);
                assert(0 <= kw < 9);
                assert(box_cell_col(m.1 as int / 3, kw) == m.1 as int);
                assert(box_cell_row(m.2 as int / 3, kw) == m.2 as int);
                assert(self.cand(
                    m.0 - 1,
                    box_cell_col(m.1 as int / 3, kw),
                    box_cell_row(m.2 as int / 3, kw),
                ) && self.count(
                    box_cell_col(m.1 as int / 3, kw),
                    box_cell_row(m.2 as int / 3, kw),
                ) != 1);
                assert(self.box_qual(m.0 - 1, m.1 as int / 3, m.2 as int / 3));
                assert(self.has_box_single());
            }
            return r3;
        }
        proof {
            if self.has_box_single() {
                let (p2, bc2, br2) = choose|p2: int, bc2: int, br2: int|
                    0 <= p2 < 9 && 0 <= bc2 < 3 && 0 <= br2 < 3 && #[trigger] self.box_qual(
                        p2,
                        bc2,
                        br2,
                    );
                assert(false);
            }
        }
        None
    }

    /// Drive the deduction rules to a fixpoint: while any rule yields a
    /// move, assign it; stop once none does. On a contradictory or
    /// under-constrained puzzle this simply stops early with empty cells
    /// left. Starting from a consistent state, already filled cells are
    /// never touched again.
    pub fn solve(&mut self)
        requires
            old(self).wf(),
        ensures
            final(self).wf(),
            final(self).at_fixpoint(),
            old(self).inv() ==> final(self).inv() && (forall|c: int, r: int|
                0 <= c < 9 && 0 <= r < 9 && old(self).cell(c, r) != 0
                    ==> #[trigger] final(self).cell(c, r) == old(self).cell(c, r)),
    {
        let mut m = self.next_move();
        while m.is_some()
            invariant
                self.wf(),
                m is None ==> self.at_fixpoint(),
                m matches Some(mv) ==> 1 <= mv.0 <= 9 && mv.1 < 9 && mv.2 < 9 && self.cand(
                    mv.0 - 1,
                    mv.1 as int,
                    mv.2 as int,
                ) && (self.cell(mv.1 as int, mv.2 as int) == 0 && self.count(
                    mv.1 as int,
                    mv.2 as int,
                ) == 1 || self.count(mv.1 as int, mv.2 as int) != 1),
                old(self).inv() ==> self.inv() && (forall|c: int, r: int|
                    0 <= c < 9 && 0 <= r < 9 && old(self).cell(c, r) != 0 ==> #[trigger] self.cell(
                        c,
                        r,
                    ) == old(self).cell(c, r)),
            decreases total(self.possibilities@), zeros(self.board@),
        {
            let ghost pre = *self;
            let (n, c, r) = m.unwrap();
            self.add_number(n, c, r);
            proof {
                lemma_total_upto_nonneg(pre.possibilities@, 729);
                lemma_total_upto_nonneg(self.possibilities@, 729);
                lemma_zeros_upto_nonneg(pre.board@, 81);
                lemma_zeros_upto_nonneg(self.board@, 81);
                lemma_assign_progress(pre, *self, n as int, c as int, r as int);
                if pre.count(c as int, r as int) == 1 {
                    assert(pre.cell(c as int, r as int) == 0);
                    lemma_assign_zeros(pre, *self, n as int, c as int, r as int);
                }
                if old(self).inv() {
                    assert(self.inv());
                    assert forall|c2: int, r2: int|
                        0 <= c2 < 9 && 0 <= r2 < 9 && old(self).cell(c2, r2) != 0 implies #[trigger] self.cell(
                        c2,
                        r2,
                    ) == old(self).cell(c2, r2) by {
                        assert(pre.cell(c2, r2) == old(self).cell(c2, r2));
                        if c2 == c as int && r2 == r as int {
                            if pre.count(c2, r2) != 1 {
                                assert(pre.cell(c2, r2) == 0);
                                assert(false);
                            }
                            assert(pre.cell(c2, r2) == 0);
                            assert(false);
                        }
                        assert(self.cell(c2, r2) == pre.cell(c2, r2));
                    }
                }
            }
            m = self.next_move();
        }
    }

    /// Every row, every column, and every 3x3 box of the grid sums to 45:
    /// a necessary, not sufficient, condition for a valid completed puzzle
    /// (it does not catch duplicate values that keep a sum intact).
    pub open spec fn sane(self) -> bool {
        &&& forall|r: int| 0 <= r < 9 ==> #[trigger] row_sum(self.board@, r) == 45
        &&& forall|c: int| 0 <= c < 9 ==> #[trigger] col_sum(self.board@, c) == 45
        &&& forall|bc: int, br: int|
            0 <= bc < 3 && 0 <= br < 3 ==> #[trigger] box_sum(self.board@, bc, br) == 45
    }

    /// Check the completed grid: true exactly when every row, column, and
    /// 3x3 box sums to 45.
    pub fn check_sanity(&self) -> (ok: bool)
        requires
            self.wf(),
        ensures
            ok == self.sane(),
    {
        let mut r: usize = 0;
        while r < 9
            invariant
                self.wf(),
                r <= 9,
                forall|r2: int| 0 <= r2 < r ==> #[trigger] row_sum(self.board@, r2) == 45,
            decreases 9 - r,
        {
            let mut sum: i32 = 0;
            let mut c: usize = 0;
            while c < 9
                invariant
                    self.wf(),
                    r < 9,
                    c <= 9,
                    0 <= sum <= 9 * c,
                    sum == row_sum_upto(self.board@, r as int, c as int),
                decreases 9 - c,
            {
                let bi = c * 9 + r;
                proof {
                    assert(bi == bidx(c as int, r as int));
                }
                sum = sum + self.board[bi];
                c = c + 1;
            }
            if sum != 45 {
                proof {
                    assert(row_sum(self.board@, r as int) != 45);
                }
                return false;
            }
            r = r + 1;
        }
        let mut c: usize = 0;
        while c < 9
            invariant
                self.wf(),
                c <= 9,
                forall|r2: int| 0 <= r2 < 9 ==> #[trigger] row_sum(self.board@, r2) == 45,
                forall|c2: int| 0 <= c2 < c ==> #[trigger] col_sum(self.board@, c2) == 45,
            decreases 9 - c,
        {
            let mut sum: i32 = 0;
            let mut r: usize = 0;
            while r < 9
                invariant
                    self.wf(),
                    c < 9,
                    r <= 9,
                    0 <= sum <= 9 * r,
                    sum == col_sum_upto(self.board@, c as int, r as int),
                decreases 9 - r,
            {
                let bi = c * 9 + r;
                proof {
                    assert(bi == bidx(c as int, r as int));
                }
                sum = sum + self.board[bi];
                r = r + 1;
            }
            if sum != 45 {
                proof {
                    assert(col_sum(self.board@, c as int) != 45);
                }
                return false;
            }
            c = c + 1;
        }
        let mut br: usize = 0;
        while br < 3
            invariant
                self.wf(),
                br <= 3,
                forall|r2: int| 0 <= r2 < 9 ==> #[trigger] row_sum(self.board@, r2) == 45,
                forall|c2: int| 0 <= c2 < 9 ==> #[trigger] col_sum(self.board@, c2) == 45,
                forall|bc2: int, br2: int|
                    0 <= bc2 < 3 && 0 <= br2 < br ==> #[trigger] box_sum(self.board@, bc2, br2)
                        == 45,
            decreases 3 - br,
        {
            let mut bc: usize = 0;
            while bc < 3
                invariant
                    self.wf(),
                    br < 3,
                    bc <= 3,
                    forall|bc2: int, br2: int|
                        0 <= bc2 < 3 && 0 <= br2 < br ==> #[trigger] box_sum(self.board@, bc2, br2)
                            == 45,
                    forall|bc2: int|
                        0 <= bc2 < bc ==> #[trigger] box_sum(self.board@, bc2, br as int) == 45,
                decreases 3 - bc,
            {
                let mut sum: i32 = 0;
                let mut k: usize = 0;
                while k < 9
                    invariant
                        self.wf(),
                        br < 3,
                        bc < 3,
                        k <= 9,
                        0 <= sum <= 9 * k,
                        sum == box_sum_upto(self.board@, bc as int, br as int, k as int),
                    decreases 9 - k,
                {
                    let ccol = bc * 3 + k % 3;
                    let rrow = br * 3 + k / 3;
                    let bi = ccol * 9 + rrow;
                    proof {
                        assert(ccol == box_cell_col(bc as int, k as int));
                        assert(rrow == box_cell_row(br as int, k as int));
                        assert(bi == bidx(ccol as int, rrow as int));
                        assert(0 <= bi < 81);
                    }
                    sum = sum + self.board[bi];
                    k = k + 1;
                }
                if sum != 45 {
                    proof {
                        assert(box_sum(self.board@, bc as int, br as int) != 45);
                    }
                    return false;
                }
                bc = bc + 1;
            }
            br = br + 1;
        }
        true
    }

    /// Load a puzzle from its 81-character encoding: character `i` fills
    /// cell (`i % 9`, `i / 9`) when it is a digit and leaves it untouched
    /// when it is '.'. A wrong length or a foreign character is rejected;
    /// a foreign character is reported after the digits before it have
    /// already been placed, as loading works left to right.
    pub fn from_string(&mut self, input: &str) -> (res: Result<(), InputError>)
        requires
            old(self).wf(),
        ensures
            final(self).wf(),
            res is Ok <==> valid_input(input@),
            match res {
                Ok(_) => forall|c: int, r: int|
                    0 <= c < 9 && 0 <= r < 9 ==> #[trigger] final(self).cell(c, r) == (
                    if digit_char(input@[r * 9 + c]) {
                        char_digit(input@[r * 9 + c])
                    } else {
                        old(self).cell(c, r)
                    }),
                Err(InputError::InvalidLength) => input@.len() != 81,
                Err(InputError::InvalidChar(ch)) => {
                    &&& input@.len() == 81
                    &&& !valid_char(ch)
                    &&& exists|i: int|
                        0 <= i < 81 && (#[trigger] input@[i]) == ch && (forall|j: int|
                            0 <= j < i ==> valid_char(#[trigger] input@[j]))
                },
            },
            res is Ok && consistent_givens(input@) ==> forall|p: int, c: int, r: int|
                0 <= p < 9 && 0 <= c < 9 && 0 <= r < 9 ==> (#[trigger] final(self).cand(p, c, r)
                    <==> (if digit_char(input@[r * 9 + c]) {
                    p == char_digit(input@[r * 9 + c]) - 1
                } else {
                    old(self).cand(p, c, r) && !given_kills(input@, 81, p, c, r)
                })),
            res is Ok && consistent_givens(input@) && old(self).inv() && (forall|j: int|
                0 <= j < 81 && digit_char(#[trigger] input@[j]) ==> old(self).cand(
                    char_digit(input@[j]) - 1,
                    j % 9,
                    j / 9,
                )) ==> final(self).inv(),
    {
        let len = input.unicode_len();
        if len != 81 {
            return Err(InputError::InvalidLength);
        }
        let mut i: usize = 0;
        while i < 81
            invariant
                self.wf(),
                input@.len() == 81,
                i <= 81,
                forall|j: int| 0 <= j < i ==> valid_char(#[trigger] input@[j]),
                forall|c2: int, r2: int|
                    0 <= c2 < 9 && 0 <= r2 < 9 ==> #[trigger] self.cell(c2, r2) == (if r2 * 9 + c2
                        < i && digit_char(input@[r2 * 9 + c2]) {
                        char_digit(input@[r2 * 9 + c2])
                    } else {
                        old(self).cell(c2, r2)
                    }),
                consistent_givens(input@) ==> forall|p: int, c2: int, r2: int|
                    0 <= p < 9 && 0 <= c2 < 9 && 0 <= r2 < 9 ==> (#[trigger] self.cand(p, c2, r2)
                        <==> (if r2 * 9 + c2 < i && digit_char(input@[r2 * 9 + c2]) {
                        p == char_digit(input@[r2 * 9 + c2]) - 1
                    } else {
                        old(self).cand(p, c2, r2) && !given_kills(input@, i as int, p, c2, r2)
                    })),
                consistent_givens(input@) && old(self).inv() && (forall|j: int|
                    0 <= j < 81 && digit_char(#[trigger] input@[j]) ==> old(self).cand(
                        char_digit(input@[j]) - 1,
                        j % 9,
                        j / 9,
                    )) ==> self.inv(),
            decreases 81 - i,
        {
            let ch = input.get_char(i);
            let u = ch as u32;
            if 49 <= u && u <= 57 {
                let number = (u - 48) as i32;
                let col = i % 9;
                let row = i / 9;
                let ghost pre = *self;
                self.add_number(number, col, row);
                proof {
                    assert(digit_char(input@[i as int]));
                    assert(number == char_digit(input@[i as int]));
                    assert forall|c2: int, r2: int| 0 <= c2 < 9 && 0 <= r2 < 9 implies #[trigger] self.cell(
                        c2,
                        r2,
                    ) == (if r2 * 9 + c2 < i + 1 && digit_char(input@[r2 * 9 + c2]) {
                        char_digit(input@[r2 * 9 + c2])
                    } else {
                        old(self).cell(c2, r2)
                    }) by {
                        if c2 == col as int && r2 == row as int {
                            assert(r2 * 9 + c2 == i);
                            assert(self.cell(c2, r2) == number);
                        } else {
                            assert(self.cell(c2, r2) == pre.cell(c2, r2));
                            assert(r2 * 9 + c2 != i);
                        }
                    }
                    if consistent_givens(input@) {
                        assert forall|p: int, c2: int, r2: int|
                            0 <= p < 9 && 0 <= c2 < 9 && 0 <= r2 < 9 implies (#[trigger] self.cand(
                            p,
                            c2,
                            r2,
                        ) <==> (if r2 * 9 + c2 < i + 1 && digit_char(input@[r2 * 9 + c2]) {
                            p == char_digit(input@[r2 * 9 + c2]) - 1
                        } else {
                            old(self).cand(p, c2, r2) && !given_kills(input@, i + 1, p, c2, r2)
                        })) by {
                            assert(self.cand(p, c2, r2) <==> assign_flag(
                                pre,
                                number as int,
                                col as int,
                                row as int,
                                p,
                                c2,
                                r2,
                            ));
                            if c2 == col as int && r2 == row as int {
                                assert(r2 * 9 + c2 == i);
                            } else if p == number - 1 && sees(c2, r2, col as int, row as int) {
                                // loading this given wipes the flag at every other
                                // cell it sees
                                if r2 * 9 + c2 < i + 1 && digit_char(input@[r2 * 9 + c2]) {
                                    let j2 = r2 * 9 + c2;
                                    assert(j2 != i);
                                    assert(j2 % 9 == c2 && j2 / 9 == r2);
                                    if char_digit(input@[j2]) == char_digit(input@[i as int]) {
                                        assert(!sees(j2 % 9, j2 / 9, i as int % 9, i as int / 9));
                                        assert(false);
                                    }
                                } else {
                                    assert(given_kills(input@, i + 1, p, c2, r2)) by {
                                        assert(digit_char(input@[i as int]) && char_digit(
                                            input@[i as int],
                                        ) - 1 == p && sees(c2, r2, i as int % 9, i as int / 9) && !(
                                        c2 == i as int % 9 && r2 == i as int / 9));
                                    }
                                }
                            } else {
                                if !(r2 * 9 + c2 < i && digit_char(input@[r2 * 9 + c2])) {
                                    assert(given_kills(input@, i + 1, p, c2, r2) <==> given_kills(
                                        input@,
                                        i as int,
                                        p,
                                        c2,
                                        r2,
                                    )) by {
                                        if given_kills(input@, i + 1, p, c2, r2) {
                                            let j2 = choose|j2: int|
                                                0 <= j2 < i + 1 && digit_char(
                                                    #[trigger] input@[j2],
                                                ) && char_digit(input@[j2]) - 1 == p && sees(
                                                    c2,
                                                    r2,
                                                    j2 % 9,
                                                    j2 / 9,
                                                ) && !(c2 == j2 % 9 && r2 == j2 / 9);
                                            assert(j2 != i);
                                        }
                                    }
                                }
                            }
                        }
                        if old(self).inv() && (forall|j: int|
                            0 <= j < 81 && digit_char(#[trigger] input@[j]) ==> old(self).cand(
                                char_digit(input@[j]) - 1,
                                j % 9,
                                j / 9,
                            )) {
                            assert(pre.inv());
                            assert(pre.cand(number - 1, col as int, row as int)) by {
                                assert(row as int * 9 + col as int == i);
                                assert(old(self).cand(
                                    char_digit(input@[i as int]) - 1,
                                    i as int % 9,
                                    i as int / 9,
                                ));
                                if given_kills(input@, i as int, number - 1, col as int, row as int) {
                                    let j2 = choose|j2: int|
                                        0 <= j2 < i && digit_char(#[trigger] input@[j2])
                                            && char_digit(input@[j2]) - 1 == number - 1 && sees(
                                            col as int,
                                            row as int,
                                            j2 % 9,
                                            j2 / 9,
                                        ) && !(col as int == j2 % 9 && row as int == j2 / 9);
                                    assert(!sees(j2 % 9, j2 / 9, i as int % 9, i as int / 9));
                                    assert(false);
                                }
                            }
                            assert(self.inv());
                        }
                    }
                }
            } else if u == 46 {
                // '.': the cell stays empty
                proof {
                    if consistent_givens(input@) {
                        assert(!digit_char(input@[i as int]));
                        assert forall|p: int, c2: int, r2: int|
                            0 <= p < 9 && 0 <= c2 < 9 && 0 <= r2 < 9 implies (#[trigger] self.cand(
                            p,
                            c2,
                            r2,
                        ) <==> (if r2 * 9 + c2 < i + 1 && digit_char(input@[r2 * 9 + c2]) {
                            p == char_digit(input@[r2 * 9 + c2]) - 1
                        } else {
                            old(self).cand(p, c2, r2) && !given_kills(input@, i + 1, p, c2, r2)
                        })) by {
                            assert(given_kills(input@, i + 1, p, c2, r2) <==> given_kills(
                                input@,
                                i as int,
                                p,
                                c2,
                                r2,
                            )) by {
                                if given_kills(input@, i + 1, p, c2, r2) {
                                    let j2 = choose|j2: int|
                                        0 <= j2 < i + 1 && digit_char(#[trigger] input@[j2])
                                            && char_digit(input@[j2]) - 1 == p && sees(
                                            c2,
                                            r2,
                                            j2 % 9,
                                            j2 / 9,
                                        ) && !(c2 == j2 % 9 && r2 == j2 / 9);
                                    assert(j2 != i);
                                }
                            }
                        }
                    }
                }
            } else {
                proof {
                    assert(input@[i as int] == ch);
                    assert(!valid_char(ch));
                }
                return Err(InputError::InvalidChar(ch));
            }
            i = i + 1;
        }
        Ok(())
    }
}

/// The candidate flag that digit index `p` at cell (`c`, `r`) holds after
/// digit `n` is assigned to cell (`col`, `row`) in state `pre`: the assigned
/// cell keeps exactly its own digit, the digit disappears from every other
/// cell of the row, the column, and the box, and all else is untouched.
pub open spec fn assign_flag(pre: Sudoku, n: int, col: int, row: int, p: int, c: int, r: int) -> bool {
    if c == col && r == row {
        p == n - 1
    } else if p == n - 1 && sees(c, r, col, row) {
        false
    } else {
        pre.cand(p, c, r)
    }
}

/// Full effect of assigning digit `n` to cell (`col`, `row`): the cell takes
/// the digit, no other cell changes, and every candidate flag follows
/// [`assign_flag`].
pub open spec fn assign_post(pre: Sudoku, post: Sudoku, n: int, col: int, row: int) -> bool {
    &&& forall|c: int, r: int|
        0 <= c < 9 && 0 <= r < 9 ==> #[trigger] post.cell(c, r) == (if c == col && r == row {
            n
        } else {
            pre.cell(c, r)
        })
    &&& forall|p: int, c: int, r: int|
        0 <= p < 9 && 0 <= c < 9 && 0 <= r < 9 ==> (#[trigger] post.cand(p, c, r) <==> assign_flag(
            pre,
            n,
            col,
            row,
            p,
            c,
            r,
        ))
}

/// Assigning a digit that was still a candidate for the target cell keeps
/// every filled cell collapsed to its own digit and exclusive in its row,
/// column, and box.
proof fn lemma_assign_preserves_inv(pre: Sudoku, post: Sudoku, n: int, col: int, row: int)
    requires
        pre.inv(),
        post.wf(),
        1 <= n <= 9,
        0 <= col < 9,
        0 <= row < 9,
        pre.cand(n - 1, col, row),
        assign_post(pre, post, n, col, row),
    ensures
        post.inv(),
{
    assert forall|c: int, r: int|
        0 <= c < 9 && 0 <= r < 9 && #[trigger] post.cell(c, r) != 0 implies post.count(c, r) == 1
        && post.cand(post.cell(c, r) - 1, c, r) by {
        if c == col && r == row {
            assert(post.cell(c, r) == n);
            assert(post.cand(n - 1, c, r));
            assert forall|q: int| 0 <= q < 9 && q != n - 1 implies post.possibilities@[pidx(
                q,
                c,
                r,
            )] == 0 by {
                assert(!post.cand(q, c, r));
                assert(0 <= pidx(q, c, r) < 729);
            }
            assert(post.possibilities@[pidx(n - 1, c, r)] == 1);
            lemma_cell_count_upto_single(post.possibilities@, c, r, n - 1, 9);
        } else {
            let v = pre.cell(c, r);
            assert(v == post.cell(c, r));
            assert(pre.count(c, r) == 1 && pre.cand(v - 1, c, r));
            assert forall|q: int| 0 <= q < 9 implies post.possibilities@[#[trigger] pidx(
                q,
                c,
                r,
            )] == pre.possibilities@[pidx(q, c, r)] by {
                assert(0 <= pidx(q, c, r) < 729);
                if q == n - 1 && sees(c, r, col, row) {
                    if v == n {
                        assert(sees(col, row, c, r));
                        assert(!pre.cand(n - 1, col, row));
                        assert(false);
                    } else {
                        if pre.cand(n - 1, c, r) {
                            lemma_cell_count_one_unique(pre.possibilities@, c, r, v - 1, n - 1);
                            assert(false);
                        }
                        assert(!post.cand(q, c, r));
                    }
                } else {
                    assert(post.cand(q, c, r) == pre.cand(q, c, r));
                }
            }
            lemma_cell_count_congruent(post.possibilities@, pre.possibilities@, c, r, 9);
            assert(post.count(c, r) == 1);
            assert(post.possibilities@[pidx(v - 1, c, r)] == pre.possibilities@[pidx(v - 1, c, r)]);
            assert(post.cand(v - 1, c, r));
        }
    }
    assert forall|p: int, c: int, r: int, c2: int, r2: int|
        0 <= p < 9 && 0 <= c < 9 && 0 <= r < 9 && 0 <= c2 < 9 && 0 <= r2 < 9 && post.cell(c, r) == p
            + 1 && sees(c2, r2, c, r) && !(c2 == c && r2 == r) implies !post.cand(p, c2, r2) by {
        if c == col && r == row {
            assert(p == n - 1);
            assert(!post.cand(n - 1, c2, r2));
        } else {
            assert(pre.cell(c, r) == p + 1);
            if c2 == col && r2 == row {
                if p == n - 1 {
                    assert(sees(col, row, c, r));
                    assert(!pre.cand(n - 1, col, row));
                    assert(false);
                }
                assert(!post.cand(p, c2, r2));
            } else {
                assert(!pre.cand(p, c2, r2));
                assert(!post.cand(p, c2, r2));
            }
        }
    }
}

/// Assigning a digit that was still a candidate for the target cell never
/// raises the total number of set flags, and strictly lowers it when the
/// target cell still had more than its one candidate.
pub(crate) proof fn lemma_assign_progress(pre: Sudoku, post: Sudoku, n: int, col: int, row: int)
    requires
        pre.wf(),
        flags01(post.possibilities@),
        1 <= n <= 9,
        0 <= col < 9,
        0 <= row < 9,
        pre.cand(n - 1, col, row),
        assign_post(pre, post, n, col, row),
    ensures
        total(post.possibilities@) <= total(pre.possibilities@),
        pre.count(col, row) != 1 ==> total(post.possibilities@) < total(pre.possibilities@),
{
    assert forall|j: int| 0 <= j < 729 implies #[trigger] post.possibilities@[j]
        <= pre.possibilities@[j] by {
        let q = j / 81;
        let b = j % 81;
        let cx = b / 9;
        let rx = b % 9;
        assert(0 <= q < 9 && 0 <= cx < 9 && 0 <= rx < 9);
        assert(j == pidx(q, cx, rx));
        if post.cand(q, cx, rx) {
            assert(assign_flag(pre, n, col, row, q, cx, rx));
            assert(pre.cand(q, cx, rx));
            assert(pre.possibilities@[j] == 1);
        } else {
            assert(post.possibilities@[j] == 0);
            assert(pre.possibilities@[j] >= 0);
        }
    }
    lemma_total_upto_le(pre.possibilities@, post.possibilities@, 729);
    if pre.count(col, row) != 1 {
        assert(pre.possibilities@[pidx(n - 1, col, row)] == 1);
        assert(exists|q: int|
            0 <= q < 9 && q != n - 1 && pre.possibilities@[#[trigger] pidx(q, col, row)] == 1) by {
            if !(exists|q: int|
                0 <= q < 9 && q != n - 1 && pre.possibilities@[#[trigger] pidx(q, col, row)]
                    == 1) {
                assert forall|q: int| 0 <= q < 9 && q != n - 1 implies pre.possibilities@[#[trigger] pidx(
                    q,
                    col,
                    row,
                )] == 0 by {
                    assert(0 <= pidx(q, col, row) < 729);
                    assert(pre.possibilities@[pidx(q, col, row)] == 0 || pre.possibilities@[pidx(
                        q,
                        col,
                        row,
                    )] == 1);
                }
                lemma_cell_count_upto_single(pre.possibilities@, col, row, n - 1, 9);
                assert(false);
            }
        }
        let q = choose|q: int|
            0 <= q < 9 && q != n - 1 && pre.possibilities@[#[trigger] pidx(q, col, row)] == 1;
        assert(!assign_flag(pre, n, col, row, q, col, row));
        assert(!post.cand(q, col, row));
        assert(post.possibilities@[pidx(q, col, row)] == 0);
        assert(0 <= pidx(q, col, row) < 729);
        lemma_total_upto_lt(pre.possibilities@, post.possibilities@, 729, pidx(q, col, row));
    }
}

/// Assigning a digit to an empty cell lowers the number of empty cells by one.
proof fn lemma_assign_zeros(pre: Sudoku, post: Sudoku, n: int, col: int, row: int)
    requires
        pre.board@.len() == 81,
        post.board@.len() == 81,
        1 <= n <= 9,
        0 <= col < 9,
        0 <= row < 9,
        pre.cell(col, row) == 0,
        assign_post(pre, post, n, col, row),
    ensures
        zeros(post.board@) == zeros(pre.board@) - 1,
{
    let w = bidx(col, row);
    assert(0 <= w < 81);
    assert(post.cell(col, row) == n);
    assert(post.board@[w] != 0);
    assert forall|j: int| 0 <= j < 81 && j != w implies #[trigger] post.board@[j]
        == pre.board@[j] by {
        let cx = j / 9;
        let rx = j % 9;
        assert(0 <= cx < 9 && 0 <= rx < 9);
        assert(j == bidx(cx, rx));
        assert(post.cell(cx, rx) == pre.cell(cx, rx));
    }
    lemma_zeros_upto_update(pre.board@, post.board@, w, 81);
}

/// If every flag of the cell below `p` is set, the count up to `p` is `p`.
proof fn lemma_cell_count_upto_ones(poss: Seq<i32>, c: int, r: int, p: int)
    requires
        0 <= c < 9,
        0 <= r < 9,
        0 <= p <= 9,
        forall|q: int| 0 <= q < 9 ==> poss[#[trigger] pidx(q, c, r)] == 1,
    ensures
        cell_count_upto(poss, c, r, p) == p,
    decreases p,
{
    if p > 0 {
        lemma_cell_count_upto_ones(poss, c, r, p - 1);
    }
}

} // verus!
