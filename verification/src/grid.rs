//! Index arithmetic and counting functions for the 9x9 board and the
//! 9x9x9 candidate store, both kept as flat sequences, together with the
//! induction lemmas about those counts that the solver's proofs rely on.

use vstd::prelude::*;

verus! {

/// Flat index of cell (column `c`, row `r`) in a 9x9 grid stored column by column.
pub open spec fn bidx(c: int, r: int) -> int {
    c * 9 + r
}

/// Flat index of the candidate flag for digit index `p` (digit `p + 1`) at cell (`c`, `r`).
pub open spec fn pidx(p: int, c: int, r: int) -> int {
    p * 81 + c * 9 + r
}

/// Cell (`c1`, `r1`) shares a row, a column, or a 3x3 box with cell (`c2`, `r2`).
pub open spec fn sees(c1: int, r1: int, c2: int, r2: int) -> bool {
    r1 == r2 || c1 == c2 || (c1 / 3 == c2 / 3 && r1 / 3 == r2 / 3)
}

/// Column of the `k`-th cell (scanning each box row by row) of the box in box column `bc`.
pub open spec fn box_cell_col(bc: int, k: int) -> int {
    bc * 3 + k % 3
}

/// Row of the `k`-th cell (scanning each box row by row) of the box in box row `br`.
pub open spec fn box_cell_row(br: int, k: int) -> int {
    br * 3 + k / 3
}

/// The candidate store is a 729-element sequence of 0/1 flags.
pub open spec fn flags01(poss: Seq<i32>) -> bool {
    &&& poss.len() == 729
    &&& forall|i: int| 0 <= i < 729 ==> #[trigger] poss[i] == 0 || poss[i] == 1
}

/// Sum of the first `p` candidate flags of cell (`c`, `r`).
pub open spec fn cell_count_upto(poss: Seq<i32>, c: int, r: int, p: int) -> int
    decreases p,
{
    if p <= 0 {
        0
    } else {
        cell_count_upto(poss, c, r, p - 1) + poss[pidx(p - 1, c, r)]
    }
}

/// Number of digits still marked possible for cell (`c`, `r`).
pub open spec fn cell_count(poss: Seq<i32>, c: int, r: int) -> int {
    cell_count_upto(poss, c, r, 9)
}

/// Sum of the candidate flags for digit index `p` over the first `c` columns of row `r`.
pub open spec fn row_count_upto(poss: Seq<i32>, p: int, r: int, c: int) -> int
    decreases c,
{
    if c <= 0 {
        0
    } else {
        row_count_upto(poss, p, r, c - 1) + poss[pidx(p, c - 1, r)]
    }
}

/// Number of cells of row `r` where digit index `p` is still a candidate.
pub open spec fn row_count(poss: Seq<i32>, p: int, r: int) -> int {
    row_count_upto(poss, p, r, 9)
}

/// Sum of the candidate flags for digit index `p` over the first `r` rows of column `c`.
pub open spec fn col_count_upto(poss: Seq<i32>, p: int, c: int, r: int) -> int
    decreases r,
{
    if r <= 0 {
        0
    } else {
        col_count_upto(poss, p, c, r - 1) + poss[pidx(p, c, r - 1)]
    }
}

/// Number of cells of column `c` where digit index `p` is still a candidate.
pub open spec fn col_count(poss: Seq<i32>, p: int, c: int) -> int {
    col_count_upto(poss, p, c, 9)
}

/// Sum of the candidate flags for digit index `p` over the first `k` cells of
/// the box at box column `bc`, box row `br`.
pub open spec fn box_count_upto(poss: Seq<i32>, p: int, bc: int, br: int, k: int) -> int
    decreases k,
{
    if k <= 0 {
        0
    } else {
        box_count_upto(poss, p, bc, br, k - 1) + poss[pidx(p, box_cell_col(bc, k - 1), box_cell_row(br, k - 1))]
    }
}

/// Number of cells of the box at (`bc`, `br`) where digit index `p` is still a candidate.
pub open spec fn box_count(poss: Seq<i32>, p: int, bc: int, br: int) -> int {
    box_count_upto(poss, p, bc, br, 9)
}

/// Sum of the first `i` entries of a flat sequence.
pub open spec fn total_upto(poss: Seq<i32>, i: int) -> int
    decreases i,
{
    if i <= 0 {
        0
    } else {
        total_upto(poss, i - 1) + poss[i - 1]
    }
}

/// Total number of set candidate flags across the whole store.
pub open spec fn total(poss: Seq<i32>) -> int {
    total_upto(poss, 729)
}

/// Number of empty cells among the first `i` entries of a flat board.
pub open spec fn zeros_upto(board: Seq<i32>, i: int) -> int
    decreases i,
{
    if i <= 0 {
        0
    } else {
        zeros_upto(board, i - 1) + (if board[i - 1] == 0 {
            1int
        } else {
            0int
        })
    }
}

/// Number of empty cells of a flat 81-entry board.
pub open spec fn zeros(board: Seq<i32>) -> int {
    zeros_upto(board, 81)
}

/// Sum of the first `c` cells of row `r`.
pub open spec fn row_sum_upto(board: Seq<i32>, r: int, c: int) -> int
    decreases c,
{
    if c <= 0 {
        0
    } else {
        row_sum_upto(board, r, c - 1) + board[bidx(c - 1, r)]
    }
}

/// Sum of the nine cells of row `r`.
pub open spec fn row_sum(board: Seq<i32>, r: int) -> int {
    row_sum_upto(board, r, 9)
}

/// Sum of the first `r` cells of column `c`.
pub open spec fn col_sum_upto(board: Seq<i32>, c: int, r: int) -> int
    decreases r,
{
    if r <= 0 {
        0
    } else {
        col_sum_upto(board, c, r - 1) + board[bidx(c, r - 1)]
    }
}

/// Sum of the nine cells of column `c`.
pub open spec fn col_sum(board: Seq<i32>, c: int) -> int {
    col_sum_upto(board, c, 9)
}

/// Sum of the first `k` cells of the box at box column `bc`, box row `br`.
pub open spec fn box_sum_upto(board: Seq<i32>, bc: int, br: int, k: int) -> int
    decreases k,
{
    if k <= 0 {
        0
    } else {
        box_sum_upto(board, bc, br, k - 1) + board[bidx(box_cell_col(bc, k - 1), box_cell_row(br, k - 1))]
    }
}

/// Sum of the nine cells of the box at (`bc`, `br`).
pub open spec fn box_sum(board: Seq<i32>, bc: int, br: int) -> int {
    box_sum_upto(board, bc, br, 9)
}

/// Two cells whose candidate flags agree digit by digit have the same count.
pub proof fn lemma_cell_count_congruent(poss1: Seq<i32>, poss2: Seq<i32>, c: int, r: int, p: int)
    requires
        forall|q: int| 0 <= q < p ==> poss1[#[trigger] pidx(q, c, r)] == poss2[pidx(q, c, r)],
    ensures
        cell_count_upto(poss1, c, r, p) == cell_count_upto(poss2, c, r, p),
    decreases p,
{
    if p > 0 {
        lemma_cell_count_congruent(poss1, poss2, c, r, p - 1);
    }
}

/// If every digit below `p` is cleared at the cell, its count up to `p` is zero.
pub proof fn lemma_cell_count_upto_zero(poss: Seq<i32>, c: int, r: int, p: int)
    requires
        forall|q: int| 0 <= q < p ==> poss[#[trigger] pidx(q, c, r)] == 0,
    ensures
        cell_count_upto(poss, c, r, p) == 0,
    decreases p,
{
    if p > 0 {
        lemma_cell_count_upto_zero(poss, c, r, p - 1);
    }
}

/// If exactly the flag of digit index `p0` is set at the cell, its count is one.
pub proof fn lemma_cell_count_upto_single(poss: Seq<i32>, c: int, r: int, p0: int, p: int)
    requires
        0 <= p0 < 9,
        0 <= p <= 9,
        poss[pidx(p0, c, r)] == 1,
        forall|q: int| 0 <= q < 9 && q != p0 ==> poss[#[trigger] pidx(q, c, r)] == 0,
    ensures
        cell_count_upto(poss, c, r, p) == if p0 < p {
            1int
        } else {
            0int
        },
    decreases p,
{
    if p > 0 {
        lemma_cell_count_upto_single(poss, c, r, p0, p - 1);
    }
}

/// Two distinct set flags at one cell push its count to at least two.
pub proof fn lemma_cell_count_upto_two(poss: Seq<i32>, c: int, r: int, pa: int, pb: int, p: int)
    requires
        flags01(poss),
        0 <= c < 9,
        0 <= r < 9,
        0 <= pa < pb < 9,
        poss[pidx(pa, c, r)] == 1,
        poss[pidx(pb, c, r)] == 1,
        0 <= p <= 9,
    ensures
        cell_count_upto(poss, c, r, p) >= (if pa < p {
            1int
        } else {
            0int
        }) + (if pb < p {
            1int
        } else {
            0int
        }),
    decreases p,
{
    if p > 0 {
        lemma_cell_count_upto_two(poss, c, r, pa, pb, p - 1);
        assert(0 <= pidx(p - 1, c, r) < 729);
    }
}

/// A cell with exactly one candidate has only one set flag.
pub proof fn lemma_cell_count_one_unique(poss: Seq<i32>, c: int, r: int, pa: int, pb: int)
    requires
        flags01(poss),
        0 <= c < 9,
        0 <= r < 9,
        cell_count(poss, c, r) == 1,
        0 <= pa < 9,
        0 <= pb < 9,
        poss[pidx(pa, c, r)] == 1,
        poss[pidx(pb, c, r)] == 1,
    ensures
        pa == pb,
{
    if pa < pb {
        lemma_cell_count_upto_two(poss, c, r, pa, pb, 9);
    } else if pb < pa {
        lemma_cell_count_upto_two(poss, c, r, pb, pa, 9);
    }
}

/// Two set flags for a digit in distinct columns of a row push its row count to at least two.
pub proof fn lemma_row_count_upto_two(poss: Seq<i32>, p: int, r: int, ca: int, cb: int, c: int)
    requires
        flags01(poss),
        0 <= p < 9,
        0 <= r < 9,
        0 <= ca < cb < 9,
        poss[pidx(p, ca, r)] == 1,
        poss[pidx(p, cb, r)] == 1,
        0 <= c <= 9,
    ensures
        row_count_upto(poss, p, r, c) >= (if ca < c {
            1int
        } else {
            0int
        }) + (if cb < c {
            1int
        } else {
            0int
        }),
    decreases c,
{
    if c > 0 {
        lemma_row_count_upto_two(poss, p, r, ca, cb, c - 1);
        assert(0 <= pidx(p, c - 1, r) < 729);
    }
}

/// A digit with row count one sits in a single column of that row.
pub proof fn lemma_row_count_one_unique(poss: Seq<i32>, p: int, r: int, ca: int, cb: int)
    requires
        flags01(poss),
        0 <= p < 9,
        0 <= r < 9,
        row_count(poss, p, r) == 1,
        0 <= ca < 9,
        0 <= cb < 9,
        poss[pidx(p, ca, r)] == 1,
        poss[pidx(p, cb, r)] == 1,
    ensures
        ca == cb,
{
    if ca < cb {
        lemma_row_count_upto_two(poss, p, r, ca, cb, 9);
    } else if cb < ca {
        lemma_row_count_upto_two(poss, p, r, cb, ca, 9);
    }
}

/// Two set flags for a digit in distinct rows of a column push its column count to at least two.
pub proof fn lemma_col_count_upto_two(poss: Seq<i32>, p: int, c: int, ra: int, rb: int, r: int)
    requires
        flags01(poss),
        0 <= p < 9,
        0 <= c < 9,
        0 <= ra < rb < 9,
        poss[pidx(p, c, ra)] == 1,
        poss[pidx(p, c, rb)] == 1,
        0 <= r <= 9,
    ensures
        col_count_upto(poss, p, c, r) >= (if ra < r {
            1int
        } else {
            0int
        }) + (if rb < r {
            1int
        } else {
            0int
        }),
    decreases r,
{
    if r > 0 {
        lemma_col_count_upto_two(poss, p, c, ra, rb, r - 1);
        assert(0 <= pidx(p, c, r - 1) < 729);
    }
}

/// A digit with column count one sits in a single row of that column.
pub proof fn lemma_col_count_one_unique(poss: Seq<i32>, p: int, c: int, ra: int, rb: int)
    requires
        flags01(poss),
        0 <= p < 9,
        0 <= c < 9,
        col_count(poss, p, c) == 1,
        0 <= ra < 9,
        0 <= rb < 9,
        poss[pidx(p, c, ra)] == 1,
        poss[pidx(p, c, rb)] == 1,
    ensures
        ra == rb,
{
    if ra < rb {
        lemma_col_count_upto_two(poss, p, c, ra, rb, 9);
    } else if rb < ra {
        lemma_col_count_upto_two(poss, p, c, rb, ra, 9);
    }
}

/// Two set flags for a digit at distinct cells of a box push its box count to at least two.
pub proof fn lemma_box_count_upto_two(poss: Seq<i32>, p: int, bc: int, br: int, ka: int, kb: int, k: int)
    requires
        flags01(poss),
        0 <= p < 9,
        0 <= bc < 3,
        0 <= br < 3,
        0 <= ka < kb < 9,
        poss[pidx(p, box_cell_col(bc, ka), box_cell_row(br, ka))] == 1,
        poss[pidx(p, box_cell_col(bc, kb), box_cell_row(br, kb))] == 1,
        0 <= k <= 9,
    ensures
        box_count_upto(poss, p, bc, br, k) >= (if ka < k {
            1int
        } else {
            0int
        }) + (if kb < k {
            1int
        } else {
            0int
        }),
    decreases k,
{
    if k > 0 {
        lemma_box_count_upto_two(poss, p, bc, br, ka, kb, k - 1);
        assert(0 <= pidx(p, box_cell_col(bc, k - 1), box_cell_row(br, k - 1)) < 729);
    }
}

/// A digit with box count one sits at a single cell of that box.
pub proof fn lemma_box_count_one_unique(poss: Seq<i32>, p: int, bc: int, br: int, ka: int, kb: int)
    requires
        flags01(poss),
        0 <= p < 9,
        0 <= bc < 3,
        0 <= br < 3,
        box_count(poss, p, bc, br) == 1,
        0 <= ka < 9,
        0 <= kb < 9,
        poss[pidx(p, box_cell_col(bc, ka), box_cell_row(br, ka))] == 1,
        poss[pidx(p, box_cell_col(bc, kb), box_cell_row(br, kb))] == 1,
    ensures
        ka == kb,
{
    if ka < kb {
        lemma_box_count_upto_two(poss, p, bc, br, ka, kb, 9);
    } else if kb < ka {
        lemma_box_count_upto_two(poss, p, bc, br, kb, ka, 9);
    }
}

/// A store that is nowhere larger than another has no larger total.
pub proof fn lemma_total_upto_le(poss1: Seq<i32>, poss2: Seq<i32>, i: int)
    requires
        forall|j: int| 0 <= j < i ==> #[trigger] poss2[j] <= poss1[j],
    ensures
        total_upto(poss2, i) <= total_upto(poss1, i),
    decreases i,
{
    if i > 0 {
        lemma_total_upto_le(poss1, poss2, i - 1);
    }
}

/// A store that is nowhere larger, and somewhere strictly smaller, has a strictly smaller total.
pub proof fn lemma_total_upto_lt(poss1: Seq<i32>, poss2: Seq<i32>, i: int, w: int)
    requires
        forall|j: int| 0 <= j < i ==> #[trigger] poss2[j] <= poss1[j],
        0 <= w < i,
        poss2[w] < poss1[w],
    ensures
        total_upto(poss2, i) < total_upto(poss1, i),
    decreases i,
{
    if w == i - 1 {
        lemma_total_upto_le(poss1, poss2, i - 1);
    } else {
        lemma_total_upto_lt(poss1, poss2, i - 1, w);
    }
}

/// A store of nonnegative entries has a nonnegative total.
pub proof fn lemma_total_upto_nonneg(poss: Seq<i32>, i: int)
    requires
        forall|j: int| 0 <= j < i ==> #[trigger] poss[j] >= 0,
    ensures
        total_upto(poss, i) >= 0,
    decreases i,
{
    if i > 0 {
        lemma_total_upto_nonneg(poss, i - 1);
    }
}

/// The number of empty cells is never negative.
pub proof fn lemma_zeros_upto_nonneg(board: Seq<i32>, i: int)
    ensures
        zeros_upto(board, i) >= 0,
    decreases i,
{
    if i > 0 {
        lemma_zeros_upto_nonneg(board, i - 1);
    }
}

/// Writing a digit into one empty cell lowers the number of empty cells by one.
pub proof fn lemma_zeros_upto_update(board1: Seq<i32>, board2: Seq<i32>, w: int, i: int)
    requires
        0 <= w < 81,
        board1[w] == 0,
        board2[w] != 0,
        forall|j: int| 0 <= j < 81 && j != w ==> #[trigger] board2[j] == board1[j],
        0 <= i <= 81,
    ensures
        zeros_upto(board2, i) == zeros_upto(board1, i) - (if w < i {
            1int
        } else {
            0int
        }),
    decreases i,
{
    if i > 0 {
        lemma_zeros_upto_update(board1, board2, w, i - 1);
    }
}

} // verus!
