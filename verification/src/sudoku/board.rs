//! The mathematical model of a Sudoku board, over which every contract of the
//! crate is stated.
//!
//! A board is a sequence of 81 digits in row-major order: the cell in row `r`
//! and column `c` stands at index `9 * r + c`. The digit 0 marks an empty cell.
use vstd::prelude::*;

verus! {

/// 81 cells in row-major order.
pub type Board = Seq<u8>;

/// `(r, c)` names a cell of the grid.
pub open spec fn in_grid(r: int, c: int) -> bool {
    0 <= r < 9 && 0 <= c < 9
}

/// The place of cell `(r, c)` in row-major order.
pub open spec fn pos(r: int, c: int) -> int {
    9 * r + c
}

/// The digit in row `r`, column `c`.
pub open spec fn at(b: Board, r: int, c: int) -> u8 {
    b[9 * r + c]
}

/// The board `b` with the digit `v` written to row `r`, column `c`.
pub open spec fn with_cell(b: Board, r: int, c: int, v: u8) -> Board {
    b.update(9 * r + c, v)
}

/// The board has 81 cells and each holds 0 (empty) or a digit from 1 to 9.
pub open spec fn well_formed(b: Board) -> bool {
    &&& b.len() == 81
    &&& forall|k: int| 0 <= k < 81 ==> #[trigger] b[k] <= 9
}

/// The board with no digit placed.
pub open spec fn empty_board() -> Board {
    Seq::new(81, |k: int| 0u8)
}

/// No cell is empty.
pub open spec fn filled(b: Board) -> bool {
    forall|k: int| 0 <= k < 81 ==> #[trigger] b[k] != 0
}

/// How many of the first `n` cells are empty.
pub open spec fn blanks_before(b: Board, n: int) -> int
    decreases n,
{
    if n <= 0 {
        0
    } else {
        blanks_before(b, n - 1) + if b[n - 1] == 0 {
            1int
        } else {
            0int
        }
    }
}

/// How many cells of the board are empty.
pub open spec fn blank_count(b: Board) -> int {
    blanks_before(b, 81)
}

/// Both cells lie in the same 3×3 block.
pub open spec fn same_box(r1: int, c1: int, r2: int, c2: int) -> bool {
    r1 / 3 == r2 / 3 && c1 / 3 == c2 / 3
}

/// The cells share a row, a column or a block.
pub open spec fn sees(r1: int, c1: int, r2: int, c2: int) -> bool {
    r1 == r2 || c1 == c2 || same_box(r1, c1, r2, c2)
}

/// Two different cells of the grid that share a row, a column or a block.
pub open spec fn peers(r1: int, c1: int, r2: int, c2: int) -> bool {
    &&& in_grid(r1, c1)
    &&& in_grid(r2, c2)
    &&& (r1 != r2 || c1 != c2)
    &&& sees(r1, c1, r2, c2)
}

/// Cell `(r, c)` lies in block `k`, blocks being numbered row by row from 0 to 8.
pub open spec fn in_box(k: int, r: int, c: int) -> bool {
    in_grid(r, c) && r / 3 == k / 3 && c / 3 == k % 3
}

/// No digit other than 0 occurs twice in row `r`.
pub open spec fn row_valid(b: Board, r: int) -> bool {
    forall|c1: int, c2: int|
        0 <= c1 < 9 && 0 <= c2 < 9 && c1 != c2 && #[trigger] at(b, r, c1) != 0 ==> at(b, r, c1)
            != #[trigger] at(b, r, c2)
}

/// No digit other than 0 occurs twice in column `c`.
pub open spec fn col_valid(b: Board, c: int) -> bool {
    forall|r1: int, r2: int|
        0 <= r1 < 9 && 0 <= r2 < 9 && r1 != r2 && #[trigger] at(b, r1, c) != 0 ==> at(b, r1, c)
            != #[trigger] at(b, r2, c)
}

/// No digit other than 0 occurs twice in block `k`.
pub open spec fn box_valid(b: Board, k: int) -> bool {
    forall|r1: int, c1: int, r2: int, c2: int|
        in_box(k, r1, c1) && in_box(k, r2, c2) && (r1 != r2 || c1 != c2) && #[trigger] at(
            b,
            r1,
            c1,
        ) != 0 ==> at(b, r1, c1) != #[trigger] at(b, r2, c2)
}

/// No row, column or block holds a digit other than 0 twice.
pub open spec fn valid(b: Board) -> bool {
    &&& forall|r: int| 0 <= r < 9 ==> #[trigger] row_valid(b, r)
    &&& forall|c: int| 0 <= c < 9 ==> #[trigger] col_valid(b, c)
    &&& forall|k: int| 0 <= k < 9 ==> #[trigger] box_valid(b, k)
}

/// Every cell is filled and the board is valid.
pub open spec fn complete(b: Board) -> bool {
    filled(b) && valid(b)
}

/// No filled cell holds the digit of one of its peers.
pub open spec fn conflict_free(b: Board) -> bool {
    forall|r1: int, c1: int, r2: int, c2: int|
        peers(r1, c1, r2, c2) && #[trigger] at(b, r1, c1) != 0 ==> at(b, r1, c1)
            != #[trigger] at(b, r2, c2)
}

/// A board is valid exactly when no filled cell repeats the digit of a peer.
pub proof fn lemma_valid_iff_conflict_free(b: Board)
    ensures
        valid(b) <==> conflict_free(b),
{
    if valid(b) {
        assert forall|r1: int, c1: int, r2: int, c2: int|
            peers(r1, c1, r2, c2) && #[trigger] at(b, r1, c1) != 0 implies at(b, r1, c1)
            != #[trigger] at(b, r2, c2) by {
            let k = 3 * (r1 / 3) + c1 / 3;
            assert(row_valid(b, r1));
            assert(col_valid(b, c1));
            assert(box_valid(b, k));
            if r1 == r2 {
            } else if c1 == c2 {
            } else {
                assert(in_box(k, r1, c1));
                assert(in_box(k, r2, c2));
            }
        }
    }
    if conflict_free(b) {
        assert forall|i: int| 0 <= i < 9 implies #[trigger] row_valid(b, i) by {
            assert forall|c1: int, c2: int|
                0 <= c1 < 9 && 0 <= c2 < 9 && c1 != c2 && #[trigger] at(b, i, c1) != 0 implies at(
                b,
                i,
                c1,
            ) != #[trigger] at(b, i, c2) by {
                assert(peers(i, c1, i, c2));
            }
        }
        assert forall|i: int| 0 <= i < 9 implies #[trigger] col_valid(b, i) by {
            assert forall|r1: int, r2: int|
                0 <= r1 < 9 && 0 <= r2 < 9 && r1 != r2 && #[trigger] at(b, r1, i) != 0 implies at(
                b,
                r1,
                i,
            ) != #[trigger] at(b, r2, i) by {
                assert(peers(r1, i, r2, i));
            }
        }
        assert forall|i: int| 0 <= i < 9 implies #[trigger] box_valid(b, i) by {
            assert forall|r1: int, c1: int, r2: int, c2: int|
                in_box(i, r1, c1) && in_box(i, r2, c2) && (r1 != r2 || c1 != c2) && #[trigger] at(
                    b,
                    r1,
                    c1,
                ) != 0 implies at(b, r1, c1) != #[trigger] at(b, r2, c2) by {
                assert(peers(r1, c1, r2, c2));
            }
        }
    }
}

/// Emptying a filled cell adds one to the number of empty cells.
pub proof fn lemma_blank_count_after_clear(b: Board, k: int)
    requires
        b.len() == 81,
        0 <= k < 81,
        b[k] != 0,
    ensures
        blank_count(b.update(k, 0)) == blank_count(b) + 1,
{
    lemma_blanks_before_after_clear(b, k, 81);
}

proof fn lemma_blanks_before_after_clear(b: Board, k: int, n: int)
    requires
        b.len() == 81,
        0 <= k < 81,
        b[k] != 0,
        0 <= n <= 81,
    ensures
        blanks_before(b.update(k, 0), n) == blanks_before(b, n) + if k < n {
            1int
        } else {
            0int
        },
    decreases n,
{
    if n > 0 {
        lemma_blanks_before_after_clear(b, k, n - 1);
    }
}

/// The number of empty cells lies between 0 and 81, and is 0 on a filled board.
pub proof fn lemma_blank_count_bounds(b: Board)
    requires
        b.len() == 81,
    ensures
        0 <= blank_count(b) <= 81,
        filled(b) ==> blank_count(b) == 0,
{
    lemma_blanks_before_bounds(b, 81);
}

proof fn lemma_blanks_before_bounds(b: Board, n: int)
    requires
        b.len() == 81,
        0 <= n <= 81,
    ensures
        0 <= blanks_before(b, n) <= n,
        filled(b) ==> blanks_before(b, n) == 0,
    decreases n,
{
    if n > 0 {
        lemma_blanks_before_bounds(b, n - 1);
    }
}

/// A valid board stays valid when one of its cells is emptied.
pub proof fn lemma_valid_after_clear(b: Board, r: int, c: int)
    requires
        b.len() == 81,
        in_grid(r, c),
        valid(b),
    ensures
        valid(with_cell(b, r, c, 0)),
{
    let b1 = with_cell(b, r, c, 0);
    lemma_valid_iff_conflict_free(b);
    assert forall|r1: int, c1: int, r2: int, c2: int|
        peers(r1, c1, r2, c2) && #[trigger] at(b1, r1, c1) != 0 implies at(b1, r1, c1)
        != #[trigger] at(b1, r2, c2) by {
        assert(at(b1, r1, c1) == at(b, r1, c1));
        assert(at(b1, r2, c2) == at(b, r2, c2) || at(b1, r2, c2) == 0);
    }
    lemma_valid_iff_conflict_free(b1);
}

} // verus!
