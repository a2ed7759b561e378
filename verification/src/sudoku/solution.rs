//! What it means to solve a board, and which of its solutions the search finds.
//!
//! A solution of a board is a complete board that keeps the board's digits.
//! A board on which two digits clash has none. Of the solutions of a board
//! the search finds the one that comes first when boards are read as words of
//! 81 digits in row-major order.
use vstd::prelude::*;
use crate::sudoku::board::{
    at, complete, empty_board, in_grid, lemma_valid_iff_conflict_free, peers, same_box, sees,
    valid, well_formed, Board,
};

verus! {

/// The digit `d` stands somewhere in row `r`.
pub open spec fn row_has(b: Board, r: int, d: u8) -> bool {
    exists|c: int| 0 <= c < 9 && #[trigger] at(b, r, c) == d
}

/// The digit `d` stands somewhere in column `c`.
pub open spec fn col_has(b: Board, c: int, d: u8) -> bool {
    exists|r: int| 0 <= r < 9 && #[trigger] at(b, r, c) == d
}

/// The digit `d` stands somewhere in the block of cell `(r, c)`.
pub open spec fn box_has(b: Board, r: int, c: int, d: u8) -> bool {
    exists|i: int, j: int| in_grid(i, j) && same_box(r, c, i, j) && #[trigger] at(b, i, j) == d
}

/// The digit `d` occurs neither in row `r`, nor in column `c`, nor in the
/// block of `(r, c)`.
pub open spec fn safe(b: Board, r: int, c: int, d: u8) -> bool {
    !row_has(b, r, d) && !col_has(b, c, d) && !box_has(b, r, c, d)
}

/// `s` keeps every digit that `b` holds.
pub open spec fn extends(s: Board, b: Board) -> bool {
    forall|k: int| 0 <= k < 81 && #[trigger] b[k] != 0 ==> s[k] == b[k]
}

/// `s` is a complete board that keeps the digits of `b`.
pub open spec fn solution_of(s: Board, b: Board) -> bool {
    &&& well_formed(s)
    &&& complete(s)
    &&& extends(s, b)
}

/// Some complete board keeps the digits of `b`.
pub open spec fn solvable(b: Board) -> bool {
    exists|s: Board| solution_of(s, b)
}

/// `a` and `s` hold the same digits in the first `k` cells.
pub open spec fn agree_before(a: Board, s: Board, k: int) -> bool {
    forall|j: int| 0 <= j < k ==> #[trigger] a[j] == s[j]
}

/// `k` is the first cell in which `a` and `s` differ, and `a` holds the smaller digit there.
pub open spec fn smaller_at(a: Board, s: Board, k: int) -> bool {
    0 <= k < 81 && a[k] < s[k] && agree_before(a, s, k)
}

/// `a` comes before `s` when both are read as words of 81 digits.
pub open spec fn lex_lt(a: Board, s: Board) -> bool {
    exists|k: int| #[trigger] smaller_at(a, s, k)
}

/// `s` is the solution of `b` that comes first when solutions are read as
/// words of 81 digits in row-major order.
pub open spec fn is_least_solution(s: Board, b: Board) -> bool {
    &&& solution_of(s, b)
    &&& forall|t: Board| #[trigger] solution_of(t, b) ==> t == s || lex_lt(s, t)
}

/// A digit is safe for a cell exactly when no cell that the cell sees holds it.
pub proof fn lemma_safe_iff_unseen(b: Board, r: int, c: int, d: u8)
    requires
        in_grid(r, c),
    ensures
        safe(b, r, c, d) <==> forall|i: int, j: int|
            in_grid(i, j) && sees(r, c, i, j) ==> #[trigger] at(b, i, j) != d,
{
    if safe(b, r, c, d) {
        assert forall|i: int, j: int| in_grid(i, j) && sees(r, c, i, j) implies #[trigger] at(
            b,
            i,
            j,
        ) != d by {
            if at(b, i, j) == d {
                if i == r {
                    assert(row_has(b, r, d));
                } else if j == c {
                    assert(col_has(b, c, d));
                } else {
                    assert(box_has(b, r, c, d));
                }
            }
        }
    }
}

/// Only a valid board has a solution: two digits that clash on the board
/// clash on every board that keeps them.
pub proof fn lemma_solvable_is_valid(b: Board)
    requires
        solvable(b),
    ensures
        valid(b),
{
    let s = choose|s: Board| solution_of(s, b);
    lemma_valid_iff_conflict_free(s);
    assert forall|r1: int, c1: int, r2: int, c2: int|
        peers(r1, c1, r2, c2) && #[trigger] at(b, r1, c1) != 0 implies at(b, r1, c1)
        != #[trigger] at(b, r2, c2) by {
        if at(b, r1, c1) == at(b, r2, c2) {
            assert(at(s, r1, c1) == at(b, r1, c1));
            assert(at(s, r2, c2) == at(b, r2, c2));
        }
    }
    lemma_valid_iff_conflict_free(b);
}

/// A board has at most one least solution.
pub proof fn lemma_least_solution_unique(a: Board, s: Board, b: Board)
    requires
        is_least_solution(a, b),
        is_least_solution(s, b),
    ensures
        a == s,
{
    if a != s {
        assert(lex_lt(a, s));
        assert(lex_lt(s, a));
        let k1 = choose|k: int| #[trigger] smaller_at(a, s, k);
        let k2 = choose|k: int| #[trigger] smaller_at(s, a, k);
        if k1 < k2 {
            assert(s[k1] == a[k1]);
        } else if k2 < k1 {
            assert(a[k2] == s[k2]);
        }
    }
}

/// A complete board is its own and only solution.
pub proof fn lemma_complete_is_own_least_solution(b: Board)
    requires
        well_formed(b),
        complete(b),
    ensures
        is_least_solution(b, b),
{
    assert forall|t: Board| #[trigger] solution_of(t, b) implies t == b || lex_lt(b, t) by {
        assert forall|k: int| 0 <= k < 81 implies t[k] == b[k] by {
            assert(b[k] != 0);
        }
        assert(t =~= b);
    }
}

/// The digit at `(r, c)` of a board built by rule: each row is the row above
/// it shifted by three cells, and by one cell more from block to block.
pub open spec fn pattern_digit(r: int, c: int) -> int {
    (3 * (r % 3) + r / 3 + c) % 9 + 1
}

/// The board built by that rule.
pub open spec fn pattern_board() -> Board {
    Seq::new(81, |k: int| pattern_digit(k / 9, k % 9) as u8)
}

/// Two cells that share a row, a column or a block hold different digits on
/// the board built by rule.
proof fn lemma_pattern_digits_differ(r1: int, c1: int, r2: int, c2: int)
    requires
        peers(r1, c1, r2, c2),
    ensures
        pattern_digit(r1, c1) != pattern_digit(r2, c2),
{
    let a1 = r1 % 3;
    let q1 = r1 / 3;
    let a2 = r2 % 3;
    let q2 = r2 / 3;
    assert(r1 == 3 * q1 + a1 && 0 <= a1 < 3 && 0 <= q1 < 3);
    assert(r2 == 3 * q2 + a2 && 0 <= a2 < 3 && 0 <= q2 < 3);
    let x1 = 3 * a1 + q1 + c1;
    let x2 = 3 * a2 + q2 + c2;
    assert(0 <= x1 <= 16 && 0 <= x2 <= 16);
    let d = x1 - x2;
    if r1 == r2 {
        assert(d == c1 - c2);
        assert(d != 0 && -9 < d < 9);
    } else if c1 == c2 {
        assert(d == 3 * (a1 - a2) + (q1 - q2));
        assert(d != 0 && -9 < d < 9);
    } else {
        let b1 = c1 % 3;
        let t1 = c1 / 3;
        let b2 = c2 % 3;
        let t2 = c2 / 3;
        assert(c1 == 3 * t1 + b1 && 0 <= b1 < 3);
        assert(c2 == 3 * t2 + b2 && 0 <= b2 < 3);
        assert(q1 == q2 && t1 == t2);
        assert(d == 3 * (a1 - a2) + (b1 - b2));
        assert(d != 0 && -9 < d < 9);
    }
    assert(x1 % 9 != x2 % 9) by {
        let m1 = x1 % 9;
        let m2 = x2 % 9;
        let k1 = x1 / 9;
        let k2 = x2 / 9;
        assert(x1 == 9 * k1 + m1 && x2 == 9 * k2 + m2);
        assert(0 <= k1 <= 1 && 0 <= k2 <= 1);
        if m1 == m2 {
            assert(d == 9 * (k1 - k2));
        }
    }
}

/// The empty board has a solution: the board built by rule is complete.
pub proof fn lemma_empty_board_solvable()
    ensures
        solvable(empty_board()),
{
    let w = pattern_board();
    assert forall|k: int| 0 <= k < 81 implies 1 <= #[trigger] w[k] <= 9 by {
        assert(w[k] == pattern_digit(k / 9, k % 9) as u8);
    }
    assert forall|r1: int, c1: int, r2: int, c2: int|
        peers(r1, c1, r2, c2) && #[trigger] at(w, r1, c1) != 0 implies at(w, r1, c1)
        != #[trigger] at(w, r2, c2) by {
        lemma_pattern_at(r1, c1);
        lemma_pattern_at(r2, c2);
        lemma_pattern_digits_differ(r1, c1, r2, c2);
    }
    lemma_valid_iff_conflict_free(w);
    assert(solution_of(w, empty_board()));
}

/// The board built by rule holds at `(r, c)` the digit that the rule gives.
proof fn lemma_pattern_at(r: int, c: int)
    requires
        in_grid(r, c),
    ensures
        at(pattern_board(), r, c) == pattern_digit(r, c),
        1 <= pattern_digit(r, c) <= 9,
{
    assert((9 * r + c) / 9 == r && (9 * r + c) % 9 == c);
}

/// The first `n` cells of the board read as a number in base 10.
pub open spec fn rank(b: Board, n: int) -> int
    decreases n,
{
    if n <= 0 {
        0
    } else {
        10 * rank(b, n - 1) + b[n - 1]
    }
}

/// 10 to the power of `n`.
pub open spec fn pow10(n: int) -> int
    decreases n,
{
    if n <= 0 {
        1
    } else {
        10 * pow10(n - 1)
    }
}

/// A board read as a number has at most as many digits as cells were read.
pub proof fn lemma_rank_bound(b: Board, n: int)
    requires
        well_formed(b),
        0 <= n <= 81,
    ensures
        0 <= rank(b, n) < pow10(n),
    decreases n,
{
    if n > 0 {
        lemma_rank_bound(b, n - 1);
        assert(b[n - 1] <= 9);
    }
}

/// Reading order is the order of the numbers read: a board that comes before
/// another reads as the smaller number. So a sequence of boards that keeps
/// going up in reading order has fewer than 10^81 members.
pub proof fn lemma_lex_lt_rank(a: Board, s: Board)
    requires
        well_formed(a),
        well_formed(s),
        lex_lt(a, s),
    ensures
        0 <= rank(a, 81) < rank(s, 81) < pow10(81),
{
    let k = choose|k: int| #[trigger] smaller_at(a, s, k);
    lemma_rank_agree(a, s, k);
    lemma_rank_above(a, s, k, 81);
    lemma_rank_bound(a, 81);
    lemma_rank_bound(s, 81);
}

proof fn lemma_rank_agree(a: Board, s: Board, n: int)
    requires
        agree_before(a, s, n),
    ensures
        rank(a, n) == rank(s, n),
    decreases n,
{
    if n > 0 {
        lemma_rank_agree(a, s, n - 1);
        assert(a[n - 1] == s[n - 1]);
    }
}

proof fn lemma_rank_above(a: Board, s: Board, k: int, n: int)
    requires
        well_formed(a),
        well_formed(s),
        0 <= k < n <= 81,
        rank(a, k) == rank(s, k),
        a[k] < s[k],
    ensures
        rank(a, n) < rank(s, n),
    decreases n,
{
    if n > k + 1 {
        lemma_rank_above(a, s, k, n - 1);
        assert(a[n - 1] <= 9);
    }
}

/// `m` different numbers from 1 to `m` are all the numbers from 1 to `m`.
pub proof fn lemma_distinct_numbers_cover(v: Seq<int>, m: int, d: int)
    requires
        v.len() == m,
        forall|i: int| 0 <= i < m ==> 1 <= #[trigger] v[i] <= m,
        forall|i: int, j: int| 0 <= i < j < m ==> v[i] != v[j],
        1 <= d <= m,
    ensures
        exists|i: int| 0 <= i < m && v[i] == d,
    decreases m,
{
    if exists|j: int| 0 <= j < m && v[j] == m {
        let j = choose|j: int| 0 <= j < m && v[j] == m;
        if d < m {
            let rest = v.remove(j);
            assert forall|i: int| 0 <= i < m - 1 implies 1 <= #[trigger] rest[i] <= m - 1 by {
                if i < j {
                    assert(rest[i] == v[i]);
                } else {
                    assert(rest[i] == v[i + 1]);
                }
            }
            assert forall|i: int, k: int| 0 <= i < k < m - 1 implies rest[i] != rest[k] by {
                let i0 = if i < j {
                    i
                } else {
                    i + 1
                };
                let k0 = if k < j {
                    k
                } else {
                    k + 1
                };
                assert(rest[i] == v[i0]);
                assert(rest[k] == v[k0]);
            }
            lemma_distinct_numbers_cover(rest, m - 1, d);
            let i = choose|i: int| 0 <= i < m - 1 && rest[i] == d;
            let i0 = if i < j {
                i
            } else {
                i + 1
            };
            assert(v[i0] == d);
        }
    } else {
        let head = v.drop_last();
        let last = v[m - 1];
        assert forall|i: int| 0 <= i < m - 1 implies 1 <= #[trigger] head[i] <= m - 1 by {
            assert(head[i] == v[i]);
        }
        assert forall|i: int, k: int| 0 <= i < k < m - 1 implies head[i] != head[k] by {
            assert(head[i] == v[i]);
            assert(head[k] == v[k]);
        }
        lemma_distinct_numbers_cover(head, m - 1, last);
        let i = choose|i: int| 0 <= i < m - 1 && head[i] == last;
        assert(v[i] == v[m - 1]);
    }
}

/// On a complete board every row, every column and every block holds each
/// digit from 1 to 9.
pub proof fn lemma_complete_holds_every_digit(b: Board, r: int, c: int, d: u8)
    requires
        well_formed(b),
        complete(b),
        in_grid(r, c),
        1 <= d <= 9,
    ensures
        row_has(b, r, d),
        col_has(b, c, d),
        box_has(b, r, c, d),
{
    lemma_valid_iff_conflict_free(b);
    let row = Seq::new(9, |j: int| at(b, r, j) as int);
    assert forall|i: int, j: int| 0 <= i < j < 9 implies row[i] != row[j] by {
        assert(peers(r, i, r, j));
        assert(at(b, r, i) != 0);
    }
    assert forall|i: int| 0 <= i < 9 implies 1 <= #[trigger] row[i] <= 9 by {
        assert(at(b, r, i) != 0);
    }
    lemma_distinct_numbers_cover(row, 9, d as int);
    let j = choose|j: int| 0 <= j < 9 && row[j] == d;
    assert(at(b, r, j) == d);

    let col = Seq::new(9, |i: int| at(b, i, c) as int);
    assert forall|i: int, j: int| 0 <= i < j < 9 implies col[i] != col[j] by {
        assert(peers(i, c, j, c));
        assert(at(b, i, c) != 0);
    }
    assert forall|i: int| 0 <= i < 9 implies 1 <= #[trigger] col[i] <= 9 by {
        assert(at(b, i, c) != 0);
    }
    lemma_distinct_numbers_cover(col, 9, d as int);
    let i = choose|i: int| 0 <= i < 9 && col[i] == d;
    assert(at(b, i, c) == d);

    let top = 3 * (r / 3);
    let left = 3 * (c / 3);
    let block = Seq::new(9, |k: int| at(b, top + k / 3, left + k % 3) as int);
    assert forall|i: int, j: int| 0 <= i < j < 9 implies block[i] != block[j] by {
        assert(peers(top + i / 3, left + i % 3, top + j / 3, left + j % 3));
        assert(at(b, top + i / 3, left + i % 3) != 0);
    }
    assert forall|i: int| 0 <= i < 9 implies 1 <= #[trigger] block[i] <= 9 by {
        assert(at(b, top + i / 3, left + i % 3) != 0);
    }
    lemma_distinct_numbers_cover(block, 9, d as int);
    let k = choose|k: int| 0 <= k < 9 && block[k] == d;
    assert(in_grid(top + k / 3, left + k % 3));
    assert(same_box(r, c, top + k / 3, left + k % 3));
    assert(at(b, top + k / 3, left + k % 3) == d);
}

} // verus!
