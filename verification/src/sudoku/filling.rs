//! What the search does, whatever the board: it fills the empty cells from a
//! starting cell on, in row-major order, and checks each digit it places
//! against the cells that the digit sees. It never compares two digits that
//! were on the board before, and it leaves the cells before the start alone.
//!
//! A *filling* of a board from a cell on is what such a search can end with.
//! On a valid board, the fillings from the first cell on are exactly the
//! board's solutions.
use vstd::prelude::*;
use crate::sudoku::board::{
    at, in_grid, lemma_valid_iff_conflict_free, peers, pos, same_box, valid, well_formed,
    with_cell, Board,
};
use crate::sudoku::solution::{
    agree_before, col_has, extends, is_least_solution, lemma_safe_iff_unseen, lex_lt, row_has,
    safe, smaller_at, solution_of, solvable,
};

verus! {

/// `s` holds in the first `p` cells what `b` holds there.
pub open spec fn kept_before(s: Board, b: Board, p: int) -> bool {
    forall|k: int| 0 <= k < p && k < 81 ==> #[trigger] s[k] == b[k]
}

/// Every cell from place `p` on is filled.
pub open spec fn filled_from(s: Board, p: int) -> bool {
    forall|k: int| 0 <= k < 81 && p <= k ==> #[trigger] s[k] != 0
}

/// In `s`, every cell from place `p` on that is empty in `b` differs from
/// each of its peers.
pub open spec fn placed_legally_from(s: Board, b: Board, p: int) -> bool {
    forall|r1: int, c1: int, r2: int, c2: int|
        peers(r1, c1, r2, c2) && pos(r1, c1) >= p && #[trigger] at(b, r1, c1) == 0 ==> at(
            s,
            r1,
            c1,
        ) != #[trigger] at(s, r2, c2)
}

/// `s` is `b` with the empty cells from place `p` on filled, each with a
/// digit that none of its peers holds. The cells before `p` are as in `b`,
/// empty ones included.
pub open spec fn filling_from(s: Board, b: Board, p: int) -> bool {
    &&& well_formed(s)
    &&& kept_before(s, b, p)
    &&& filled_from(s, p)
    &&& extends(s, b)
    &&& placed_legally_from(s, b, p)
}

/// The board has a filling from place `p` on.
pub open spec fn fillable_from(b: Board, p: int) -> bool {
    exists|s: Board| filling_from(s, b, p)
}

/// `s` is the filling of `b` from place `p` on that comes first in reading order.
pub open spec fn is_least_filling_from(s: Board, b: Board, p: int) -> bool {
    &&& filling_from(s, b, p)
    &&& forall|t: Board| #[trigger] filling_from(t, b, p) ==> t == s || lex_lt(s, t)
}

/// A solution of a board is a filling of it from the first cell on.
pub proof fn lemma_solution_is_filling(s: Board, b: Board)
    requires
        solution_of(s, b),
    ensures
        filling_from(s, b, 0),
{
    lemma_valid_iff_conflict_free(s);
    assert forall|r1: int, c1: int, r2: int, c2: int|
        peers(r1, c1, r2, c2) && pos(r1, c1) >= 0 && #[trigger] at(b, r1, c1) == 0 implies at(
        s,
        r1,
        c1,
    ) != #[trigger] at(s, r2, c2) by {
        assert(at(s, r1, c1) != 0);
    }
}

/// A filling of a valid board is a valid board.
pub proof fn lemma_filling_keeps_valid(s: Board, b: Board, p: int)
    requires
        valid(b),
        filling_from(s, b, p),
    ensures
        valid(s),
{
    lemma_valid_iff_conflict_free(b);
    assert forall|r1: int, c1: int, r2: int, c2: int|
        peers(r1, c1, r2, c2) && #[trigger] at(s, r1, c1) != 0 implies at(s, r1, c1)
        != #[trigger] at(s, r2, c2) by {
        assert(peers(r2, c2, r1, c1));
        if pos(r1, c1) >= p && at(b, r1, c1) == 0 {
        } else if pos(r2, c2) >= p && at(b, r2, c2) == 0 {
        } else {
            assert(at(s, r1, c1) == at(b, r1, c1));
            assert(at(s, r2, c2) == at(b, r2, c2));
        }
    }
    lemma_valid_iff_conflict_free(s);
}

/// On a valid board, a filling from the first cell on is a solution.
pub proof fn lemma_filling_of_valid_is_solution(s: Board, b: Board)
    requires
        valid(b),
        filling_from(s, b, 0),
    ensures
        solution_of(s, b),
{
    lemma_filling_keeps_valid(s, b, 0);
}

/// On a valid board, the least filling from the first cell on is the least solution.
pub proof fn lemma_least_filling_is_least_solution(f: Board, b: Board)
    requires
        valid(b),
        is_least_filling_from(f, b, 0),
    ensures
        is_least_solution(f, b),
{
    lemma_filling_of_valid_is_solution(f, b);
    assert forall|t: Board| #[trigger] solution_of(t, b) implies t == f || lex_lt(f, t) by {
        lemma_solution_is_filling(t, b);
    }
}

/// A board without a filling from the first cell on has no solution.
pub proof fn lemma_unfillable_is_unsolvable(b: Board)
    requires
        !fillable_from(b, 0),
    ensures
        !solvable(b),
{
    if solvable(b) {
        let s = choose|s: Board| solution_of(s, b);
        lemma_solution_is_filling(s, b);
    }
}

/// A board that is filled from place `p` on is its own and only filling from there.
pub proof fn lemma_filled_tail_is_own_least_filling(b: Board, p: int)
    requires
        well_formed(b),
        filled_from(b, p),
    ensures
        is_least_filling_from(b, b, p),
{
    assert forall|r1: int, c1: int, r2: int, c2: int|
        peers(r1, c1, r2, c2) && pos(r1, c1) >= p && #[trigger] at(b, r1, c1) == 0 implies at(
        b,
        r1,
        c1,
    ) != #[trigger] at(b, r2, c2) by {
        assert(b[pos(r1, c1)] != 0);
    }
    assert forall|t: Board| #[trigger] filling_from(t, b, p) implies t == b || lex_lt(b, t) by {
        assert forall|k: int| 0 <= k < 81 implies t[k] == b[k] by {
            if k >= p {
                assert(b[k] != 0);
            }
        }
        assert(t =~= b);
    }
}

/// No filling puts into an empty cell a digit that the cell already sees.
pub proof fn lemma_unsafe_digit_excluded(b: Board, p: int, r: int, c: int, d: u8, s: Board)
    requires
        in_grid(r, c),
        pos(r, c) >= p,
        at(b, r, c) == 0,
        d != 0,
        !safe(b, r, c, d),
        filling_from(s, b, p),
    ensures
        at(s, r, c) != d,
{
    if row_has(b, r, d) {
        let j = choose|j: int| 0 <= j < 9 && #[trigger] at(b, r, j) == d;
        assert(peers(r, c, r, j));
        assert(at(s, r, j) == d);
    } else if col_has(b, c, d) {
        let i = choose|i: int| 0 <= i < 9 && #[trigger] at(b, i, c) == d;
        assert(peers(r, c, i, c));
        assert(at(s, i, c) == d);
    } else {
        let (i, j) = choose|i: int, j: int|
            in_grid(i, j) && same_box(r, c, i, j) && #[trigger] at(b, i, j) == d;
        assert(peers(r, c, i, j));
        assert(at(s, i, j) == d);
    }
}

/// A filling from `p` on is a filling from behind the first empty cell on,
/// once its digit for that cell is written onto the board.
pub proof fn lemma_filling_after_placement(b: Board, p: int, r: int, c: int, s: Board)
    requires
        b.len() == 81,
        in_grid(r, c),
        0 <= p <= pos(r, c),
        at(b, r, c) == 0,
        forall|k: int| p <= k < pos(r, c) ==> #[trigger] b[k] != 0,
        filling_from(s, b, p),
    ensures
        filling_from(s, with_cell(b, r, c, at(s, r, c)), pos(r, c) + 1),
{
    let q = pos(r, c);
    let b1 = with_cell(b, r, c, at(s, r, c));
    assert forall|k: int| 0 <= k < q + 1 && k < 81 implies #[trigger] s[k] == b1[k] by {
        if k < p {
            assert(s[k] == b[k]);
        } else if k < q {
            assert(b[k] != 0);
        }
    }
    assert forall|k: int| 0 <= k < 81 && #[trigger] b1[k] != 0 implies s[k] == b1[k] by {
        if k != q {
            assert(b[k] != 0);
        }
    }
    assert forall|r1: int, c1: int, r2: int, c2: int|
        peers(r1, c1, r2, c2) && pos(r1, c1) >= q + 1 && #[trigger] at(b1, r1, c1)
            == 0 implies at(s, r1, c1) != #[trigger] at(s, r2, c2) by {
        assert(at(b, r1, c1) == 0);
    }
}

/// A filling of the board with a safe digit placed in the first empty cell
/// at or after `p`, from behind that cell on, is a filling of the board
/// itself from `p` on.
pub proof fn lemma_filling_before_placement(b: Board, p: int, r: int, c: int, d: u8, s: Board)
    requires
        b.len() == 81,
        in_grid(r, c),
        0 <= p <= pos(r, c),
        at(b, r, c) == 0,
        forall|k: int| p <= k < pos(r, c) ==> #[trigger] b[k] != 0,
        d != 0,
        safe(b, r, c, d),
        filling_from(s, with_cell(b, r, c, d), pos(r, c) + 1),
    ensures
        filling_from(s, b, p),
        at(s, r, c) == d,
{
    let q = pos(r, c);
    let b1 = with_cell(b, r, c, d);
    assert(b1[q] == d);
    assert(s[q] == b1[q]);
    assert forall|k: int| 0 <= k < p && k < 81 implies #[trigger] s[k] == b[k] by {
        assert(s[k] == b1[k]);
    }
    assert forall|k: int| 0 <= k < 81 && p <= k implies #[trigger] s[k] != 0 by {
        if k < q {
            assert(s[k] == b1[k]);
            assert(b[k] != 0);
        }
    }
    assert forall|k: int| 0 <= k < 81 && #[trigger] b[k] != 0 implies s[k] == b[k] by {
        assert(b1[k] == b[k]);
    }
    lemma_safe_iff_unseen(b, r, c, d);
    assert forall|r1: int, c1: int, r2: int, c2: int|
        peers(r1, c1, r2, c2) && pos(r1, c1) >= p && #[trigger] at(b, r1, c1) == 0 implies at(
        s,
        r1,
        c1,
    ) != #[trigger] at(s, r2, c2) by {
        if r1 == r && c1 == c {
            let j = pos(r2, c2);
            assert(at(b, r2, c2) != d);
            if j < q {
                assert(s[j] == b1[j]);
            } else if at(b1, r2, c2) == 0 {
                assert(peers(r2, c2, r1, c1));
            } else {
                assert(at(s, r2, c2) == at(b1, r2, c2));
            }
        } else {
            assert(b[pos(r1, c1)] == 0);
            assert(pos(r1, c1) > q);
            assert(at(b1, r1, c1) == 0);
        }
    }
}

/// The least filling that starts with the smallest digit any filling can
/// hold in the first empty cell is the least filling of the board.
pub proof fn lemma_least_filling_lifts(b: Board, p: int, r: int, c: int, d: u8, f: Board)
    requires
        well_formed(b),
        in_grid(r, c),
        0 <= p <= pos(r, c),
        at(b, r, c) == 0,
        forall|k: int| p <= k < pos(r, c) ==> #[trigger] b[k] != 0,
        d != 0,
        safe(b, r, c, d),
        forall|s: Board| #[trigger] filling_from(s, b, p) ==> at(s, r, c) >= d,
        is_least_filling_from(f, with_cell(b, r, c, d), pos(r, c) + 1),
    ensures
        is_least_filling_from(f, b, p),
{
    let q = pos(r, c);
    lemma_filling_before_placement(b, p, r, c, d, f);
    assert forall|t: Board| #[trigger] filling_from(t, b, p) implies t == f || lex_lt(f, t) by {
        if at(t, r, c) == d {
            lemma_filling_after_placement(b, p, r, c, t);
        } else {
            assert(agree_before(f, t, q)) by {
                assert forall|j: int| 0 <= j < q implies #[trigger] f[j] == t[j] by {
                    if j < p {
                        assert(f[j] == b[j]);
                        assert(t[j] == b[j]);
                    } else {
                        assert(b[j] != 0);
                    }
                }
            }
            assert(smaller_at(f, t, q));
        }
    }
}

} // verus!
