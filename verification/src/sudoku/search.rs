//! The depth-first search as data: a stack of placements over a working
//! board, and what holds of it between any two steps.
//!
//! A filling is what the search can end with: see the module `filling`. All
//! fillings here are from the first cell on.
//!
//! The stack lists, from the bottom up, the cells that the search has filled
//! and not yet given up, in row-major order. The invariant says that the
//! working board is the starting board plus these placements, that each
//! placement is legal, and that no filling of the starting board comes
//! before the working board in row-major reading.
use vstd::prelude::*;
use crate::sudoku::board::{
    at, filled, in_grid, peers, pos, same_box, well_formed, with_cell, Board,
};
use crate::sudoku::filling::{fillable_from, filling_from, is_least_filling_from};
use crate::sudoku::solution::{
    agree_before, col_has, lemma_safe_iff_unseen, lex_lt, row_has, safe, smaller_at,
};

verus! {

/// One entry of the stack: a cell and the digits placed there so far, the
/// last of them being the digit that the working board holds.
pub ghost struct StepView {
    pub row: int,
    pub col: int,
    pub tried: Seq<u8>,
}

/// The place of the entry's cell in row-major order.
pub open spec fn step_pos(e: StepView) -> int {
    pos(e.row, e.col)
}

/// The digits tried at a cell: at least one, each from 1 to 9, in ascending order.
pub open spec fn tried_ok(tried: Seq<u8>) -> bool {
    &&& tried.len() > 0
    &&& forall|i: int| 0 <= i < tried.len() ==> 1 <= #[trigger] tried[i] <= 9
    &&& forall|i: int, j: int| 0 <= i < j < tried.len() ==> tried[i] < tried[j]
}

/// Cell number `k` is one of the stack's cells.
pub open spec fn on_stack(st: Seq<StepView>, k: int) -> bool {
    exists|i: int| 0 <= i < st.len() && step_pos(#[trigger] st[i]) == k
}

/// The first place behind the top entry's cell; 0 for an empty stack.
pub open spec fn frontier(st: Seq<StepView>) -> int {
    if st.len() == 0 {
        0
    } else {
        step_pos(st.last()) + 1
    }
}

/// The first `n` cells are filled.
pub open spec fn filled_before(w: Board, n: int) -> bool {
    forall|k: int| 0 <= k < n && k < 81 ==> #[trigger] w[k] != 0
}

/// Each entry names a cell of the grid and ends with the digit that the
/// working board holds there.
pub open spec fn entries_ok(w: Board, st: Seq<StepView>) -> bool {
    forall|i: int|
        0 <= i < st.len() ==> {
            &&& in_grid((#[trigger] st[i]).row, st[i].col)
            &&& tried_ok(st[i].tried)
            &&& st[i].tried.last() == at(w, st[i].row, st[i].col)
        }
}

/// The entries' cells ascend in row-major order from the bottom of the stack.
pub open spec fn ascending(st: Seq<StepView>) -> bool {
    forall|i: int, j: int|
        0 <= i < j < st.len() ==> step_pos(#[trigger] st[i]) < step_pos(#[trigger] st[j])
}

/// Every cell of the stack was empty on the starting board.
pub open spec fn stack_on_blanks(o: Board, st: Seq<StepView>) -> bool {
    forall|i: int| 0 <= i < st.len() ==> at(o, (#[trigger] st[i]).row, st[i].col) == 0
}

/// Off the stack the working board is the starting board.
pub open spec fn off_stack_unchanged(o: Board, w: Board, st: Seq<StepView>) -> bool {
    forall|k: int| 0 <= k < 81 && !on_stack(st, k) ==> #[trigger] w[k] == o[k]
}

/// Each digit on the stack differs from the digits of all its peers.
pub open spec fn placements_legal(w: Board, st: Seq<StepView>) -> bool {
    forall|i: int, r2: int, c2: int|
        0 <= i < st.len() && peers((#[trigger] st[i]).row, st[i].col, r2, c2) ==> at(
            w,
            st[i].row,
            st[i].col,
        ) != #[trigger] at(w, r2, c2)
}

/// No filling of `o` departs from `w` within the first `n` cells with a smaller digit.
pub open spec fn nothing_smaller(o: Board, w: Board, n: int) -> bool {
    forall|s: Board, k: int|
        #[trigger] filling_from(s, o, 0) && k < n ==> !#[trigger] smaller_at(s, w, k)
}

/// What holds of the starting board `o`, the working board `w` and the stack
/// `st` between any two steps of the search.
pub open spec fn search_inv(o: Board, w: Board, st: Seq<StepView>) -> bool {
    &&& well_formed(o)
    &&& well_formed(w)
    &&& entries_ok(w, st)
    &&& ascending(st)
    &&& stack_on_blanks(o, st)
    &&& off_stack_unchanged(o, w, st)
    &&& filled_before(w, frontier(st))
    &&& placements_legal(w, st)
    &&& nothing_smaller(o, w, frontier(st))
}

/// The search stands before the empty cell `(r, c)`: every cell before it is
/// filled and the stack ends before it.
pub open spec fn open_at(o: Board, w: Board, st: Seq<StepView>, r: int, c: int) -> bool {
    &&& search_inv(o, w, st)
    &&& in_grid(r, c)
    &&& frontier(st) <= pos(r, c)
    &&& at(w, r, c) == 0
    &&& filled_before(w, pos(r, c))
}

/// Every filling of `o` that agrees with `w` before cell `p` holds at least `lo` there.
pub open spec fn candidates_from(o: Board, w: Board, p: int, lo: int) -> bool {
    forall|s: Board| #[trigger] filling_from(s, o, 0) && agree_before(s, w, p) ==> s[p] >= lo
}

/// No filling of `o` agrees with `w` in the first `f` cells.
pub open spec fn dead(o: Board, w: Board, f: int) -> bool {
    forall|s: Board| #[trigger] filling_from(s, o, 0) ==> !agree_before(s, w, f)
}

/// The first empty cell at or after place `from`, or 81 if there is none.
pub open spec fn first_blank(w: Board, from: int) -> int
    decreases 81 - from,
{
    if from >= 81 {
        81
    } else if from >= 0 && w[from] == 0 {
        from
    } else {
        first_blank(w, from + 1)
    }
}

/// The least digit from `from` to 9 that is safe at `(r, c)`, or 10 if none is.
pub open spec fn least_safe(w: Board, r: int, c: int, from: int) -> int
    decreases 10 - from,
{
    if from > 9 {
        10
    } else if 0 <= from && safe(w, r, c, from as u8) {
        from
    } else {
        least_safe(w, r, c, from + 1)
    }
}

/// `first_blank` finds the first empty cell.
pub proof fn lemma_first_blank(w: Board, from: int)
    requires
        0 <= from <= 81,
    ensures
        from <= first_blank(w, from) <= 81,
        forall|k: int| from <= k < first_blank(w, from) ==> #[trigger] w[k] != 0,
        first_blank(w, from) < 81 ==> w[first_blank(w, from)] == 0,
    decreases 81 - from,
{
    if from < 81 && w[from] != 0 {
        lemma_first_blank(w, from + 1);
    }
}

/// The first empty cell at or after `from` is `p` if the cells from `from` up
/// to `p` are filled and `p` is empty or the end of the board.
pub proof fn lemma_first_blank_is(w: Board, from: int, p: int)
    requires
        0 <= from <= p <= 81,
        forall|k: int| from <= k < p ==> #[trigger] w[k] != 0,
        p < 81 ==> w[p] == 0,
    ensures
        first_blank(w, from) == p,
    decreases p - from,
{
    if from < p {
        assert(w[from] != 0);
        lemma_first_blank_is(w, from + 1, p);
    }
}

/// `least_safe` finds the least safe digit.
pub proof fn lemma_least_safe(w: Board, r: int, c: int, from: int)
    requires
        0 <= from <= 10,
    ensures
        from <= least_safe(w, r, c, from) <= 10,
        least_safe(w, r, c, from) <= 9 ==> safe(w, r, c, least_safe(w, r, c, from) as u8),
        forall|x: u8| from <= x < least_safe(w, r, c, from) ==> !#[trigger] safe(w, r, c, x),
    decreases 10 - from,
{
    if from <= 9 && !safe(w, r, c, from as u8) {
        lemma_least_safe(w, r, c, from + 1);
    }
}

/// Two different boards differ in a first cell.
pub proof fn lemma_first_difference(a: Board, b: Board, n: int) -> (k: int)
    requires
        a.len() == 81,
        b.len() == 81,
        0 <= n <= 81,
        a != b,
        agree_before(a, b, n),
    ensures
        n <= k < 81,
        a[k] != b[k],
        agree_before(a, b, k),
    decreases 81 - n,
{
    if n == 81 {
        assert(a =~= b);
        0
    } else if a[n] != b[n] {
        n
    } else {
        lemma_first_difference(a, b, n + 1)
    }
}

/// Every cell of the stack lies before the frontier.
pub proof fn lemma_stack_before_frontier(st: Seq<StepView>, k: int)
    requires
        ascending(st),
        on_stack(st, k),
    ensures
        k < frontier(st),
{
    let i = choose|i: int| 0 <= i < st.len() && step_pos(#[trigger] st[i]) == k;
    if i < st.len() - 1 {
        assert(step_pos(st[i]) < step_pos(st[st.len() - 1]));
    }
}

/// Before any placement the invariant holds of the starting board alone.
pub proof fn lemma_search_starts(o: Board)
    requires
        well_formed(o),
    ensures
        search_inv(o, o, Seq::<StepView>::empty()),
{
}

/// No filling that agrees with the working board before an open cell holds
/// there a digit that is unsafe on the working board.
pub proof fn lemma_unsafe_excluded(
    o: Board,
    w: Board,
    st: Seq<StepView>,
    r: int,
    c: int,
    x: u8,
    s: Board,
)
    requires
        open_at(o, w, st, r, c),
        x != 0,
        !safe(w, r, c, x),
        filling_from(s, o, 0),
        agree_before(s, w, pos(r, c)),
    ensures
        at(s, r, c) != x,
{
    let p = pos(r, c);
    if on_stack(st, p) {
        lemma_stack_before_frontier(st, p);
    }
    assert(o[p] == w[p]);
    assert(at(o, r, c) == 0);
    let (i, j) = if row_has(w, r, x) {
        let j = choose|j: int| 0 <= j < 9 && #[trigger] at(w, r, j) == x;
        (r, j)
    } else if col_has(w, c, x) {
        let i = choose|i: int| 0 <= i < 9 && #[trigger] at(w, i, c) == x;
        (i, c)
    } else {
        choose|i: int, j: int|
            in_grid(i, j) && same_box(r, c, i, j) && #[trigger] at(w, i, j) == x
    };
    assert(at(w, i, j) == x);
    assert(peers(r, c, i, j));
    let q = pos(i, j);
    if q < p {
        assert(s[q] == w[q]);
    } else {
        if on_stack(st, q) {
            lemma_stack_before_frontier(st, q);
        }
        assert(w[q] == o[q]);
        assert(s[q] == o[q]);
    }
    assert(at(s, i, j) == x);
}

/// Placing the least digit that a filling can still hold at an open cell
/// keeps the invariant.
pub proof fn lemma_place(
    o: Board,
    w: Board,
    st: Seq<StepView>,
    r: int,
    c: int,
    lo: int,
    d: u8,
    tried: Seq<u8>,
)
    requires
        open_at(o, w, st, r, c),
        candidates_from(o, w, pos(r, c), lo),
        1 <= lo <= d <= 9,
        safe(w, r, c, d),
        forall|x: u8| lo <= x < d ==> !#[trigger] safe(w, r, c, x),
        tried_ok(tried),
        tried.last() == d,
    ensures
        search_inv(
            o,
            with_cell(w, r, c, d),
            st.push(StepView { row: r, col: c, tried: tried }),
        ),
{
    let p = pos(r, c);
    let w1 = with_cell(w, r, c, d);
    let e = StepView { row: r, col: c, tried: tried };
    let st1 = st.push(e);
    assert(frontier(st1) == p + 1);
    assert forall|i: int| 0 <= i < st.len() implies step_pos(#[trigger] st[i]) < p by {
        assert(on_stack(st, step_pos(st[i])));
        lemma_stack_before_frontier(st, step_pos(st[i]));
    }
    assert forall|k: int| 0 <= k < 81 && on_stack(st, k) implies on_stack(st1, k) by {
        let i = choose|i: int| 0 <= i < st.len() && step_pos(#[trigger] st[i]) == k;
        assert(st1[i] == st[i]);
    }
    assert(on_stack(st1, p)) by {
        assert(step_pos(st1[st.len() as int]) == p);
    }
    assert(!on_stack(st, p)) by {
        if on_stack(st, p) {
            lemma_stack_before_frontier(st, p);
        }
    }
    assert(entries_ok(w1, st1)) by {
        assert forall|i: int| 0 <= i < st1.len() implies {
            &&& in_grid((#[trigger] st1[i]).row, st1[i].col)
            &&& tried_ok(st1[i].tried)
            &&& st1[i].tried.last() == at(w1, st1[i].row, st1[i].col)
        } by {
            if i < st.len() {
                assert(st1[i] == st[i]);
                assert(step_pos(st[i]) < p);
            }
        }
    }
    assert(ascending(st1)) by {
        assert forall|i: int, j: int| 0 <= i < j < st1.len() implies step_pos(#[trigger] st1[i])
            < step_pos(#[trigger] st1[j]) by {
            assert(st1[i] == st[i]);
            if j < st.len() {
                assert(st1[j] == st[j]);
            }
        }
    }
    assert(stack_on_blanks(o, st1)) by {
        assert(w[p] == o[p]);
        assert forall|i: int| 0 <= i < st1.len() implies at(o, (#[trigger] st1[i]).row, st1[i].col)
            == 0 by {
            if i < st.len() {
                assert(st1[i] == st[i]);
            }
        }
    }
    assert(off_stack_unchanged(o, w1, st1)) by {
        assert forall|k: int| 0 <= k < 81 && !on_stack(st1, k) implies #[trigger] w1[k]
            == o[k] by {
            assert(!on_stack(st, k));
            assert(w[k] == o[k]);
        }
    }
    assert(filled_before(w1, p + 1)) by {
        assert forall|k: int| 0 <= k < p + 1 && k < 81 implies #[trigger] w1[k] != 0 by {
            if k < p {
                assert(w[k] != 0);
            }
        }
    }
    lemma_safe_iff_unseen(w, r, c, d);
    assert(placements_legal(w1, st1)) by {
        assert forall|i: int, r2: int, c2: int|
            0 <= i < st1.len() && peers((#[trigger] st1[i]).row, st1[i].col, r2, c2) implies at(
            w1,
            st1[i].row,
            st1[i].col,
        ) != #[trigger] at(w1, r2, c2) by {
            if i < st.len() {
                assert(st1[i] == st[i]);
                assert(step_pos(st[i]) < p);
                assert(at(w1, st[i].row, st[i].col) == at(w, st[i].row, st[i].col));
                if r2 == r && c2 == c {
                    assert(peers(r, c, st[i].row, st[i].col));
                    assert(at(w, st[i].row, st[i].col) != d);
                } else {
                    assert(at(w1, r2, c2) == at(w, r2, c2));
                }
            } else {
                assert(at(w1, r2, c2) == at(w, r2, c2));
                assert(at(w, r2, c2) != d);
            }
        }
    }
    assert(nothing_smaller(o, w1, p + 1)) by {
        assert forall|s: Board, k: int|
            #[trigger] filling_from(s, o, 0) && k < p + 1 implies !#[trigger] smaller_at(
            s,
            w1,
            k,
        ) by {
            if smaller_at(s, w1, k) {
                assert forall|j: int| 0 <= j < k implies #[trigger] s[j] == w[j] by {
                    assert(s[j] == w1[j]);
                }
                assert(agree_before(s, w, k));
                if k < frontier(st) {
                    assert(w1[k] == w[k]);
                    assert(smaller_at(s, w, k));
                } else if k < p {
                    if on_stack(st, k) {
                        lemma_stack_before_frontier(st, k);
                    }
                    assert(w[k] == o[k]);
                    assert(w[k] != 0);
                    assert(s[k] == o[k]);
                } else {
                    assert(s[p] >= lo);
                    assert(s[p] < d);
                    lemma_unsafe_excluded(o, w, st, r, c, s[p], s);
                }
            }
        }
    }
}

/// If no digit from `lo` up is safe at an open cell, no filling agrees with
/// the working board before that cell.
pub proof fn lemma_dead_end(o: Board, w: Board, st: Seq<StepView>, r: int, c: int, lo: int)
    requires
        open_at(o, w, st, r, c),
        candidates_from(o, w, pos(r, c), lo),
        1 <= lo <= 10,
        forall|x: u8| lo <= x <= 9 ==> !#[trigger] safe(w, r, c, x),
    ensures
        dead(o, w, pos(r, c)),
{
    assert forall|s: Board| #[trigger] filling_from(s, o, 0) implies !agree_before(
        s,
        w,
        pos(r, c),
    ) by {
        if agree_before(s, w, pos(r, c)) {
            assert(s[pos(r, c)] >= lo);
            assert(s[pos(r, c)] <= 9);
            lemma_unsafe_excluded(o, w, st, r, c, s[pos(r, c)], s);
        }
    }
}

/// Taking the top entry off a stack whose working board no filling agrees
/// with leaves the search before that entry's cell, with only greater digits
/// left to try there.
pub proof fn lemma_pop(o: Board, w: Board, st: Seq<StepView>, f: int)
    requires
        search_inv(o, w, st),
        st.len() > 0,
        frontier(st) <= f <= 81,
        filled_before(w, f),
        dead(o, w, f),
    ensures
        open_at(
            o,
            with_cell(w, st.last().row, st.last().col, 0),
            st.drop_last(),
            st.last().row,
            st.last().col,
        ),
        candidates_from(
            o,
            with_cell(w, st.last().row, st.last().col, 0),
            step_pos(st.last()),
            st.last().tried.last() + 1,
        ),
{
    let e = st.last();
    let t = step_pos(e);
    let w1 = with_cell(w, e.row, e.col, 0);
    let st1 = st.drop_last();
    let n = st.len() - 1;
    assert(st[n] == e);
    assert(in_grid(e.row, e.col));
    assert forall|i: int| 0 <= i < st1.len() implies step_pos(#[trigger] st1[i]) < t by {
        assert(st1[i] == st[i]);
        assert(step_pos(st[i]) < step_pos(st[n]));
    }
    assert(frontier(st1) <= t) by {
        if st1.len() > 0 {
            assert(st1.last() == st1[st1.len() - 1]);
        }
    }
    assert forall|k: int| on_stack(st, k) && k != t implies on_stack(st1, k) by {
        let i = choose|i: int| 0 <= i < st.len() && step_pos(#[trigger] st[i]) == k;
        assert(st1[i] == st[i]);
    }
    assert(!on_stack(st1, t)) by {
        if on_stack(st1, t) {
            let i = choose|i: int| 0 <= i < st1.len() && step_pos(#[trigger] st1[i]) == t;
        }
    }
    assert(entries_ok(w1, st1)) by {
        assert forall|i: int| 0 <= i < st1.len() implies {
            &&& in_grid((#[trigger] st1[i]).row, st1[i].col)
            &&& tried_ok(st1[i].tried)
            &&& st1[i].tried.last() == at(w1, st1[i].row, st1[i].col)
        } by {
            assert(st1[i] == st[i]);
            assert(step_pos(st1[i]) < t);
        }
    }
    assert(ascending(st1)) by {
        assert forall|i: int, j: int| 0 <= i < j < st1.len() implies step_pos(#[trigger] st1[i])
            < step_pos(#[trigger] st1[j]) by {
            assert(st1[i] == st[i]);
            assert(st1[j] == st[j]);
        }
    }
    assert(stack_on_blanks(o, st1)) by {
        assert forall|i: int| 0 <= i < st1.len() implies at(o, (#[trigger] st1[i]).row, st1[i].col)
            == 0 by {
            assert(st1[i] == st[i]);
        }
    }
    assert(off_stack_unchanged(o, w1, st1)) by {
        assert forall|k: int| 0 <= k < 81 && !on_stack(st1, k) implies #[trigger] w1[k]
            == o[k] by {
            if k != t {
                assert(!on_stack(st, k));
                assert(w[k] == o[k]);
            }
        }
    }
    assert(filled_before(w1, t)) by {
        assert forall|k: int| 0 <= k < t && k < 81 implies #[trigger] w1[k] != 0 by {
            assert(w[k] != 0);
        }
    }
    assert(placements_legal(w1, st1)) by {
        assert forall|i: int, r2: int, c2: int|
            0 <= i < st1.len() && peers((#[trigger] st1[i]).row, st1[i].col, r2, c2) implies at(
            w1,
            st1[i].row,
            st1[i].col,
        ) != #[trigger] at(w1, r2, c2) by {
            assert(st1[i] == st[i]);
            assert(step_pos(st[i]) < t);
            assert(at(w1, st[i].row, st[i].col) == at(w, st[i].row, st[i].col));
            assert(at(w, st[i].row, st[i].col) != at(w, r2, c2));
            assert(at(w1, r2, c2) == at(w, r2, c2) || at(w1, r2, c2) == 0);
            assert(st[i].tried[st[i].tried.len() - 1] >= 1);
        }
    }
    assert(nothing_smaller(o, w1, frontier(st1))) by {
        assert forall|s: Board, k: int| #[trigger] filling_from(s, o, 0) && k < frontier(
            st1,
        ) implies !#[trigger] smaller_at(s, w1, k) by {
            if smaller_at(s, w1, k) {
                assert forall|j: int| 0 <= j < k implies #[trigger] s[j] == w[j] by {
                    assert(s[j] == w1[j]);
                }
                assert(w1[k] == w[k]);
                assert(smaller_at(s, w, k));
            }
        }
    }
    assert forall|s: Board| #[trigger] filling_from(s, o, 0) && agree_before(s, w1, t) implies s[t]
        >= e.tried.last() + 1 by {
        assert forall|j: int| 0 <= j < t implies #[trigger] s[j] == w[j] by {
            assert(s[j] == w1[j]);
        }
        assert(agree_before(s, w, t));
        assert(!smaller_at(s, w, t));
        if s[t] == w[t] {
            assert forall|j: int| 0 <= j < f implies #[trigger] s[j] == w[j] by {
                if j > t {
                    if on_stack(st, j) {
                        lemma_stack_before_frontier(st, j);
                    }
                    assert(w[j] == o[j]);
                    assert(w[j] != 0);
                    assert(s[j] == o[j]);
                }
            }
            assert(agree_before(s, w, f));
        }
    }
}

/// If the stack is empty and no filling agrees with the working board on
/// its filled head, the starting board has no filling.
pub proof fn lemma_exhausted(o: Board, w: Board, f: int)
    requires
        search_inv(o, w, Seq::<StepView>::empty()),
        0 <= f <= 81,
        filled_before(w, f),
        dead(o, w, f),
    ensures
        !fillable_from(o, 0),
        w == o,
{
    let st = Seq::<StepView>::empty();
    assert forall|k: int| 0 <= k < 81 implies w[k] == o[k] by {
        assert(!on_stack(st, k));
    }
    assert(w =~= o);
    assert forall|s: Board| !filling_from(s, o, 0) by {
        if filling_from(s, o, 0) {
            assert forall|j: int| 0 <= j < f implies #[trigger] s[j] == w[j] by {
                assert(w[j] != 0);
                assert(o[j] != 0);
            }
            assert(agree_before(s, w, f));
        }
    }
}

/// When the working board has no empty cell left, it is the least filling
/// of the starting board.
pub proof fn lemma_solved(o: Board, w: Board, st: Seq<StepView>)
    requires
        search_inv(o, w, st),
        filled(w),
    ensures
        is_least_filling_from(w, o, 0),
{
    assert forall|k: int| 0 <= k < 81 && #[trigger] o[k] != 0 implies w[k] == o[k] by {
        if on_stack(st, k) {
            let i = choose|i: int| 0 <= i < st.len() && step_pos(#[trigger] st[i]) == k;
            assert(at(o, st[i].row, st[i].col) == 0);
        }
    }
    assert forall|r1: int, c1: int, r2: int, c2: int|
        peers(r1, c1, r2, c2) && #[trigger] at(o, r1, c1) == 0 implies at(w, r1, c1)
        != #[trigger] at(w, r2, c2) by {
        let k = pos(r1, c1);
        assert(w[k] != 0);
        assert(on_stack(st, k));
        let i = choose|i: int| 0 <= i < st.len() && step_pos(#[trigger] st[i]) == k;
        assert(in_grid(st[i].row, st[i].col));
        assert(st[i].row == r1 && st[i].col == c1);
    }
    assert(filling_from(w, o, 0));
    assert forall|t: Board| #[trigger] filling_from(t, o, 0) implies t == w || lex_lt(w, t) by {
        if t != w {
            let k = lemma_first_difference(w, t, 0);
            assert forall|j: int| 0 <= j < k implies #[trigger] t[j] == w[j] by {
                assert(w[j] == t[j]);
            }
            assert(agree_before(t, w, k));
            if k < frontier(st) {
                assert(!smaller_at(t, w, k));
            } else {
                if on_stack(st, k) {
                    lemma_stack_before_frontier(st, k);
                }
                assert(w[k] == o[k]);
                assert(w[k] != 0);
                assert(t[k] == o[k]);
            }
            assert(smaller_at(w, t, k));
        }
    }
}

} // verus!
