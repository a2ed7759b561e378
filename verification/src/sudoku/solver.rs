//! Backtracking search over a [`Grid`], and the checks it is built from.
use vstd::prelude::*;
use crate::sudoku::board::{at, complete, in_grid, pos, same_box, valid, Board};
use crate::sudoku::filling::{
    filled_from, fillable_from, filling_from, is_least_filling_from,
    lemma_filled_tail_is_own_least_filling, lemma_filling_after_placement,
    lemma_filling_keeps_valid, lemma_least_filling_is_least_solution,
    lemma_least_filling_lifts, lemma_unfillable_is_unsolvable, lemma_unsafe_digit_excluded,
};
use crate::sudoku::grid::Grid;
use crate::sudoku::solution::{
    box_has, col_has, extends, is_least_solution, lemma_complete_is_own_least_solution,
    lemma_solvable_is_valid, row_has, safe, solvable,
};

verus! {

/// The solving algorithms. They keep no state of their own.
pub struct Solver;

impl Solver {
    /// Solves the grid: fills its empty cells so that the grid is complete.
    ///
    /// A grid on which two digits clash has no solution and is left as it
    /// is. Otherwise the empty cells are filled by depth-first search, the
    /// digits of each cell being tried in ascending order. Returns whether
    /// the grid has a solution. If it has, the grid then holds the first of
    /// its solutions in row-major reading; if not, the grid is left as it was.
    pub fn solve(grid: &mut Grid) -> (found: bool)
        requires
            old(grid).wf(),
        ensures
            final(grid).wf(),
            final(grid)@.fixed == old(grid)@.fixed,
            found == solvable(old(grid)@.cells),
            found ==> valid(old(grid)@.cells),
            found ==> complete(final(grid)@.cells) && extends(
                final(grid)@.cells,
                old(grid)@.cells,
            ),
            found ==> is_least_solution(final(grid)@.cells, old(grid)@.cells),
            !found ==> final(grid)@ == old(grid)@,
            complete(old(grid)@.cells) ==> found && final(grid)@ == old(grid)@,
    {
        if !grid.is_valid() {
            proof {
                if solvable(grid@.cells) {
                    lemma_solvable_is_valid(grid@.cells);
                }
            }
            return false;
        }
        let found = Self::backtrack(grid, 0, 0);
        proof {
            let b = old(grid)@.cells;
            if found {
                lemma_least_filling_is_least_solution(grid@.cells, b);
            } else {
                lemma_unfillable_is_unsolvable(b);
            }
            if complete(b) {
                lemma_complete_is_own_least_solution(b);
                assert(grid@.cells =~= b);
            }
        }
        found
    }

    /// The search from cell `(row, col)` on: it fills the empty cells at and
    /// after that cell and leaves the cells before it alone. From the tenth
    /// row on nothing is left to fill.
    ///
    /// Returns whether the grid has a filling from that cell on. If it has,
    /// the grid then holds the first of them in row-major reading; if not,
    /// the grid is left as it was.
    pub fn backtrack(grid: &mut Grid, row: usize, col: usize) -> (found: bool)
        requires
            old(grid).wf(),
            row < 9 ==> col < 9,
        ensures
            final(grid).wf(),
            final(grid)@.fixed == old(grid)@.fixed,
            found == fillable_from(old(grid)@.cells, pos(row as int, col as int)),
            found ==> is_least_filling_from(
                final(grid)@.cells,
                old(grid)@.cells,
                pos(row as int, col as int),
            ),
            !found ==> final(grid)@ == old(grid)@,
            extends(final(grid)@.cells, old(grid)@.cells),
            forall|k: int|
                0 <= k < pos(row as int, col as int) && k < 81
                    ==> #[trigger] final(grid)@.cells[k] == old(grid)@.cells[k],
            found ==> forall|k: int|
                pos(row as int, col as int) <= k < 81 && 0 <= k
                    ==> #[trigger] final(grid)@.cells[k] != 0,
            found && valid(old(grid)@.cells) ==> valid(final(grid)@.cells),
            row >= 9 ==> found && final(grid)@ == old(grid)@,
        decreases 81 - pos(row as int, col as int),
    {
        let ghost b0 = grid@.cells;
        let ghost p = pos(row as int, col as int);
        let mut r = row;
        let mut c = col;
        loop
            invariant
                grid.wf(),
                grid@ == old(grid)@,
                b0 == grid@.cells,
                p == pos(row as int, col as int),
                row <= r,
                r < 9 ==> c < 9,
                r > row ==> r <= 9,
                p <= pos(r as int, c as int),
                forall|k: int| p <= k < pos(r as int, c as int) && k < 81 ==> #[trigger] b0[k] != 0,
            ensures
                r < 9,
                c < 9,
                at(b0, r as int, c as int) == 0,
            decreases 81 - pos(r as int, c as int),
        {
            if r >= 9 {
                proof {
                    assert(filled_from(b0, p));
                    lemma_filled_tail_is_own_least_filling(b0, p);
                    if valid(b0) {
                        lemma_filling_keeps_valid(b0, b0, p);
                    }
                }
                return true;
            }
            if grid.get(r, c) == 0 {
                break ;
            }
            c += 1;
            if c >= 9 {
                c = 0;
                r += 1;
            }
        }

        let ghost q = pos(r as int, c as int);
        for num in 1..10u8
            invariant
                grid.wf(),
                grid@ == old(grid)@,
                b0 == grid@.cells,
                p == pos(row as int, col as int),
                q == pos(r as int, c as int),
                r < 9,
                c < 9,
                0 <= p <= q,
                at(b0, r as int, c as int) == 0,
                forall|k: int| p <= k < q ==> #[trigger] b0[k] != 0,
                forall|s: Board|
                    #[trigger] filling_from(s, b0, p) ==> at(s, r as int, c as int) >= num,
        {
            if Self::is_safe(grid, r, c, num) {
                grid.set(r, c, num);

                let (next_row, next_col) = if c == 8 {
                    (r + 1, 0)
                } else {
                    (r, c + 1)
                };

                if Self::backtrack(grid, next_row, next_col) {
                    proof {
                        lemma_least_filling_lifts(b0, p, r as int, c as int, num, grid@.cells);
                        if valid(b0) {
                            lemma_filling_keeps_valid(grid@.cells, b0, p);
                        }
                    }
                    return true;
                }
                grid.set(r, c, 0);
                assert(grid@.cells =~= b0);
                assert(grid@ == old(grid)@);
                assert forall|s: Board| #[trigger] filling_from(s, b0, p) implies at(
                    s,
                    r as int,
                    c as int,
                ) >= num + 1 by {
                    if at(s, r as int, c as int) == num {
                        lemma_filling_after_placement(b0, p, r as int, c as int, s);
                    }
                }
            } else {
                assert forall|s: Board| #[trigger] filling_from(s, b0, p) implies at(
                    s,
                    r as int,
                    c as int,
                ) >= num + 1 by {
                    lemma_unsafe_digit_excluded(b0, p, r as int, c as int, num, s);
                }
            }
        }
        assert forall|s: Board| !filling_from(s, b0, p) by {
            if filling_from(s, b0, p) {
                assert(at(s, r as int, c as int) >= 10);
            }
        }
        false
    }

    /// The first empty cell at or after `(start_row, start_col)` in row-major
    /// order, if there is one.
    pub fn find_next_empty(grid: &Grid, start_row: usize, start_col: usize) -> (found: Option<
        (usize, usize),
    >)
        requires
            grid.wf(),
            start_row < 9 ==> start_col < 9,
        ensures
            match found {
                Some((row, col)) => {
                    &&& in_grid(row as int, col as int)
                    &&& pos(start_row as int, start_col as int) <= pos(row as int, col as int)
                    &&& at(grid@.cells, row as int, col as int) == 0
                    &&& forall|k: int|
                        pos(start_row as int, start_col as int) <= k < pos(row as int, col as int)
                            ==> #[trigger] grid@.cells[k] != 0
                },
                None => forall|k: int|
                    pos(start_row as int, start_col as int) <= k < 81 ==> #[trigger] grid@.cells[k]
                        != 0,
            },
    {
        let mut row = start_row;
        let mut col = start_col;

        loop
            invariant
                grid.wf(),
                start_row < 9 ==> start_col < 9,
                start_row < 9 ==> row <= 9,
                start_row >= 9 ==> row == start_row && col == start_col,
                row < 9 ==> col < 9,
                row < 9 ==> pos(start_row as int, start_col as int) <= pos(row as int, col as int),
                row == 9 && start_row < 9 ==> col == 0,
                forall|k: int|
                    pos(start_row as int, start_col as int) <= k < pos(row as int, col as int)
                        && k < 81 ==> #[trigger] grid@.cells[k] != 0,
            decreases 9 - row, 9 - col,
        {
            if row >= 9 {
                return None;
            }
            if grid.get(row, col) == 0 {
                return Some((row, col));
            }
            col += 1;
            if col >= 9 {
                col = 0;
                row += 1;
            }
        }
    }

    /// The digits from 1 to 9 that may stand at `(row, col)`, in ascending order.
    pub fn get_valid_numbers(grid: &Grid, row: usize, col: usize) -> (digits: Vec<u8>)
        requires
            grid.wf(),
            row < 9,
            col < 9,
        ensures
            forall|i: int|
                0 <= i < digits.len() ==> 1 <= #[trigger] digits[i] <= 9 && safe(
                    grid@.cells,
                    row as int,
                    col as int,
                    digits[i],
                ),
            forall|i: int, j: int| 0 <= i < j < digits.len() ==> digits[i] < digits[j],
            forall|d: u8|
                1 <= d <= 9 && safe(grid@.cells, row as int, col as int, d)
                    ==> #[trigger] digits@.contains(d),
    {
        let mut valid: Vec<u8> = Vec::new();
        for num in 1..10u8
            invariant
                grid.wf(),
                row < 9,
                col < 9,
                forall|i: int|
                    0 <= i < valid.len() ==> 1 <= #[trigger] valid[i] < num && safe(
                        grid@.cells,
                        row as int,
                        col as int,
                        valid[i],
                    ),
                forall|i: int, j: int| 0 <= i < j < valid.len() ==> valid[i] < valid[j],
                forall|d: u8|
                    1 <= d < num && safe(grid@.cells, row as int, col as int, d)
                        ==> #[trigger] valid@.contains(d),
        {
            if Self::is_safe(grid, row, col, num) {
                let ghost before = valid@;
                valid.push(num);
                assert(valid@[before.len() as int] == num);
                assert forall|d: u8|
                    1 <= d < num + 1 && safe(
                        grid@.cells,
                        row as int,
                        col as int,
                        d,
                    ) implies #[trigger] valid@.contains(d) by {
                    if d < num {
                        assert(before.contains(d));
                        let i = choose|i: int| 0 <= i < before.len() && before[i] == d;
                        assert(valid@[i] == d);
                    }
                }
            }
        }
        valid
    }

    /// Whether `num` may stand at `(row, col)`: whether it occurs neither in
    /// that row, nor in that column, nor in that block.
    pub fn is_safe_static(grid: &Grid, row: usize, col: usize, num: u8) -> (ok: bool)
        requires
            grid.wf(),
            row < 9,
            col < 9,
        ensures
            ok == safe(grid@.cells, row as int, col as int, num),
            ok == !(row_has(grid@.cells, row as int, num) || col_has(grid@.cells, col as int, num)
                || box_has(grid@.cells, row as int, col as int, num)),
    {
        Self::is_safe(grid, row, col, num)
    }

    /// Whether `num` may stand at `(row, col)`: whether it occurs neither in
    /// that row, nor in that column, nor in that block.
    pub fn is_safe(grid: &Grid, row: usize, col: usize, num: u8) -> (ok: bool)
        requires
            grid.wf(),
            row < 9,
            col < 9,
        ensures
            ok == safe(grid@.cells, row as int, col as int, num),
            !ok <==> row_has(grid@.cells, row as int, num) || col_has(
                grid@.cells,
                col as int,
                num,
            ) || box_has(grid@.cells, row as int, col as int, num),
    {
        let ghost b = grid@.cells;
        for c in 0..9usize
            invariant
                grid.wf(),
                b == grid@.cells,
                row < 9,
                forall|j: int| 0 <= j < c ==> #[trigger] at(b, row as int, j) != num,
        {
            if grid.get(row, c) == num {
                assert(at(b, row as int, c as int) == num);
                return false;
            }
        }

        for r in 0..9usize
            invariant
                grid.wf(),
                b == grid@.cells,
                col < 9,
                !row_has(b, row as int, num),
                forall|i: int| 0 <= i < r ==> #[trigger] at(b, i, col as int) != num,
        {
            if grid.get(r, col) == num {
                assert(at(b, r as int, col as int) == num);
                return false;
            }
        }

        let box_row = (row / 3) * 3;
        let box_col = (col / 3) * 3;
        for r in box_row..box_row + 3
            invariant
                grid.wf(),
                b == grid@.cells,
                row < 9,
                col < 9,
                box_row == (row / 3) * 3,
                box_col == (col / 3) * 3,
                !row_has(b, row as int, num),
                !col_has(b, col as int, num),
                forall|i: int, j: int|
                    in_grid(i, j) && same_box(row as int, col as int, i, j) && i < r
                        ==> #[trigger] at(b, i, j) != num,
        {
            for c in box_col..box_col + 3
                invariant
                    grid.wf(),
                    b == grid@.cells,
                    row < 9,
                    col < 9,
                    box_row == (row / 3) * 3,
                    box_col == (col / 3) * 3,
                    box_row <= r < box_row + 3,
                    !row_has(b, row as int, num),
                    !col_has(b, col as int, num),
                    forall|i: int, j: int|
                        in_grid(i, j) && same_box(row as int, col as int, i, j) && (i < r || (i
                            == r && j < c)) ==> #[trigger] at(b, i, j) != num,
            {
                if grid.get(r, c) == num {
                    assert(same_box(row as int, col as int, r as int, c as int));
                    assert(at(b, r as int, c as int) == num);
                    return false;
                }
            }
        }
        true
    }
}

} // verus!
