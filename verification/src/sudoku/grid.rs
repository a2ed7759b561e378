//! The puzzle state: 81 digits and, for each cell, whether it is a given.
use vstd::prelude::*;
use crate::sudoku::board::{
    at, box_valid, col_valid, complete, empty_board, filled, in_box, pos, row_valid, valid,
    well_formed, with_cell, Board,
};

verus! {

/// A 9×9 grid of digits, 0 for an empty cell, with a mask of fixed cells.
#[derive(Debug)]
pub struct Grid {
    cells: [[u8; 9]; 9],
    fixed: [[bool; 9]; 9],
}

/// What a [`Grid`] holds: its digits and its fixed mask, both in row-major order.
pub ghost struct GridView {
    pub cells: Board,
    pub fixed: Seq<bool>,
}

impl View for Grid {
    type V = GridView;

    closed spec fn view(&self) -> GridView {
        GridView {
            cells: Seq::new(81, |k: int| self.cells[k / 9][k % 9]),
            fixed: Seq::new(81, |k: int| self.fixed[k / 9][k % 9]),
        }
    }
}

impl Clone for Grid {
    fn clone(&self) -> (g: Self)
        ensures
            g == *self,
    {
        Grid { cells: self.cells, fixed: self.fixed }
    }
}

impl Default for Grid {
    fn default() -> (g: Self)
        ensures
            g.wf(),
            g@.cells == empty_board(),
            g@.fixed == Seq::new(81, |k: int| false),
    {
        Grid::new()
    }
}

impl Grid {
    /// Every cell holds 0 or a digit from 1 to 9.
    pub open spec fn wf(&self) -> bool {
        well_formed(self@.cells) && self@.fixed.len() == 81
    }

    /// An empty grid with no fixed cell.
    pub fn new() -> (g: Self)
        ensures
            g.wf(),
            g@.cells == empty_board(),
            g@.fixed == Seq::new(81, |k: int| false),
    {
        let g = Grid { cells: [[0; 9]; 9], fixed: [[false; 9]; 9] };
        assert(g@.cells =~= empty_board());
        assert(g@.fixed =~= Seq::new(81, |k: int| false));
        g
    }

    /// The digit at `(row, col)`.
    pub fn get(&self, row: usize, col: usize) -> (value: u8)
        requires
            row < 9,
            col < 9,
        ensures
            value == at(self@.cells, row as int, col as int),
    {
        self.cells[row][col]
    }

    /// Writes `value` to `(row, col)`, whether or not the cell is fixed.
    pub fn set(&mut self, row: usize, col: usize, value: u8)
        requires
            old(self).wf(),
            row < 9,
            col < 9,
            value <= 9,
        ensures
            final(self).wf(),
            final(self)@.cells == with_cell(old(self)@.cells, row as int, col as int, value),
            final(self)@.fixed == old(self)@.fixed,
    {
        self.cells[row][col] = value;
        assert(self@.cells =~= with_cell(old(self)@.cells, row as int, col as int, value));
        assert(self@.fixed =~= old(self)@.fixed);
    }

    /// Writes `value` to `(row, col)` unless the cell is fixed.
    pub fn set_user(&mut self, row: usize, col: usize, value: u8)
        requires
            old(self).wf(),
            row < 9,
            col < 9,
            value <= 9,
        ensures
            final(self).wf(),
            final(self)@.fixed == old(self)@.fixed,
            final(self)@.cells == if old(self)@.fixed[pos(row as int, col as int)] {
                old(self)@.cells
            } else {
                with_cell(old(self)@.cells, row as int, col as int, value)
            },
    {
        if !self.fixed[row][col] {
            self.set(row, col, value);
        }
    }

    /// Whether `(row, col)` is a given of the puzzle.
    pub fn is_fixed(&self, row: usize, col: usize) -> (fixed: bool)
        requires
            row < 9,
            col < 9,
        ensures
            fixed == self@.fixed[pos(row as int, col as int)],
    {
        self.fixed[row][col]
    }

    /// Marks `(row, col)` as fixed or as open, leaving its digit as it is.
    pub fn set_fixed(&mut self, row: usize, col: usize, fixed: bool)
        requires
            row < 9,
            col < 9,
        ensures
            final(self)@.cells == old(self)@.cells,
            final(self)@.fixed == old(self)@.fixed.update(pos(row as int, col as int), fixed),
            old(self).wf() ==> final(self).wf(),
    {
        self.fixed[row][col] = fixed;
        assert(self@.cells =~= old(self)@.cells);
        assert(self@.fixed =~= old(self)@.fixed.update(pos(row as int, col as int), fixed));
    }

    /// Empties every cell that is not fixed.
    pub fn clear_non_fixed(&mut self)
        requires
            old(self).wf(),
        ensures
            final(self).wf(),
            final(self)@.fixed == old(self)@.fixed,
            forall|k: int|
                0 <= k < 81 ==> #[trigger] final(self)@.cells[k] == if old(self)@.fixed[k] {
                    old(self)@.cells[k]
                } else {
                    0
                },
    {
        for row in 0..9usize
            invariant
                self.wf(),
                self@.fixed == old(self)@.fixed,
                forall|k: int|
                    0 <= k < 81 ==> #[trigger] self@.cells[k] == if k < 9 * row
                        && !old(self)@.fixed[k] {
                        0
                    } else {
                        old(self)@.cells[k]
                    },
        {
            for col in 0..9usize
                invariant
                    row < 9,
                    self.wf(),
                    self@.fixed == old(self)@.fixed,
                    forall|k: int|
                        0 <= k < 81 ==> #[trigger] self@.cells[k] == if k < 9 * row + col
                            && !old(self)@.fixed[k] {
                            0
                        } else {
                            old(self)@.cells[k]
                        },
            {
                if !self.is_fixed(row, col) {
                    self.set(row, col, 0);
                }
            }
        }
    }

    /// Whether no row, column or block holds a digit twice.
    pub fn is_valid(&self) -> (ok: bool)
        requires
            self.wf(),
        ensures
            ok == valid(self@.cells),
    {
        for i in 0..9usize
            invariant
                self.wf(),
                forall|j: int| 0 <= j < i ==> #[trigger] row_valid(self@.cells, j),
                forall|j: int| 0 <= j < i ==> #[trigger] col_valid(self@.cells, j),
                forall|j: int| 0 <= j < i ==> #[trigger] box_valid(self@.cells, j),
        {
            if !self.is_valid_row(i) || !self.is_valid_col(i) || !self.is_valid_box(i) {
                return false;
            }
        }
        true
    }

    /// Whether no digit occurs twice in row `row`.
    fn is_valid_row(&self, row: usize) -> (ok: bool)
        requires
            self.wf(),
            row < 9,
        ensures
            ok == row_valid(self@.cells, row as int),
    {
        let ghost b = self@.cells;
        let mut seen = [false; 9];
        for col in 0..9usize
            invariant
                self.wf(),
                row < 9,
                b == self@.cells,
                forall|c: int| 0 <= c < col && at(b, row as int, c) != 0 ==> seen[#[trigger] at(
                    b,
                    row as int,
                    c,
                ) - 1],
                forall|d: int|
                    0 <= d < 9 && #[trigger] seen[d] ==> exists|c: int|
                        0 <= c < col && #[trigger] at(b, row as int, c) == d + 1,
                forall|c1: int, c2: int|
                    0 <= c1 < col && 0 <= c2 < col && c1 != c2 && #[trigger] at(b, row as int, c1)
                        != 0 ==> at(b, row as int, c1) != #[trigger] at(b, row as int, c2),
        {
            let val = self.get(row, col);
            if val != 0 {
                if seen[val as usize - 1] {
                    proof {
                        let c = choose|c: int|
                            0 <= c < col && #[trigger] at(b, row as int, c) == val;
                        assert(at(b, row as int, c) == at(b, row as int, col as int));
                    }
                    return false;
                }
                seen[val as usize - 1] = true;
            }
        }
        true
    }

    /// Whether no digit occurs twice in column `col`.
    fn is_valid_col(&self, col: usize) -> (ok: bool)
        requires
            self.wf(),
            col < 9,
        ensures
            ok == col_valid(self@.cells, col as int),
    {
        let ghost b = self@.cells;
        let mut seen = [false; 9];
        for row in 0..9usize
            invariant
                self.wf(),
                col < 9,
                b == self@.cells,
                forall|r: int| 0 <= r < row && at(b, r, col as int) != 0 ==> seen[#[trigger] at(
                    b,
                    r,
                    col as int,
                ) - 1],
                forall|d: int|
                    0 <= d < 9 && #[trigger] seen[d] ==> exists|r: int|
                        0 <= r < row && #[trigger] at(b, r, col as int) == d + 1,
                forall|r1: int, r2: int|
                    0 <= r1 < row && 0 <= r2 < row && r1 != r2 && #[trigger] at(b, r1, col as int)
                        != 0 ==> at(b, r1, col as int) != #[trigger] at(b, r2, col as int),
        {
            let val = self.get(row, col);
            if val != 0 {
                if seen[val as usize - 1] {
                    proof {
                        let r = choose|r: int|
                            0 <= r < row && #[trigger] at(b, r, col as int) == val;
                        assert(at(b, r, col as int) == at(b, row as int, col as int));
                    }
                    return false;
                }
                seen[val as usize - 1] = true;
            }
        }
        true
    }

    /// Whether no digit occurs twice in block `box_idx`.
    fn is_valid_box(&self, box_idx: usize) -> (ok: bool)
        requires
            self.wf(),
            box_idx < 9,
        ensures
            ok == box_valid(self@.cells, box_idx as int),
    {
        let ghost b = self@.cells;
        let ghost k = box_idx as int;
        let mut seen = [false; 9];
        let start_row = (box_idx / 3) * 3;
        let start_col = (box_idx % 3) * 3;

        for row in start_row..start_row + 3
            invariant
                self.wf(),
                box_idx < 9,
                k == box_idx,
                start_row == (box_idx / 3) * 3,
                start_col == (box_idx % 3) * 3,
                b == self@.cells,
                forall|r: int, c: int|
                    in_box(k, r, c) && r < row && at(b, r, c) != 0 ==> seen[#[trigger] at(b, r, c)
                        - 1],
                forall|d: int|
                    0 <= d < 9 && #[trigger] seen[d] ==> exists|r: int, c: int|
                        in_box(k, r, c) && r < row && #[trigger] at(b, r, c) == d + 1,
                forall|r1: int, c1: int, r2: int, c2: int|
                    in_box(k, r1, c1) && in_box(k, r2, c2) && r1 < row && r2 < row && (r1 != r2
                        || c1 != c2) && #[trigger] at(b, r1, c1) != 0 ==> at(b, r1, c1)
                        != #[trigger] at(b, r2, c2),
        {
            for col in start_col..start_col + 3
                invariant
                    self.wf(),
                    box_idx < 9,
                    k == box_idx,
                    start_row == (box_idx / 3) * 3,
                    start_col == (box_idx % 3) * 3,
                    start_row <= row < start_row + 3,
                    b == self@.cells,
                    forall|r: int, c: int|
                        in_box(k, r, c) && (r < row || (r == row && c < col)) && at(b, r, c) != 0
                            ==> seen[#[trigger] at(b, r, c) - 1],
                    forall|d: int|
                        0 <= d < 9 && #[trigger] seen[d] ==> exists|r: int, c: int|
                            in_box(k, r, c) && (r < row || (r == row && c < col)) && #[trigger] at(
                                b,
                                r,
                                c,
                            ) == d + 1,
                    forall|r1: int, c1: int, r2: int, c2: int|
                        in_box(k, r1, c1) && in_box(k, r2, c2) && (r1 < row || (r1 == row && c1
                            < col)) && (r2 < row || (r2 == row && c2 < col)) && (r1 != r2 || c1
                            != c2) && #[trigger] at(b, r1, c1) != 0 ==> at(b, r1, c1)
                            != #[trigger] at(b, r2, c2),
            {
                let val = self.get(row, col);
                if val != 0 {
                    if seen[val as usize - 1] {
                        proof {
                            let (r, c) = choose|r: int, c: int|
                                in_box(k, r, c) && (r < row || (r == row && c < col))
                                    && #[trigger] at(b, r, c) == val;
                            assert(in_box(k, row as int, col as int));
                            assert(at(b, r, c) == at(b, row as int, col as int));
                        }
                        return false;
                    }
                    seen[val as usize - 1] = true;
                }
            }
        }
        true
    }

    /// Whether every cell is filled and the grid is valid.
    pub fn is_complete(&self) -> (done: bool)
        requires
            self.wf(),
        ensures
            done == complete(self@.cells),
    {
        for row in 0..9usize
            invariant
                self.wf(),
                forall|k: int| 0 <= k < 9 * row ==> #[trigger] self@.cells[k] != 0,
        {
            for col in 0..9usize
                invariant
                    row < 9,
                    self.wf(),
                    forall|k: int| 0 <= k < 9 * row + col ==> #[trigger] self@.cells[k] != 0,
            {
                if self.get(row, col) == 0 {
                    assert(self@.cells[9 * row + col] == 0);
                    return false;
                }
            }
        }
        self.is_valid()
    }
}

} // verus!
