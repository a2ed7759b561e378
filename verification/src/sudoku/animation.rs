//! The search one step at a time: a controller that a caller advances by one
//! placement, or one run of backtracking, per call.
use vstd::prelude::*;
use crate::sudoku::board::{
    at, empty_board, filled, in_grid, pos, valid, well_formed, with_cell, Board,
};
use crate::sudoku::filling::{
    filling_from, lemma_least_filling_is_least_solution, lemma_unfillable_is_unsolvable,
};
use crate::sudoku::grid::Grid;
use crate::sudoku::search::{
    ascending, candidates_from, dead, entries_ok, filled_before, first_blank, frontier,
    least_safe, lemma_dead_end, lemma_exhausted, lemma_first_blank, lemma_first_blank_is,
    lemma_least_safe, lemma_place, lemma_pop, lemma_search_starts, lemma_solved, open_at,
    search_inv, step_pos, tried_ok, StepView,
};
use crate::sudoku::solution::{
    agree_before, is_least_solution, lemma_least_solution_unique, lemma_lex_lt_rank,
    lemma_solvable_is_valid, lex_lt, pow10, rank, smaller_at, solvable,
};
use crate::sudoku::solver::Solver;

verus! {

/// One entry of the search stack: a cell, and the digits placed there so far
/// in ascending order. The last of them is the digit the cell holds now.
#[derive(Clone, Debug)]
pub struct SolverStep {
    pub row: usize,
    pub col: usize,
    pub tried: Vec<u8>,
}

impl View for SolverStep {
    type V = StepView;

    open spec fn view(&self) -> StepView {
        StepView { row: self.row as int, col: self.col as int, tried: self.tried@ }
    }
}

/// Where an animated solve stands.
#[derive(Clone, Copy, Debug, PartialEq, Eq, Structural)]
pub enum SolveState {
    /// Nothing is being solved.
    Idle,
    /// The search is under way: each call of `advance` takes one step.
    Stepping,
    /// The working grid is solved.
    Solved,
    /// The grid has no solution: two of its digits clash, or the search has
    /// tried everything.
    Exhausted,
}

/// What an [`AnimatedSolver`] holds.
pub ghost struct AnimationView {
    pub state: SolveState,
    /// The grid that the solve was started on.
    pub origin: Board,
    /// Which cells of that grid were fixed.
    pub given: Seq<bool>,
    /// The grid as the search has filled it so far.
    pub working: Board,
    /// The placements that the search may still take back, oldest first.
    pub stack: Seq<StepView>,
    /// The time that the caller lets pass between two steps, in milliseconds.
    pub delay_ms: u64,
}

/// The stack entries as the contracts see them.
pub open spec fn stack_view(stack: Seq<SolverStep>) -> Seq<StepView> {
    Seq::new(stack.len(), |i: int| stack[i]@)
}

/// The view after the digit `d` is placed at `(r, c)` and recorded with the
/// list `tried`.
pub open spec fn placed(v: AnimationView, r: int, c: int, d: u8, tried: Seq<u8>) -> AnimationView {
    AnimationView {
        working: with_cell(v.working, r, c, d),
        stack: v.stack.push(StepView { row: r, col: c, tried: tried }),
        ..v
    }
}

/// The view after backtracking: entries are taken off the stack and their
/// cells emptied until one of the cells takes a digit greater than the last
/// one tried there, which is then placed and recorded on a new entry for that
/// cell. If the stack runs out first, the search is exhausted.
pub open spec fn unwound(v: AnimationView) -> AnimationView
    decreases v.stack.len(),
{
    if v.stack.len() == 0 {
        AnimationView { state: SolveState::Exhausted, ..v }
    } else {
        let e = v.stack.last();
        let below = AnimationView {
            working: with_cell(v.working, e.row, e.col, 0),
            stack: v.stack.drop_last(),
            ..v
        };
        let d = least_safe(below.working, e.row, e.col, e.tried.last() + 1);
        if d <= 9 {
            placed(below, e.row, e.col, d as u8, e.tried.push(d as u8))
        } else {
            unwound(below)
        }
    }
}

/// The view after one step. A solve that is not under way stays as it is.
/// A solve of a grid on which two digits clash is exhausted at once.
/// Otherwise: with no empty cell left the grid is solved; else the first
/// empty cell takes the least digit that is safe there; if none is, the
/// search backtracks.
pub open spec fn advanced(v: AnimationView) -> AnimationView {
    if v.state != SolveState::Stepping {
        v
    } else if !valid(v.origin) {
        AnimationView { state: SolveState::Exhausted, ..v }
    } else {
        let p = first_blank(v.working, 0);
        if p >= 81 {
            AnimationView { state: SolveState::Solved, ..v }
        } else {
            let d = least_safe(v.working, p / 9, p % 9, 1);
            if d <= 9 {
                placed(v, p / 9, p % 9, d as u8, seq![d as u8])
            } else {
                unwound(v)
            }
        }
    }
}

/// The backtracking search as a state machine that the caller steps.
pub struct AnimatedSolver {
    state: SolveState,
    origin: Grid,
    origin_valid: bool,
    working: Grid,
    stack: Vec<SolverStep>,
    delay_ms: u64,
}

impl View for AnimatedSolver {
    type V = AnimationView;

    closed spec fn view(&self) -> AnimationView {
        AnimationView {
            state: self.state,
            origin: self.origin@.cells,
            given: self.origin@.fixed,
            working: self.working@.cells,
            stack: stack_view(self.stack@),
            delay_ms: self.delay_ms,
        }
    }
}

impl AnimatedSolver {
    /// Both grids are well formed, no cell of the working grid is fixed, and
    /// it is known whether the starting grid is valid.
    pub closed spec fn grids_ok(&self) -> bool {
        &&& self.origin.wf()
        &&& self.working.wf()
        &&& self.origin_valid == valid(self.origin@.cells)
        &&& forall|k: int| 0 <= k < 81 ==> !#[trigger] self.working@.fixed[k]
    }

    /// The controller's invariant. While stepping, the stack and the working
    /// grid are a state of the search on the starting grid, and nothing has
    /// been placed if that grid is not valid. Once solved, the working grid
    /// is the least solution of the starting grid. Once exhausted, the
    /// starting grid has no solution and the working grid is the starting
    /// grid again.
    pub open spec fn wf(&self) -> bool {
        &&& self.grids_ok()
        &&& well_formed(self@.origin)
        &&& well_formed(self@.working)
        &&& self@.given.len() == 81
        &&& match self@.state {
            SolveState::Idle => self@.stack.len() == 0,
            SolveState::Stepping => {
                &&& search_inv(self@.origin, self@.working, self@.stack)
                &&& !valid(self@.origin) ==> self@.working == self@.origin && self@.stack.len()
                    == 0
            },
            SolveState::Solved => is_least_solution(self@.working, self@.origin),
            SolveState::Exhausted => {
                &&& !solvable(self@.origin)
                &&& self@.working == self@.origin
                &&& self@.stack.len() == 0
            },
        }
    }

    /// An idle controller.
    pub fn new() -> (solver: Self)
        ensures
            solver.wf(),
            solver@ == (AnimationView {
                state: SolveState::Idle,
                origin: empty_board(),
                given: Seq::new(81, |k: int| false),
                working: empty_board(),
                stack: Seq::empty(),
                delay_ms: 0,
            }),
    {
        let origin = Grid::new();
        let origin_valid = origin.is_valid();
        let solver = AnimatedSolver {
            state: SolveState::Idle,
            origin,
            origin_valid,
            working: Grid::new(),
            stack: Vec::new(),
            delay_ms: 0,
        };
        assert(solver@.stack =~= Seq::empty());
        solver
    }

    /// Starts a solve of `grid`, to be stepped every `delay_ms` milliseconds.
    /// The controller works on a copy of the grid in which no cell is fixed,
    /// and remembers which cells were.
    pub fn start(&mut self, grid: &Grid, delay_ms: u64)
        requires
            grid.wf(),
        ensures
            final(self).wf(),
            final(self)@ == (AnimationView {
                state: SolveState::Stepping,
                origin: grid@.cells,
                given: grid@.fixed,
                working: grid@.cells,
                stack: Seq::empty(),
                delay_ms: delay_ms,
            }),
    {
        let mut working = grid.clone();
        for row in 0..9usize
            invariant
                working.wf(),
                working@.cells == grid@.cells,
                forall|k: int| 0 <= k < 9 * row ==> !#[trigger] working@.fixed[k],
        {
            for col in 0..9usize
                invariant
                    row < 9,
                    working.wf(),
                    working@.cells == grid@.cells,
                    forall|k: int| 0 <= k < 9 * row + col ==> !#[trigger] working@.fixed[k],
            {
                working.set_fixed(row, col, false);
            }
        }
        self.working = working;
        self.origin = grid.clone();
        self.origin_valid = grid.is_valid();
        self.stack = Vec::new();
        self.state = SolveState::Stepping;
        self.delay_ms = delay_ms;
        proof {
            assert(self@.stack =~= Seq::empty());
            lemma_search_starts(grid@.cells);
        }
    }

    /// Takes one step of the search.
    pub fn advance(&mut self)
        requires
            old(self).wf(),
        ensures
            final(self).wf(),
            final(self)@ == advanced(old(self)@),
            final(self)@.origin == old(self)@.origin,
            final(self)@.given == old(self)@.given,
            final(self)@.delay_ms == old(self)@.delay_ms,
            old(self)@.state == SolveState::Stepping ==> final(self)@.state != SolveState::Idle,
            old(self)@.state == SolveState::Stepping && final(self)@.state
                == SolveState::Stepping ==> lex_lt(old(self)@.working, final(self)@.working),
    {
        match self.state {
            SolveState::Stepping => {},
            _ => {
                return ;
            },
        }
        if !self.origin_valid {
            proof {
                if solvable(self@.origin) {
                    lemma_solvable_is_valid(self@.origin);
                }
            }
            self.state = SolveState::Exhausted;
            return ;
        }
        proof {
            lemma_step_goes_up(self@);
            lemma_unwound_frame(self@);
        }
        let ghost o = self@.origin;
        let ghost w = self@.working;
        let ghost st = self@.stack;
        let depth = self.stack.len();
        let (start_row, start_col) = if depth > 0 {
            (self.stack[depth - 1].row, self.stack[depth - 1].col)
        } else {
            (0, 0)
        };
        proof {
            if depth > 0 {
                assert(st.last() == self.stack@[depth - 1]@);
                assert(in_grid(st[depth - 1].row, st[depth - 1].col));
            }
        }
        match Solver::find_next_empty(&self.working, start_row, start_col) {
            None => {
                proof {
                    assert forall|k: int| 0 <= k < 81 implies #[trigger] w[k] != 0 by {
                        if k < pos(start_row as int, start_col as int) {
                            assert(filled_before(w, frontier(st)));
                        }
                    }
                    lemma_first_blank_is(w, 0, 81);
                    lemma_solved(o, w, st);
                    lemma_least_filling_is_least_solution(w, o);
                }
                self.state = SolveState::Solved;
            },
            Some((row, col)) => {
                let ghost p = pos(row as int, col as int);
                proof {
                    assert forall|k: int| 0 <= k < p implies #[trigger] w[k] != 0 by {
                        if k < pos(start_row as int, start_col as int) {
                            assert(filled_before(w, frontier(st)));
                        }
                    }
                    lemma_first_blank_is(w, 0, p);
                    assert(p / 9 == row && p % 9 == col);
                    assert(open_at(o, w, st, row as int, col as int));
                    assert(candidates_from(o, w, p, 1)) by {
                        assert forall|s: Board| #[trigger]
                            filling_from(s, o, 0) && agree_before(s, w, p) implies s[p] >= 1 by {
                            assert(s[p] != 0);
                        }
                    }
                    lemma_least_safe(w, row as int, col as int, 1);
                }
                let digit = Self::first_safe_digit(&self.working, row, col, 1);
                if digit <= 9 {
                    self.working.set(row, col, digit);
                    let mut tried: Vec<u8> = Vec::new();
                    tried.push(digit);
                    self.stack.push(SolverStep { row, col, tried });
                    proof {
                        assert(tried@ =~= seq![digit]);
                        lemma_place(o, w, st, row as int, col as int, 1, digit, tried@);
                        assert(self@.stack =~= st.push(
                            StepView { row: row as int, col: col as int, tried: tried@ },
                        ));
                    }
                } else {
                    proof {
                        lemma_dead_end(o, w, st, row as int, col as int, 1);
                    }
                    self.unwind(Ghost(p));
                }
            },
        }
    }

    /// Takes all the steps that are left. A solve that was under way ends
    /// solved if the starting grid has a solution, and exhausted if not.
    pub fn finish(&mut self)
        requires
            old(self).wf(),
        ensures
            final(self).wf(),
            final(self)@.origin == old(self)@.origin,
            final(self)@.given == old(self)@.given,
            final(self)@.delay_ms == old(self)@.delay_ms,
            old(self)@.state != SolveState::Stepping ==> final(self)@ == old(self)@,
            old(self)@.state == SolveState::Stepping ==> final(self)@.state == if solvable(
                old(self)@.origin,
            ) {
                SolveState::Solved
            } else {
                SolveState::Exhausted
            },
    {
        while self.is_due(self.delay_ms)
            invariant
                self.wf(),
                self@.origin == old(self)@.origin,
                self@.given == old(self)@.given,
                self@.delay_ms == old(self)@.delay_ms,
                old(self)@.state != SolveState::Stepping ==> self@ == old(self)@,
                old(self)@.state == SolveState::Stepping ==> self@.state != SolveState::Idle,
            decreases
                    if self@.state == SolveState::Stepping {
                        1int
                    } else {
                        0int
                    },
                    pow10(81) - rank(self@.working, 81),
        {
            let ghost before = self@.working;
            self.advance();
            proof {
                if self@.state == SolveState::Stepping {
                    lemma_lex_lt_rank(before, self@.working);
                }
            }
        }
    }

    /// Backtracks from a dead end: no filling agrees with the working grid
    /// in its first `f` cells, all of which are filled.
    fn unwind(&mut self, Ghost(f): Ghost<int>)
        requires
            old(self).wf(),
            old(self)@.state == SolveState::Stepping,
            valid(old(self)@.origin),
            frontier(old(self)@.stack) <= f <= 81,
            filled_before(old(self)@.working, f),
            dead(old(self)@.origin, old(self)@.working, f),
        ensures
            final(self).wf(),
            final(self)@ == unwound(old(self)@),
    {
        let ghost o = self@.origin;
        let ghost mut f = f;
        loop
            invariant
                self.wf(),
                self@.state == SolveState::Stepping,
                self@.origin == o,
                self@.given == old(self)@.given,
                self@.delay_ms == old(self)@.delay_ms,
                frontier(self@.stack) <= f <= 81,
                filled_before(self@.working, f),
                dead(o, self@.working, f),
                unwound(self@) == unwound(old(self)@),
            decreases self.stack.len(),
        {
            let ghost v = self@;
            let ghost w = self@.working;
            let ghost st = self@.stack;
            let ghost stack_before = self.stack@;
            match self.stack.pop() {
                None => {
                    proof {
                        assert(st =~= Seq::empty());
                        assert(self@.stack =~= Seq::empty());
                        lemma_exhausted(o, w, f);
                        lemma_unfillable_is_unsolvable(o);
                    }
                    self.state = SolveState::Exhausted;
                    return ;
                },
                Some(step) => {
                    let row = step.row;
                    let col = step.col;
                    let ghost e = step@;
                    proof {
                        assert(st.last() == e);
                        assert(self@.stack =~= st.drop_last());
                        assert(in_grid(st[st.len() - 1].row, st[st.len() - 1].col));
                        assert(tried_ok(st[st.len() - 1].tried));
                        lemma_pop(o, w, st, f);
                    }
                    let last = step.tried[step.tried.len() - 1];
                    self.working.set(row, col, 0);
                    let ghost w1 = self@.working;
                    let ghost st1 = self@.stack;
                    proof {
                        lemma_least_safe(w1, row as int, col as int, last + 1);
                    }
                    let digit = Self::first_safe_digit(&self.working, row, col, last + 1);
                    if digit <= 9 {
                        self.working.set(row, col, digit);
                        let mut tried = step.tried;
                        tried.push(digit);
                        proof {
                            assert(tried@ =~= e.tried.push(digit));
                            assert(tried_ok(tried@)) by {
                                assert forall|i: int, j: int|
                                    0 <= i < j < tried@.len() implies tried@[i] < tried@[j] by {
                                    if j == tried@.len() - 1 {
                                        if i < e.tried.len() - 1 {
                                            assert(e.tried[i] < e.tried[e.tried.len() - 1]);
                                        }
                                    }
                                }
                            }
                            lemma_place(
                                o,
                                w1,
                                st1,
                                row as int,
                                col as int,
                                last + 1,
                                digit,
                                tried@,
                            );
                        }
                        self.stack.push(SolverStep { row, col, tried });
                        proof {
                            assert(self@.stack =~= st1.push(
                                StepView { row: row as int, col: col as int, tried: tried@ },
                            ));
                        }
                        return ;
                    }
                    proof {
                        lemma_dead_end(o, w1, st1, row as int, col as int, last + 1);
                        f = pos(row as int, col as int);
                    }
                },
            }
        }
    }

    /// The least digit from `from` to 9 that may stand at `(row, col)`, or 10
    /// if there is none.
    fn first_safe_digit(grid: &Grid, row: usize, col: usize, from: u8) -> (digit: u8)
        requires
            grid.wf(),
            row < 9,
            col < 9,
            1 <= from <= 10,
        ensures
            digit == least_safe(grid@.cells, row as int, col as int, from as int),
    {
        let mut digit = from;
        while digit <= 9
            invariant
                grid.wf(),
                row < 9,
                col < 9,
                1 <= from <= digit <= 10,
                least_safe(grid@.cells, row as int, col as int, from as int) == least_safe(
                    grid@.cells,
                    row as int,
                    col as int,
                    digit as int,
                ),
            decreases 10 - digit,
        {
            if Solver::is_safe_static(grid, row, col, digit) {
                return digit;
            }
            digit += 1;
        }
        digit
    }

    /// Gives up the solve: the stack and the working grid are discarded.
    pub fn cancel(&mut self)
        requires
            old(self).wf(),
        ensures
            final(self).wf(),
            final(self)@ == (AnimationView {
                state: SolveState::Idle,
                working: empty_board(),
                stack: Seq::empty(),
                ..old(self)@
            }),
    {
        self.stack = Vec::new();
        self.working = Grid::new();
        self.state = SolveState::Idle;
        assert(self@.stack =~= Seq::empty());
    }

    /// Sets the time between two steps, in milliseconds.
    pub fn set_delay(&mut self, delay_ms: u64)
        ensures
            final(self)@ == (AnimationView { delay_ms: delay_ms, ..old(self)@ }),
            old(self).wf() ==> final(self).wf(),
    {
        self.delay_ms = delay_ms;
    }

    /// The time between two steps, in milliseconds.
    pub fn delay_ms(&self) -> (delay_ms: u64)
        ensures
            delay_ms == self@.delay_ms,
    {
        self.delay_ms
    }

    /// Whether a step is due, `elapsed_ms` milliseconds after the last one:
    /// the solve is under way and the delay has passed.
    pub fn is_due(&self, elapsed_ms: u64) -> (due: bool)
        ensures
            due == (self@.state == SolveState::Stepping && elapsed_ms >= self@.delay_ms),
    {
        match self.state {
            SolveState::Stepping => elapsed_ms >= self.delay_ms,
            _ => false,
        }
    }

    /// Where the solve stands.
    pub fn state(&self) -> (state: SolveState)
        ensures
            state == self@.state,
    {
        self.state
    }

    /// The working grid. None of its cells is fixed.
    pub fn grid(&self) -> (grid: &Grid)
        requires
            self.wf(),
        ensures
            grid.wf(),
            grid@.cells == self@.working,
            forall|k: int| 0 <= k < 81 ==> !#[trigger] grid@.fixed[k],
    {
        &self.working
    }

    /// Whether `(row, col)` was fixed on the grid that the solve started on.
    pub fn is_given(&self, row: usize, col: usize) -> (given: bool)
        requires
            row < 9,
            col < 9,
        ensures
            given == self@.given[pos(row as int, col as int)],
    {
        self.origin.is_fixed(row, col)
    }

    /// The search stack, oldest placement first.
    pub fn steps(&self) -> (steps: &Vec<SolverStep>)
        ensures
            stack_view(steps@) == self@.stack,
    {
        &self.stack
    }
}

/// Backtracking changes neither the starting grid nor the delay.
pub proof fn lemma_unwound_frame(v: AnimationView)
    ensures
        unwound(v).origin == v.origin,
        unwound(v).given == v.given,
        unwound(v).delay_ms == v.delay_ms,
        unwound(v).state == v.state || unwound(v).state == SolveState::Exhausted,
    decreases v.stack.len(),
{
    if v.stack.len() > 0 {
        let e = v.stack.last();
        let below = AnimationView {
            working: with_cell(v.working, e.row, e.col, 0),
            stack: v.stack.drop_last(),
            ..v
        };
        lemma_unwound_frame(below);
    }
}

/// Backtracking that does not exhaust the search leaves a working grid that
/// comes after `w0` in reading order, where `w0` agrees with the working
/// grid on the first `f` cells and the stack ends before cell `f`.
pub proof fn lemma_unwound_goes_up(v: AnimationView, w0: Board, f: int)
    requires
        v.working.len() == 81,
        w0.len() == 81,
        entries_ok(v.working, v.stack),
        ascending(v.stack),
        frontier(v.stack) <= f <= 81,
        agree_before(v.working, w0, f),
    ensures
        unwound(v).state != SolveState::Exhausted ==> lex_lt(w0, unwound(v).working),
    decreases v.stack.len(),
{
    if v.stack.len() > 0 {
        let n = v.stack.len() - 1;
        let e = v.stack.last();
        assert(e == v.stack[n]);
        let t = step_pos(e);
        assert(in_grid(e.row, e.col));
        let below = AnimationView {
            working: with_cell(v.working, e.row, e.col, 0),
            stack: v.stack.drop_last(),
            ..v
        };
        let d = least_safe(below.working, e.row, e.col, e.tried.last() + 1);
        assert(tried_ok(e.tried));
        assert(1 <= e.tried[e.tried.len() - 1] <= 9);
        lemma_least_safe(below.working, e.row, e.col, e.tried.last() + 1);
        if d <= 9 {
            let res = with_cell(below.working, e.row, e.col, d as u8);
            assert(v.working[t] == w0[t]);
            assert forall|j: int| 0 <= j < t implies #[trigger] w0[j] == res[j] by {
                assert(v.working[j] == w0[j]);
            }
            assert(smaller_at(w0, res, t));
        } else {
            assert forall|i: int| 0 <= i < below.stack.len() implies {
                &&& in_grid((#[trigger] below.stack[i]).row, below.stack[i].col)
                &&& tried_ok(below.stack[i].tried)
                &&& below.stack[i].tried.last() == at(
                    below.working,
                    below.stack[i].row,
                    below.stack[i].col,
                )
            } by {
                assert(below.stack[i] == v.stack[i]);
                assert(step_pos(v.stack[i]) < step_pos(v.stack[n]));
            }
            assert forall|i: int, j: int| 0 <= i < j < below.stack.len() implies step_pos(
                #[trigger] below.stack[i],
            ) < step_pos(#[trigger] below.stack[j]) by {
                assert(below.stack[i] == v.stack[i]);
                assert(below.stack[j] == v.stack[j]);
            }
            assert(frontier(below.stack) <= t) by {
                if below.stack.len() > 0 {
                    assert(below.stack.last() == v.stack[n - 1]);
                    assert(step_pos(v.stack[n - 1]) < step_pos(v.stack[n]));
                }
            }
            assert forall|j: int| 0 <= j < t implies #[trigger] below.working[j] == w0[j] by {
                assert(v.working[j] == w0[j]);
            }
            lemma_unwound_goes_up(below, w0, t);
        }
    }
}

/// Every step that leaves the search under way moves the working grid up in
/// reading order. With `lemma_lex_lt_rank` this bounds the number of steps of
/// any solve.
pub proof fn lemma_step_goes_up(v: AnimationView)
    requires
        v.state == SolveState::Stepping,
        search_inv(v.origin, v.working, v.stack),
    ensures
        advanced(v).state == SolveState::Stepping ==> lex_lt(v.working, advanced(v).working),
{
    let p = first_blank(v.working, 0);
    lemma_first_blank(v.working, 0);
    if p < 81 {
        let d = least_safe(v.working, p / 9, p % 9, 1);
        lemma_least_safe(v.working, p / 9, p % 9, 1);
        if d <= 9 {
            let res = with_cell(v.working, p / 9, p % 9, d as u8);
            assert(smaller_at(v.working, res, p));
        } else {
            if v.stack.len() > 0 {
                assert(v.stack.last() == v.stack[v.stack.len() - 1]);
                assert(in_grid(v.stack.last().row, v.stack.last().col));
                assert(tried_ok(v.stack.last().tried));
                let e = v.stack.last();
                assert(1 <= e.tried[e.tried.len() - 1] <= 9);
                assert(v.working[step_pos(e)] != 0);
                if p < frontier(v.stack) {
                    assert(filled_before(v.working, frontier(v.stack)));
                    assert(v.working[p] != 0);
                }
            }
            lemma_unwound_goes_up(v, v.working, p);
        }
    }
}

/// Stepping a solve to its end gives the grid that the eager search gives:
/// if a controller started on a grid has reached `Solved`, its working grid
/// is the least solution of that grid, which is what `Solver::solve` leaves
/// in the grid when it returns `true`.
pub proof fn lemma_animation_matches_solve(anim: AnimatedSolver, solved: Board)
    requires
        anim.wf(),
        anim@.state == SolveState::Solved,
        is_least_solution(solved, anim@.origin),
    ensures
        anim@.working == solved,
{
    lemma_least_solution_unique(anim@.working, solved, anim@.origin);
}

/// An animated solve ends in `Solved` only on a grid that has a solution,
/// and in `Exhausted` only on one that has none.
pub proof fn lemma_animation_end(anim: AnimatedSolver)
    requires
        anim.wf(),
    ensures
        anim@.state == SolveState::Solved ==> solvable(anim@.origin),
        anim@.state == SolveState::Exhausted ==> !solvable(anim@.origin),
{
}

} // verus!
