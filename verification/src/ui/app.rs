//! The state of one game and what each action of the player does to it.
//! Drawing and input belong to the program that shows the game.
use vstd::prelude::*;
use crate::sudoku::animation::{advanced, AnimatedSolver, AnimationView, SolveState};
use crate::sudoku::board::{
    blank_count, complete, empty_board, pos, valid, with_cell, Board,
};
use crate::sudoku::generator::{puzzle_from, Difficulty, Generator};
use crate::sudoku::grid::{Grid, GridView};
use crate::sudoku::solution::{is_least_solution, solvable};
use crate::sudoku::solver::Solver;

verus! {

/// A game: the puzzle with the player's entries, the cell the player has
/// selected, whether the puzzle has been solved, and the animated solve that
/// may be running on it.
pub struct SudokuApp {
    grid: Grid,
    selected_cell: Option<(usize, usize)>,
    game_won: bool,
    animation: AnimatedSolver,
}

/// What a [`SudokuApp`] holds.
pub ghost struct AppView {
    pub grid: GridView,
    pub selected_cell: Option<(usize, usize)>,
    pub game_won: bool,
    pub animation: AnimationView,
}

impl View for SudokuApp {
    type V = AppView;

    closed spec fn view(&self) -> AppView {
        AppView {
            grid: self.grid@,
            selected_cell: self.selected_cell,
            game_won: self.game_won,
            animation: self.animation@,
        }
    }
}

/// An animated solve that has not been started.
pub open spec fn idle_animation(delay_ms: u64) -> AnimationView {
    AnimationView {
        state: SolveState::Idle,
        origin: empty_board(),
        given: Seq::new(81, |k: int| false),
        working: empty_board(),
        stack: Seq::empty(),
        delay_ms: delay_ms,
    }
}

/// A fresh game on `grid`: nothing selected, not won, no solve running.
pub open spec fn fresh_game(grid: GridView, animation: AnimationView) -> AppView {
    AppView { grid: grid, selected_cell: None, game_won: false, animation: animation }
}

/// `grid` is a puzzle as the generator makes it for `difficulty`: a valid
/// grid with a solution and as many empty cells as the difficulty asks
/// for, cut from a full grid, whose digits are all fixed.
pub open spec fn generated(grid: GridView, difficulty: Difficulty) -> bool {
    &&& valid(grid.cells)
    &&& solvable(grid.cells)
    &&& blank_count(grid.cells) == difficulty.target()
    &&& forall|k: int| 0 <= k < 81 ==> #[trigger] grid.fixed[k] == (grid.cells[k] != 0)
    &&& exists|seed: Board, full: Board, order: Seq<(usize, usize)>| #[trigger]
        puzzle_from(grid.cells, seed, full, order, difficulty.target())
}

impl Default for SudokuApp {
    /// A new game on a puzzle of medium difficulty.
    fn default() -> (app: Self)
        ensures
            app.wf(),
            app@ == fresh_game(app@.grid, idle_animation(0)),
            generated(app@.grid, Difficulty::Medium),
    {
        SudokuApp {
            grid: Generator::generate(Difficulty::Medium),
            selected_cell: None,
            game_won: false,
            animation: AnimatedSolver::new(),
        }
    }
}

impl SudokuApp {
    /// The grid is well formed and the selected cell, if any, is an open cell
    /// of the grid.
    pub open spec fn wf(&self) -> bool {
        &&& self.grid_ok()
        &&& match self@.selected_cell {
            Some((row, col)) => {
                &&& row < 9
                &&& col < 9
                &&& !self@.grid.fixed[pos(row as int, col as int)]
            },
            None => true,
        }
    }

    /// The grid is well formed, and so is the animated solve.
    pub closed spec fn grid_ok(&self) -> bool {
        self.grid.wf() && self.animation.wf()
    }

    /// Starts a new game on a fresh puzzle. A solve that is running is given up.
    pub fn new_game(&mut self, difficulty: Difficulty)
        requires
            old(self).wf(),
        ensures
            final(self).wf(),
            final(self)@ == fresh_game(
                final(self)@.grid,
                AnimationView {
                    state: SolveState::Idle,
                    working: empty_board(),
                    stack: Seq::empty(),
                    ..old(self)@.animation
                },
            ),
            generated(final(self)@.grid, difficulty),
    {
        self.grid = Generator::generate(difficulty);
        self.selected_cell = None;
        self.game_won = false;
        self.animation.cancel();
    }

    /// Solves the puzzle as it stands, the player's entries included. If it
    /// has a solution, the grid takes the first one and the game is won;
    /// if not, nothing changes. The fixed mask and the selection stay.
    pub fn solve(&mut self) -> (found: bool)
        requires
            old(self).wf(),
        ensures
            final(self).wf(),
            found == solvable(old(self)@.grid.cells),
            found ==> is_least_solution(final(self)@.grid.cells, old(self)@.grid.cells),
            found ==> final(self)@.game_won,
            found ==> final(self)@.selected_cell == old(self)@.selected_cell,
            found ==> final(self)@.grid.fixed == old(self)@.grid.fixed,
            found ==> final(self)@.animation == old(self)@.animation,
            !found ==> final(self)@ == old(self)@,
    {
        let mut solving_grid = self.grid.clone();

        for row in 0..9usize
            invariant
                solving_grid.wf(),
                solving_grid@.cells == self.grid@.cells,
        {
            for col in 0..9usize
                invariant
                    row < 9,
                    solving_grid.wf(),
                    solving_grid@.cells == self.grid@.cells,
            {
                solving_grid.set_fixed(row, col, false);
            }
        }

        if Solver::solve(&mut solving_grid) {
            for row in 0..9usize
                invariant
                    self.grid.wf(),
                    solving_grid.wf(),
                    self.grid@.fixed == old(self).grid@.fixed,
                    self.selected_cell == old(self).selected_cell,
                    self.animation == old(self).animation,
                    forall|k: int|
                        0 <= k < 81 ==> #[trigger] self.grid@.cells[k] == if k < 9 * row {
                            solving_grid@.cells[k]
                        } else {
                            old(self).grid@.cells[k]
                        },
            {
                for col in 0..9usize
                    invariant
                        row < 9,
                        self.grid.wf(),
                        solving_grid.wf(),
                        self.grid@.fixed == old(self).grid@.fixed,
                        self.selected_cell == old(self).selected_cell,
                        self.animation == old(self).animation,
                        forall|k: int|
                            0 <= k < 81 ==> #[trigger] self.grid@.cells[k] == if k < 9 * row
                                + col {
                                solving_grid@.cells[k]
                            } else {
                                old(self).grid@.cells[k]
                            },
                {
                    let value = solving_grid.get(row, col);
                    self.grid.set(row, col, value);
                }
            }
            assert(self.grid@.cells =~= solving_grid@.cells);
            self.game_won = true;
            true
        } else {
            false
        }
    }

    /// Empties every cell that is not fixed. The game is no longer won.
    pub fn clear_entries(&mut self)
        requires
            old(self).wf(),
        ensures
            final(self).wf(),
            final(self)@.selected_cell == old(self)@.selected_cell,
            final(self)@.animation == old(self)@.animation,
            !final(self)@.game_won,
            final(self)@.grid.fixed == old(self)@.grid.fixed,
            forall|k: int|
                0 <= k < 81 ==> #[trigger] final(self)@.grid.cells[k] == if old(
                    self
                )@.grid.fixed[k] {
                    old(self)@.grid.cells[k]
                } else {
                    0
                },
    {
        self.grid.clear_non_fixed();
        self.game_won = false;
    }

    /// Selects the cell `(row, col)` if it is a cell of the grid and not
    /// fixed. Otherwise the selection stays as it is.
    pub fn select(&mut self, row: usize, col: usize)
        requires
            old(self).wf(),
        ensures
            final(self).wf(),
            final(self)@ == if row < 9 && col < 9 && !old(self)@.grid.fixed[pos(
                row as int,
                col as int,
            )] {
                AppView { selected_cell: Some((row, col)), ..old(self)@ }
            } else {
                old(self)@
            },
    {
        if row < 9 && col < 9 && !self.grid.is_fixed(row, col) {
            self.selected_cell = Some((row, col));
        }
    }

    /// Writes `value` into the selected cell; 0 empties it. Without a
    /// selection nothing changes.
    pub fn enter(&mut self, value: u8)
        requires
            old(self).wf(),
            value <= 9,
        ensures
            final(self).wf(),
            final(self)@ == match old(self)@.selected_cell {
                Some((row, col)) => AppView {
                    grid: GridView {
                        cells: with_cell(old(self)@.grid.cells, row as int, col as int, value),
                        ..old(self)@.grid
                    },
                    ..old(self)@
                },
                None => old(self)@,
            },
    {
        if let Some((row, col)) = self.selected_cell {
            self.grid.set_user(row, col, value);
        }
    }

    /// Whether the game is won: it was won before, or the grid is complete.
    /// A game found won stays won.
    pub fn check_won(&mut self) -> (won: bool)
        requires
            old(self).wf(),
        ensures
            final(self).wf(),
            won == (old(self)@.game_won || complete(old(self)@.grid.cells)),
            final(self)@ == (AppView { game_won: won, ..old(self)@ }),
    {
        if self.game_won || self.grid.is_complete() {
            self.game_won = true;
            true
        } else {
            false
        }
    }

    /// Starts an animated solve of the grid as it stands, one step every
    /// `delay_ms` milliseconds.
    pub fn start_animation(&mut self, delay_ms: u64)
        requires
            old(self).wf(),
        ensures
            final(self).wf(),
            final(self)@ == (AppView {
                animation: AnimationView {
                    state: SolveState::Stepping,
                    origin: old(self)@.grid.cells,
                    given: old(self)@.grid.fixed,
                    working: old(self)@.grid.cells,
                    stack: Seq::empty(),
                    delay_ms: delay_ms,
                },
                ..old(self)@
            }),
    {
        self.animation.start(&self.grid, delay_ms);
    }

    /// Gives up the animated solve.
    pub fn cancel_animation(&mut self)
        requires
            old(self).wf(),
        ensures
            final(self).wf(),
            final(self)@ == (AppView {
                animation: AnimationView {
                    state: SolveState::Idle,
                    working: empty_board(),
                    stack: Seq::empty(),
                    ..old(self)@.animation
                },
                ..old(self)@
            }),
    {
        self.animation.cancel();
    }

    /// Sets the time between two steps of the animated solve.
    pub fn set_animation_delay(&mut self, delay_ms: u64)
        requires
            old(self).wf(),
        ensures
            final(self).wf(),
            final(self)@ == (AppView {
                animation: AnimationView { delay_ms: delay_ms, ..old(self)@.animation },
                ..old(self)@
            }),
    {
        self.animation.set_delay(delay_ms);
    }

    /// Lets the animated solve take a step if one is due, `elapsed_ms`
    /// milliseconds after the last one. When that step finds the grid solved,
    /// the digits of the working grid become those of the game and the game
    /// is won. Returns whether a step was taken.
    pub fn tick(&mut self, elapsed_ms: u64) -> (stepped: bool)
        requires
            old(self).wf(),
        ensures
            final(self).wf(),
            stepped == (old(self)@.animation.state == SolveState::Stepping && elapsed_ms
                >= old(self)@.animation.delay_ms),
            !stepped ==> final(self)@ == old(self)@,
            stepped ==> final(self)@.animation == advanced(old(self)@.animation),
            stepped ==> final(self)@.selected_cell == old(self)@.selected_cell,
            stepped ==> final(self)@.grid.fixed == old(self)@.grid.fixed,
            stepped && final(self)@.animation.state == SolveState::Solved ==> {
                &&& final(self)@.game_won
                &&& final(self)@.grid.cells == final(self)@.animation.working
            },
            stepped && final(self)@.animation.state != SolveState::Solved ==> {
                &&& final(self)@.game_won == old(self)@.game_won
                &&& final(self)@.grid.cells == old(self)@.grid.cells
            },
    {
        if !self.animation.is_due(elapsed_ms) {
            return false;
        }
        self.animation.advance();
        match self.animation.state() {
            SolveState::Solved => {
                for row in 0..9usize
                    invariant
                        self.grid.wf(),
                        self.animation.wf(),
                        self.animation@ == advanced(old(self).animation@),
                        self.grid@.fixed == old(self).grid@.fixed,
                        self.selected_cell == old(self).selected_cell,
                        forall|k: int|
                            0 <= k < 81 ==> #[trigger] self.grid@.cells[k] == if k < 9 * row {
                                self.animation@.working[k]
                            } else {
                                old(self).grid@.cells[k]
                            },
                {
                    for col in 0..9usize
                        invariant
                            row < 9,
                            self.grid.wf(),
                            self.animation.wf(),
                            self.animation@ == advanced(old(self).animation@),
                            self.grid@.fixed == old(self).grid@.fixed,
                            self.selected_cell == old(self).selected_cell,
                            forall|k: int|
                                0 <= k < 81 ==> #[trigger] self.grid@.cells[k] == if k < 9 * row
                                    + col {
                                    self.animation@.working[k]
                                } else {
                                    old(self).grid@.cells[k]
                                },
                    {
                        let value = self.animation.grid().get(row, col);
                        self.grid.set(row, col, value);
                    }
                }
                assert(self.grid@.cells =~= self.animation@.working);
                self.game_won = true;
            },
            _ => {},
        }
        true
    }

    /// The animated solve.
    pub fn animation(&self) -> (animation: &AnimatedSolver)
        requires
            self.wf(),
        ensures
            animation.wf(),
            animation@ == self@.animation,
    {
        &self.animation
    }

    /// The grid with the player's entries.
    pub fn grid(&self) -> (grid: &Grid)
        requires
            self.wf(),
        ensures
            grid.wf(),
            grid@ == self@.grid,
    {
        &self.grid
    }

    /// The cell that the player has selected.
    pub fn selected_cell(&self) -> (cell: Option<(usize, usize)>)
        ensures
            cell == self@.selected_cell,
    {
        self.selected_cell
    }

    /// Whether the game has been found won.
    pub fn game_won(&self) -> (won: bool)
        ensures
            won == self@.game_won,
    {
        self.game_won
    }
}

} // verus!
