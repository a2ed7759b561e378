use sudoku_app::sudoku::animation::{SolveState, SolverStep};
use sudoku_app::sudoku::{AnimatedSolver, Grid, Solver};

const SOLVED: [[u8; 9]; 9] = [
    [5, 3, 4, 6, 7, 8, 9, 1, 2],
    [6, 7, 2, 1, 9, 5, 3, 4, 8],
    [1, 9, 8, 3, 4, 2, 5, 6, 7],
    [8, 5, 9, 7, 6, 1, 4, 2, 3],
    [4, 2, 6, 8, 5, 3, 7, 9, 1],
    [7, 1, 3, 9, 2, 4, 8, 5, 6],
    [9, 6, 1, 5, 3, 7, 2, 8, 4],
    [2, 8, 7, 4, 1, 9, 6, 3, 5],
    [3, 4, 5, 2, 8, 6, 1, 7, 9],
];

const PUZZLE: [[u8; 9]; 9] = [
    [5, 3, 0, 0, 7, 0, 0, 0, 0],
    [6, 0, 0, 1, 9, 5, 0, 0, 0],
    [0, 9, 8, 0, 0, 0, 0, 6, 0],
    [8, 0, 0, 0, 6, 0, 0, 0, 3],
    [4, 0, 0, 8, 0, 3, 0, 0, 1],
    [7, 0, 0, 0, 2, 0, 0, 0, 6],
    [0, 6, 0, 0, 0, 0, 2, 8, 0],
    [0, 0, 0, 4, 1, 9, 0, 0, 5],
    [0, 0, 0, 0, 8, 0, 0, 7, 9],
];

fn grid_of(rows: &[[u8; 9]; 9]) -> Grid {
    let mut grid = Grid::new();
    for row in 0..9 {
        for col in 0..9 {
            grid.set(row, col, rows[row][col]);
        }
    }
    grid
}

fn rows_of(grid: &Grid) -> [[u8; 9]; 9] {
    let mut rows = [[0u8; 9]; 9];
    for row in 0..9 {
        for col in 0..9 {
            rows[row][col] = grid.get(row, col);
        }
    }
    rows
}

fn run(solver: &mut AnimatedSolver) -> usize {
    let mut steps = 0;
    while solver.state() == SolveState::Stepping {
        solver.advance();
        steps += 1;
        assert!(steps < 10_000_000);
    }
    steps
}

fn entry(step: &SolverStep) -> (usize, usize, Vec<u8>) {
    let step = step.clone();
    (step.row, step.col, step.tried)
}

#[test]
fn new_controller_is_idle() {
    let solver = AnimatedSolver::new();
    assert_eq!(solver.state(), SolveState::Idle);
    assert_eq!(solver.delay_ms(), 0);
    assert!(solver.steps().is_empty());
    assert_eq!(rows_of(solver.grid()), [[0u8; 9]; 9]);
}

#[test]
fn advance_does_nothing_while_idle() {
    let mut solver = AnimatedSolver::new();
    solver.advance();
    assert_eq!(solver.state(), SolveState::Idle);
    assert!(solver.steps().is_empty());
}

#[test]
fn start_copies_the_grid_and_opens_every_cell() {
    let mut grid = grid_of(&PUZZLE);
    grid.set_fixed(0, 0, true);
    grid.set_fixed(8, 8, true);
    let mut solver = AnimatedSolver::new();
    solver.start(&grid, 40);
    assert_eq!(solver.state(), SolveState::Stepping);
    assert_eq!(solver.delay_ms(), 40);
    assert!(solver.steps().is_empty());
    assert_eq!(rows_of(solver.grid()), PUZZLE);
    for row in 0..9 {
        for col in 0..9 {
            assert!(!solver.grid().is_fixed(row, col));
            assert_eq!(solver.is_given(row, col), grid.is_fixed(row, col));
        }
    }
    assert!(solver.is_given(0, 0));
    assert!(!solver.is_given(0, 1));
    assert!(grid.is_fixed(0, 0));
}

#[test]
fn first_step_places_the_least_safe_digit_in_the_first_empty_cell() {
    let mut solver = AnimatedSolver::new();
    solver.start(&grid_of(&PUZZLE), 0);
    solver.advance();
    assert_eq!(solver.state(), SolveState::Stepping);
    assert_eq!(solver.grid().get(0, 2), 1);
    let steps: Vec<_> = solver.steps().iter().map(entry).collect();
    assert_eq!(steps, vec![(0, 2, vec![1])]);
    let mut expected = PUZZLE;
    expected[0][2] = 1;
    assert_eq!(rows_of(solver.grid()), expected);
}

#[test]
fn each_step_is_one_placement_until_a_dead_end() {
    let mut solver = AnimatedSolver::new();
    solver.start(&grid_of(&PUZZLE), 0);
    solver.advance();
    solver.advance();
    solver.advance();
    let steps: Vec<_> = solver.steps().iter().map(entry).collect();
    assert_eq!(steps, vec![(0, 2, vec![1]), (0, 3, vec![2]), (0, 5, vec![4])]);
}

#[test]
fn a_dead_end_takes_back_placements_until_a_greater_digit_fits() {
    // Row 0 is 1 2 3 4 5 6 _ _ _ and a 7 stands in the block of the three
    // empty cells: only 8 and 9 are left for three cells.
    let mut grid = Grid::new();
    for col in 0..6 {
        grid.set(0, col, col as u8 + 1);
    }
    grid.set(1, 8, 7);
    let before = rows_of(&grid);
    let mut solver = AnimatedSolver::new();
    solver.start(&grid, 0);

    solver.advance();
    let steps: Vec<_> = solver.steps().iter().map(entry).collect();
    assert_eq!(steps, vec![(0, 6, vec![8])]);

    solver.advance();
    let steps: Vec<_> = solver.steps().iter().map(entry).collect();
    assert_eq!(steps, vec![(0, 6, vec![8]), (0, 7, vec![9])]);

    // (0, 8) takes no digit. (0, 7) is cleared and has nothing above 9;
    // (0, 6) is cleared and takes 9, on a new entry that records both digits.
    solver.advance();
    let steps: Vec<_> = solver.steps().iter().map(entry).collect();
    assert_eq!(steps, vec![(0, 6, vec![8, 9])]);
    assert_eq!(solver.grid().get(0, 6), 9);
    assert_eq!(solver.grid().get(0, 7), 0);
    assert_eq!(solver.state(), SolveState::Stepping);

    solver.advance();
    let steps: Vec<_> = solver.steps().iter().map(entry).collect();
    assert_eq!(steps, vec![(0, 6, vec![8, 9]), (0, 7, vec![8])]);

    // Again (0, 8) takes no digit, and this time nothing is left below.
    solver.advance();
    assert_eq!(solver.state(), SolveState::Exhausted);
    assert!(solver.steps().is_empty());
    assert_eq!(rows_of(solver.grid()), before);
}

#[test]
fn stepping_a_puzzle_to_the_end_gives_the_grid_of_the_eager_search() {
    let grid = grid_of(&PUZZLE);
    let mut eager = grid.clone();
    assert!(Solver::solve(&mut eager));

    let mut solver = AnimatedSolver::new();
    solver.start(&grid, 0);
    run(&mut solver);
    assert_eq!(solver.state(), SolveState::Solved);
    assert_eq!(rows_of(solver.grid()), rows_of(&eager));
    assert_eq!(rows_of(solver.grid()), SOLVED);
    assert!(solver.grid().is_complete());
}

#[test]
fn stepping_an_empty_grid_to_the_end_gives_the_grid_of_the_eager_search() {
    let grid = Grid::new();
    let mut eager = grid.clone();
    assert!(Solver::solve(&mut eager));

    let mut solver = AnimatedSolver::new();
    solver.start(&grid, 0);
    let steps = run(&mut solver);
    assert!(steps > 81);
    assert_eq!(solver.state(), SolveState::Solved);
    assert_eq!(rows_of(solver.grid()), rows_of(&eager));
    assert_eq!(solver.steps().len(), 81);
}

#[test]
fn stepping_a_complete_grid_is_solved_in_one_step() {
    let mut solver = AnimatedSolver::new();
    solver.start(&grid_of(&SOLVED), 0);
    solver.advance();
    assert_eq!(solver.state(), SolveState::Solved);
    assert_eq!(rows_of(solver.grid()), SOLVED);
    assert!(solver.steps().is_empty());
}

#[test]
fn advance_does_nothing_once_solved() {
    let mut solver = AnimatedSolver::new();
    solver.start(&grid_of(&PUZZLE), 0);
    run(&mut solver);
    let depth = solver.steps().len();
    solver.advance();
    assert_eq!(solver.state(), SolveState::Solved);
    assert_eq!(rows_of(solver.grid()), SOLVED);
    assert_eq!(solver.steps().len(), depth);
}

#[test]
fn a_grid_without_solution_ends_exhausted_and_unchanged() {
    let mut grid = Grid::new();
    for col in 0..8 {
        grid.set(0, col, col as u8 + 1);
    }
    grid.set(5, 8, 9);
    let before = rows_of(&grid);
    let mut eager = grid.clone();
    assert!(!Solver::solve(&mut eager));

    let mut solver = AnimatedSolver::new();
    solver.start(&grid, 0);
    solver.advance();
    assert_eq!(solver.state(), SolveState::Exhausted);
    assert_eq!(rows_of(solver.grid()), before);
    assert!(solver.steps().is_empty());
    solver.advance();
    assert_eq!(solver.state(), SolveState::Exhausted);
}

#[test]
fn a_search_that_backtracks_to_the_bottom_ends_exhausted() {
    // A valid grid without solution: row 0 lacks 7, 8 and 9, and the 7 in
    // the block of its three empty cells leaves only 8 and 9 for them.
    let mut grid = Grid::new();
    for col in 0..6 {
        grid.set(0, col, col as u8 + 1);
    }
    grid.set(1, 8, 7);
    assert!(grid.is_valid());
    let before = rows_of(&grid);
    let mut eager = grid.clone();
    assert!(!Solver::solve(&mut eager));

    let mut solver = AnimatedSolver::new();
    solver.start(&grid, 0);
    let steps = run(&mut solver);
    assert_eq!(steps, 5);
    assert_eq!(solver.state(), SolveState::Exhausted);
    assert_eq!(rows_of(solver.grid()), before);
    assert!(solver.steps().is_empty());
}

#[test]
fn cancel_discards_the_search() {
    let mut solver = AnimatedSolver::new();
    solver.start(&grid_of(&PUZZLE), 25);
    solver.advance();
    solver.advance();
    solver.cancel();
    assert_eq!(solver.state(), SolveState::Idle);
    assert!(solver.steps().is_empty());
    assert_eq!(rows_of(solver.grid()), [[0u8; 9]; 9]);
    assert_eq!(solver.delay_ms(), 25);
    solver.advance();
    assert_eq!(solver.state(), SolveState::Idle);
}

#[test]
fn a_cancelled_controller_can_start_again() {
    let mut solver = AnimatedSolver::new();
    solver.start(&grid_of(&PUZZLE), 0);
    solver.advance();
    solver.cancel();
    solver.start(&grid_of(&PUZZLE), 0);
    run(&mut solver);
    assert_eq!(solver.state(), SolveState::Solved);
    assert_eq!(rows_of(solver.grid()), SOLVED);
}

#[test]
fn delay_can_be_set_while_stepping() {
    let mut solver = AnimatedSolver::new();
    solver.start(&grid_of(&PUZZLE), 100);
    solver.advance();
    solver.set_delay(5);
    assert_eq!(solver.delay_ms(), 5);
    assert_eq!(solver.state(), SolveState::Stepping);
    assert_eq!(solver.steps().len(), 1);
}

#[test]
fn a_step_is_due_when_the_delay_has_passed_while_stepping() {
    let mut solver = AnimatedSolver::new();
    assert!(!solver.is_due(1000));
    solver.start(&grid_of(&SOLVED), 50);
    assert!(!solver.is_due(49));
    assert!(solver.is_due(50));
    assert!(solver.is_due(51));
    solver.advance();
    assert_eq!(solver.state(), SolveState::Solved);
    assert!(!solver.is_due(1000));
}

#[test]
fn finish_takes_all_the_steps_that_are_left() {
    let grid = grid_of(&PUZZLE);
    let mut eager = grid.clone();
    assert!(Solver::solve(&mut eager));

    let mut solver = AnimatedSolver::new();
    solver.start(&grid, 15);
    solver.advance();
    solver.advance();
    solver.finish();
    assert_eq!(solver.state(), SolveState::Solved);
    assert_eq!(rows_of(solver.grid()), rows_of(&eager));
    assert_eq!(solver.delay_ms(), 15);
}

#[test]
fn finish_ends_exhausted_on_a_grid_without_solution() {
    let mut grid = Grid::new();
    for col in 0..6 {
        grid.set(0, col, col as u8 + 1);
    }
    grid.set(1, 8, 7);
    assert!(grid.is_valid());
    let before = rows_of(&grid);
    let mut solver = AnimatedSolver::new();
    solver.start(&grid, 0);
    solver.finish();
    assert_eq!(solver.state(), SolveState::Exhausted);
    assert_eq!(rows_of(solver.grid()), before);
}

#[test]
fn finish_does_nothing_unless_a_solve_is_under_way() {
    let mut solver = AnimatedSolver::new();
    solver.finish();
    assert_eq!(solver.state(), SolveState::Idle);
    solver.start(&grid_of(&SOLVED), 0);
    solver.finish();
    assert_eq!(solver.state(), SolveState::Solved);
    solver.finish();
    assert_eq!(solver.state(), SolveState::Solved);
    assert_eq!(rows_of(solver.grid()), SOLVED);
}

#[test]
fn each_step_moves_the_working_grid_up_in_reading_order() {
    let mut solver = AnimatedSolver::new();
    solver.start(&grid_of(&PUZZLE), 0);
    let mut before: Vec<u8> = rows_of(solver.grid()).iter().flatten().copied().collect();
    loop {
        solver.advance();
        if solver.state() != SolveState::Stepping {
            break;
        }
        let after: Vec<u8> = rows_of(solver.grid()).iter().flatten().copied().collect();
        assert!(before < after);
        before = after;
    }
    assert_eq!(solver.state(), SolveState::Solved);
}

#[test]
fn a_grid_with_clashing_digits_is_exhausted_at_the_first_step() {
    let mut grid = grid_of(&SOLVED);
    grid.set(0, 0, 3);
    grid.set(8, 8, 0);
    let before = rows_of(&grid);
    let mut eager = grid.clone();
    assert!(!Solver::solve(&mut eager));

    let mut solver = AnimatedSolver::new();
    solver.start(&grid, 0);
    assert_eq!(solver.state(), SolveState::Stepping);
    solver.advance();
    assert_eq!(solver.state(), SolveState::Exhausted);
    assert_eq!(rows_of(solver.grid()), before);
    assert!(solver.steps().is_empty());
}

#[test]
fn finish_ends_exhausted_on_two_fives_side_by_side() {
    let mut grid = Grid::new();
    grid.set(0, 0, 5);
    grid.set(0, 1, 5);
    let before = rows_of(&grid);
    let mut solver = AnimatedSolver::new();
    solver.start(&grid, 0);
    solver.finish();
    assert_eq!(solver.state(), SolveState::Exhausted);
    assert_eq!(rows_of(solver.grid()), before);
}
