use sudoku_app::sudoku::{Grid, Solver};

const SOLVED: [[u8; 9]; 9] = [
    [5, 3, 4, 6, 7, 8, 9, 1, 2],
    [6, 7, 2, 1, 9, 5, 3, 4, 8],
    [1, 9, 8, 3, 4, 2, 5, 6, 7],
    [8, 5, 9, 7, 6, 1, 4, 2, 3],
    [4, 2, 6, 8, 5, 3, 7, 9, 1],
    [7, 1, 3, 9, 2, 4, 8, 5, 6],
    [9, 6, 1, 5, 3, 7, 2, 8, 4],
    [2, 8, 7, 4, 1, 9, 6, 3, 5],
    [3, 4, 5, 2, 8, 6, 1, 7, 9],
];

const PUZZLE: [[u8; 9]; 9] = [
    [5, 3, 0, 0, 7, 0, 0, 0, 0],
    [6, 0, 0, 1, 9, 5, 0, 0, 0],
    [0, 9, 8, 0, 0, 0, 0, 6, 0],
    [8, 0, 0, 0, 6, 0, 0, 0, 3],
    [4, 0, 0, 8, 0, 3, 0, 0, 1],
    [7, 0, 0, 0, 2, 0, 0, 0, 6],
    [0, 6, 0, 0, 0, 0, 2, 8, 0],
    [0, 0, 0, 4, 1, 9, 0, 0, 5],
    [0, 0, 0, 0, 8, 0, 0, 7, 9],
];

const FIRST_GRID: [[u8; 9]; 9] = [
    [1, 2, 3, 4, 5, 6, 7, 8, 9],
    [4, 5, 6, 7, 8, 9, 1, 2, 3],
    [7, 8, 9, 1, 2, 3, 4, 5, 6],
    [2, 1, 4, 3, 6, 5, 8, 9, 7],
    [3, 6, 5, 8, 9, 7, 2, 1, 4],
    [8, 9, 7, 2, 1, 4, 3, 6, 5],
    [5, 3, 1, 6, 4, 2, 9, 7, 8],
    [6, 4, 2, 9, 7, 8, 5, 3, 1],
    [9, 7, 8, 5, 3, 1, 6, 4, 2],
];

fn grid_of(rows: &[[u8; 9]; 9]) -> Grid {
    let mut grid = Grid::new();
    for row in 0..9 {
        for col in 0..9 {
            grid.set(row, col, rows[row][col]);
        }
    }
    grid
}

fn rows_of(grid: &Grid) -> [[u8; 9]; 9] {
    let mut rows = [[0u8; 9]; 9];
    for row in 0..9 {
        for col in 0..9 {
            rows[row][col] = grid.get(row, col);
        }
    }
    rows
}

fn holds_one_to_nine(digits: &[u8]) -> bool {
    let mut sorted = digits.to_vec();
    sorted.sort();
    sorted == vec![1, 2, 3, 4, 5, 6, 7, 8, 9]
}

#[test]
fn digit_in_the_row_is_not_safe() {
    let mut grid = Grid::new();
    grid.set(4, 0, 6);
    assert!(!Solver::is_safe_static(&grid, 4, 8, 6));
    assert!(Solver::is_safe_static(&grid, 4, 8, 5));
}

#[test]
fn digit_in_the_column_is_not_safe() {
    let mut grid = Grid::new();
    grid.set(0, 7, 3);
    assert!(!Solver::is_safe_static(&grid, 8, 7, 3));
    assert!(Solver::is_safe_static(&grid, 8, 7, 4));
}

#[test]
fn digit_in_the_block_is_not_safe() {
    let mut grid = Grid::new();
    grid.set(6, 6, 1);
    assert!(!Solver::is_safe_static(&grid, 8, 8, 1));
    assert!(!Solver::is_safe_static(&grid, 7, 7, 1));
    assert!(Solver::is_safe_static(&grid, 5, 5, 1));
    assert!(Solver::is_safe_static(&grid, 8, 5, 1));
}

#[test]
fn digit_in_the_cell_itself_is_not_safe() {
    let mut grid = Grid::new();
    grid.set(2, 2, 8);
    assert!(!Solver::is_safe_static(&grid, 2, 2, 8));
}

#[test]
fn every_digit_is_safe_on_an_empty_grid() {
    let grid = Grid::new();
    for row in 0..9 {
        for col in 0..9 {
            for digit in 1..=9 {
                assert!(Solver::is_safe_static(&grid, row, col, digit));
            }
        }
    }
}

#[test]
fn is_safe_agrees_with_occurrence_in_row_column_or_block() {
    let grid = grid_of(&PUZZLE);
    for row in 0..9 {
        for col in 0..9 {
            for digit in 1..=9u8 {
                let mut occurs = false;
                for i in 0..9 {
                    if grid.get(row, i) == digit || grid.get(i, col) == digit {
                        occurs = true;
                    }
                }
                for r in (row / 3) * 3..(row / 3) * 3 + 3 {
                    for c in (col / 3) * 3..(col / 3) * 3 + 3 {
                        if grid.get(r, c) == digit {
                            occurs = true;
                        }
                    }
                }
                assert_eq!(Solver::is_safe_static(&grid, row, col, digit), !occurs);
            }
        }
    }
}

#[test]
fn find_next_empty_starts_at_the_given_cell() {
    let grid = Grid::new();
    assert_eq!(Solver::find_next_empty(&grid, 0, 0), Some((0, 0)));
    assert_eq!(Solver::find_next_empty(&grid, 3, 5), Some((3, 5)));
    assert_eq!(Solver::find_next_empty(&grid, 8, 8), Some((8, 8)));
}

#[test]
fn find_next_empty_goes_on_in_the_next_row() {
    let mut grid = Grid::new();
    for col in 4..9 {
        grid.set(2, col, 1);
    }
    grid.set(3, 0, 1);
    assert_eq!(Solver::find_next_empty(&grid, 2, 4), Some((3, 1)));
    assert_eq!(Solver::find_next_empty(&grid, 2, 3), Some((2, 3)));
}

#[test]
fn find_next_empty_does_not_look_back() {
    let mut grid = grid_of(&SOLVED);
    grid.set(1, 1, 0);
    assert_eq!(Solver::find_next_empty(&grid, 0, 0), Some((1, 1)));
    assert_eq!(Solver::find_next_empty(&grid, 1, 1), Some((1, 1)));
    assert_eq!(Solver::find_next_empty(&grid, 1, 2), None);
}

#[test]
fn find_next_empty_finds_nothing_past_the_last_row() {
    let grid = Grid::new();
    assert_eq!(Solver::find_next_empty(&grid, 9, 0), None);
    assert_eq!(Solver::find_next_empty(&grid, 9, 4), None);
    assert_eq!(Solver::find_next_empty(&grid, 12, 20), None);
}

#[test]
fn find_next_empty_finds_nothing_on_a_full_grid() {
    let grid = grid_of(&SOLVED);
    assert_eq!(Solver::find_next_empty(&grid, 0, 0), None);
}

#[test]
fn valid_numbers_of_an_empty_grid_are_all_digits() {
    let grid = Grid::new();
    assert_eq!(Solver::get_valid_numbers(&grid, 4, 4), vec![1, 2, 3, 4, 5, 6, 7, 8, 9]);
}

#[test]
fn valid_numbers_leave_out_row_column_and_block() {
    let grid = grid_of(&PUZZLE);
    assert_eq!(Solver::get_valid_numbers(&grid, 0, 2), vec![1, 2, 4]);
    assert_eq!(Solver::get_valid_numbers(&grid, 4, 4), vec![5]);
    assert_eq!(Solver::get_valid_numbers(&grid, 8, 0), vec![1, 2, 3]);
}

#[test]
fn valid_numbers_of_a_filled_cell_leave_out_its_own_digit() {
    let grid = grid_of(&PUZZLE);
    assert_eq!(Solver::get_valid_numbers(&grid, 0, 0), vec![1, 2]);
}

#[test]
fn valid_numbers_can_be_none() {
    let mut grid = Grid::new();
    for col in 0..8 {
        grid.set(0, col, col as u8 + 1);
    }
    grid.set(5, 8, 9);
    assert_eq!(Solver::get_valid_numbers(&grid, 0, 8), Vec::<u8>::new());
}

#[test]
fn solve_fills_an_empty_grid_with_rows_columns_and_blocks_of_one_to_nine() {
    let mut grid = Grid::new();
    assert!(Solver::solve(&mut grid));
    assert!(grid.is_complete());
    for i in 0..9 {
        let row: Vec<u8> = (0..9).map(|col| grid.get(i, col)).collect();
        let column: Vec<u8> = (0..9).map(|row| grid.get(row, i)).collect();
        let block: Vec<u8> =
            (0..9).map(|k| grid.get((i / 3) * 3 + k / 3, (i % 3) * 3 + k % 3)).collect();
        assert!(holds_one_to_nine(&row));
        assert!(holds_one_to_nine(&column));
        assert!(holds_one_to_nine(&block));
    }
}

#[test]
fn solve_of_an_empty_grid_gives_the_first_grid_in_reading_order() {
    let mut grid = Grid::new();
    assert!(Solver::solve(&mut grid));
    assert_eq!(rows_of(&grid), FIRST_GRID);
}

#[test]
fn solve_finds_the_solution_of_a_puzzle() {
    let mut grid = grid_of(&PUZZLE);
    assert!(Solver::solve(&mut grid));
    assert_eq!(rows_of(&grid), SOLVED);
    assert!(grid.is_complete());
}

#[test]
fn solve_keeps_the_fixed_mask() {
    let mut grid = grid_of(&PUZZLE);
    for row in 0..9 {
        for col in 0..9 {
            if PUZZLE[row][col] != 0 {
                grid.set_fixed(row, col, true);
            }
        }
    }
    assert!(Solver::solve(&mut grid));
    for row in 0..9 {
        for col in 0..9 {
            assert_eq!(grid.is_fixed(row, col), PUZZLE[row][col] != 0);
        }
    }
}

#[test]
fn solve_gives_the_first_of_several_solutions() {
    let mut grid = grid_of(&SOLVED);
    // The digits 1 and 2 form a rectangle in rows 0 and 3... emptied cells
    // that admit more than one filling are filled with the smaller digit first.
    for row in 0..9 {
        for col in 0..9 {
            if SOLVED[row][col] == 1 || SOLVED[row][col] == 2 {
                grid.set(row, col, 0);
            }
        }
    }
    let mut first = grid.clone();
    assert!(Solver::solve(&mut first));
    assert!(first.is_complete());
    let mut swapped = grid_of(&SOLVED);
    for row in 0..9 {
        for col in 0..9 {
            if SOLVED[row][col] == 1 {
                swapped.set(row, col, 2);
            } else if SOLVED[row][col] == 2 {
                swapped.set(row, col, 1);
            }
        }
    }
    assert!(swapped.is_complete());
    let a = rows_of(&first);
    let b = rows_of(&grid_of(&SOLVED));
    let c = rows_of(&swapped);
    let flat = |rows: &[[u8; 9]; 9]| rows.iter().flatten().copied().collect::<Vec<u8>>();
    assert!(flat(&a) <= flat(&b));
    assert!(flat(&a) <= flat(&c));
}

#[test]
fn solve_changes_nothing_on_a_complete_grid() {
    let mut grid = grid_of(&SOLVED);
    assert!(Solver::solve(&mut grid));
    assert_eq!(rows_of(&grid), SOLVED);
    assert!(Solver::solve(&mut grid));
    assert_eq!(rows_of(&grid), SOLVED);
}

#[test]
fn solve_is_idempotent_on_its_own_result() {
    let mut grid = grid_of(&PUZZLE);
    assert!(Solver::solve(&mut grid));
    let once = rows_of(&grid);
    assert!(Solver::solve(&mut grid));
    assert_eq!(rows_of(&grid), once);
}

#[test]
fn solve_fails_at_once_where_a_cell_takes_no_digit() {
    let mut grid = Grid::new();
    for col in 0..8 {
        grid.set(0, col, col as u8 + 1);
    }
    grid.set(5, 8, 9);
    let before = rows_of(&grid);
    assert!(!Solver::solve(&mut grid));
    assert_eq!(rows_of(&grid), before);
}

#[test]
fn solve_restores_the_grid_after_a_failed_search() {
    // A valid grid without solution: row 0 lacks 7, 8 and 9, and the 7 in
    // the block of its three empty cells leaves only 8 and 9 for them. The
    // search places digits in two of the cells before it finds no way on.
    let mut grid = Grid::new();
    for col in 0..6 {
        grid.set(0, col, col as u8 + 1);
    }
    grid.set(1, 8, 7);
    assert!(grid.is_valid());
    let before = rows_of(&grid);
    assert!(!Solver::solve(&mut grid));
    assert_eq!(rows_of(&grid), before);
}

#[test]
fn solve_fails_on_two_fives_in_the_first_row() {
    let mut grid = grid_of(&FIRST_GRID);
    for col in 0..9 {
        grid.set(0, col, 0);
    }
    grid.set(0, 0, 5);
    grid.set_fixed(0, 0, true);
    grid.set(0, 1, 5);
    grid.set_fixed(0, 1, true);
    assert!(!grid.is_valid());
    let before = rows_of(&grid);
    assert!(!Solver::solve(&mut grid));
    assert_eq!(rows_of(&grid), before);
    assert!(grid.is_fixed(0, 0));
    assert!(grid.is_fixed(0, 1));
}

#[test]
fn a_five_is_not_safe_beside_a_fixed_five() {
    let mut grid = Grid::new();
    grid.set(0, 0, 5);
    grid.set_fixed(0, 0, true);
    assert!(!Solver::is_safe_static(&grid, 0, 1, 5));
    assert_eq!(Solver::get_valid_numbers(&grid, 0, 1), vec![1, 2, 3, 4, 6, 7, 8, 9]);
    grid.set(0, 1, 5);
    assert!(!grid.is_valid());
}

#[test]
fn solve_fails_on_a_full_grid_with_a_repeated_digit() {
    let mut grid = grid_of(&SOLVED);
    grid.set(4, 4, SOLVED[4][5]);
    let before = rows_of(&grid);
    assert!(!Solver::solve(&mut grid));
    assert_eq!(rows_of(&grid), before);
}

#[test]
fn solve_fails_on_the_grid_of_ones() {
    let mut grid = Grid::new();
    for row in 0..9 {
        for col in 0..9 {
            grid.set(row, col, 1);
        }
    }
    assert!(!Solver::solve(&mut grid));
    for row in 0..9 {
        for col in 0..9 {
            assert_eq!(grid.get(row, col), 1);
        }
    }
}

#[test]
fn solve_fails_on_two_fives_side_by_side_on_an_empty_grid() {
    let mut grid = Grid::new();
    grid.set(0, 0, 5);
    grid.set_fixed(0, 0, true);
    grid.set(0, 1, 5);
    let before = rows_of(&grid);
    assert!(!Solver::solve(&mut grid));
    assert_eq!(rows_of(&grid), before);
    assert!(grid.is_fixed(0, 0));
    assert!(!grid.is_fixed(0, 1));
}

#[test]
fn solve_fails_where_givens_clash_though_the_blanks_could_be_filled() {
    // Two 3s in row 0; the one open cell could take the digit it held.
    let mut grid = grid_of(&SOLVED);
    grid.set(0, 0, 3);
    grid.set(8, 8, 0);
    let before = rows_of(&grid);
    assert!(!Solver::solve(&mut grid));
    assert_eq!(rows_of(&grid), before);
}

#[test]
fn is_safe_agrees_with_is_safe_static() {
    let grid = grid_of(&PUZZLE);
    for row in 0..9 {
        for col in 0..9 {
            for digit in 0..=9u8 {
                assert_eq!(
                    Solver::is_safe(&grid, row, col, digit),
                    Solver::is_safe_static(&grid, row, col, digit)
                );
            }
        }
    }
    assert!(!Solver::is_safe(&grid, 0, 2, 5));
    assert!(!Solver::is_safe(&grid, 0, 2, 8));
    assert!(!Solver::is_safe(&grid, 0, 2, 9));
    assert!(Solver::is_safe(&grid, 0, 2, 1));
}
