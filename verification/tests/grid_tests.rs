use sudoku_app::sudoku::Grid;

const SOLVED: [[u8; 9]; 9] = [
    [5, 3, 4, 6, 7, 8, 9, 1, 2],
    [6, 7, 2, 1, 9, 5, 3, 4, 8],
    [1, 9, 8, 3, 4, 2, 5, 6, 7],
    [8, 5, 9, 7, 6, 1, 4, 2, 3],
    [4, 2, 6, 8, 5, 3, 7, 9, 1],
    [7, 1, 3, 9, 2, 4, 8, 5, 6],
    [9, 6, 1, 5, 3, 7, 2, 8, 4],
    [2, 8, 7, 4, 1, 9, 6, 3, 5],
    [3, 4, 5, 2, 8, 6, 1, 7, 9],
];

fn grid_of(rows: &[[u8; 9]; 9]) -> Grid {
    let mut grid = Grid::new();
    for row in 0..9 {
        for col in 0..9 {
            grid.set(row, col, rows[row][col]);
        }
    }
    grid
}

#[test]
fn new_grid_is_empty_and_open() {
    let grid = Grid::new();
    for row in 0..9 {
        for col in 0..9 {
            assert_eq!(grid.get(row, col), 0);
            assert!(!grid.is_fixed(row, col));
        }
    }
}

#[test]
fn default_grid_is_the_new_grid() {
    let grid = Grid::default();
    for row in 0..9 {
        for col in 0..9 {
            assert_eq!(grid.get(row, col), 0);
            assert!(!grid.is_fixed(row, col));
        }
    }
    assert!(grid.is_valid());
    assert!(!grid.is_complete());
}

#[test]
fn set_writes_one_cell_only() {
    let mut grid = Grid::new();
    grid.set(4, 7, 9);
    for row in 0..9 {
        for col in 0..9 {
            let expected = if row == 4 && col == 7 { 9 } else { 0 };
            assert_eq!(grid.get(row, col), expected);
        }
    }
    grid.set(4, 7, 0);
    assert_eq!(grid.get(4, 7), 0);
}

#[test]
fn set_ignores_the_fixed_mask() {
    let mut grid = Grid::new();
    grid.set(2, 2, 4);
    grid.set_fixed(2, 2, true);
    grid.set(2, 2, 6);
    assert_eq!(grid.get(2, 2), 6);
    assert!(grid.is_fixed(2, 2));
}

#[test]
fn set_user_writes_an_open_cell() {
    let mut grid = Grid::new();
    grid.set_user(0, 8, 3);
    assert_eq!(grid.get(0, 8), 3);
    grid.set_user(0, 8, 0);
    assert_eq!(grid.get(0, 8), 0);
}

#[test]
fn set_user_leaves_a_fixed_cell() {
    let mut grid = Grid::new();
    grid.set(1, 1, 7);
    grid.set_fixed(1, 1, true);
    grid.set_user(1, 1, 2);
    assert_eq!(grid.get(1, 1), 7);
    grid.set_user(1, 1, 0);
    assert_eq!(grid.get(1, 1), 7);
    grid.set_fixed(1, 1, false);
    grid.set_user(1, 1, 2);
    assert_eq!(grid.get(1, 1), 2);
}

#[test]
fn set_fixed_changes_the_mask_not_the_digit() {
    let mut grid = Grid::new();
    grid.set(8, 0, 5);
    grid.set_fixed(8, 0, true);
    assert!(grid.is_fixed(8, 0));
    assert_eq!(grid.get(8, 0), 5);
    assert!(!grid.is_fixed(0, 8));
    grid.set_fixed(3, 3, true);
    assert!(grid.is_fixed(3, 3));
    assert_eq!(grid.get(3, 3), 0);
    grid.set_fixed(8, 0, false);
    assert!(!grid.is_fixed(8, 0));
    assert_eq!(grid.get(8, 0), 5);
}

#[test]
fn clear_non_fixed_keeps_the_givens() {
    let mut grid = grid_of(&SOLVED);
    grid.set_fixed(0, 0, true);
    grid.set_fixed(4, 4, true);
    grid.set_fixed(8, 8, true);
    grid.clear_non_fixed();
    for row in 0..9 {
        for col in 0..9 {
            let given = (row, col) == (0, 0) || (row, col) == (4, 4) || (row, col) == (8, 8);
            let expected = if given { SOLVED[row][col] } else { 0 };
            assert_eq!(grid.get(row, col), expected);
            assert_eq!(grid.is_fixed(row, col), given);
        }
    }
}

#[test]
fn clone_is_independent_of_its_source() {
    let mut grid = Grid::new();
    grid.set(0, 0, 1);
    grid.set_fixed(0, 0, true);
    let mut copy = grid.clone();
    assert_eq!(copy.get(0, 0), 1);
    assert!(copy.is_fixed(0, 0));
    copy.set(0, 0, 2);
    copy.set(5, 5, 5);
    assert_eq!(grid.get(0, 0), 1);
    assert_eq!(grid.get(5, 5), 0);
}

#[test]
fn empty_grid_is_valid_but_not_complete() {
    let grid = Grid::new();
    assert!(grid.is_valid());
    assert!(!grid.is_complete());
}

#[test]
fn solved_grid_is_valid_and_complete() {
    let grid = grid_of(&SOLVED);
    assert!(grid.is_valid());
    assert!(grid.is_complete());
}

#[test]
fn duplicate_in_a_row_is_detected() {
    let mut grid = Grid::new();
    grid.set(3, 0, 7);
    grid.set(3, 8, 7);
    assert!(!grid.is_valid());
    grid.set(3, 8, 6);
    assert!(grid.is_valid());
}

#[test]
fn duplicate_in_a_column_is_detected() {
    let mut grid = Grid::new();
    grid.set(0, 5, 2);
    grid.set(8, 5, 2);
    assert!(!grid.is_valid());
    grid.set(8, 5, 0);
    assert!(grid.is_valid());
}

#[test]
fn duplicate_in_a_block_is_detected() {
    let mut grid = Grid::new();
    grid.set(3, 3, 9);
    grid.set(5, 5, 9);
    assert!(!grid.is_valid());
    grid.set(5, 5, 0);
    grid.set(6, 6, 9);
    assert!(grid.is_valid());
}

#[test]
fn duplicate_in_each_block_is_detected() {
    for block in 0..9 {
        let top = (block / 3) * 3;
        let left = (block % 3) * 3;
        let mut grid = Grid::new();
        grid.set(top, left, 4);
        grid.set(top + 1, left + 2, 4);
        assert!(!grid.is_valid());
    }
}

#[test]
fn equal_digits_that_share_no_group_are_valid() {
    let mut grid = Grid::new();
    grid.set(0, 0, 5);
    grid.set(1, 3, 5);
    grid.set(2, 6, 5);
    grid.set(3, 1, 5);
    assert!(grid.is_valid());
}

#[test]
fn full_grid_with_a_duplicate_is_not_complete() {
    let mut grid = grid_of(&SOLVED);
    grid.set(0, 0, 3);
    assert!(!grid.is_valid());
    assert!(!grid.is_complete());
}

#[test]
fn valid_grid_with_one_empty_cell_is_not_complete() {
    let mut grid = grid_of(&SOLVED);
    grid.set(8, 8, 0);
    assert!(grid.is_valid());
    assert!(!grid.is_complete());
}
