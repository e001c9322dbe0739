use sudoku_core::{
    has_grid_shape, is_grid_complete, is_valid_placement, is_valid_solution, validate_solution,
    Difficulty, SudokuError, SudokuGrid,
};

fn solved_grid() -> SudokuGrid {
    vec![
        vec![5, 3, 4, 6, 7, 8, 9, 1, 2],
        vec![6, 7, 2, 1, 9, 5, 3, 4, 8],
        vec![1, 9, 8, 3, 4, 2, 5, 6, 7],
        vec![8, 5, 9, 7, 6, 1, 4, 2, 3],
        vec![4, 2, 6, 8, 5, 3, 7, 9, 1],
        vec![7, 1, 3, 9, 2, 4, 8, 5, 6],
        vec![9, 6, 1, 5, 3, 7, 2, 8, 4],
        vec![2, 8, 7, 4, 1, 9, 6, 3, 5],
        vec![3, 4, 5, 2, 8, 6, 1, 7, 9],
    ]
}

fn blank_grid() -> SudokuGrid {
    vec![vec![0; 9]; 9]
}

#[test]
fn placement_is_free_on_a_blank_grid() {
    let grid = blank_grid();
    for row in 0..9 {
        for col in 0..9 {
            for num in 1..=9 {
                assert!(is_valid_placement(&grid, row, col, num));
            }
        }
    }
}

#[test]
fn placement_rejects_a_value_of_the_same_row() {
    let mut grid = blank_grid();
    grid[4][0] = 7;
    for col in 0..9 {
        assert!(!is_valid_placement(&grid, 4, col, 7));
    }
    assert!(is_valid_placement(&grid, 4, 8, 6));
}

#[test]
fn placement_rejects_a_value_of_the_same_column() {
    let mut grid = blank_grid();
    grid[8][2] = 3;
    for row in 0..9 {
        assert!(!is_valid_placement(&grid, row, 2, 3));
    }
    assert!(is_valid_placement(&grid, 0, 2, 4));
}

#[test]
fn placement_rejects_a_value_of_the_same_box() {
    let mut grid = blank_grid();
    grid[4][4] = 9;
    for row in 3..6 {
        for col in 3..6 {
            assert!(!is_valid_placement(&grid, row, col, 9));
        }
    }
    assert!(is_valid_placement(&grid, 2, 2, 9));
    assert!(is_valid_placement(&grid, 6, 6, 9));
    assert!(is_valid_placement(&grid, 0, 8, 9));
}

#[test]
fn placement_of_another_value_is_not_blocked() {
    let mut grid = blank_grid();
    grid[0][0] = 1;
    assert!(!is_valid_placement(&grid, 0, 1, 1));
    assert!(is_valid_placement(&grid, 0, 1, 2));
    assert!(is_valid_placement(&grid, 1, 1, 2));
}

#[test]
fn placement_in_a_nearly_full_grid() {
    let mut grid = solved_grid();
    grid[0][0] = 0;
    assert!(is_valid_placement(&grid, 0, 0, 5));
    for num in [1, 2, 3, 4, 6, 7, 8, 9] {
        assert!(!is_valid_placement(&grid, 0, 0, num));
    }
}

#[test]
fn placement_sees_the_cell_itself() {
    let grid = solved_grid();
    assert!(!is_valid_placement(&grid, 0, 0, 5));
}

#[test]
fn solved_grid_is_a_valid_solution() {
    assert!(is_valid_solution(&solved_grid()));
}

#[test]
fn blank_grid_is_no_valid_solution() {
    assert!(!is_valid_solution(&blank_grid()));
}

#[test]
fn swapped_cells_in_a_row_break_columns() {
    let mut grid = solved_grid();
    grid[0][0] = 3;
    grid[0][1] = 5;
    assert!(!is_valid_solution(&grid));
}

#[test]
fn swapped_rows_across_bands_break_boxes_only() {
    let mut grid = solved_grid();
    grid.swap(0, 3);
    assert!(!is_valid_solution(&grid));
}

#[test]
fn swapped_rows_inside_a_band_stay_valid() {
    let mut grid = solved_grid();
    grid.swap(0, 1);
    assert!(is_valid_solution(&grid));
}

#[test]
fn value_out_of_range_is_no_valid_solution() {
    let mut grid = solved_grid();
    grid[8][8] = 10;
    assert!(!is_valid_solution(&grid));
    grid[8][8] = -9;
    assert!(!is_valid_solution(&grid));
}

#[test]
fn validate_accepts_the_solved_grid() {
    assert_eq!(validate_solution(solved_grid()), Ok(true));
}

#[test]
fn validate_rejects_the_blank_grid() {
    assert_eq!(validate_solution(blank_grid()), Ok(false));
}

#[test]
fn validate_rejects_one_empty_cell() {
    let mut grid = solved_grid();
    grid[4][4] = 0;
    assert_eq!(validate_solution(grid), Ok(false));
}

#[test]
fn validate_rejects_a_repeated_digit_in_a_row() {
    let mut grid = solved_grid();
    grid[0][1] = 5;
    assert_eq!(validate_solution(grid), Ok(false));
}

#[test]
fn validate_rejects_a_repeated_digit_in_a_column() {
    let mut grid = solved_grid();
    grid.swap(0, 3);
    grid[1][0] = 8;
    assert_eq!(validate_solution(grid), Ok(false));
}

#[test]
fn validate_rejects_a_repeated_digit_in_a_box() {
    let mut grid = solved_grid();
    grid.swap(2, 6);
    assert_eq!(validate_solution(grid), Ok(false));
}

#[test]
fn validate_rejects_a_grid_of_another_shape() {
    let mut short = solved_grid();
    short.pop();
    assert_eq!(validate_solution(short), Ok(false));
    let mut ragged = solved_grid();
    ragged[3].push(1);
    assert_eq!(validate_solution(ragged), Ok(false));
    assert_eq!(validate_solution(Vec::new()), Ok(false));
}

#[test]
fn complete_grid_has_no_zero() {
    assert!(is_grid_complete(&solved_grid()));
    let mut grid = solved_grid();
    grid[8][8] = 0;
    assert!(!is_grid_complete(&grid));
    assert!(!is_grid_complete(&blank_grid()));
}

#[test]
fn complete_does_not_mean_valid() {
    let grid: SudokuGrid = vec![vec![1; 9]; 9];
    assert!(is_grid_complete(&grid));
    assert!(!is_valid_solution(&grid));
    assert_eq!(validate_solution(grid), Ok(false));
}

#[test]
fn completeness_of_other_shapes() {
    let empty: SudokuGrid = Vec::new();
    assert!(is_grid_complete(&empty));
    let ragged: SudokuGrid = vec![vec![1, 2], vec![], vec![3, 0, 4]];
    assert!(!is_grid_complete(&ragged));
}

#[test]
fn shape_of_a_grid() {
    assert!(has_grid_shape(&solved_grid()));
    assert!(has_grid_shape(&blank_grid()));
    let mut short = solved_grid();
    short.pop();
    assert!(!has_grid_shape(&short));
    let mut ragged = solved_grid();
    ragged[8].pop();
    assert!(!has_grid_shape(&ragged));
    let mut long = solved_grid();
    long.push(vec![0; 9]);
    assert!(!has_grid_shape(&long));
}

#[test]
fn difficulty_targets() {
    assert_eq!(Difficulty::Easy.cells_to_keep(), 51);
    assert_eq!(Difficulty::Medium.cells_to_keep(), 36);
    assert_eq!(Difficulty::Hard.cells_to_keep(), 26);
}

#[test]
fn error_messages() {
    assert_eq!(SudokuError::GenerationFailure.message(), "Failed to generate a solved grid");
    assert_eq!(SudokuError::NoEmptyCells.message(), "No empty cells found");
    assert_eq!(SudokuError::UnsolvableInput.message(), "Couldn't solve the puzzle");
}
