use sudoku_core::{
    count_solutions, find_empty_cell, has_unique_solution, is_valid_solution, solve_random_sudoku,
    solve_sudoku, solve_with_digits, SudokuGrid,
};

fn solved() -> SudokuGrid {
    vec![
        vec![5, 3, 4, 6, 7, 8, 9, 1, 2],
        vec![6, 7, 2, 1, 9, 5, 3, 4, 8],
        vec![1, 9, 8, 3, 4, 2, 5, 6, 7],
        vec![8, 5, 9, 7, 6, 1, 4, 2, 3],
        vec![4, 2, 6, 8, 5, 3, 7, 9, 1],
        vec![7, 1, 3, 9, 2, 4, 8, 5, 6],
        vec![9, 6, 1, 5, 3, 7, 2, 8, 4],
        vec![2, 8, 7, 4, 1, 9, 6, 3, 5],
        vec![3, 4, 5, 2, 8, 6, 1, 7, 9],
    ]
}

fn without(cells: &[(usize, usize)]) -> SudokuGrid {
    let mut grid = solved();
    for &(row, col) in cells {
        grid[row][col] = 0;
    }
    grid
}

/// Two completions: the digits 2 and 4 can change places in the four emptied cells.
fn with_two_completions() -> SudokuGrid {
    without(&[(2, 4), (2, 5), (5, 4), (5, 5)])
}

/// One completion, and a branch of the search without one after it.
fn with_dead_end_after_completion() -> SudokuGrid {
    without(&[
        (0, 3),
        (0, 5),
        (1, 4),
        (2, 2),
        (4, 3),
        (5, 2),
        (5, 5),
        (6, 6),
        (6, 8),
        (7, 2),
        (7, 3),
        (8, 4),
    ])
}

/// No completion: the only empty cell can take no digit.
fn contradictory() -> SudokuGrid {
    let mut grid = solved();
    grid[0][0] = 0;
    grid[0][1] = 5;
    grid[0][2] = 5;
    grid
}

#[test]
fn first_empty_cell_is_found_row_by_row() {
    assert_eq!(find_empty_cell(&solved()), None);
    assert_eq!(find_empty_cell(&vec![vec![0; 9]; 9]), Some((0, 0)));
    assert_eq!(find_empty_cell(&without(&[(8, 8)])), Some((8, 8)));
    assert_eq!(find_empty_cell(&without(&[(5, 1), (3, 7), (3, 8), (4, 0)])), Some((3, 7)));
}

#[test]
fn solver_fills_one_empty_cell() {
    let mut grid = without(&[(0, 0)]);
    assert!(solve_sudoku(&mut grid));
    assert_eq!(grid, solved());
}

#[test]
fn solver_leaves_a_complete_grid_alone() {
    let mut grid = solved();
    assert!(solve_sudoku(&mut grid));
    assert_eq!(grid, solved());
    let mut ones: SudokuGrid = vec![vec![1; 9]; 9];
    assert!(solve_sudoku(&mut ones));
    assert_eq!(ones, vec![vec![1; 9]; 9]);
}

#[test]
fn solver_completes_a_sparse_puzzle() {
    let cells: Vec<(usize, usize)> =
        (0..9).flat_map(|r| (0..9).map(move |c| (r, c))).filter(|(r, c)| (r + 2 * c) % 3 != 0).collect();
    let puzzle = without(&cells);
    let mut grid = puzzle.clone();
    assert!(solve_sudoku(&mut grid));
    assert!(is_valid_solution(&grid));
    for row in 0..9 {
        for col in 0..9 {
            if puzzle[row][col] != 0 {
                assert_eq!(grid[row][col], puzzle[row][col]);
            }
        }
    }
}

#[test]
fn solver_takes_the_smallest_digit_first() {
    let mut grid = with_two_completions();
    assert!(solve_sudoku(&mut grid));
    let mut expected = solved();
    expected[2][4] = 2;
    expected[2][5] = 4;
    expected[5][4] = 4;
    expected[5][5] = 2;
    assert_eq!(grid, expected);
    assert!(is_valid_solution(&grid));
}

#[test]
fn solver_on_the_blank_grid_gives_the_first_solution() {
    let mut grid: SudokuGrid = vec![vec![0; 9]; 9];
    assert!(solve_sudoku(&mut grid));
    let expected: SudokuGrid = vec![
        vec![1, 2, 3, 4, 5, 6, 7, 8, 9],
        vec![4, 5, 6, 7, 8, 9, 1, 2, 3],
        vec![7, 8, 9, 1, 2, 3, 4, 5, 6],
        vec![2, 1, 4, 3, 6, 5, 8, 9, 7],
        vec![3, 6, 5, 8, 9, 7, 2, 1, 4],
        vec![8, 9, 7, 2, 1, 4, 3, 6, 5],
        vec![5, 3, 1, 6, 4, 2, 9, 7, 8],
        vec![6, 4, 2, 9, 7, 8, 5, 3, 1],
        vec![9, 7, 8, 5, 3, 1, 6, 4, 2],
    ];
    assert_eq!(grid, expected);
    assert!(is_valid_solution(&grid));
}

#[test]
fn solver_fails_and_restores_the_grid() {
    let mut grid = contradictory();
    assert!(!solve_sudoku(&mut grid));
    assert_eq!(grid, contradictory());
}

#[test]
fn solver_does_not_check_the_given_cells() {
    let mut grid = solved();
    grid[0][0] = 3;
    grid[8][8] = 0;
    assert!(solve_sudoku(&mut grid));
    assert_eq!(grid[8][8], 9);
    assert!(!is_valid_solution(&grid));
}

#[test]
fn random_solver_fills_one_empty_cell() {
    let mut grid = without(&[(4, 4)]);
    assert!(solve_random_sudoku(&mut grid));
    assert_eq!(grid, solved());
}

#[test]
fn random_solver_finds_one_of_two_completions() {
    let mut grid = with_two_completions();
    assert!(solve_random_sudoku(&mut grid));
    assert!(is_valid_solution(&grid));
    let pair = (grid[2][4], grid[2][5], grid[5][4], grid[5][5]);
    assert!(pair == (2, 4, 4, 2) || pair == (4, 2, 2, 4));
    for row in 0..9 {
        for col in 0..9 {
            if (row, col) != (2, 4) && (row, col) != (2, 5) && (row, col) != (5, 4) && (row, col) != (5, 5) {
                assert_eq!(grid[row][col], solved()[row][col]);
            }
        }
    }
}

#[test]
fn random_solver_on_the_blank_grid_gives_a_valid_solution() {
    for _ in 0..5 {
        let mut grid: SudokuGrid = vec![vec![0; 9]; 9];
        assert!(solve_random_sudoku(&mut grid));
        assert!(is_valid_solution(&grid));
    }
}

#[test]
fn random_solver_fails_and_restores_the_grid() {
    let mut grid = contradictory();
    assert!(!solve_random_sudoku(&mut grid));
    assert_eq!(grid, contradictory());
}

#[test]
fn digits_are_tried_in_the_given_order() {
    let mut falling = with_two_completions();
    assert!(solve_with_digits(&mut falling, 2, 4, &vec![9, 8, 7, 6, 5, 4, 3, 2, 1]));
    assert_eq!(falling, solved());
    let mut rising = with_two_completions();
    assert!(solve_with_digits(&mut rising, 2, 4, &vec![1, 2, 3, 4, 5, 6, 7, 8, 9]));
    let mut expected = solved();
    expected[2][4] = 2;
    expected[2][5] = 4;
    expected[5][4] = 4;
    expected[5][5] = 2;
    assert_eq!(rising, expected);
}

#[test]
fn digits_that_do_not_fit_are_passed_over() {
    let mut grid = without(&[(0, 0)]);
    assert!(solve_with_digits(&mut grid, 0, 0, &vec![3, 9, 1, 5, 2, 4, 6, 7, 8]));
    assert_eq!(grid, solved());
}

#[test]
fn digits_in_any_order_fail_on_a_contradictory_grid() {
    let mut grid = contradictory();
    assert!(!solve_with_digits(&mut grid, 0, 0, &vec![4, 3, 2, 1, 9, 8, 7, 6, 5]));
    assert_eq!(grid, contradictory());
}

#[test]
fn first_digit_decides_on_the_blank_grid() {
    for first in 1..=9 {
        let mut numbers: Vec<i32> = vec![first];
        numbers.extend((1..=9).filter(|digit| *digit != first));
        let mut grid: SudokuGrid = vec![vec![0; 9]; 9];
        assert!(solve_with_digits(&mut grid, 0, 0, &numbers));
        assert_eq!(grid[0][0], first);
        assert!(is_valid_solution(&grid));
    }
}

#[test]
fn count_of_a_complete_grid_is_one() {
    let mut count = 0;
    assert!(!count_solutions(&solved(), &mut count, 2));
    assert_eq!(count, 1);
}

#[test]
fn count_of_a_complete_grid_gives_no_stop() {
    let mut count = 0;
    assert!(!count_solutions(&solved(), &mut count, 1));
    assert_eq!(count, 1);
}

#[test]
fn count_stops_the_moment_the_cap_is_reached() {
    let mut count = 0;
    assert!(count_solutions(&without(&[(0, 0)]), &mut count, 1));
    assert_eq!(count, 1);
    let mut count = 0;
    assert!(count_solutions(&without(&[(3, 5), (3, 8), (4, 5), (4, 8)]), &mut count, 2));
    assert_eq!(count, 2);
    let mut count = 0;
    assert!(!count_solutions(&without(&[(3, 5), (3, 8), (4, 5), (4, 8)]), &mut count, 3));
    assert_eq!(count, 2);
}

#[test]
fn count_stops_at_once_when_the_cap_is_met() {
    let mut count = 0;
    assert!(count_solutions(&solved(), &mut count, 0));
    assert_eq!(count, 0);
    let mut count = 5;
    assert!(count_solutions(&with_two_completions(), &mut count, 2));
    assert_eq!(count, 5);
    let mut count = 2;
    assert!(count_solutions(&with_two_completions(), &mut count, 2));
    assert_eq!(count, 2);
}

#[test]
fn count_of_two_completions() {
    let grid = with_two_completions();
    let mut count = 0;
    assert!(count_solutions(&grid, &mut count, 1));
    assert_eq!(count, 1);
    let mut count = 0;
    assert!(count_solutions(&grid, &mut count, 2));
    assert_eq!(count, 2);
    let mut count = 0;
    assert!(!count_solutions(&grid, &mut count, 3));
    assert_eq!(count, 2);
    let mut count = 0;
    assert!(!count_solutions(&grid, &mut count, 10));
    assert_eq!(count, 2);
}

#[test]
fn count_goes_on_from_where_it_stands() {
    let mut count = 1;
    assert!(count_solutions(&with_two_completions(), &mut count, 2));
    assert_eq!(count, 2);
    let mut count = 7;
    assert!(!count_solutions(&with_two_completions(), &mut count, 20));
    assert_eq!(count, 9);
    let mut count = 7;
    assert!(count_solutions(&with_two_completions(), &mut count, 9));
    assert_eq!(count, 9);
}

#[test]
fn count_with_a_dead_end_after_the_last_completion() {
    let grid = with_dead_end_after_completion();
    let mut count = 0;
    assert!(count_solutions(&grid, &mut count, 1));
    assert_eq!(count, 1);
    let mut count = 0;
    assert!(!count_solutions(&grid, &mut count, 2));
    assert_eq!(count, 1);
}

#[test]
fn count_of_a_contradictory_grid_is_zero() {
    let mut count = 0;
    assert!(!count_solutions(&contradictory(), &mut count, 2));
    assert_eq!(count, 0);
}

#[test]
fn count_leaves_the_grid_alone() {
    let grid = with_two_completions();
    let mut count = 0;
    count_solutions(&grid, &mut count, 2);
    assert_eq!(grid, with_two_completions());
}

#[test]
fn uniqueness_of_completions() {
    assert!(has_unique_solution(&solved()));
    assert!(has_unique_solution(&without(&[(0, 0)])));
    assert!(has_unique_solution(&with_dead_end_after_completion()));
    assert!(!has_unique_solution(&with_two_completions()));
    assert!(!has_unique_solution(&contradictory()));
    let sparse: Vec<(usize, usize)> =
        (0..9).flat_map(|r| (0..9).map(move |c| (r, c))).filter(|(r, c)| (r + 2 * c) % 3 != 0).collect();
    assert!(!has_unique_solution(&without(&sparse)));
    assert!(!has_unique_solution(&vec![vec![0; 9]; 9]));
}
