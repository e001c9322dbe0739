use sudoku_core::{
    generate_puzzle, generate_solved_grid, has_unique_solution, is_valid_solution,
    remove_cells_in_order, remove_numbers_from_grid, solve_sudoku, Difficulty, SudokuGrid,
};

fn solved_grid_for_carving() -> SudokuGrid {
    vec![
        vec![5, 3, 4, 6, 7, 8, 9, 1, 2],
        vec![6, 7, 2, 1, 9, 5, 3, 4, 8],
        vec![1, 9, 8, 3, 4, 2, 5, 6, 7],
        vec![8, 5, 9, 7, 6, 1, 4, 2, 3],
        vec![4, 2, 6, 8, 5, 3, 7, 9, 1],
        vec![7, 1, 3, 9, 2, 4, 8, 5, 6],
        vec![9, 6, 1, 5, 3, 7, 2, 8, 4],
        vec![2, 8, 7, 4, 1, 9, 6, 3, 5],
        vec![3, 4, 5, 2, 8, 6, 1, 7, 9],
    ]
}

fn row_by_row() -> Vec<(usize, usize)> {
    let mut positions = Vec::new();
    for row in 0..9 {
        for col in 0..9 {
            positions.push((row, col));
        }
    }
    positions
}

fn filled_cells(grid: &SudokuGrid) -> usize {
    grid.iter().map(|row| row.iter().filter(|&&cell| cell != 0).count()).sum()
}

fn check_puzzle(puzzle: &SudokuGrid, cells_to_keep: usize) {
    assert_eq!(puzzle.len(), 9);
    for row in puzzle {
        assert_eq!(row.len(), 9);
        for &cell in row {
            assert!((0..=9).contains(&cell));
        }
    }
    let filled = filled_cells(puzzle);
    assert!(filled >= cells_to_keep);
    assert!(filled <= 81);
    assert!(has_unique_solution(puzzle));
    let mut copy = puzzle.clone();
    assert!(solve_sudoku(&mut copy));
    assert!(is_valid_solution(&copy));
}

#[test]
fn carving_row_by_row_down_to_51_cells() {
    let puzzle = remove_cells_in_order(&solved_grid_for_carving(), &row_by_row(), 51);
    let expected: SudokuGrid = vec![
        vec![0, 0, 0, 0, 0, 0, 0, 0, 0],
        vec![0, 0, 0, 0, 0, 0, 3, 0, 8],
        vec![0, 0, 0, 0, 0, 2, 5, 6, 0],
        vec![0, 0, 9, 0, 6, 0, 0, 0, 0],
        vec![0, 2, 6, 8, 5, 3, 7, 9, 1],
        vec![7, 1, 3, 9, 2, 4, 8, 5, 6],
        vec![9, 6, 1, 5, 3, 7, 2, 8, 4],
        vec![2, 8, 7, 4, 1, 9, 6, 3, 5],
        vec![3, 4, 5, 2, 8, 6, 1, 7, 9],
    ];
    assert_eq!(puzzle, expected);
    assert_eq!(filled_cells(&puzzle), 51);
}

#[test]
fn carving_backwards_down_to_36_cells() {
    let mut order = row_by_row();
    order.reverse();
    let puzzle = remove_cells_in_order(&solved_grid_for_carving(), &order, 36);
    let expected: SudokuGrid = vec![
        vec![5, 3, 4, 6, 7, 8, 9, 1, 2],
        vec![6, 7, 2, 1, 9, 5, 3, 4, 8],
        vec![1, 9, 8, 3, 4, 0, 0, 6, 0],
        vec![0, 5, 9, 0, 6, 1, 4, 0, 0],
        vec![0, 0, 0, 0, 0, 0, 7, 0, 0],
        vec![7, 0, 0, 9, 0, 0, 0, 0, 0],
        vec![0, 6, 0, 5, 3, 0, 0, 0, 0],
        vec![2, 0, 0, 0, 0, 0, 0, 0, 0],
        vec![0, 0, 0, 0, 0, 0, 0, 0, 0],
    ];
    assert_eq!(puzzle, expected);
    assert_eq!(filled_cells(&puzzle), 36);
}

#[test]
fn carving_in_strides_down_to_26_cells() {
    let order: Vec<(usize, usize)> = (0..81).map(|k| ((7 * k) % 81 / 9, (7 * k) % 81 % 9)).collect();
    let puzzle = remove_cells_in_order(&solved_grid_for_carving(), &order, 26);
    let expected: SudokuGrid = vec![
        vec![0, 0, 0, 0, 7, 0, 0, 0, 0],
        vec![0, 0, 2, 0, 0, 0, 3, 0, 0],
        vec![1, 9, 0, 0, 4, 0, 0, 6, 0],
        vec![0, 0, 9, 0, 0, 1, 0, 0, 0],
        vec![4, 0, 0, 8, 5, 0, 0, 9, 0],
        vec![0, 1, 3, 0, 0, 4, 0, 0, 6],
        vec![0, 0, 0, 5, 0, 0, 2, 8, 0],
        vec![0, 8, 0, 0, 1, 0, 0, 0, 5],
        vec![0, 0, 5, 2, 0, 0, 1, 0, 0],
    ];
    assert_eq!(puzzle, expected);
    check_puzzle(&puzzle, 26);
}

#[test]
fn carving_gives_up_a_cell_that_is_needed() {
    let order = vec![(2, 4), (2, 5), (5, 4), (5, 5)];
    let puzzle = remove_cells_in_order(&solved_grid_for_carving(), &order, 77);
    let mut expected = solved_grid_for_carving();
    expected[2][4] = 0;
    expected[2][5] = 0;
    expected[5][4] = 0;
    assert_eq!(puzzle, expected);
    assert_eq!(filled_cells(&puzzle), 78);
}

#[test]
fn carving_counts_a_position_each_time_it_comes() {
    let order = vec![(0, 0), (0, 1), (0, 0)];
    let puzzle = remove_cells_in_order(&solved_grid_for_carving(), &order, 78);
    let mut expected = solved_grid_for_carving();
    expected[0][0] = 0;
    expected[0][1] = 0;
    assert_eq!(puzzle, expected);
}

#[test]
fn carving_nothing() {
    let grid = solved_grid_for_carving();
    assert_eq!(remove_cells_in_order(&grid, &row_by_row(), 81), grid);
    assert_eq!(remove_cells_in_order(&grid, &Vec::new(), 0), grid);
}

#[test]
fn carving_leaves_the_grid_alone() {
    let grid = solved_grid_for_carving();
    let _ = remove_cells_in_order(&grid, &row_by_row(), 60);
    assert_eq!(grid, solved_grid_for_carving());
}

#[test]
fn random_carving_keeps_a_unique_completion() {
    let grid = solved_grid_for_carving();
    for cells_to_keep in [81, 70, 51, 36] {
        let puzzle = remove_numbers_from_grid(&grid, cells_to_keep).unwrap();
        check_puzzle(&puzzle, cells_to_keep);
        for row in 0..9 {
            for col in 0..9 {
                assert!(puzzle[row][col] == 0 || puzzle[row][col] == grid[row][col]);
            }
        }
        let mut copy = puzzle.clone();
        assert!(solve_sudoku(&mut copy));
        assert_eq!(copy, grid);
    }
}

#[test]
fn random_carving_does_not_go_row_by_row() {
    let grid = solved_grid_for_carving();
    let in_order = remove_cells_in_order(&grid, &row_by_row(), 51);
    let mut differs = false;
    for _ in 0..4 {
        if remove_numbers_from_grid(&grid, 51).unwrap() != in_order {
            differs = true;
        }
    }
    assert!(differs);
}

#[test]
fn solved_grids_are_valid_solutions() {
    for _ in 0..5 {
        let grid = generate_solved_grid().unwrap();
        assert!(is_valid_solution(&grid));
    }
}

#[test]
fn solved_grids_are_not_the_first_solution_each_time() {
    let mut first: SudokuGrid = vec![vec![0; 9]; 9];
    assert!(solve_sudoku(&mut first));
    let mut differs = false;
    for _ in 0..4 {
        if generate_solved_grid().unwrap() != first {
            differs = true;
        }
    }
    assert!(differs);
}

#[test]
fn easy_puzzle_keeps_51_cells_or_more() {
    let puzzle = generate_puzzle(Difficulty::Easy).unwrap();
    check_puzzle(&puzzle, 51);
}

#[test]
fn medium_puzzle_keeps_36_cells_or_more() {
    let puzzle = generate_puzzle(Difficulty::Medium).unwrap();
    check_puzzle(&puzzle, 36);
}
