//! A Sudoku engine: placement rules, backtracking solvers, a uniqueness test,
//! a puzzle generator and hints.

pub mod generator;
pub mod grid;
pub mod hint;
pub mod random;
pub mod random_solver;
pub mod rules;
pub mod solver;
pub mod uniqueness;

pub use generator::{generate_puzzle, remove_cells_in_order, remove_numbers_from_grid};
pub use grid::{Board, Difficulty, HintResponse, SudokuError, SudokuGrid};
pub use hint::{get_hint, get_hint_for_cell};
pub use random_solver::{generate_solved_grid, solve_random_sudoku, solve_with_digits};
pub use rules::{
    has_grid_shape, is_grid_complete, is_valid_placement, is_valid_solution, validate_solution,
};
pub use solver::{find_empty_cell, solve_sudoku};
pub use uniqueness::{count_solutions, has_unique_solution};
