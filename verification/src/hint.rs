//! Hints: the digit that belongs in a cell, read off the first completion of the grid.

use crate::grid::{
    board_of, cell, complete, in_grid, well_shaped, HintResponse, SudokuError, SudokuGrid,
};
use crate::random::pick_one;
use crate::solver::{
    first_completion, has_completion, is_completion, lemma_first_completion_unique, solve_sudoku,
};
use vstd::prelude::*;

verus! {

/// The empty cells of the grid, row by row.
fn empty_cells_of(grid: &SudokuGrid) -> (cells: Vec<(usize, usize)>)
    requires
        well_shaped(board_of(grid)),
    ensures
        forall|i: int|
            0 <= i < cells@.len() ==> in_grid((#[trigger] cells@[i]).0 as int, cells@[i].1 as int)
                && cell(board_of(grid), cells@[i].0 as int, cells@[i].1 as int) == 0,
        forall|r: int, c: int|
            in_grid(r, c) && #[trigger] cell(board_of(grid), r, c) == 0 ==> cells@.contains(
                (r as usize, c as usize),
            ),
{
    let ghost b = board_of(grid);
    proof {
        assert(b.len() == 9);
    }
    let mut empty_cells: Vec<(usize, usize)> = Vec::new();
    for row in 0..9usize
        invariant
            b == board_of(grid),
            well_shaped(b),
            forall|i: int|
                0 <= i < empty_cells@.len() ==> in_grid(
                    (#[trigger] empty_cells@[i]).0 as int,
                    empty_cells@[i].1 as int,
                ) && cell(b, empty_cells@[i].0 as int, empty_cells@[i].1 as int) == 0,
            forall|r: int, c: int|
                0 <= r < row && 0 <= c < 9 && #[trigger] cell(b, r, c) == 0
                    ==> empty_cells@.contains((r as usize, c as usize)),
    {
        for col in 0..9usize
            invariant
                b == board_of(grid),
                well_shaped(b),
                row < 9,
                forall|i: int|
                    0 <= i < empty_cells@.len() ==> in_grid(
                        (#[trigger] empty_cells@[i]).0 as int,
                        empty_cells@[i].1 as int,
                    ) && cell(b, empty_cells@[i].0 as int, empty_cells@[i].1 as int) == 0,
                forall|r: int, c: int|
                    0 <= r < row && 0 <= c < 9 && #[trigger] cell(b, r, c) == 0
                        ==> empty_cells@.contains((r as usize, c as usize)),
                forall|c: int|
                    0 <= c < col && #[trigger] cell(b, row as int, c) == 0
                        ==> empty_cells@.contains((row, c as usize)),
        {
            assert(b[row as int].len() == 9);
            if grid[row][col] == 0 {
                let ghost before = empty_cells@;
                empty_cells.push((row, col));
                proof {
                    assert(empty_cells@[before.len() as int] == (row, col));
                    assert forall|p: (usize, usize)| before.contains(p) implies empty_cells@.contains(
                        p,
                    ) by {
                        let i = choose|i: int| 0 <= i < before.len() && before[i] == p;
                        assert(empty_cells@[i] == p);
                    }
                }
            }
        }
    }
    empty_cells
}

/// The digit that belongs in the cell at `(target_row, target_col)`: the one that the first
/// completion of the grid holds there. A cell that is filled already gets its own value. The
/// grid itself is left as it is: a copy is solved.
pub fn get_hint_for_cell(grid: SudokuGrid, target_row: usize, target_col: usize) -> (hint: Result<
    HintResponse,
    SudokuError,
>)
    requires
        well_shaped(board_of(&grid)),
        target_row < 9,
        target_col < 9,
    ensures
        match hint {
            Ok(found) => {
                &&& has_completion(board_of(&grid))
                &&& found == (HintResponse {
                    row: target_row,
                    col: target_col,
                    value: cell(
                        first_completion(board_of(&grid)),
                        target_row as int,
                        target_col as int,
                    ),
                })
                &&& if cell(board_of(&grid), target_row as int, target_col as int) != 0 {
                    found.value == cell(board_of(&grid), target_row as int, target_col as int)
                } else {
                    1 <= found.value <= 9
                }
            },
            Err(e) => e == SudokuError::UnsolvableInput && !has_completion(board_of(&grid)),
        },
{
    let mut puzzle_copy = grid.clone();
    assert(board_of(&puzzle_copy) == board_of(&grid));
    if !solve_sudoku(&mut puzzle_copy) {
        return Err(SudokuError::UnsolvableInput);
    }
    proof {
        let solved = board_of(&puzzle_copy);
        lemma_first_completion_unique(board_of(&grid), solved, first_completion(board_of(&grid)));
        assert(solved.len() == 9);
        assert(solved[target_row as int].len() == 9);
        assert(in_grid(target_row as int, target_col as int));
        assert(is_completion(board_of(&grid), solved));
    }
    let value = puzzle_copy[target_row][target_col];
    Ok(HintResponse { row: target_row, col: target_col, value })
}

/// A hint for one of the empty cells of the grid, picked at random: the digit that the first
/// completion of the grid holds there.
pub fn get_hint(grid: SudokuGrid) -> (hint: Result<HintResponse, SudokuError>)
    requires
        well_shaped(board_of(&grid)),
    ensures
        match hint {
            Ok(found) => {
                &&& !complete(board_of(&grid))
                &&& has_completion(board_of(&grid))
                &&& in_grid(found.row as int, found.col as int)
                &&& cell(board_of(&grid), found.row as int, found.col as int) == 0
                &&& found.value == cell(
                    first_completion(board_of(&grid)),
                    found.row as int,
                    found.col as int,
                )
                &&& 1 <= found.value <= 9
            },
            Err(SudokuError::NoEmptyCells) => complete(board_of(&grid)),
            Err(SudokuError::UnsolvableInput) => !complete(board_of(&grid)) && !has_completion(
                board_of(&grid),
            ),
            Err(SudokuError::GenerationFailure) => false,
        },
{
    let ghost b = board_of(&grid);
    let empty_cells = empty_cells_of(&grid);
    if empty_cells.is_empty() {
        proof {
            assert forall|r: int, c: int| 0 <= r < b.len() && 0 <= c < b[r].len() implies #[trigger] cell(
                b,
                r,
                c,
            ) != 0 by {
                assert(b[r].len() == 9);
                if cell(b, r, c) == 0 {
                    assert(empty_cells@.contains((r as usize, c as usize)));
                }
            }
        }
        return Err(SudokuError::NoEmptyCells);
    }
    let mut rng = rand::thread_rng();
    let (row, col) = *pick_one(&empty_cells, &mut rng).unwrap();
    proof {
        let i = choose|i: int| 0 <= i < empty_cells@.len() && empty_cells@[i] == (row, col);
        assert(in_grid(empty_cells@[i].0 as int, empty_cells@[i].1 as int));
        assert(b[row as int].len() == 9);
        assert(cell(b, row as int, col as int) == 0);
    }
    get_hint_for_cell(grid, row, col)
}

} // verus!
