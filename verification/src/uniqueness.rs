//! Counting the completions of a grid up to a cap, and the test for a unique completion.

use crate::grid::{
    board_of, cell, complete, filled_count, in_grid, lemma_filled_count_bounds,
    lemma_filled_count_set_cell, lemma_set_cell, lemma_set_cell_restores, set_cell, well_shaped,
    Board, SudokuGrid,
};
use crate::rules::{is_valid_placement, placement_allowed};
use crate::solver::{
    find_empty_cell, has_completion, is_completion, is_first_empty,
    lemma_complete_board_completes_itself, lemma_completion_step, solve_sudoku,
};
use vstd::prelude::*;
use vstd::set_lib::{lemma_len_subset, lemma_set_disjoint_lens};

verus! {

/// All completions of the puzzle.
pub open spec fn completions(puzzle: Board) -> Set<Board> {
    Set::new(|full: Board| is_completion(puzzle, full))
}

/// The completions of the puzzle that hold a value below `value` in the cell at `(row, col)`.
pub open spec fn completions_below(puzzle: Board, row: int, col: int, value: int) -> Set<Board> {
    Set::new(|full: Board| is_completion(puzzle, full) && cell(full, row, col) < value)
}

/// The completions of the puzzle that hold `value` in the cell at `(row, col)`.
pub open spec fn completions_with(puzzle: Board, row: int, col: int, value: i32) -> Set<Board> {
    Set::new(|full: Board| is_completion(puzzle, full) && cell(full, row, col) == value)
}

/// The puzzle has one completion and no other.
pub open spec fn has_unique_completion(puzzle: Board) -> bool {
    exists|full: Board| #[trigger]
        is_completion(puzzle, full) && forall|other: Board| #[trigger]
            is_completion(puzzle, other) ==> other == full
}

/// Where a count that stood at `start` stands after a search that finds `found` completions
/// one by one and stops as soon as the count has reached `cap`.
pub open spec fn capped_count(start: int, found: int, cap: int) -> int {
    if start >= cap {
        start
    } else if start + found <= cap {
        start + found
    } else {
        cap
    }
}

/// The completions with `value` in an empty cell are the completions of the puzzle with
/// `value` written there, if `value` may be placed there, and none otherwise.
pub proof fn lemma_completions_with(puzzle: Board, row: int, col: int, value: i32)
    requires
        well_shaped(puzzle),
        in_grid(row, col),
        cell(puzzle, row, col) == 0,
    ensures
        completions_with(puzzle, row, col, value) == if 1 <= value <= 9 && placement_allowed(
            puzzle,
            row,
            col,
            value,
        ) {
            completions(set_cell(puzzle, row, col, value))
        } else {
            Set::<Board>::empty()
        },
{
    let with = completions_with(puzzle, row, col, value);
    let next = completions(set_cell(puzzle, row, col, value));
    assert forall|full: Board| with.contains(full) <==> (1 <= value <= 9 && placement_allowed(
        puzzle,
        row,
        col,
        value,
    ) && next.contains(full)) by {
        lemma_completion_step(puzzle, row, col, value, full);
    }
    if 1 <= value <= 9 && placement_allowed(puzzle, row, col, value) {
        assert(with =~= next);
    } else {
        assert(with =~= Set::<Board>::empty());
    }
}

/// The completions below `value + 1` in a cell are those below `value` together with those
/// that hold `value` there, and no completion is of both kinds.
pub proof fn lemma_completions_below_step(puzzle: Board, row: int, col: int, value: i32)
    ensures
        completions_below(puzzle, row, col, value + 1) == completions_below(
            puzzle,
            row,
            col,
            value as int,
        ) + completions_with(puzzle, row, col, value),
        completions_below(puzzle, row, col, value as int).disjoint(
            completions_with(puzzle, row, col, value),
        ),
{
    assert(completions_below(puzzle, row, col, value + 1) =~= completions_below(
        puzzle,
        row,
        col,
        value as int,
    ) + completions_with(puzzle, row, col, value));
}

/// A puzzle has finitely many completions.
pub proof fn lemma_completions_finite(puzzle: Board)
    requires
        well_shaped(puzzle),
    ensures
        completions(puzzle).finite(),
    decreases 81 - filled_count(puzzle), 11int,
{
    if complete(puzzle) {
        assert(completions(puzzle) =~= Set::<Board>::empty().insert(puzzle)) by {
            assert forall|full: Board| completions(puzzle).contains(full) <==> full == puzzle by {
                lemma_complete_board_completes_itself(puzzle, full);
            }
        }
    } else {
        let (row, col) = choose|row: int, col: int|
            0 <= row < puzzle.len() && 0 <= col < puzzle[row].len() && cell(puzzle, row, col) == 0;
        assert(puzzle[row].len() == 9);
        lemma_completions_below_finite(puzzle, row, col, 10);
        assert(completions(puzzle) =~= completions_below(puzzle, row, col, 10));
    }
}

/// A puzzle has finitely many completions with a value below `value` in an empty cell.
pub proof fn lemma_completions_below_finite(puzzle: Board, row: int, col: int, value: int)
    requires
        well_shaped(puzzle),
        in_grid(row, col),
        cell(puzzle, row, col) == 0,
        1 <= value <= 10,
    ensures
        completions_below(puzzle, row, col, value).finite(),
    decreases 81 - filled_count(puzzle), value,
{
    if value == 1 {
        assert(completions_below(puzzle, row, col, value) =~= Set::<Board>::empty());
    } else {
        let last = (value - 1) as i32;
        lemma_completions_below_finite(puzzle, row, col, value - 1);
        lemma_completions_below_step(puzzle, row, col, last);
        lemma_completions_with(puzzle, row, col, last);
        if placement_allowed(puzzle, row, col, last) {
            lemma_set_cell(puzzle, row, col, last);
            lemma_filled_count_set_cell(puzzle, row, col, last);
            lemma_filled_count_bounds(set_cell(puzzle, row, col, last));
            lemma_completions_finite(set_cell(puzzle, row, col, last));
        }
    }
}

/// A puzzle has a unique completion exactly when the number of its completions is one.
pub proof fn lemma_unique_completion_by_count(puzzle: Board)
    requires
        well_shaped(puzzle),
    ensures
        has_unique_completion(puzzle) <==> completions(puzzle).len() == 1,
        has_completion(puzzle) <==> completions(puzzle).len() > 0,
{
    let all = completions(puzzle);
    lemma_completions_finite(puzzle);
    Set::lemma_is_singleton(all);
    if has_unique_completion(puzzle) {
        let full = choose|full: Board| #[trigger]
            is_completion(puzzle, full) && forall|other: Board| #[trigger]
                is_completion(puzzle, other) ==> other == full;
        assert(all.contains(full));
        assert(all.len() > 0);
        assert(all.is_singleton());
    }
    if all.len() == 1 {
        let full = all.choose();
        assert(all.contains(full));
        assert(is_completion(puzzle, full));
        assert forall|other: Board| #[trigger] is_completion(puzzle, other) implies other
            == full by {
            assert(all.contains(other));
        }
    }
    if has_completion(puzzle) {
        let full = choose|full: Board| is_completion(puzzle, full);
        assert(all.contains(full));
    }
    if all.len() > 0 {
        let full = all.choose();
        assert(all.contains(full));
        assert(is_completion(puzzle, full));
    }
}

/// Counts the completions of the grid into `count`, one by one, in the order of the search,
/// and stops as soon as `count` has reached `max_count`: the cap is tested on entry and
/// after each step of the search, and a stop goes up through every call around it. Gives
/// `true` if `count` stood at the cap on entry, or reached it on a grid with an empty cell;
/// a grid without an empty cell adds one and gives `false`.
pub fn count_solutions(grid: &SudokuGrid, count: &mut i32, max_count: i32) -> (stopped: bool)
    requires
        well_shaped(board_of(grid)),
    ensures
        *final(count) == capped_count(
            *old(count) as int,
            completions(board_of(grid)).len() as int,
            max_count as int,
        ),
        stopped == (*old(count) >= max_count || (!complete(board_of(grid)) && *final(count)
            >= max_count)),
        !stopped ==> *final(count) == *old(count) + completions(board_of(grid)).len(),
    decreases 81 - filled_count(board_of(grid)),
{
    let ghost puzzle = board_of(grid);
    let ghost start = *count as int;
    let ghost cap = max_count as int;
    if *count >= max_count {
        return true;
    }
    match find_empty_cell(grid) {
        None => {
            proof {
                assert(completions(puzzle) =~= Set::<Board>::empty().insert(puzzle)) by {
                    assert forall|full: Board| completions(puzzle).contains(full) <==> full
                        == puzzle by {
                        lemma_complete_board_completes_itself(puzzle, full);
                    }
                }
            }
            *count += 1;
            return false;
        },
        Some((row, col)) => {
            let mut grid_copy = grid.clone();
            proof {
                assert(puzzle.len() == 9);
                assert(puzzle[row as int].len() == 9);
                assert(!complete(puzzle));
                lemma_completions_below_finite(puzzle, row as int, col as int, 1);
                assert(completions_below(puzzle, row as int, col as int, 1) =~= Set::<
                    Board,
                >::empty());
            }
            for num in 1..10i32
                invariant
                    board_of(&grid_copy) == puzzle,
                    puzzle == board_of(grid),
                    well_shaped(puzzle),
                    !complete(puzzle),
                    is_first_empty(puzzle, row as int, col as int),
                    start == *old(count),
                    cap == max_count,
                    completions_below(puzzle, row as int, col as int, num as int).finite(),
                    *count == start + completions_below(
                        puzzle,
                        row as int,
                        col as int,
                        num as int,
                    ).len(),
                    *count < cap,
            {
                let ghost below = completions_below(puzzle, row as int, col as int, num as int);
                let ghost with = completions_with(puzzle, row as int, col as int, num);
                let ghost next = set_cell(puzzle, row as int, col as int, num);
                proof {
                    lemma_completions_below_step(puzzle, row as int, col as int, num);
                    lemma_completions_with(puzzle, row as int, col as int, num);
                    lemma_completions_below_finite(puzzle, row as int, col as int, num + 1);
                    lemma_completions_finite(puzzle);
                    lemma_set_cell(puzzle, row as int, col as int, num);
                    lemma_completions_finite(next);
                    lemma_set_disjoint_lens(below, with);
                    lemma_len_subset(
                        completions_below(puzzle, row as int, col as int, num + 1),
                        completions(puzzle),
                    );
                }
                if is_valid_placement(&grid_copy, row, col, num) {
                    proof {
                        assert(puzzle.len() == 9);
                        assert(puzzle[row as int].len() == 9);
                        lemma_filled_count_set_cell(puzzle, row as int, col as int, num);
                        lemma_filled_count_bounds(next);
                    }
                    grid_copy[row][col] = num;
                    assert(board_of(&grid_copy) == next);
                    if count_solutions(&grid_copy, count, max_count) || *count >= max_count {
                        return true;
                    }
                    proof {
                        assert(next.len() == 9);
                        assert(next[row as int].len() == 9);
                        lemma_set_cell_restores(puzzle, row as int, col as int, num);
                    }
                    grid_copy[row][col] = 0;
                }
            }
            proof {
                assert(completions(puzzle) =~= completions_below(
                    puzzle,
                    row as int,
                    col as int,
                    10,
                ));
            }
        },
    }
    false
}

/// Whether the grid has one completion and no other.
pub fn has_unique_solution(grid: &SudokuGrid) -> (unique: bool)
    requires
        well_shaped(board_of(grid)),
    ensures
        unique == has_unique_completion(board_of(grid)),
{
    proof {
        lemma_unique_completion_by_count(board_of(grid));
    }
    let mut solution1 = grid.clone();
    assert(board_of(&solution1) == board_of(grid));
    if !solve_sudoku(&mut solution1) {
        return false;
    }
    let mut count: i32 = 0;
    count_solutions(grid, &mut count, 2);
    count == 1
}

} // verus!
