//! The deterministic solver: depth-first search that fills the first empty cell, read row by
//! row, with the smallest digit that fits, and steps back when no digit fits.

use crate::grid::{
    board_of, cell, cell_at, complete, earlier, filled_count, in_grid, lemma_filled_count_bounds,
    lemma_filled_count_set_cell, lemma_same_cells_equal, lemma_set_cell,
    lemma_set_cell_restores, same_cells, same_unit, set_cell, well_shaped, Board, SudokuGrid,
};
use crate::rules::{
    differs_from_peers, is_valid_placement, lemma_valid_solution_by_cells, placement_allowed,
    valid_solution,
};
use vstd::prelude::*;

verus! {

/// `full` completes `puzzle`: it keeps every filled cell of `puzzle` and holds in every empty
/// cell of `puzzle` a digit from 1 to 9 that no other cell of its row, column or box holds.
pub open spec fn is_completion(puzzle: Board, full: Board) -> bool {
    &&& well_shaped(full)
    &&& forall|r: int, c: int|
        in_grid(r, c) ==> if cell(puzzle, r, c) != 0 {
            #[trigger] cell(full, r, c) == cell(puzzle, r, c)
        } else {
            1 <= cell(full, r, c) <= 9 && differs_from_peers(full, r, c)
        }
}

/// The puzzle can be completed.
pub open spec fn has_completion(puzzle: Board) -> bool {
    exists|full: Board| is_completion(puzzle, full)
}

/// The two boards agree on every cell before `(row, col)`, read row by row, and there
/// `a` holds the smaller value.
pub open spec fn smaller_at(a: Board, b: Board, row: int, col: int) -> bool {
    &&& in_grid(row, col)
    &&& cell(a, row, col) < cell(b, row, col)
    &&& forall|r: int, c: int|
        in_grid(r, c) && earlier(r, c, row, col) ==> #[trigger] cell(a, r, c) == cell(b, r, c)
}

/// `a` comes before `b` in the order of the search: at the first cell where they differ,
/// read row by row, `a` holds the smaller value.
pub open spec fn precedes(a: Board, b: Board) -> bool {
    exists|row: int, col: int| smaller_at(a, b, row, col)
}

/// `full` is the completion of `puzzle` that comes before every other one.
pub open spec fn is_first_completion(puzzle: Board, full: Board) -> bool {
    &&& is_completion(puzzle, full)
    &&& forall|other: Board| #[trigger]
        is_completion(puzzle, other) ==> other == full || precedes(full, other)
}

/// The completion of `puzzle` that comes before every other one, where `puzzle` has one.
pub open spec fn first_completion(puzzle: Board) -> Board {
    choose|full: Board| is_first_completion(puzzle, full)
}

/// The cell at `(row, col)` is empty and no cell before it is, read row by row.
pub open spec fn is_first_empty(b: Board, row: int, col: int) -> bool {
    &&& in_grid(row, col)
    &&& cell(b, row, col) == 0
    &&& forall|r: int, c: int| in_grid(r, c) && earlier(r, c, row, col) ==> #[trigger] cell(b, r, c) != 0
}

/// Every filled cell of the board holds a digit from 1 to 9 that no other cell of its row,
/// column or box holds.
pub open spec fn consistent(b: Board) -> bool {
    forall|r: int, c: int|
        in_grid(r, c) && #[trigger] cell(b, r, c) != 0 ==> 1 <= cell(b, r, c) <= 9
            && differs_from_peers(b, r, c)
}

/// `full` keeps every filled cell of `puzzle`.
pub open spec fn extends(puzzle: Board, full: Board) -> bool {
    forall|r: int, c: int|
        in_grid(r, c) && cell(puzzle, r, c) != 0 ==> #[trigger] cell(full, r, c) == cell(
            puzzle,
            r,
            c,
        )
}

/// A valid solution that keeps the filled cells of a puzzle completes the puzzle.
pub proof fn lemma_valid_extension_completes(puzzle: Board, full: Board)
    requires
        valid_solution(full),
        extends(puzzle, full),
    ensures
        is_completion(puzzle, full),
{
    lemma_valid_solution_by_cells(full);
    assert forall|r: int, c: int| in_grid(r, c) implies if cell(puzzle, r, c) != 0 {
        #[trigger] cell(full, r, c) == cell(puzzle, r, c)
    } else {
        1 <= cell(full, r, c) <= 9 && differs_from_peers(full, r, c)
    } by {}
}

/// Every completion of a consistent puzzle is a valid solution.
pub proof fn lemma_completion_of_consistent_is_valid(puzzle: Board, full: Board)
    requires
        consistent(puzzle),
        is_completion(puzzle, full),
    ensures
        valid_solution(full),
        extends(puzzle, full),
{
    assert forall|r: int, c: int| in_grid(r, c) implies 1 <= #[trigger] cell(full, r, c) <= 9
        && differs_from_peers(full, r, c) by {
        if cell(puzzle, r, c) != 0 {
            assert(differs_from_peers(puzzle, r, c));
            assert forall|r2: int, c2: int|
                in_grid(r2, c2) && same_unit(r, c, r2, c2) && !(r2 == r && c2 == c) implies #[trigger] cell(
                full,
                r2,
                c2,
            ) != cell(full, r, c) by {
                if cell(puzzle, r2, c2) != 0 {
                    assert(cell(puzzle, r2, c2) != cell(puzzle, r, c));
                } else {
                    assert(differs_from_peers(full, r2, c2));
                    assert(same_unit(r2, c2, r, c));
                    assert(cell(full, r, c) != cell(full, r2, c2));
                }
            }
        }
    }
    lemma_valid_solution_by_cells(full);
}

/// A puzzle made by emptying cells of a valid solution is consistent.
pub proof fn lemma_part_of_valid_is_consistent(puzzle: Board, full: Board)
    requires
        valid_solution(full),
        forall|r: int, c: int|
            in_grid(r, c) ==> #[trigger] cell(puzzle, r, c) == 0 || cell(puzzle, r, c) == cell(
                full,
                r,
                c,
            ),
    ensures
        consistent(puzzle),
        extends(puzzle, full),
{
    lemma_valid_solution_by_cells(full);
    assert forall|r: int, c: int| in_grid(r, c) && #[trigger] cell(puzzle, r, c) != 0 implies 1
        <= cell(puzzle, r, c) <= 9 && differs_from_peers(puzzle, r, c) by {
        assert(differs_from_peers(full, r, c));
        assert forall|r2: int, c2: int|
            in_grid(r2, c2) && same_unit(r, c, r2, c2) && !(r2 == r && c2 == c) implies #[trigger] cell(
            puzzle,
            r2,
            c2,
        ) != cell(puzzle, r, c) by {
            assert(cell(full, r2, c2) != cell(full, r, c));
        }
    }
}

/// A board without an empty cell has one completion: itself.
pub proof fn lemma_complete_board_completes_itself(b: Board, full: Board)
    requires
        well_shaped(b),
        complete(b),
    ensures
        is_completion(b, full) <==> full == b,
{
    assert forall|r: int, c: int| in_grid(r, c) implies #[trigger] cell(b, r, c) != 0 by {
        assert(b[r].len() == 9);
    }
    if is_completion(b, full) {
        assert(same_cells(full, b));
        lemma_same_cells_equal(full, b);
    }
}

/// How the completions of a puzzle with an empty cell at `(row, col)` go back to those of
/// the puzzle with a digit written there: a completion holds `value` in that cell exactly
/// when `value` is a digit that may be placed there and the completion completes the puzzle
/// with `value` in that cell.
pub proof fn lemma_completion_step(puzzle: Board, row: int, col: int, value: i32, full: Board)
    requires
        well_shaped(puzzle),
        in_grid(row, col),
        cell(puzzle, row, col) == 0,
    ensures
        (is_completion(puzzle, full) && cell(full, row, col) == value) <==> (1 <= value <= 9
            && placement_allowed(puzzle, row, col, value) && is_completion(
            set_cell(puzzle, row, col, value),
            full,
        )),
{
    let next = set_cell(puzzle, row, col, value);
    lemma_set_cell(puzzle, row, col, value);
    if is_completion(puzzle, full) && cell(full, row, col) == value {
        assert(differs_from_peers(full, row, col));
        assert forall|r: int, c: int|
            in_grid(r, c) && same_unit(row, col, r, c) implies #[trigger] cell(puzzle, r, c)
            != value by {
            if r == row && c == col {
            } else if cell(puzzle, r, c) != 0 {
                assert(cell(full, r, c) == cell(puzzle, r, c));
                assert(cell(full, r, c) != cell(full, row, col));
            }
        }
        assert forall|r: int, c: int| in_grid(r, c) implies if cell(next, r, c) != 0 {
            #[trigger] cell(full, r, c) == cell(next, r, c)
        } else {
            1 <= cell(full, r, c) <= 9 && differs_from_peers(full, r, c)
        } by {
            if r == row && c == col {
            } else {
                assert(cell(next, r, c) == cell(puzzle, r, c));
            }
        }
    }
    if 1 <= value <= 9 && placement_allowed(puzzle, row, col, value) && is_completion(next, full) {
        assert(cell(full, row, col) == cell(next, row, col));
        assert forall|r: int, c: int| in_grid(r, c) implies if cell(puzzle, r, c) != 0 {
            #[trigger] cell(full, r, c) == cell(puzzle, r, c)
        } else {
            1 <= cell(full, r, c) <= 9 && differs_from_peers(full, r, c)
        } by {
            if r == row && c == col {
                assert forall|r2: int, c2: int|
                    in_grid(r2, c2) && same_unit(row, col, r2, c2) && !(r2 == row && c2 == col) implies #[trigger] cell(
                    full,
                    r2,
                    c2,
                ) != cell(full, row, col) by {
                    assert(cell(next, r2, c2) == cell(puzzle, r2, c2));
                    if cell(puzzle, r2, c2) != 0 {
                        assert(cell(full, r2, c2) == cell(next, r2, c2));
                        assert(cell(puzzle, r2, c2) != value);
                    } else {
                        assert(differs_from_peers(full, r2, c2));
                        assert(same_unit(r2, c2, row, col));
                        assert(cell(full, row, col) != cell(full, r2, c2));
                    }
                }
            } else {
                assert(cell(next, r, c) == cell(puzzle, r, c));
            }
        }
    }
}

/// The order of the search never puts two boards before each other.
pub proof fn lemma_precedes_one_way(a: Board, b: Board)
    requires
        precedes(a, b),
    ensures
        !precedes(b, a),
        a != b,
{
    let (row, col) = choose|row: int, col: int| smaller_at(a, b, row, col);
    if precedes(b, a) {
        let (row2, col2) = choose|row2: int, col2: int| smaller_at(b, a, row2, col2);
        if earlier(row, col, row2, col2) {
            assert(cell(b, row, col) == cell(a, row, col));
        } else if earlier(row2, col2, row, col) {
            assert(cell(a, row2, col2) == cell(b, row2, col2));
        }
    }
}

/// A puzzle has at most one first completion.
pub proof fn lemma_first_completion_unique(puzzle: Board, a: Board, b: Board)
    requires
        is_first_completion(puzzle, a),
        is_first_completion(puzzle, b),
    ensures
        a == b,
{
    if a != b {
        assert(is_completion(puzzle, a) && is_completion(puzzle, b));
        assert(precedes(a, b));
        assert(precedes(b, a));
        lemma_precedes_one_way(a, b);
    }
}

/// The first completion of the puzzle with the smallest fitting digit in its first empty
/// cell is the first completion of the puzzle.
pub proof fn lemma_first_completion_step(puzzle: Board, row: int, col: int, value: i32, full: Board)
    requires
        well_shaped(puzzle),
        is_first_empty(puzzle, row, col),
        1 <= value <= 9,
        placement_allowed(puzzle, row, col, value),
        forall|other: Board| #[trigger]
            is_completion(puzzle, other) ==> cell(other, row, col) >= value,
        is_first_completion(set_cell(puzzle, row, col, value), full),
    ensures
        is_first_completion(puzzle, full),
{
    let next = set_cell(puzzle, row, col, value);
    lemma_completion_step(puzzle, row, col, value, full);
    assert forall|other: Board| #[trigger] is_completion(puzzle, other) implies other == full
        || precedes(full, other) by {
        lemma_completion_step(puzzle, row, col, value, other);
        if cell(other, row, col) == value {
            assert(is_completion(next, other));
        } else {
            assert(cell(full, row, col) == value);
            assert forall|r: int, c: int|
                in_grid(r, c) && earlier(r, c, row, col) implies #[trigger] cell(full, r, c)
                == cell(other, r, c) by {
                assert(cell(puzzle, r, c) != 0);
                assert(cell(other, r, c) == cell(puzzle, r, c));
            }
            assert(smaller_at(full, other, row, col));
        }
    }
}

/// A board with an empty cell among its cells from the `k`-th on, and none before, has a
/// first empty cell.
proof fn lemma_first_empty_from(b: Board, k: int)
    requires
        0 <= k < 81,
        forall|j: int| 0 <= j < k ==> #[trigger] cell_at(b, j) != 0,
        exists|j: int| k <= j < 81 && #[trigger] cell_at(b, j) == 0,
    ensures
        exists|row: int, col: int| is_first_empty(b, row, col),
    decreases 81 - k,
{
    if cell_at(b, k) == 0 {
        let (row, col) = (k / 9, k % 9);
        assert forall|r: int, c: int| in_grid(r, c) && earlier(r, c, row, col) implies #[trigger] cell(
            b,
            r,
            c,
        ) != 0 by {
            let j = 9 * r + c;
            assert(j / 9 == r && j % 9 == c);
            assert(cell_at(b, j) != 0);
        }
        assert(is_first_empty(b, row, col));
    } else {
        let j = choose|j: int| k <= j < 81 && #[trigger] cell_at(b, j) == 0;
        assert(k + 1 <= j < 81 && cell_at(b, j) == 0);
        lemma_first_empty_from(b, k + 1);
    }
}

/// A board that is not complete has a first empty cell.
pub proof fn lemma_first_empty_exists(b: Board)
    requires
        well_shaped(b),
        !complete(b),
    ensures
        exists|row: int, col: int| is_first_empty(b, row, col),
{
    let (r, c) = choose|r: int, c: int|
        0 <= r < b.len() && 0 <= c < b[r].len() && #[trigger] cell(b, r, c) == 0;
    assert(b[r].len() == 9);
    let j = 9 * r + c;
    assert(j / 9 == r && j % 9 == c);
    assert(0 <= j < 81 && cell_at(b, j) == 0);
    lemma_first_empty_from(b, 0);
}

/// A puzzle that can be completed has a first completion.
pub proof fn lemma_first_completion_exists(puzzle: Board)
    requires
        well_shaped(puzzle),
        has_completion(puzzle),
    ensures
        is_first_completion(puzzle, first_completion(puzzle)),
    decreases 81 - filled_count(puzzle), 10int,
{
    if complete(puzzle) {
        lemma_complete_board_completes_itself(puzzle, puzzle);
        assert forall|other: Board| #[trigger] is_completion(puzzle, other) implies other
            == puzzle || precedes(puzzle, other) by {
            lemma_complete_board_completes_itself(puzzle, other);
        }
        assert(is_first_completion(puzzle, puzzle));
    } else {
        lemma_first_empty_exists(puzzle);
        let (row, col) = choose|row: int, col: int| is_first_empty(puzzle, row, col);
        assert forall|other: Board| #[trigger] is_completion(puzzle, other) implies cell(
            other,
            row,
            col,
        ) >= 1 by {}
        lemma_first_completion_from(puzzle, row, col, 1);
    }
}

/// A puzzle that can be completed, but not with a value below `value` in its first empty
/// cell, has a first completion.
proof fn lemma_first_completion_from(puzzle: Board, row: int, col: int, value: i32)
    requires
        well_shaped(puzzle),
        has_completion(puzzle),
        is_first_empty(puzzle, row, col),
        1 <= value <= 10,
        forall|other: Board| #[trigger]
            is_completion(puzzle, other) ==> cell(other, row, col) >= value,
    ensures
        exists|full: Board| is_first_completion(puzzle, full),
    decreases 81 - filled_count(puzzle), 10 - value,
{
    let next = set_cell(puzzle, row, col, value);
    if value == 10 {
        let any = choose|full: Board| is_completion(puzzle, full);
        assert(cell(any, row, col) >= 10);
    } else if placement_allowed(puzzle, row, col, value) && has_completion(next) {
        lemma_set_cell(puzzle, row, col, value);
        lemma_filled_count_set_cell(puzzle, row, col, value);
        lemma_filled_count_bounds(next);
        lemma_first_completion_exists(next);
        lemma_first_completion_step(puzzle, row, col, value, first_completion(next));
    } else {
        assert forall|other: Board| #[trigger] is_completion(puzzle, other) implies cell(
            other,
            row,
            col,
        ) >= value + 1 by {
            lemma_completion_step(puzzle, row, col, value, other);
            if cell(other, row, col) == value {
                assert(is_completion(next, other));
            }
        }
        lemma_first_completion_from(puzzle, row, col, (value + 1) as i32);
    }
}

/// The first empty cell of the grid, read row by row, if it has an empty cell.
pub fn find_empty_cell(grid: &SudokuGrid) -> (found: Option<(usize, usize)>)
    requires
        well_shaped(board_of(grid)),
    ensures
        match found {
            Some((row, col)) => is_first_empty(board_of(grid), row as int, col as int),
            None => complete(board_of(grid)),
        },
{
    let ghost b = board_of(grid);
    proof {
        assert(b.len() == 9);
    }
    for r in 0..9usize
        invariant
            b == board_of(grid),
            well_shaped(b),
            forall|i: int, j: int| 0 <= i < r && 0 <= j < 9 ==> #[trigger] cell(b, i, j) != 0,
    {
        for c in 0..9usize
            invariant
                b == board_of(grid),
                well_shaped(b),
                r < 9,
                forall|i: int, j: int| 0 <= i < r && 0 <= j < 9 ==> #[trigger] cell(b, i, j) != 0,
                forall|j: int| 0 <= j < c ==> #[trigger] cell(b, r as int, j) != 0,
        {
            assert(b[r as int].len() == 9);
            if grid[r][c] == 0 {
                assert(cell(b, r as int, c as int) == 0);
                return Some((r, c));
            }
        }
    }
    proof {
        assert forall|i: int, j: int| 0 <= i < b.len() && 0 <= j < b[i].len() implies #[trigger] cell(
            b,
            i,
            j,
        ) != 0 by {
            assert(b[i].len() == 9);
        }
    }
    None
}

/// Solves the grid in place: fills the first empty cell, read row by row, with the smallest
/// digit that fits and leads to a completion, and so on. Gives `true` and the first
/// completion of the grid if there is one, and `false` and the grid as it was if there is none.
pub fn solve_sudoku(grid: &mut SudokuGrid) -> (solved: bool)
    requires
        well_shaped(board_of(old(grid))),
    ensures
        solved == has_completion(board_of(old(grid))),
        solved ==> is_first_completion(board_of(old(grid)), board_of(final(grid))),
        !solved ==> board_of(final(grid)) == board_of(old(grid)),
        well_shaped(board_of(final(grid))),
    decreases 81 - filled_count(board_of(old(grid))),
{
    let ghost puzzle = board_of(grid);
    let (row, col) = match find_empty_cell(grid) {
        Some(found) => found,
        None => {
            proof {
                lemma_complete_board_completes_itself(puzzle, puzzle);
                assert forall|other: Board| #[trigger] is_completion(puzzle, other) implies other
                    == puzzle || precedes(puzzle, other) by {
                    lemma_complete_board_completes_itself(puzzle, other);
                }
            }
            return true;
        },
    };
    for num in 1..10i32
        invariant
            board_of(grid) == puzzle,
            puzzle == board_of(old(grid)),
            well_shaped(puzzle),
            is_first_empty(puzzle, row as int, col as int),
            forall|other: Board| #[trigger]
                is_completion(puzzle, other) ==> cell(other, row as int, col as int) >= num,
    {
        let ghost next = set_cell(puzzle, row as int, col as int, num);
        let allowed = is_valid_placement(grid, row, col, num);
        if allowed {
            proof {
                assert(puzzle.len() == 9);
                assert(puzzle[row as int].len() == 9);
                lemma_set_cell(puzzle, row as int, col as int, num);
                lemma_filled_count_set_cell(puzzle, row as int, col as int, num);
                lemma_filled_count_bounds(next);
            }
            grid[row][col] = num;
            assert(board_of(grid) == next);
            if solve_sudoku(grid) {
                proof {
                    lemma_first_completion_step(
                        puzzle,
                        row as int,
                        col as int,
                        num,
                        board_of(grid),
                    );
                }
                return true;
            }
            proof {
                assert(next.len() == 9);
                assert(next[row as int].len() == 9);
                lemma_set_cell_restores(puzzle, row as int, col as int, num);
            }
            grid[row][col] = 0;
        }
        proof {
            assert forall|other: Board| #[trigger] is_completion(puzzle, other) implies cell(
                other,
                row as int,
                col as int,
            ) >= num + 1 by {
                lemma_completion_step(puzzle, row as int, col as int, num, other);
                if cell(other, row as int, col as int) == num {
                    assert(allowed);
                    assert(is_completion(next, other));
                    assert(has_completion(next));
                }
            }
        }
    }
    proof {
        assert forall|other: Board| !is_completion(puzzle, other) by {
            if is_completion(puzzle, other) {
                assert(cell(other, row as int, col as int) >= 10);
                assert(cell(puzzle, row as int, col as int) == 0);
            }
        }
    }
    false
}

} // verus!
