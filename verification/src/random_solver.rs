//! The randomized solver: the same search as the deterministic one, but each empty cell
//! tries the digits in a freshly shuffled order.

use crate::grid::{
    board_of, cell, filled_count, in_grid, lemma_filled_count_bounds, lemma_filled_count_set_cell,
    lemma_set_cell, lemma_set_cell_restores, same_unit, set_cell, well_shaped, Board, SudokuError,
    SudokuGrid,
};
use crate::random::shuffle_items;
use crate::rules::{differs_from_peers, is_valid_placement, placement_allowed, valid_solution};
use crate::solver::{
    consistent, extends, find_empty_cell, has_completion, is_completion, is_first_empty,
    lemma_complete_board_completes_itself, lemma_completion_of_consistent_is_valid,
    lemma_completion_step, lemma_valid_extension_completes,
};
use vstd::prelude::*;

verus! {

broadcast use vstd::seq_lib::group_to_multiset_ensures;

/// The digits 1 to 9 in rising order.
pub open spec fn digits() -> Seq<i32> {
    Seq::new(9, |i: int| (i + 1) as i32)
}

/// The nine digits in rising order, ready to be shuffled.
fn rising_digits() -> (numbers: Vec<i32>)
    ensures
        numbers@ == digits(),
{
    let mut numbers: Vec<i32> = Vec::new();
    for d in 1..10i32
        invariant
            numbers@.len() == d - 1,
            forall|i: int| 0 <= i < numbers@.len() ==> numbers@[i] == i + 1,
    {
        numbers.push(d);
    }
    assert(numbers@ =~= digits());
    numbers
}

/// A sequence that holds what `digits()` holds, in any order, has every digit from 1 to 9
/// in one of its nine places, and nothing else.
pub proof fn lemma_shuffled_digits(numbers: Seq<i32>)
    requires
        numbers.to_multiset() == digits().to_multiset(),
    ensures
        numbers.len() == 9,
        forall|i: int| 0 <= i < 9 ==> 1 <= #[trigger] numbers[i] <= 9,
        forall|d: i32| 1 <= d <= 9 ==> numbers.contains(d),
{
    assert(numbers.to_multiset().len() == numbers.len());
    assert(digits().to_multiset().len() == digits().len());
    assert forall|i: int| 0 <= i < 9 implies 1 <= #[trigger] numbers[i] <= 9 by {
        assert(numbers.contains(numbers[i]));
        assert(numbers.to_multiset().count(numbers[i]) > 0);
        assert(digits().contains(numbers[i]));
        let j = choose|j: int| 0 <= j < digits().len() && digits()[j] == numbers[i];
        assert(digits()[j] == j + 1);
    }
    assert forall|d: i32| 1 <= d <= 9 implies numbers.contains(d) by {
        assert(digits()[d - 1] == d);
        assert(digits().contains(d));
        assert(digits().to_multiset().count(d) > 0);
    }
}

/// `value` is a digit that may be placed at `(row, col)` and leaves a puzzle that can be
/// completed.
pub open spec fn digit_leads_on(puzzle: Board, row: int, col: int, value: i32) -> bool {
    1 <= value <= 9 && placement_allowed(puzzle, row, col, value) && has_completion(
        set_cell(puzzle, row, col, value),
    )
}

/// A digit leads on exactly when a completion of the puzzle holds it in the empty cell.
pub proof fn lemma_digit_leads_on(puzzle: Board, row: int, col: int, value: i32)
    requires
        well_shaped(puzzle),
        in_grid(row, col),
        cell(puzzle, row, col) == 0,
    ensures
        digit_leads_on(puzzle, row, col, value) <==> exists|full: Board| #[trigger]
            is_completion(puzzle, full) && cell(full, row, col) == value,
{
    let next = set_cell(puzzle, row, col, value);
    if digit_leads_on(puzzle, row, col, value) {
        let full = choose|full: Board| is_completion(next, full);
        lemma_completion_step(puzzle, row, col, value, full);
        assert(is_completion(puzzle, full) && cell(full, row, col) == value);
    }
    if exists|full: Board| #[trigger] is_completion(puzzle, full) && cell(full, row, col) == value {
        let full = choose|full: Board| #[trigger]
            is_completion(puzzle, full) && cell(full, row, col) == value;
        lemma_completion_step(puzzle, row, col, value, full);
        assert(is_completion(next, full));
    }
}

/// Solves the grid in place like the deterministic solver, but tries the digits for each
/// empty cell in a random order. Gives `true` and one of the completions of the grid if
/// there is one, and `false` and the grid as it was if there is none.
pub fn solve_random_sudoku(grid: &mut SudokuGrid) -> (solved: bool)
    requires
        well_shaped(board_of(old(grid))),
    ensures
        solved == has_completion(board_of(old(grid))),
        solved ==> is_completion(board_of(old(grid)), board_of(final(grid))),
        !solved ==> board_of(final(grid)) == board_of(old(grid)),
        well_shaped(board_of(final(grid))),
    decreases 81 - filled_count(board_of(old(grid))), 1int,
{
    let ghost puzzle = board_of(grid);
    let (row, col) = match find_empty_cell(grid) {
        Some(found) => found,
        None => {
            proof {
                lemma_complete_board_completes_itself(puzzle, puzzle);
            }
            return true;
        },
    };
    let mut numbers = rising_digits();
    let mut rng = rand::thread_rng();
    shuffle_items(&mut numbers, &mut rng);
    solve_with_digits(grid, row, col, &numbers)
}

/// Fills the first empty cell of the grid, at `(row, col)`, with the digits of `numbers` in
/// their order, and solves the rest at random after each one that may be placed. Gives
/// `true` and a completion with the first digit of `numbers` that leads on in that cell, or
/// `false` and the grid as it was if the grid has no completion.
pub fn solve_with_digits(
    grid: &mut SudokuGrid,
    row: usize,
    col: usize,
    numbers: &Vec<i32>,
) -> (solved: bool)
    requires
        well_shaped(board_of(old(grid))),
        is_first_empty(board_of(old(grid)), row as int, col as int),
        numbers@.to_multiset() == digits().to_multiset(),
    ensures
        solved == has_completion(board_of(old(grid))),
        solved ==> is_completion(board_of(old(grid)), board_of(final(grid))) && exists|i: int|
            0 <= i < 9 && cell(board_of(final(grid)), row as int, col as int)
                == #[trigger] numbers@[i] && forall|j: int|
                0 <= j < i ==> !digit_leads_on(
                    board_of(old(grid)),
                    row as int,
                    col as int,
                    #[trigger] numbers@[j],
                ),
        !solved ==> board_of(final(grid)) == board_of(old(grid)),
        well_shaped(board_of(final(grid))),
    decreases 81 - filled_count(board_of(old(grid))), 0int,
{
    let ghost puzzle = board_of(grid);
    proof {
        lemma_shuffled_digits(numbers@);
    }
    for i in 0..numbers.len()
        invariant
            board_of(grid) == puzzle,
            puzzle == board_of(old(grid)),
            well_shaped(puzzle),
            is_first_empty(puzzle, row as int, col as int),
            numbers@.len() == 9,
            forall|j: int| 0 <= j < 9 ==> 1 <= #[trigger] numbers@[j] <= 9,
            forall|d: i32| 1 <= d <= 9 ==> numbers@.contains(d),
            forall|j: int|
                0 <= j < i ==> !digit_leads_on(puzzle, row as int, col as int, #[trigger] numbers@[j]),
    {
        let num = numbers[i];
        let ghost next = set_cell(puzzle, row as int, col as int, num);
        if is_valid_placement(grid, row, col, num) {
            proof {
                assert(puzzle.len() == 9);
                assert(puzzle[row as int].len() == 9);
                lemma_set_cell(puzzle, row as int, col as int, num);
                lemma_filled_count_set_cell(puzzle, row as int, col as int, num);
                lemma_filled_count_bounds(next);
            }
            grid[row][col] = num;
            assert(board_of(grid) == next);
            if solve_random_sudoku(grid) {
                proof {
                    let full = board_of(grid);
                    lemma_completion_step(puzzle, row as int, col as int, num, full);
                    assert(cell(full, row as int, col as int) == numbers@[i as int]);
                }
                return true;
            }
            proof {
                assert(next.len() == 9);
                assert(next[row as int].len() == 9);
                lemma_set_cell_restores(puzzle, row as int, col as int, num);
            }
            grid[row][col] = 0;
        }
    }
    proof {
        assert forall|other: Board| !is_completion(puzzle, other) by {
            if is_completion(puzzle, other) {
                let d = cell(other, row as int, col as int);
                assert(cell(puzzle, row as int, col as int) == 0);
                assert(1 <= d <= 9);
                assert(numbers@.contains(d));
                let j = choose|j: int| 0 <= j < numbers@.len() && numbers@[j] == d;
                lemma_digit_leads_on(puzzle, row as int, col as int, d);
                assert(!digit_leads_on(puzzle, row as int, col as int, numbers@[j]));
            }
        }
    }
    false
}

/// The board without any filled cell.
pub open spec fn empty_board() -> Board {
    Seq::new(9, |r: int| Seq::new(9, |c: int| 0i32))
}

/// The digit at `(row, col)` of the board whose rows are the digits 1 to 9, shifted from
/// row to row.
pub open spec fn shifted_digit(row: int, col: int) -> i32 {
    ((3 * (row % 3) + row / 3 + col) % 9 + 1) as i32
}

/// A valid solution that can be written down: each row holds the digits 1 to 9 in their
/// cyclic order, begun at a digit of its own.
pub open spec fn shifted_board() -> Board {
    Seq::new(9, |r: int| Seq::new(9, |c: int| shifted_digit(r, c)))
}

/// Two numbers less than 9 apart that leave the same remainder on division by 9 are equal.
proof fn lemma_same_remainder(x: int, y: int)
    requires
        -9 < x - y < 9,
        x % 9 == y % 9,
    ensures
        x == y,
{
    assert(x == 9 * (x / 9) + x % 9);
    assert(y == 9 * (y / 9) + y % 9);
}

/// Two cells of one row, column or box get different digits by shifting.
proof fn lemma_shifted_digits_differ(r1: int, c1: int, r2: int, c2: int)
    requires
        in_grid(r1, c1),
        in_grid(r2, c2),
        same_unit(r1, c1, r2, c2),
        !(r1 == r2 && c1 == c2),
    ensures
        shifted_digit(r1, c1) != shifted_digit(r2, c2),
{
    let x1 = 3 * (r1 % 3) + r1 / 3 + c1;
    let x2 = 3 * (r2 % 3) + r2 / 3 + c2;
    assert(r1 == 3 * (r1 / 3) + r1 % 3 && r2 == 3 * (r2 / 3) + r2 % 3);
    assert(c1 == 3 * (c1 / 3) + c1 % 3 && c2 == 3 * (c2 / 3) + c2 % 3);
    if r1 == r2 {
        assert(x1 - x2 == c1 - c2);
    } else if c1 == c2 {
        assert(x1 - x2 == 3 * (r1 % 3 - r2 % 3) + (r1 / 3 - r2 / 3));
    } else {
        assert(x1 - x2 == 3 * (r1 % 3 - r2 % 3) + (c1 % 3 - c2 % 3));
    }
    assert(-9 < x1 - x2 < 9 && x1 != x2);
    if x1 % 9 == x2 % 9 {
        lemma_same_remainder(x1, x2);
    }
}

/// The board that holds no digit can be completed, and each of its completions is a valid
/// solution.
pub proof fn lemma_empty_board_completions(full: Board)
    ensures
        well_shaped(empty_board()),
        has_completion(empty_board()),
        is_completion(empty_board(), full) <==> valid_solution(full),
{
    let empty = empty_board();
    let shifted = shifted_board();
    assert(well_shaped(empty));
    assert(well_shaped(shifted));
    assert(is_completion(empty, shifted)) by {
        assert forall|r: int, c: int| in_grid(r, c) implies if cell(empty, r, c) != 0 {
            #[trigger] cell(shifted, r, c) == cell(empty, r, c)
        } else {
            1 <= cell(shifted, r, c) <= 9 && differs_from_peers(shifted, r, c)
        } by {
            assert(cell(shifted, r, c) == shifted_digit(r, c));
            assert forall|r2: int, c2: int|
                in_grid(r2, c2) && same_unit(r, c, r2, c2) && !(r2 == r && c2 == c) implies #[trigger] cell(
                shifted,
                r2,
                c2,
            ) != cell(shifted, r, c) by {
                assert(cell(shifted, r2, c2) == shifted_digit(r2, c2));
                lemma_shifted_digits_differ(r, c, r2, c2);
            }
        }
    }
    assert(consistent(empty));
    if is_completion(empty, full) {
        lemma_completion_of_consistent_is_valid(empty, full);
    }
    if valid_solution(full) {
        assert(extends(empty, full));
        lemma_valid_extension_completes(empty, full);
    }
}

/// Makes a fully solved grid by running the randomized solver on a grid without digits.
/// There are valid solutions, so the solver finds one.
pub fn generate_solved_grid() -> (made: Result<SudokuGrid, SudokuError>)
    ensures
        made matches Ok(grid) && valid_solution(board_of(&grid)),
{
    let mut grid = vec![vec![0; 9]; 9];
    proof {
        assert forall|r: int| 0 <= r < 9 implies (#[trigger] grid@[r])@ == Seq::new(
            9,
            |c: int| 0i32,
        ) by {
            assert(grid@[r]@.len() == 9);
            assert forall|c: int| 0 <= c < 9 implies grid@[r]@[c] == 0 by {}
        }
        assert(board_of(&grid) == empty_board());
        lemma_empty_board_completions(empty_board());
    }
    if !solve_random_sudoku(&mut grid) {
        return Err(SudokuError::GenerationFailure);
    }
    proof {
        lemma_empty_board_completions(board_of(&grid));
    }
    Ok(grid)
}

} // verus!
