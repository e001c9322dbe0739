//! The rules of the game: where a digit may be placed, and when a filled grid is a solution.

use crate::grid::{
    board_of, cell, complete, in_grid, lemma_set_cell, same_unit, set_cell, well_shaped, Board,
    SudokuError, SudokuGrid,
};
use std::collections::HashSet;
use vstd::prelude::*;

verus! {

/// `value` occurs nowhere in the row, the column and the box of the cell at `(row, col)`.
pub open spec fn placement_allowed(b: Board, row: int, col: int, value: i32) -> bool {
    forall|r: int, c: int|
        in_grid(r, c) && same_unit(row, col, r, c) ==> #[trigger] cell(b, r, c) != value
}

/// The nine cells of row `k`, from left to right.
pub open spec fn row_values(b: Board, k: int) -> Seq<i32> {
    Seq::new(9, |i: int| cell(b, k, i))
}

/// The nine cells of column `k`, from top to bottom.
pub open spec fn column_values(b: Board, k: int) -> Seq<i32> {
    Seq::new(9, |i: int| cell(b, i, k))
}

/// The nine cells of box `k`, read row by row; the boxes themselves are numbered row by row.
pub open spec fn box_values(b: Board, k: int) -> Seq<i32> {
    Seq::new(9, |i: int| cell(b, 3 * (k / 3) + i / 3, 3 * (k % 3) + i % 3))
}

/// Every value of the sequence is a digit from 1 to 9.
pub open spec fn digits_only(s: Seq<i32>) -> bool {
    forall|i: int| 0 <= i < s.len() ==> 1 <= #[trigger] s[i] <= 9
}

/// The sequence holds each of the digits 1 to 9 once: nine digits, no two of them equal.
pub open spec fn is_digit_permutation(s: Seq<i32>) -> bool {
    s.len() == 9 && digits_only(s) && s.no_duplicates()
}

/// Every row, every column and every box of the board holds each of the digits 1 to 9 once.
pub open spec fn valid_solution(b: Board) -> bool {
    &&& well_shaped(b)
    &&& forall|k: int| 0 <= k < 9 ==> is_digit_permutation(#[trigger] row_values(b, k))
    &&& forall|k: int| 0 <= k < 9 ==> is_digit_permutation(#[trigger] column_values(b, k))
    &&& forall|k: int| 0 <= k < 9 ==> is_digit_permutation(#[trigger] box_values(b, k))
}

/// The cell at `(row, col)` holds a value that no other cell of its row, column or box holds.
pub open spec fn differs_from_peers(b: Board, row: int, col: int) -> bool {
    forall|r: int, c: int|
        in_grid(r, c) && same_unit(row, col, r, c) && !(r == row && c == col) ==> #[trigger] cell(
            b,
            r,
            c,
        ) != cell(b, row, col)
}

/// Every cell holds a digit from 1 to 9 that no other cell of its row, column or box holds.
pub open spec fn all_cells_fit(b: Board) -> bool {
    forall|r: int, c: int|
        in_grid(r, c) ==> 1 <= #[trigger] cell(b, r, c) <= 9 && differs_from_peers(b, r, c)
}

/// Whether `num` can be placed at `(row, col)` without repeating a value of the row, the
/// column or the box of that cell.
pub fn is_valid_placement(grid: &SudokuGrid, row: usize, col: usize, num: i32) -> (allowed: bool)
    requires
        well_shaped(board_of(grid)),
        row < 9,
        col < 9,
    ensures
        allowed == placement_allowed(board_of(grid), row as int, col as int, num),
{
    let ghost b = board_of(grid);
    proof {
        assert(b.len() == 9);
    }
    for c in 0..9usize
        invariant
            b == board_of(grid),
            well_shaped(b),
            row < 9,
            forall|j: int| 0 <= j < c ==> #[trigger] cell(b, row as int, j) != num,
    {
        assert(b[row as int].len() == 9);
        if grid[row][c] == num {
            assert(in_grid(row as int, c as int) && same_unit(row as int, col as int, row as int, c as int));
            assert(cell(b, row as int, c as int) == num);
            return false;
        }
    }
    for r in 0..9usize
        invariant
            b == board_of(grid),
            well_shaped(b),
            col < 9,
            forall|j: int| 0 <= j < r ==> #[trigger] cell(b, j, col as int) != num,
    {
        assert(b[r as int].len() == 9);
        if grid[r][col] == num {
            assert(in_grid(r as int, col as int) && same_unit(row as int, col as int, r as int, col as int));
            assert(cell(b, r as int, col as int) == num);
            return false;
        }
    }
    let box_start_row = 3 * (row / 3);
    let box_start_col = 3 * (col / 3);
    for r in 0..3usize
        invariant
            b == board_of(grid),
            well_shaped(b),
            row < 9,
            col < 9,
            box_start_row == 3 * (row / 3),
            box_start_col == 3 * (col / 3),
            forall|i: int, j: int|
                0 <= i < r && 0 <= j < 3 ==> #[trigger] cell(b, box_start_row + i, box_start_col + j)
                    != num,
    {
        for c in 0..3usize
            invariant
                b == board_of(grid),
                well_shaped(b),
                row < 9,
                col < 9,
                r < 3,
                box_start_row == 3 * (row / 3),
                box_start_col == 3 * (col / 3),
                forall|i: int, j: int|
                    0 <= i < r && 0 <= j < 3 ==> #[trigger] cell(
                        b,
                        box_start_row + i,
                        box_start_col + j,
                    ) != num,
                forall|j: int| 0 <= j < c ==> #[trigger] cell(b, box_start_row + r, box_start_col + j) != num,
        {
            assert(b[box_start_row + r].len() == 9);
            if grid[box_start_row + r][box_start_col + c] == num {
                let ghost rr = (box_start_row + r) as int;
                let ghost cc = (box_start_col + c) as int;
                assert(in_grid(rr, cc) && same_unit(row as int, col as int, rr, cc));
                assert(cell(b, rr, cc) == num);
                return false;
            }
        }
    }
    proof {
        assert forall|r: int, c: int|
            in_grid(r, c) && same_unit(row as int, col as int, r, c) implies #[trigger] cell(b, r, c)
            != num by {
            if r == row {
            } else if c == col {
            } else {
                let i = r - box_start_row;
                let j = c - box_start_col;
                assert(0 <= i < 3 && 0 <= j < 3);
                assert(cell(b, box_start_row + i, box_start_col + j) != num);
            }
        }
    }
    true
}

/// Whether the grid has no empty cell.
pub fn is_grid_complete(grid: &SudokuGrid) -> (full: bool)
    ensures
        full == complete(board_of(grid)),
{
    let ghost b = board_of(grid);
    for row in 0..grid.len()
        invariant
            b == board_of(grid),
            forall|r: int, c: int|
                0 <= r < row && 0 <= c < b[r].len() ==> #[trigger] cell(b, r, c) != 0,
    {
        let cells = &grid[row];
        for col in 0..cells.len()
            invariant
                b == board_of(grid),
                row < grid.len(),
                cells@ == b[row as int],
                forall|r: int, c: int|
                    0 <= r < row && 0 <= c < b[r].len() ==> #[trigger] cell(b, r, c) != 0,
                forall|c: int| 0 <= c < col ==> #[trigger] cell(b, row as int, c) != 0,
        {
            if cells[col] == 0 {
                assert(cell(b, row as int, col as int) == 0);
                return false;
            }
        }
    }
    true
}

/// Whether the grid has nine rows of nine cells.
pub fn has_grid_shape(grid: &SudokuGrid) -> (shaped: bool)
    ensures
        shaped == well_shaped(board_of(grid)),
{
    if grid.len() != 9 {
        return false;
    }
    let ghost b = board_of(grid);
    for row in 0..9usize
        invariant
            b == board_of(grid),
            grid.len() == 9,
            forall|r: int| 0 <= r < row ==> (#[trigger] b[r]).len() == 9,
    {
        if grid[row].len() != 9 {
            assert(b[row as int].len() != 9);
            return false;
        }
    }
    true
}

/// The set holds exactly the values of the first `n` places of the sequence.
pub open spec fn holds_prefix(seen: Set<i32>, s: Seq<i32>, n: int) -> bool {
    forall|v: i32| seen.contains(v) <==> (exists|j: int| 0 <= j < n && #[trigger] s[j] == v)
}

/// No value occurs twice among the first `n` places of the sequence.
pub open spec fn prefix_distinct(s: Seq<i32>, n: int) -> bool {
    forall|i: int, j: int| 0 <= i < j < n ==> s[i] != s[j]
}

/// What a look at the next place of the sequence tells: a value that the set holds already
/// is a repetition, and a new value extends both the set and the repetition-free prefix.
pub proof fn lemma_seen_step(seen: Set<i32>, s: Seq<i32>, n: int)
    requires
        0 <= n < s.len(),
        holds_prefix(seen, s, n),
        prefix_distinct(s, n),
    ensures
        seen.contains(s[n]) ==> !s.no_duplicates(),
        !seen.contains(s[n]) ==> holds_prefix(seen.insert(s[n]), s, n + 1) && prefix_distinct(
            s,
            n + 1,
        ),
{
    if seen.contains(s[n]) {
        let j = choose|j: int| 0 <= j < n && #[trigger] s[j] == s[n];
        assert(s[j] == s[n] && j != n);
    } else {
        let grown = seen.insert(s[n]);
        assert forall|v: i32| grown.contains(v) <==> (exists|j: int|
            0 <= j < n + 1 && #[trigger] s[j] == v) by {
            if grown.contains(v) {
                if v == s[n] {
                    assert(0 <= n < n + 1 && s[n] == v);
                } else {
                    let j = choose|j: int| 0 <= j < n && #[trigger] s[j] == v;
                    assert(0 <= j < n + 1 && s[j] == v);
                }
            }
            if exists|j: int| 0 <= j < n + 1 && #[trigger] s[j] == v {
                let j = choose|j: int| 0 <= j < n + 1 && #[trigger] s[j] == v;
                if j < n {
                    assert(seen.contains(v));
                }
            }
        }
        assert forall|i: int, j: int| 0 <= i < j < n + 1 implies s[i] != s[j] by {
            if j == n {
                if s[i] == s[n] {
                    assert(0 <= i < n && s[i] == s[n]);
                    assert(seen.contains(s[n]));
                }
            }
        }
    }
}

/// Whether every row, every column and every box of the grid holds each of the digits 1 to 9
/// once.
pub fn is_valid_solution(grid: &SudokuGrid) -> (valid: bool)
    requires
        well_shaped(board_of(grid)),
    ensures
        valid == valid_solution(board_of(grid)),
{
    broadcast use vstd::std_specs::hash::group_hash_axioms;

    let ghost b = board_of(grid);
    proof {
        assert(b.len() == 9);
    }
    for row in 0..9usize
        invariant
            b == board_of(grid),
            well_shaped(b),
            forall|k: int| 0 <= k < row ==> is_digit_permutation(#[trigger] row_values(b, k)),
    {
        let mut seen: HashSet<i32> = HashSet::new();
        let ghost s = row_values(b, row as int);
        for col in 0..9usize
            invariant
                b == board_of(grid),
                well_shaped(b),
                row < 9,
                s == row_values(b, row as int),
                holds_prefix(seen@, s, col as int),
                prefix_distinct(s, col as int),
                forall|j: int| 0 <= j < col ==> 1 <= #[trigger] s[j] <= 9,
        {
            assert(b[row as int].len() == 9);
            let num = grid[row][col];
            assert(num == s[col as int]);
            proof {
                lemma_seen_step(seen@, s, col as int);
            }
            if num < 1 || num > 9 || !seen.insert(num) {
                assert(!is_digit_permutation(s));
                return false;
            }
        }
        assert(is_digit_permutation(s));
    }
    proof {
        assert forall|r: int, c: int| in_grid(r, c) implies 1 <= #[trigger] cell(b, r, c) <= 9 by {
            assert(is_digit_permutation(row_values(b, r)));
            assert(row_values(b, r)[c] == cell(b, r, c));
        }
    }
    for col in 0..9usize
        invariant
            b == board_of(grid),
            well_shaped(b),
            forall|r: int, c: int| in_grid(r, c) ==> 1 <= #[trigger] cell(b, r, c) <= 9,
            forall|k: int| 0 <= k < 9 ==> is_digit_permutation(#[trigger] row_values(b, k)),
            forall|k: int| 0 <= k < col ==> is_digit_permutation(#[trigger] column_values(b, k)),
    {
        let mut seen: HashSet<i32> = HashSet::new();
        let ghost s = column_values(b, col as int);
        for row in 0..9usize
            invariant
                b == board_of(grid),
                well_shaped(b),
                col < 9,
                s == column_values(b, col as int),
                holds_prefix(seen@, s, row as int),
                prefix_distinct(s, row as int),
        {
            assert(b[row as int].len() == 9);
            let num = grid[row][col];
            assert(num == s[row as int]);
            proof {
                lemma_seen_step(seen@, s, row as int);
            }
            if !seen.insert(num) {
                assert(!is_digit_permutation(s));
                return false;
            }
        }
        proof {
            assert forall|i: int| 0 <= i < s.len() implies 1 <= #[trigger] s[i] <= 9 by {
                assert(s[i] == cell(b, i, col as int));
            }
            assert(is_digit_permutation(s));
        }
    }
    for box_row in 0..3usize
        invariant
            b == board_of(grid),
            well_shaped(b),
            forall|r: int, c: int| in_grid(r, c) ==> 1 <= #[trigger] cell(b, r, c) <= 9,
            forall|k: int| 0 <= k < 9 ==> is_digit_permutation(#[trigger] row_values(b, k)),
            forall|k: int| 0 <= k < 9 ==> is_digit_permutation(#[trigger] column_values(b, k)),
            forall|k: int| 0 <= k < 3 * box_row ==> is_digit_permutation(#[trigger] box_values(b, k)),
    {
        for box_col in 0..3usize
            invariant
                b == board_of(grid),
                well_shaped(b),
                box_row < 3,
                forall|r: int, c: int| in_grid(r, c) ==> 1 <= #[trigger] cell(b, r, c) <= 9,
                forall|k: int| 0 <= k < 9 ==> is_digit_permutation(#[trigger] row_values(b, k)),
                forall|k: int| 0 <= k < 9 ==> is_digit_permutation(#[trigger] column_values(b, k)),
                forall|k: int|
                    0 <= k < 3 * box_row + box_col ==> is_digit_permutation(
                        #[trigger] box_values(b, k),
                    ),
        {
            let mut seen: HashSet<i32> = HashSet::new();
            let ghost k = 3 * box_row + box_col;
            let ghost s = box_values(b, k);
            for row in 0..3usize
                invariant
                    b == board_of(grid),
                    well_shaped(b),
                    box_row < 3,
                    box_col < 3,
                    k == 3 * box_row + box_col,
                    s == box_values(b, k),
                    holds_prefix(seen@, s, 3 * row),
                    prefix_distinct(s, 3 * row),
            {
                for col in 0..3usize
                    invariant
                        b == board_of(grid),
                        well_shaped(b),
                        box_row < 3,
                        box_col < 3,
                        row < 3,
                        k == 3 * box_row + box_col,
                        s == box_values(b, k),
                        holds_prefix(seen@, s, 3 * row + col),
                        prefix_distinct(s, 3 * row + col),
                {
                    assert(b[box_row * 3 + row].len() == 9);
                    let num = grid[box_row * 3 + row][box_col * 3 + col];
                    let ghost i = 3 * row + col;
                    assert(k / 3 == box_row && k % 3 == box_col);
                    assert(i / 3 == row && i % 3 == col);
                    assert(num == s[i]);
                    proof {
                        lemma_seen_step(seen@, s, i);
                    }
                    if !seen.insert(num) {
                        assert(!is_digit_permutation(s));
                        return false;
                    }
                }
            }
            proof {
                assert forall|i: int| 0 <= i < s.len() implies 1 <= #[trigger] s[i] <= 9 by {
                    assert(k / 3 == box_row && k % 3 == box_col);
                    assert(s[i] == cell(b, 3 * (k / 3) + i / 3, 3 * (k % 3) + i % 3));
                    assert(in_grid(3 * (k / 3) + i / 3, 3 * (k % 3) + i % 3));
                }
                assert(is_digit_permutation(s));
            }
        }
    }
    true
}

/// Whether the grid is a finished and correct solution. A grid of another shape than nine
/// rows of nine cells is none.
pub fn validate_solution(grid: SudokuGrid) -> (checked: Result<bool, SudokuError>)
    ensures
        checked == Ok::<bool, SudokuError>(valid_solution(board_of(&grid))),
{
    if !has_grid_shape(&grid) {
        return Ok(false);
    }
    if !is_grid_complete(&grid) {
        proof {
            if valid_solution(board_of(&grid)) {
                lemma_valid_solution_is_complete(board_of(&grid));
            }
        }
        return Ok(false);
    }
    Ok(is_valid_solution(&grid))
}

/// A valid solution has no empty cell.
pub proof fn lemma_valid_solution_is_complete(b: Board)
    requires
        valid_solution(b),
    ensures
        complete(b),
{
    assert forall|r: int, c: int|
        0 <= r < b.len() && 0 <= c < b[r].len() implies #[trigger] cell(b, r, c) != 0 by {
        assert(is_digit_permutation(row_values(b, r)));
        assert(row_values(b, r)[c] == cell(b, r, c));
    }
}

/// The number of the box that holds the cell at `(row, col)`; the boxes are numbered row by
/// row.
pub open spec fn box_of(row: int, col: int) -> int {
    3 * (row / 3) + col / 3
}

/// The place of a cell in its box, counted row by row.
pub open spec fn place_in_box(row: int, col: int) -> int {
    3 * (row % 3) + col % 3
}

/// The cell at `(row, col)` is the cell of its box at its place in the box.
proof fn lemma_box_place(b: Board, row: int, col: int)
    requires
        in_grid(row, col),
    ensures
        0 <= box_of(row, col) < 9,
        0 <= place_in_box(row, col) < 9,
        box_values(b, box_of(row, col))[place_in_box(row, col)] == cell(b, row, col),
{
    let k = box_of(row, col);
    let i = place_in_box(row, col);
    assert(k / 3 == row / 3 && k % 3 == col / 3);
    assert(i / 3 == row % 3 && i % 3 == col % 3);
}

/// In a valid solution every cell holds a digit that no other cell of its row, column or
/// box holds.
proof fn lemma_valid_solution_cells_fit(b: Board, r: int, c: int)
    requires
        valid_solution(b),
        in_grid(r, c),
    ensures
        1 <= cell(b, r, c) <= 9,
        differs_from_peers(b, r, c),
{
    assert(is_digit_permutation(row_values(b, r)));
    assert(row_values(b, r)[c] == cell(b, r, c));
    assert forall|r2: int, c2: int|
        in_grid(r2, c2) && same_unit(r, c, r2, c2) && !(r2 == r && c2 == c) implies #[trigger] cell(
        b,
        r2,
        c2,
    ) != cell(b, r, c) by {
        if r2 == r {
            let s = row_values(b, r);
            assert(s[c2] == cell(b, r2, c2));
        } else if c2 == c {
            let s = column_values(b, c);
            assert(is_digit_permutation(s));
            assert(s[r] == cell(b, r, c) && s[r2] == cell(b, r2, c2));
        } else {
            let s = box_values(b, box_of(r, c));
            assert(is_digit_permutation(s));
            lemma_box_place(b, r, c);
            lemma_box_place(b, r2, c2);
            assert(box_of(r, c) == box_of(r2, c2));
            assert(place_in_box(r, c) != place_in_box(r2, c2));
        }
    }
}

/// Where every cell holds a digit that no other cell of its row, column or box holds, the
/// values of a row are nine digits without repetition.
proof fn lemma_fitting_cells_make_row(b: Board, k: int)
    requires
        well_shaped(b),
        all_cells_fit(b),
        0 <= k < 9,
    ensures
        is_digit_permutation(row_values(b, k)),
{
    let s = row_values(b, k);
    assert forall|i: int| 0 <= i < s.len() implies 1 <= #[trigger] s[i] <= 9 by {
        assert(in_grid(k, i));
        assert(s[i] == cell(b, k, i));
    }
    assert forall|i: int, j: int| 0 <= i < s.len() && 0 <= j < s.len() && i != j implies s[i]
        != s[j] by {
        assert(in_grid(k, i) && in_grid(k, j));
        assert(differs_from_peers(b, k, i));
        assert(cell(b, k, j) != cell(b, k, i));
    }
}

/// Where every cell holds a digit that no other cell of its row, column or box holds, the
/// values of a column are nine digits without repetition.
proof fn lemma_fitting_cells_make_column(b: Board, k: int)
    requires
        well_shaped(b),
        all_cells_fit(b),
        0 <= k < 9,
    ensures
        is_digit_permutation(column_values(b, k)),
{
    let s = column_values(b, k);
    assert forall|i: int| 0 <= i < s.len() implies 1 <= #[trigger] s[i] <= 9 by {
        assert(in_grid(i, k));
        assert(s[i] == cell(b, i, k));
    }
    assert forall|i: int, j: int| 0 <= i < s.len() && 0 <= j < s.len() && i != j implies s[i]
        != s[j] by {
        assert(in_grid(i, k) && in_grid(j, k));
        assert(differs_from_peers(b, i, k));
        assert(cell(b, j, k) != cell(b, i, k));
    }
}

/// The cell at place `i` of box `k` lies in the grid, in that box and at that place.
proof fn lemma_cell_of_box(k: int, i: int)
    requires
        0 <= k < 9,
        0 <= i < 9,
    ensures
        in_grid(3 * (k / 3) + i / 3, 3 * (k % 3) + i % 3),
        box_of(3 * (k / 3) + i / 3, 3 * (k % 3) + i % 3) == k,
        place_in_box(3 * (k / 3) + i / 3, 3 * (k % 3) + i % 3) == i,
{
    let r = 3 * (k / 3) + i / 3;
    let c = 3 * (k % 3) + i % 3;
    assert(r / 3 == k / 3 && r % 3 == i / 3);
    assert(c / 3 == k % 3 && c % 3 == i % 3);
}

/// Where every cell holds a digit that no other cell of its row, column or box holds, the
/// values of a box are nine digits without repetition.
proof fn lemma_fitting_cells_make_box(b: Board, k: int)
    requires
        well_shaped(b),
        all_cells_fit(b),
        0 <= k < 9,
    ensures
        is_digit_permutation(box_values(b, k)),
{
    let s = box_values(b, k);
    assert forall|i: int| 0 <= i < s.len() implies 1 <= #[trigger] s[i] <= 9 by {
        lemma_cell_of_box(k, i);
        assert(s[i] == cell(b, 3 * (k / 3) + i / 3, 3 * (k % 3) + i % 3));
    }
    assert forall|i: int, j: int| 0 <= i < s.len() && 0 <= j < s.len() && i != j implies s[i]
        != s[j] by {
        let (ri, ci) = (3 * (k / 3) + i / 3, 3 * (k % 3) + i % 3);
        let (rj, cj) = (3 * (k / 3) + j / 3, 3 * (k % 3) + j % 3);
        lemma_cell_of_box(k, i);
        lemma_cell_of_box(k, j);
        assert(s[i] == cell(b, ri, ci) && s[j] == cell(b, rj, cj));
        assert(!(ri == rj && ci == cj));
        assert(same_unit(ri, ci, rj, cj)) by {
            assert(box_of(ri, ci) == box_of(rj, cj));
            assert(ri / 3 == rj / 3 && ci / 3 == cj / 3);
        }
        assert(differs_from_peers(b, ri, ci));
        assert(cell(b, rj, cj) != cell(b, ri, ci));
    }
}

/// A board is a valid solution exactly when it has the shape of a grid and each cell holds a
/// digit that no other cell of its row, column or box holds.
pub proof fn lemma_valid_solution_by_cells(b: Board)
    ensures
        valid_solution(b) <==> well_shaped(b) && all_cells_fit(b),
{
    if valid_solution(b) {
        assert forall|r: int, c: int| in_grid(r, c) implies 1 <= #[trigger] cell(b, r, c) <= 9
            && differs_from_peers(b, r, c) by {
            lemma_valid_solution_cells_fit(b, r, c);
        }
    }
    if well_shaped(b) && all_cells_fit(b) {
        assert forall|k: int| 0 <= k < 9 implies is_digit_permutation(#[trigger] row_values(b, k)) by {
            lemma_fitting_cells_make_row(b, k);
        }
        assert forall|k: int| 0 <= k < 9 implies is_digit_permutation(
            #[trigger] column_values(b, k),
        ) by {
            lemma_fitting_cells_make_column(b, k);
        }
        assert forall|k: int| 0 <= k < 9 implies is_digit_permutation(#[trigger] box_values(b, k)) by {
            lemma_fitting_cells_make_box(b, k);
        }
    }
}

/// A sequence of different values from 1 to `bound` has `bound` places at most.
proof fn lemma_distinct_values_are_few(s: Seq<i32>, bound: int)
    requires
        0 <= bound,
        s.no_duplicates(),
        forall|i: int| 0 <= i < s.len() ==> 1 <= #[trigger] s[i] <= bound,
    ensures
        s.len() <= bound,
    decreases bound,
{
    if s.len() == 0 {
    } else if bound == 0 {
        assert(1 <= s[0] <= bound);
    } else if exists|i: int| 0 <= i < s.len() && s[i] == bound {
        let i = choose|i: int| 0 <= i < s.len() && s[i] == bound;
        let rest = s.remove(i);
        assert forall|j: int| 0 <= j < rest.len() implies 1 <= #[trigger] rest[j] <= bound - 1 by {
            if j < i {
                assert(rest[j] == s[j]);
            } else {
                assert(rest[j] == s[j + 1]);
            }
        }
        assert forall|j: int, k: int|
            0 <= j < rest.len() && 0 <= k < rest.len() && j != k implies rest[j] != rest[k] by {
            let j0 = if j < i {
                j
            } else {
                j + 1
            };
            let k0 = if k < i {
                k
            } else {
                k + 1
            };
            assert(rest[j] == s[j0] && rest[k] == s[k0]);
        }
        lemma_distinct_values_are_few(rest, bound - 1);
    } else {
        lemma_distinct_values_are_few(s, bound - 1);
    }
}

/// Nine digits without repetition are the digits 1 to 9, each at one place: the sequence
/// is a permutation of them.
pub proof fn lemma_digit_permutation_has_every_digit(s: Seq<i32>, digit: i32)
    requires
        is_digit_permutation(s),
        1 <= digit <= 9,
    ensures
        s.contains(digit),
{
    if !s.contains(digit) {
        let squeezed = Seq::new(
            9,
            |i: int|
                if s[i] > digit {
                    (s[i] - 1) as i32
                } else {
                    s[i]
                },
        );
        assert forall|i: int| 0 <= i < squeezed.len() implies 1 <= #[trigger] squeezed[i] <= 8 by {
            assert(1 <= s[i] <= 9);
            assert(s.contains(s[i]));
        }
        assert forall|i: int, j: int|
            0 <= i < squeezed.len() && 0 <= j < squeezed.len() && i != j implies squeezed[i]
            != squeezed[j] by {
            assert(s[i] != s[j]);
            assert(s.contains(s[i]) && s.contains(s[j]));
        }
        lemma_distinct_values_are_few(squeezed, 8);
    }
}

/// Once a value stands in a cell, it can be placed in no cell of the same row, column or
/// box: not in that cell again, and in no other.
pub proof fn lemma_placed_value_blocks_unit(
    b: Board,
    r1: int,
    c1: int,
    r2: int,
    c2: int,
    value: i32,
)
    requires
        well_shaped(b),
        in_grid(r1, c1),
        in_grid(r2, c2),
        same_unit(r2, c2, r1, c1),
    ensures
        !placement_allowed(set_cell(b, r1, c1, value), r2, c2, value),
{
    lemma_set_cell(b, r1, c1, value);
    assert(cell(set_cell(b, r1, c1, value), r1, c1) == value);
}

/// A grid with an empty cell is no valid solution.
pub proof fn lemma_empty_cell_is_no_solution(b: Board, row: int, col: int)
    requires
        in_grid(row, col),
        cell(b, row, col) == 0,
    ensures
        !valid_solution(b),
{
    if valid_solution(b) {
        lemma_valid_solution_by_cells(b);
        assert(1 <= cell(b, row, col));
    }
}

/// A grid that holds one value in two cells of a row, a column or a box is no valid
/// solution.
pub proof fn lemma_repeated_value_is_no_solution(b: Board, r1: int, c1: int, r2: int, c2: int)
    requires
        in_grid(r1, c1),
        in_grid(r2, c2),
        same_unit(r1, c1, r2, c2),
        !(r1 == r2 && c1 == c2),
        cell(b, r1, c1) == cell(b, r2, c2),
    ensures
        !valid_solution(b),
{
    if valid_solution(b) {
        lemma_valid_solution_by_cells(b);
        assert(differs_from_peers(b, r1, c1));
        assert(cell(b, r2, c2) != cell(b, r1, c1));
    }
}

} // verus!
