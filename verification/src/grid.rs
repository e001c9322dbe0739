//! The grid model: the executable types and their mathematical view.

use vstd::prelude::*;

verus! {

/// A Sudoku grid: nine rows of nine cells, `0` for an empty cell and `1` to `9` for a digit.
pub type SudokuGrid = Vec<Vec<i32>>;

/// The mathematical view of a grid: a sequence of rows, each a sequence of cells.
pub type Board = Seq<Seq<i32>>;

/// How many cells a generated puzzle is meant to keep.
#[derive(Clone, Copy, Debug, PartialEq, Eq)]
pub enum Difficulty {
    Easy,
    Medium,
    Hard,
}

/// One cell of a grid together with the digit that belongs there.
#[derive(Clone, Copy, Debug, PartialEq, Eq)]
pub struct HintResponse {
    pub row: usize,
    pub col: usize,
    pub value: i32,
}

/// Why an operation on a grid gave no result.
#[derive(Clone, Copy, Debug, PartialEq, Eq)]
pub enum SudokuError {
    /// The search for a fully solved grid ran out of branches.
    GenerationFailure,
    /// A hint was asked for a grid that has no empty cell.
    NoEmptyCells,
    /// The grid cannot be completed.
    UnsolvableInput,
}

impl SudokuError {
    /// The text shown to a user for this error.
    pub fn message(&self) -> (text: String)
        ensures
            text@ == (match *self {
                SudokuError::GenerationFailure => "Failed to generate a solved grid"@,
                SudokuError::NoEmptyCells => "No empty cells found"@,
                SudokuError::UnsolvableInput => "Couldn't solve the puzzle"@,
            }),
    {
        match self {
            SudokuError::GenerationFailure => "Failed to generate a solved grid".to_string(),
            SudokuError::NoEmptyCells => "No empty cells found".to_string(),
            SudokuError::UnsolvableInput => "Couldn't solve the puzzle".to_string(),
        }
    }
}

impl Difficulty {
    /// The number of cells that a puzzle of this difficulty aims to keep.
    pub open spec fn target(self) -> int {
        match self {
            Difficulty::Easy => 51,
            Difficulty::Medium => 36,
            Difficulty::Hard => 26,
        }
    }

    /// The number of cells that a puzzle of this difficulty aims to keep.
    pub fn cells_to_keep(&self) -> (kept: usize)
        ensures
            kept == self.target(),
    {
        match self {
            Difficulty::Easy => 51,
            Difficulty::Medium => 36,
            Difficulty::Hard => 26,
        }
    }
}

/// The board that a grid stands for.
pub open spec fn board_of(grid: &SudokuGrid) -> Board {
    Seq::new(grid@.len(), |r: int| grid@[r]@)
}

/// Nine rows of nine cells.
pub open spec fn well_shaped(b: Board) -> bool {
    b.len() == 9 && forall|r: int| 0 <= r < 9 ==> (#[trigger] b[r]).len() == 9
}

/// `(row, col)` names a cell of the grid.
pub open spec fn in_grid(row: int, col: int) -> bool {
    0 <= row < 9 && 0 <= col < 9
}

/// The content of the cell at `(row, col)`.
pub open spec fn cell(b: Board, row: int, col: int) -> i32 {
    b[row][col]
}

/// The board `b` with `value` written into the cell at `(row, col)`.
pub open spec fn set_cell(b: Board, row: int, col: int, value: i32) -> Board {
    b.update(row, b[row].update(col, value))
}

/// The two cells share a row, a column or a 3x3 box.
pub open spec fn same_unit(r1: int, c1: int, r2: int, c2: int) -> bool {
    r1 == r2 || c1 == c2 || (r1 / 3 == r2 / 3 && c1 / 3 == c2 / 3)
}

/// `(r1, c1)` comes before `(r2, c2)` when the cells are read row by row.
pub open spec fn earlier(r1: int, c1: int, r2: int, c2: int) -> bool {
    r1 < r2 || (r1 == r2 && c1 < c2)
}

/// No cell of the board is empty.
pub open spec fn complete(b: Board) -> bool {
    forall|r: int, c: int| 0 <= r < b.len() && 0 <= c < b[r].len() ==> #[trigger] cell(b, r, c) != 0
}

/// The two boards hold the same value in every cell.
pub open spec fn same_cells(a: Board, b: Board) -> bool {
    forall|r: int, c: int| in_grid(r, c) ==> #[trigger] cell(a, r, c) == cell(b, r, c)
}

/// The content of the `k`-th cell, counting from 0 and reading row by row.
pub open spec fn cell_at(b: Board, k: int) -> i32 {
    cell(b, k / 9, k % 9)
}

/// The number of filled cells among the first `k` cells, read row by row.
pub open spec fn filled_upto(b: Board, k: int) -> int
    decreases k,
{
    if k <= 0 {
        0
    } else {
        filled_upto(b, k - 1) + if cell_at(b, k - 1) != 0 {
            1int
        } else {
            0int
        }
    }
}

/// The number of filled cells of the board.
pub open spec fn filled_count(b: Board) -> int {
    filled_upto(b, 81)
}

/// Two well-shaped boards with the same cells are the same board.
pub proof fn lemma_same_cells_equal(a: Board, b: Board)
    requires
        well_shaped(a),
        well_shaped(b),
        same_cells(a, b),
    ensures
        a == b,
{
    assert forall|r: int| 0 <= r < 9 implies a[r] == b[r] by {
        assert forall|c: int| 0 <= c < 9 implies a[r][c] == b[r][c] by {
            assert(cell(a, r, c) == cell(b, r, c));
        }
        assert(a[r] =~= b[r]);
    }
    assert(a =~= b);
}

/// What writing one cell does to the board: that cell changes, the shape and all other cells stay.
pub proof fn lemma_set_cell(b: Board, row: int, col: int, value: i32)
    requires
        well_shaped(b),
        in_grid(row, col),
    ensures
        well_shaped(set_cell(b, row, col, value)),
        cell(set_cell(b, row, col, value), row, col) == value,
        forall|r: int, c: int|
            in_grid(r, c) && !(r == row && c == col) ==> #[trigger] cell(
                set_cell(b, row, col, value),
                r,
                c,
            ) == cell(b, r, c),
{
    let s = set_cell(b, row, col, value);
    assert forall|r: int| 0 <= r < 9 implies (#[trigger] s[r]).len() == 9 by {
        assert(b[r].len() == 9);
    }
}

/// Writing back the value that a cell had gives the board that was there before.
pub proof fn lemma_set_cell_restores(b: Board, row: int, col: int, value: i32)
    requires
        well_shaped(b),
        in_grid(row, col),
    ensures
        set_cell(set_cell(b, row, col, value), row, col, cell(b, row, col)) == b,
{
    let s = set_cell(b, row, col, value);
    let t = set_cell(s, row, col, cell(b, row, col));
    lemma_set_cell(b, row, col, value);
    lemma_set_cell(s, row, col, cell(b, row, col));
    assert(same_cells(t, b)) by {
        assert forall|r: int, c: int| in_grid(r, c) implies #[trigger] cell(t, r, c) == cell(
            b,
            r,
            c,
        ) by {
            if r == row && c == col {
            } else {
                assert(cell(t, r, c) == cell(s, r, c));
                assert(cell(s, r, c) == cell(b, r, c));
            }
        }
    }
    lemma_same_cells_equal(t, b);
}

/// Among the first `k` cells there are between 0 and `k` filled ones.
pub proof fn lemma_filled_upto_bounds(b: Board, k: int)
    requires
        0 <= k,
    ensures
        0 <= filled_upto(b, k) <= k,
    decreases k,
{
    if k > 0 {
        lemma_filled_upto_bounds(b, k - 1);
    }
}

/// A board has between 0 and 81 filled cells.
pub proof fn lemma_filled_count_bounds(b: Board)
    ensures
        0 <= filled_count(b) <= 81,
{
    lemma_filled_upto_bounds(b, 81);
}

/// How the count over the first `k` cells changes when the cell at `(row, col)` is written.
pub proof fn lemma_filled_upto_set_cell(b: Board, row: int, col: int, value: i32, k: int)
    requires
        well_shaped(b),
        in_grid(row, col),
        0 <= k <= 81,
    ensures
        filled_upto(set_cell(b, row, col, value), k) == filled_upto(b, k) + if 9 * row + col < k {
            (if value != 0 {
                1int
            } else {
                0int
            }) - (if cell(b, row, col) != 0 {
                1int
            } else {
                0int
            })
        } else {
            0int
        },
    decreases k,
{
    if k > 0 {
        lemma_filled_upto_set_cell(b, row, col, value, k - 1);
        lemma_set_cell(b, row, col, value);
        let r = (k - 1) / 9;
        let c = (k - 1) % 9;
        assert(in_grid(r, c));
        if r == row && c == col {
            assert(9 * row + col == k - 1);
        } else {
            assert(9 * row + col != k - 1);
            assert(cell(set_cell(b, row, col, value), r, c) == cell(b, r, c));
        }
    }
}

/// Filling an empty cell adds one to the number of filled cells; emptying a filled one takes
/// one away; any other write leaves the number as it was.
pub proof fn lemma_filled_count_set_cell(b: Board, row: int, col: int, value: i32)
    requires
        well_shaped(b),
        in_grid(row, col),
    ensures
        filled_count(set_cell(b, row, col, value)) == filled_count(b) + (if value != 0 {
            1int
        } else {
            0int
        }) - (if cell(b, row, col) != 0 {
            1int
        } else {
            0int
        }),
{
    lemma_filled_upto_set_cell(b, row, col, value, 81);
}

/// Exactly the complete boards have 81 filled cells.
pub proof fn lemma_complete_iff_all_filled(b: Board)
    requires
        well_shaped(b),
    ensures
        complete(b) <==> filled_count(b) == 81,
{
    lemma_filled_upto_all(b, 81);
    if filled_count(b) == 81 {
        assert forall|r: int, c: int|
            0 <= r < b.len() && 0 <= c < b[r].len() implies #[trigger] cell(b, r, c) != 0 by {
            let j = 9 * r + c;
            assert(j / 9 == r && j % 9 == c);
            assert(cell_at(b, j) != 0);
        }
    } else {
        let j = choose|j: int| 0 <= j < 81 && cell_at(b, j) == 0;
        assert(in_grid(j / 9, j % 9));
        assert(b[j / 9].len() == 9);
        assert(cell(b, j / 9, j % 9) == 0);
    }
}

/// The first `k` cells are all filled exactly when the count over them is `k`.
proof fn lemma_filled_upto_all(b: Board, k: int)
    requires
        0 <= k,
    ensures
        filled_upto(b, k) == k <==> (forall|j: int| 0 <= j < k ==> #[trigger] cell_at(b, j) != 0),
    decreases k,
{
    if k > 0 {
        lemma_filled_upto_all(b, k - 1);
        lemma_filled_upto_bounds(b, k - 1);
        if filled_upto(b, k) == k {
            assert(cell_at(b, k - 1) != 0);
        } else {
            if filled_upto(b, k - 1) == k - 1 {
                assert(cell_at(b, k - 1) == 0);
            } else {
                let j = choose|j: int| 0 <= j < k - 1 && cell_at(b, j) == 0;
                assert(0 <= j < k);
            }
        }
    }
}

} // verus!
