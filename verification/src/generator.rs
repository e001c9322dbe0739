//! The puzzle generator: a solved grid is made at random, and cells are emptied one by one in
//! a random order, as long as the grid keeps a unique completion.

use crate::grid::{
    board_of, cell, filled_count, in_grid, lemma_complete_iff_all_filled,
    lemma_filled_count_set_cell, lemma_set_cell, lemma_set_cell_restores, set_cell, well_shaped,
    Board, Difficulty, SudokuError, SudokuGrid,
};
use crate::random::shuffle_items;
use crate::random_solver::generate_solved_grid;
use crate::rules::{lemma_valid_solution_is_complete, valid_solution};
use crate::solver::{
    is_completion, lemma_complete_board_completes_itself, lemma_part_of_valid_is_consistent,
    lemma_valid_extension_completes,
};
use crate::uniqueness::{has_unique_completion, has_unique_solution};
use vstd::prelude::*;

verus! {

broadcast use vstd::seq_lib::group_to_multiset_ensures;

/// The 81 cells of the grid, row by row.
pub open spec fn all_positions() -> Seq<(usize, usize)> {
    Seq::new(81, |k: int| ((k / 9) as usize, (k % 9) as usize))
}

/// The sequence names each cell of the grid once, in any order.
pub open spec fn is_order_of_all_cells(order: Seq<(usize, usize)>) -> bool {
    order.to_multiset() == all_positions().to_multiset()
}

/// Every position of the sequence names a cell of the grid.
pub open spec fn positions_in_grid(order: Seq<(usize, usize)>) -> bool {
    forall|i: int| 0 <= i < order.len() ==> in_grid((#[trigger] order[i]).0 as int, order[i].1 as int)
}

/// The board that is left when the cells of `b` are visited in the given order and each is
/// emptied if the board keeps a unique completion without it, until `quota` cells have been
/// emptied or all positions have been visited.
pub open spec fn carve(b: Board, order: Seq<(usize, usize)>, quota: int) -> Board
    decreases order.len(),
{
    if order.len() == 0 || quota <= 0 {
        b
    } else {
        let emptied = set_cell(b, order[0].0 as int, order[0].1 as int, 0);
        if has_unique_completion(emptied) {
            carve(emptied, order.drop_first(), quota - 1)
        } else {
            carve(b, order.drop_first(), quota)
        }
    }
}

/// Carving keeps the shape of the board, and each cell either keeps its value or is emptied.
pub proof fn lemma_carve_empties_cells(b: Board, order: Seq<(usize, usize)>, quota: int)
    requires
        well_shaped(b),
        positions_in_grid(order),
    ensures
        well_shaped(carve(b, order, quota)),
        forall|r: int, c: int|
            in_grid(r, c) ==> #[trigger] cell(carve(b, order, quota), r, c) == 0 || cell(
                carve(b, order, quota),
                r,
                c,
            ) == cell(b, r, c),
    decreases order.len(),
{
    if order.len() == 0 || quota <= 0 {
    } else {
        let (row, col) = (order[0].0 as int, order[0].1 as int);
        let emptied = set_cell(b, row, col, 0);
        let rest = order.drop_first();
        assert(positions_in_grid(rest)) by {
            assert forall|i: int| 0 <= i < rest.len() implies in_grid(
                (#[trigger] rest[i]).0 as int,
                rest[i].1 as int,
            ) by {
                assert(rest[i] == order[i + 1]);
            }
        }
        lemma_set_cell(b, row, col, 0);
        if has_unique_completion(emptied) {
            lemma_carve_empties_cells(emptied, rest, quota - 1);
            let carved = carve(emptied, rest, quota - 1);
            assert forall|r: int, c: int| in_grid(r, c) implies #[trigger] cell(carved, r, c) == 0
                || cell(carved, r, c) == cell(b, r, c) by {
                if r == row && c == col {
                } else {
                    assert(cell(emptied, r, c) == cell(b, r, c));
                }
            }
        } else {
            lemma_carve_empties_cells(b, rest, quota);
        }
    }
}

/// Carving empties at most `quota` cells.
pub proof fn lemma_carve_keeps_count(b: Board, order: Seq<(usize, usize)>, quota: int)
    requires
        well_shaped(b),
        positions_in_grid(order),
        0 <= quota,
    ensures
        filled_count(b) - quota <= filled_count(carve(b, order, quota)) <= filled_count(b),
    decreases order.len(),
{
    if order.len() == 0 || quota <= 0 {
    } else {
        let (row, col) = (order[0].0 as int, order[0].1 as int);
        let emptied = set_cell(b, row, col, 0);
        let rest = order.drop_first();
        assert(positions_in_grid(rest)) by {
            assert forall|i: int| 0 <= i < rest.len() implies in_grid(
                (#[trigger] rest[i]).0 as int,
                rest[i].1 as int,
            ) by {
                assert(rest[i] == order[i + 1]);
            }
        }
        lemma_set_cell(b, row, col, 0);
        lemma_filled_count_set_cell(b, row, col, 0);
        if has_unique_completion(emptied) {
            lemma_carve_keeps_count(emptied, rest, quota - 1);
        } else {
            lemma_carve_keeps_count(b, rest, quota);
        }
    }
}

/// Carving a board with a unique completion leaves a board with a unique completion.
pub proof fn lemma_carve_keeps_uniqueness(b: Board, order: Seq<(usize, usize)>, quota: int)
    requires
        has_unique_completion(b),
    ensures
        has_unique_completion(carve(b, order, quota)),
    decreases order.len(),
{
    if order.len() == 0 || quota <= 0 {
    } else {
        let emptied = set_cell(b, order[0].0 as int, order[0].1 as int, 0);
        if has_unique_completion(emptied) {
            lemma_carve_keeps_uniqueness(emptied, order.drop_first(), quota - 1);
        } else {
            lemma_carve_keeps_uniqueness(b, order.drop_first(), quota);
        }
    }
}

/// A valid solution is its own and only completion.
pub proof fn lemma_valid_solution_is_unique(solved: Board)
    requires
        valid_solution(solved),
    ensures
        has_unique_completion(solved),
        filled_count(solved) == 81,
{
    lemma_valid_solution_is_complete(solved);
    lemma_complete_iff_all_filled(solved);
    lemma_complete_board_completes_itself(solved, solved);
    assert forall|other: Board| #[trigger] is_completion(solved, other) implies other
        == solved by {
        lemma_complete_board_completes_itself(solved, other);
    }
    assert(is_completion(solved, solved));
}

/// What holds of every puzzle carved out of a valid solution: it has a unique completion,
/// which is that solution; it keeps all cells but `quota` at most.
pub proof fn lemma_carved_puzzle(solved: Board, order: Seq<(usize, usize)>, quota: int)
    requires
        valid_solution(solved),
        positions_in_grid(order),
        0 <= quota,
    ensures
        has_unique_completion(carve(solved, order, quota)),
        is_completion(carve(solved, order, quota), solved),
        forall|full: Board| #[trigger]
            is_completion(carve(solved, order, quota), full) ==> full == solved,
        81 - quota <= filled_count(carve(solved, order, quota)) <= 81,
{
    let puzzle = carve(solved, order, quota);
    lemma_valid_solution_is_unique(solved);
    lemma_carve_keeps_uniqueness(solved, order, quota);
    lemma_carve_keeps_count(solved, order, quota);
    lemma_carve_empties_cells(solved, order, quota);
    lemma_part_of_valid_is_consistent(puzzle, solved);
    lemma_valid_extension_completes(puzzle, solved);
}

/// An order of all cells has 81 positions, and each of them names a cell of the grid.
pub proof fn lemma_order_of_all_cells(order: Seq<(usize, usize)>)
    requires
        is_order_of_all_cells(order),
    ensures
        order.len() == 81,
        positions_in_grid(order),
{
    let all = all_positions();
    assert(order.to_multiset().len() == order.len());
    assert(all.to_multiset().len() == all.len());
    assert forall|i: int| 0 <= i < order.len() implies in_grid(
        (#[trigger] order[i]).0 as int,
        order[i].1 as int,
    ) by {
        assert(order.contains(order[i]));
        assert(order.to_multiset().count(order[i]) > 0);
        assert(all.contains(order[i]));
        let k = choose|k: int| 0 <= k < all.len() && all[k] == order[i];
        assert(all[k] == ((k / 9) as usize, (k % 9) as usize));
    }
}

/// Visits the given cells of a copy of the grid in their order and empties each one if the
/// copy keeps a unique completion without it. Stops when `81 - cells_to_keep` cells have
/// been emptied, or when all positions have been visited, and gives the copy.
pub fn remove_cells_in_order(
    grid: &SudokuGrid,
    positions: &Vec<(usize, usize)>,
    cells_to_keep: usize,
) -> (puzzle: SudokuGrid)
    requires
        well_shaped(board_of(grid)),
        positions_in_grid(positions@),
        cells_to_keep <= 81,
    ensures
        board_of(&puzzle) == carve(board_of(grid), positions@, 81 - cells_to_keep),
        well_shaped(board_of(&puzzle)),
{
    let mut result = grid.clone();
    assert(board_of(&result) == board_of(grid));
    let to_remove = 81 - cells_to_keep;
    let mut removed: usize = 0;
    let mut i: usize = 0;
    assert(positions@.skip(0) == positions@);
    while i < positions.len() && removed < to_remove
        invariant
            well_shaped(board_of(&result)),
            positions_in_grid(positions@),
            i <= positions.len(),
            removed <= i,
            removed <= to_remove,
            to_remove == 81 - cells_to_keep,
            carve(board_of(grid), positions@, 81 - cells_to_keep) == carve(
                board_of(&result),
                positions@.skip(i as int),
                to_remove - removed,
            ),
        decreases positions.len() - i,
    {
        let (row, col) = positions[i];
        let ghost before = board_of(&result);
        proof {
            let rest = positions@.skip(i as int);
            assert(rest[0] == positions@[i as int]);
            assert(rest.drop_first() == positions@.skip(i + 1));
            assert(in_grid(positions@[i as int].0 as int, positions@[i as int].1 as int));
            assert(before.len() == 9);
            assert(before[row as int].len() == 9);
            lemma_set_cell(before, row as int, col as int, 0);
            lemma_set_cell_restores(before, row as int, col as int, 0);
        }
        let value_before = result[row][col];
        result[row][col] = 0;
        let ghost emptied = board_of(&result);
        assert(emptied == set_cell(before, row as int, col as int, 0));
        if !has_unique_solution(&result) {
            proof {
                assert(emptied.len() == 9);
                assert(emptied[row as int].len() == 9);
            }
            result[row][col] = value_before;
            assert(board_of(&result) == before);
        } else {
            removed += 1;
        }
        i += 1;
    }
    result
}

/// Makes a puzzle from a grid: visits the cells of a copy in a random order and empties each
/// one if the copy keeps a unique completion without it, until `81 - cells_to_keep` cells
/// have been emptied or every cell has been tried.
pub fn remove_numbers_from_grid(grid: &SudokuGrid, cells_to_keep: usize) -> (carved: Result<
    SudokuGrid,
    SudokuError,
>)
    requires
        well_shaped(board_of(grid)),
        cells_to_keep <= 81,
    ensures
        carved matches Ok(puzzle) && {
            &&& well_shaped(board_of(&puzzle))
            &&& exists|order: Seq<(usize, usize)>|
                is_order_of_all_cells(order) && board_of(&puzzle) == #[trigger] carve(
                    board_of(grid),
                    order,
                    81 - cells_to_keep,
                )
            &&& forall|r: int, c: int|
                in_grid(r, c) ==> #[trigger] cell(board_of(&puzzle), r, c) == 0 || cell(
                    board_of(&puzzle),
                    r,
                    c,
                ) == cell(board_of(grid), r, c)
            &&& filled_count(board_of(grid)) - (81 - cells_to_keep) <= filled_count(
                board_of(&puzzle),
            ) <= filled_count(board_of(grid))
            &&& has_unique_completion(board_of(grid)) ==> has_unique_completion(
                board_of(&puzzle),
            )
        },
{
    let mut rng = rand::thread_rng();
    let mut positions: Vec<(usize, usize)> = Vec::new();
    for row in 0..9usize
        invariant
            positions@.len() == 9 * row,
            forall|k: int|
                0 <= k < positions@.len() ==> positions@[k] == ((k / 9) as usize, (k % 9) as usize),
    {
        for col in 0..9usize
            invariant
                row < 9,
                positions@.len() == 9 * row + col,
                forall|k: int|
                    0 <= k < positions@.len() ==> positions@[k] == (
                        (k / 9) as usize,
                        (k % 9) as usize,
                    ),
        {
            positions.push((row, col));
        }
    }
    assert(positions@ == all_positions());
    shuffle_items(&mut positions, &mut rng);
    proof {
        lemma_order_of_all_cells(positions@);
        lemma_carve_empties_cells(board_of(grid), positions@, 81 - cells_to_keep);
        lemma_carve_keeps_count(board_of(grid), positions@, 81 - cells_to_keep);
        if has_unique_completion(board_of(grid)) {
            lemma_carve_keeps_uniqueness(board_of(grid), positions@, 81 - cells_to_keep);
        }
    }
    let puzzle = remove_cells_in_order(grid, &positions, cells_to_keep);
    Ok(puzzle)
}

/// Makes a puzzle of the given difficulty: a valid solution made at random, with cells
/// emptied in a random order as long as the solution stays the only completion, until the
/// number of cells that the difficulty aims at is reached or every cell has been tried.
pub fn generate_puzzle(difficulty: Difficulty) -> (made: Result<SudokuGrid, SudokuError>)
    ensures
        made matches Ok(puzzle) && {
            &&& well_shaped(board_of(&puzzle))
            &&& exists|solved: Board, order: Seq<(usize, usize)>|
                valid_solution(solved) && is_order_of_all_cells(order) && board_of(&puzzle)
                    == #[trigger] carve(solved, order, 81 - difficulty.target())
            &&& has_unique_completion(board_of(&puzzle))
            &&& forall|full: Board| #[trigger]
                is_completion(board_of(&puzzle), full) ==> valid_solution(full)
            &&& difficulty.target() <= filled_count(board_of(&puzzle)) <= 81
        },
{
    let solved_grid = match generate_solved_grid() {
        Ok(grid) => grid,
        Err(e) => {
            return Err(e);
        },
    };
    let cells_to_keep = difficulty.cells_to_keep();
    let puzzle = match remove_numbers_from_grid(&solved_grid, cells_to_keep) {
        Ok(grid) => grid,
        Err(e) => {
            return Err(e);
        },
    };
    proof {
        let solved = board_of(&solved_grid);
        let order = choose|order: Seq<(usize, usize)>|
            is_order_of_all_cells(order) && board_of(&puzzle) == #[trigger] carve(
                solved,
                order,
                81 - cells_to_keep,
            );
        lemma_order_of_all_cells(order);
        lemma_carved_puzzle(solved, order, 81 - cells_to_keep);
    }
    Ok(puzzle)
}

} // verus!
