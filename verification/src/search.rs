//! The search: depth first, last empty cell first, digits in ascending order.

use crate::board::{lists_empty_cells, lists_legal_digits, Board};
use crate::grid::{
    box_has, box_of, cell, col_has, digits_in_range, in_bounds, is_digit, is_full, is_legal,
    lemma_with_digit, peers, row_has, row_major, with_digit, Grid,
};
use crate::rules::{
    agree_after, comes_before, has_completion, has_solution, is_completion, is_consistent,
    is_first_completion, is_solution, keeps_givens,
};
use crate::theorems::{
    lemma_completion_is_solution, lemma_full_grid_completes_itself,
    lemma_no_completion_no_solution, lemma_solved_puzzle_is_consistent,
};
use vstd::prelude::*;

verus! {

/// A completion of the puzzle with `d` placed in an empty cell completes
/// the puzzle itself, if `d` was legal there.
pub proof fn lemma_completion_after_move(puzzle: Grid, row: int, col: int, d: u8, g: Grid)
    requires
        in_bounds(row, col),
        cell(puzzle, row, col) == 0,
        is_digit(d as int),
        is_legal(puzzle, row, col, d as int),
        is_completion(with_digit(puzzle, row, col, d), g),
    ensures
        is_completion(puzzle, g),
        cell(g, row, col) == d,
{
    let next = with_digit(puzzle, row, col, d);
    lemma_with_digit(puzzle, row, col, d);
    assert(cell(next, row, col) == d);
    assert(cell(g, row, col) == d);
    assert forall|r: int, c: int| in_bounds(r, c) && cell(puzzle, r, c) != 0 implies #[trigger] cell(
        g,
        r,
        c,
    ) == cell(puzzle, r, c) by {
        assert(cell(next, r, c) == cell(puzzle, r, c));
    }
    assert forall|r1: int, c1: int, r2: int, c2: int|
        peers(r1, c1, r2, c2) && cell(puzzle, r1, c1) == 0 implies #[trigger] cell(g, r1, c1)
        != #[trigger] cell(g, r2, c2) by {
        if r1 == row && c1 == col {
            if cell(next, r2, c2) == 0 {
                assert(peers(r2, c2, r1, c1));
                assert(cell(g, r2, c2) != cell(g, r1, c1));
            } else {
                assert(cell(next, r2, c2) == cell(puzzle, r2, c2));
                assert(cell(g, r2, c2) == cell(puzzle, r2, c2));
                // a peer of the cell holds no digit that is legal for it
                if cell(puzzle, r2, c2) == d {
                    if r2 == row {
                        assert(row_has(puzzle, row, d as int));
                    } else if c2 == col {
                        assert(col_has(puzzle, col, d as int));
                    } else {
                        assert(box_has(puzzle, box_of(row, col), d as int));
                    }
                }
            }
        } else {
            assert(cell(next, r1, c1) == 0);
        }
    }
}

/// A completion of the puzzle that holds `d` in an empty cell completes the
/// puzzle with `d` placed there.
pub proof fn lemma_completion_before_move(puzzle: Grid, row: int, col: int, d: u8, g: Grid)
    requires
        in_bounds(row, col),
        cell(puzzle, row, col) == 0,
        is_completion(puzzle, g),
        cell(g, row, col) == d,
    ensures
        is_completion(with_digit(puzzle, row, col, d), g),
{
    let next = with_digit(puzzle, row, col, d);
    lemma_with_digit(puzzle, row, col, d);
    assert forall|r: int, c: int| in_bounds(r, c) && cell(next, r, c) != 0 implies #[trigger] cell(
        g,
        r,
        c,
    ) == cell(next, r, c) by {
        if r == row && c == col {
        } else {
            assert(cell(next, r, c) == cell(puzzle, r, c));
        }
    }
    assert forall|r1: int, c1: int, r2: int, c2: int|
        peers(r1, c1, r2, c2) && cell(next, r1, c1) == 0 implies #[trigger] cell(g, r1, c1)
        != #[trigger] cell(g, r2, c2) by {
        assert(r1 != row || c1 != col);
        assert(cell(next, r1, c1) == cell(puzzle, r1, c1));
    }
}

/// No completion holds, in a cell that the puzzle left empty, a digit that
/// is not legal there.
pub proof fn lemma_completion_is_legal(puzzle: Grid, row: int, col: int, g: Grid)
    requires
        in_bounds(row, col),
        cell(puzzle, row, col) == 0,
        is_completion(puzzle, g),
    ensures
        is_digit(cell(g, row, col)),
        is_legal(puzzle, row, col, cell(g, row, col)),
{
    let d = cell(g, row, col);
    if row_has(puzzle, row, d) {
        let c = choose|c: int| 0 <= c < 9 && cell(puzzle, row, c) == d;
        assert(peers(row, col, row, c));
        assert(cell(g, row, c) == cell(puzzle, row, c));
        assert(cell(g, row, col) != cell(g, row, c));
    }
    if col_has(puzzle, col, d) {
        let r = choose|r: int| 0 <= r < 9 && cell(puzzle, r, col) == d;
        assert(peers(row, col, r, col));
        assert(cell(g, r, col) == cell(puzzle, r, col));
        assert(cell(g, row, col) != cell(g, r, col));
    }
    if box_has(puzzle, box_of(row, col), d) {
        let (r, c) = choose|r: int, c: int|
            in_bounds(r, c) && box_of(r, c) == box_of(row, col) && cell(puzzle, r, c) == d;
        assert(peers(row, col, r, c));
        assert(cell(g, r, c) == cell(puzzle, r, c));
        assert(cell(g, row, col) != cell(g, r, c));
    }
}

/// Among the completions of `puzzle`, whose last empty cell is `(row, col)`,
/// the first of those that hold `d` there comes before every one that holds
/// a larger digit there.
proof fn lemma_smaller_digit_comes_first(puzzle: Grid, row: int, col: int, g: Grid, h: Grid)
    requires
        in_bounds(row, col),
        cell(puzzle, row, col) == 0,
        forall|r: int, c: int|
            in_bounds(r, c) && row_major(r, c) > row_major(row, col) ==> #[trigger] cell(
                puzzle,
                r,
                c,
            ) != 0,
        is_completion(puzzle, g),
        is_completion(puzzle, h),
        cell(g, row, col) < cell(h, row, col),
    ensures
        comes_before(g, h),
{
    assert forall|r: int, c: int|
        in_bounds(r, c) && row_major(r, c) > row_major(row, col) implies #[trigger] cell(g, r, c)
        == cell(h, r, c) by {
        assert(cell(puzzle, r, c) != 0);
        assert(cell(h, r, c) == cell(puzzle, r, c));
    }
    assert(agree_after(g, h, row, col));
}

/// The last of the listed empty cells is the last empty cell of the grid.
proof fn lemma_last_empty_cell(cells: Seq<(usize, usize)>, g: Grid)
    requires
        lists_empty_cells(cells, g),
        cells.len() > 0,
    ensures
        in_bounds(cells.last().0 as int, cells.last().1 as int),
        cell(g, cells.last().0 as int, cells.last().1 as int) == 0,
        forall|r: int, c: int|
            in_bounds(r, c) && row_major(r, c) > row_major(
                cells.last().0 as int,
                cells.last().1 as int,
            ) ==> #[trigger] cell(g, r, c) != 0,
{
    let last = cells.len() - 1;
    assert(cells[last] == cells.last());
    assert forall|r: int, c: int|
        in_bounds(r, c) && row_major(r, c) > row_major(
            cells.last().0 as int,
            cells.last().1 as int,
        ) implies #[trigger] cell(g, r, c) != 0 by {
        if cell(g, r, c) == 0 {
            assert(cells.contains((r as usize, c as usize)));
            let i = choose|i: int| 0 <= i < cells.len() && cells[i] == (r as usize, c as usize);
            if i < last {
                assert(row_major(cells[i].0 as int, cells[i].1 as int) < row_major(
                    cells[last].0 as int,
                    cells[last].1 as int,
                ));
            }
        }
    }
}

/// A grid whose list of empty cells is empty is full.
proof fn lemma_no_empty_cell(cells: Seq<(usize, usize)>, g: Grid)
    requires
        lists_empty_cells(cells, g),
        digits_in_range(g),
        cells.len() == 0,
    ensures
        is_full(g),
{
    assert forall|r: int, c: int| in_bounds(r, c) implies is_digit(#[trigger] cell(g, r, c)) by {
        if cell(g, r, c) == 0 {
            assert(cells.contains((r as usize, c as usize)));
        }
    }
}

/// What the search has found out about `(row, col)`, the last empty cell of
/// `puzzle`, once it has tried the first `tried` of the legal digits
/// `moves` in vain: no completion holds one of them there.
spec fn tried_in_vain(puzzle: Grid, row: int, col: int, moves: Seq<u8>, tried: int) -> bool {
    forall|h: Grid, j: int|
        0 <= j < tried && #[trigger] is_completion(puzzle, h) ==> cell(h, row, col)
            != #[trigger] moves[j]
}

/// Searches for a completion of the board's grid: takes the last empty cell,
/// tries each of its legal digits in ascending order, and goes on from the
/// board with that digit placed. The first completion that it meets is
/// returned; `None` says that there is none.
pub fn solve_recursive(board: Board) -> (result: Option<Board>)
    requires
        board.wf(),
    ensures
        match result {
            Some(solved) => {
                &&& solved.wf()
                &&& solved.empty_cells@.len() == 0
                &&& is_first_completion(board.grid, solved.grid)
            },
            None => !has_completion(board.grid),
        },
        board.empty_cells@.len() == 0 ==> result == Some(board),
    decreases board.empty_cells@.len(),
{
    match board.empty_cells.last() {
        None => {
            proof {
                lemma_no_empty_cell(board.empty_cells@, board.grid);
                lemma_full_grid_completes_itself(board.grid);
            }
            Some(board)
        },
        Some(cell_ref) => {
            let row: usize = cell_ref.0;
            let col: usize = cell_ref.1;
            proof {
                lemma_last_empty_cell(board.empty_cells@, board.grid);
            }
            let moves = board.valid_moves(row, col);
            let mut i: usize = 0;
            while i < moves.len()
                invariant
                    board.wf(),
                    board.empty_cells@.len() > 0,
                    board.empty_cells@.last() == (row, col),
                    in_bounds(row as int, col as int),
                    cell(board.grid, row as int, col as int) == 0,
                    forall|r: int, c: int|
                        in_bounds(r, c) && row_major(r, c) > row_major(row as int, col as int)
                            ==> #[trigger] cell(board.grid, r, c) != 0,
                    lists_legal_digits(moves@, board.grid, row as int, col as int),
                    0 <= i <= moves.len(),
                    tried_in_vain(board.grid, row as int, col as int, moves@, i as int),
                decreases moves.len() - i,
            {
                let value: u8 = moves[i];
                let next = board.make_move(row, col, value);
                match solve_recursive(next) {
                    Some(solved) => {
                        proof {
                            lemma_with_digit(board.grid, row as int, col as int, value);
                            lemma_found(
                                board.grid,
                                row as int,
                                col as int,
                                moves@,
                                i as int,
                                solved.grid,
                            );
                        }
                        return Some(solved);
                    },
                    None => {
                        proof {
                            lemma_not_found(board.grid, row as int, col as int, moves@, i as int);
                        }
                    },
                }
                i = i + 1;
            }
            proof {
                lemma_exhausted(board.grid, row as int, col as int, moves@);
            }
            None
        },
    }
}

/// The search went on with the `i`-th legal digit and found the first
/// completion from there: it is the first completion of the puzzle.
proof fn lemma_found(puzzle: Grid, row: int, col: int, moves: Seq<u8>, i: int, g: Grid)
    requires
        in_bounds(row, col),
        cell(puzzle, row, col) == 0,
        forall|r: int, c: int|
            in_bounds(r, c) && row_major(r, c) > row_major(row, col) ==> #[trigger] cell(
                puzzle,
                r,
                c,
            ) != 0,
        lists_legal_digits(moves, puzzle, row, col),
        0 <= i < moves.len(),
        tried_in_vain(puzzle, row, col, moves, i),
        is_first_completion(with_digit(puzzle, row, col, moves[i]), g),
    ensures
        is_first_completion(puzzle, g),
{
    let d = moves[i];
    lemma_completion_after_move(puzzle, row, col, d, g);
    assert forall|h: Grid| #[trigger] is_completion(puzzle, h) implies h == g || comes_before(
        g,
        h,
    ) by {
        lemma_completion_is_legal(puzzle, row, col, h);
        let e = cell(h, row, col);
        assert(moves.contains(e as u8));
        let j = choose|j: int| 0 <= j < moves.len() && moves[j] == e as u8;
        if j < i {
            assert(cell(h, row, col) != moves[j]);
        } else if j == i {
            lemma_completion_before_move(puzzle, row, col, d, h);
        } else {
            assert(moves[i] < moves[j]);
            lemma_smaller_digit_comes_first(puzzle, row, col, g, h);
        }
    }
}

/// The search went on with the `i`-th legal digit and found nothing: no
/// completion of the puzzle holds that digit in the cell.
proof fn lemma_not_found(puzzle: Grid, row: int, col: int, moves: Seq<u8>, i: int)
    requires
        in_bounds(row, col),
        cell(puzzle, row, col) == 0,
        0 <= i < moves.len(),
        tried_in_vain(puzzle, row, col, moves, i),
        !has_completion(with_digit(puzzle, row, col, moves[i])),
    ensures
        tried_in_vain(puzzle, row, col, moves, i + 1),
{
    assert forall|h: Grid, j: int|
        0 <= j < i + 1 && #[trigger] is_completion(puzzle, h) implies cell(h, row, col)
        != #[trigger] moves[j] by {
        if j == i && cell(h, row, col) == moves[i] {
            lemma_completion_before_move(puzzle, row, col, moves[i], h);
            assert(is_completion(with_digit(puzzle, row, col, moves[i]), h));
        }
    }
}

/// Every legal digit was tried in vain: the puzzle has no completion.
proof fn lemma_exhausted(puzzle: Grid, row: int, col: int, moves: Seq<u8>)
    requires
        in_bounds(row, col),
        cell(puzzle, row, col) == 0,
        lists_legal_digits(moves, puzzle, row, col),
        tried_in_vain(puzzle, row, col, moves, moves.len() as int),
    ensures
        !has_completion(puzzle),
{
    assert forall|h: Grid| !is_completion(puzzle, h) by {
        if is_completion(puzzle, h) {
            lemma_completion_is_legal(puzzle, row, col, h);
            let e = cell(h, row, col);
            assert(moves.contains(e as u8));
            let j = choose|j: int| 0 <= j < moves.len() && moves[j] == e as u8;
            assert(cell(h, row, col) != moves[j]);
        }
    }
}

/// Solves the puzzle `grid`: returns its first completion in the order of
/// the search, or `None` if it has none.
pub fn solve(grid: Grid) -> (result: Option<Grid>)
    requires
        digits_in_range(grid),
    ensures
        match result {
            Some(solved) => {
                &&& is_first_completion(grid, solved)
                &&& keeps_givens(grid, solved)
                &&& is_solution(solved) <==> is_consistent(grid)
            },
            None => !has_completion(grid) && !has_solution(grid),
        },
        is_consistent(grid) ==> (result is Some <==> has_solution(grid)),
        is_full(grid) ==> result == Some(grid),
{
    let board = Board::new(grid);
    proof {
        if is_full(grid) && board.empty_cells@.len() > 0 {
            lemma_last_empty_cell(board.empty_cells@, grid);
            let last = board.empty_cells@.last();
            assert(is_digit(cell(grid, last.0 as int, last.1 as int)));
        }
    }
    match solve_recursive(board) {
        Some(solved) => {
            proof {
                if is_consistent(grid) {
                    lemma_completion_is_solution(grid, solved.grid);
                }
                if is_solution(solved.grid) {
                    lemma_solved_puzzle_is_consistent(grid, solved.grid);
                }
            }
            Some(solved.grid)
        },
        None => {
            proof {
                lemma_no_completion_no_solution(grid);
            }
            None
        },
    }
}

} // verus!
