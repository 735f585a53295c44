//! What it means to solve a puzzle: solutions, completions, and the order
//! in which the search meets them.

use crate::grid::{box_of, cell, in_bounds, is_digit, peers, row_major, Grid};
use vstd::prelude::*;

verus! {

/// Row `row` holds `d` in exactly one cell.
pub open spec fn row_has_once(g: Grid, row: int, d: int) -> bool {
    exists|c: int|
        0 <= c < 9 && #[trigger] cell(g, row, c) == d && forall|c2: int|
            0 <= c2 < 9 && #[trigger] cell(g, row, c2) == d ==> c2 == c
}

/// Column `col` holds `d` in exactly one cell.
pub open spec fn col_has_once(g: Grid, col: int, d: int) -> bool {
    exists|r: int|
        0 <= r < 9 && #[trigger] cell(g, r, col) == d && forall|r2: int|
            0 <= r2 < 9 && #[trigger] cell(g, r2, col) == d ==> r2 == r
}

/// Box `b` holds `d` in exactly one cell.
pub open spec fn box_has_once(g: Grid, b: int, d: int) -> bool {
    exists|r: int, c: int|
        in_bounds(r, c) && box_of(r, c) == b && #[trigger] cell(g, r, c) == d && forall|
            r2: int,
            c2: int,
        |
            in_bounds(r2, c2) && box_of(r2, c2) == b && #[trigger] cell(g, r2, c2) == d ==> r2 == r
                && c2 == c
}

/// The rule of Sudoku: every cell holds a digit, and every row, every
/// column and every box holds each of the digits 1 to 9 exactly once.
pub open spec fn is_solution(g: Grid) -> bool {
    &&& forall|r: int, c: int| in_bounds(r, c) ==> is_digit(#[trigger] cell(g, r, c))
    &&& forall|k: int, d: int| 0 <= k < 9 && is_digit(d) ==> #[trigger] row_has_once(g, k, d)
    &&& forall|k: int, d: int| 0 <= k < 9 && is_digit(d) ==> #[trigger] col_has_once(g, k, d)
    &&& forall|k: int, d: int| 0 <= k < 9 && is_digit(d) ==> #[trigger] box_has_once(g, k, d)
}

/// Some grid solves `puzzle`.
pub open spec fn has_solution(puzzle: Grid) -> bool {
    exists|g: Grid| solves(puzzle, g)
}

/// Every digit that `puzzle` gives stands in `g` at the same place.
pub open spec fn keeps_givens(puzzle: Grid, g: Grid) -> bool {
    forall|r: int, c: int|
        in_bounds(r, c) && cell(puzzle, r, c) != 0 ==> #[trigger] cell(g, r, c) == cell(
            puzzle,
            r,
            c,
        )
}

/// No two peers hold the same digit: the digits that `g` gives do not
/// contradict each other. Empty cells are left aside.
pub open spec fn is_consistent(g: Grid) -> bool {
    forall|r1: int, c1: int, r2: int, c2: int|
        peers(r1, c1, r2, c2) && cell(g, r1, c1) != 0 ==> #[trigger] cell(g, r1, c1)
            != #[trigger] cell(g, r2, c2)
}

/// Row `row` of `puzzle` gives the same digit in two of its cells, at the
/// columns `c1` and `c2`.
pub open spec fn gives_twice_in_row(puzzle: Grid, row: int, c1: int, c2: int) -> bool {
    &&& 0 <= row < 9
    &&& 0 <= c1 < 9
    &&& 0 <= c2 < 9
    &&& c1 != c2
    &&& cell(puzzle, row, c1) != 0
    &&& cell(puzzle, row, c1) == cell(puzzle, row, c2)
}

/// No row of `puzzle` but `row` gives a digit twice, and no column does.
pub open spec fn consistent_apart_from_row(puzzle: Grid, row: int) -> bool {
    &&& forall|r: int, ca: int, cb: int|
        0 <= r < 9 && r != row && 0 <= ca < 9 && 0 <= cb < 9 && ca != cb && cell(puzzle, r, ca)
            != 0 ==> #[trigger] cell(puzzle, r, ca) != #[trigger] cell(puzzle, r, cb)
    &&& forall|c: int, ra: int, rb: int|
        0 <= c < 9 && 0 <= ra < 9 && 0 <= rb < 9 && ra != rb && cell(puzzle, ra, c) != 0
            ==> #[trigger] cell(puzzle, ra, c) != #[trigger] cell(puzzle, rb, c)
}

/// `g` solves `puzzle`: it obeys the rule of Sudoku and keeps the givens.
pub open spec fn solves(puzzle: Grid, g: Grid) -> bool {
    is_solution(g) && keeps_givens(puzzle, g)
}

/// `g` completes `puzzle`: it keeps the given digits, holds a digit in every
/// cell, and the digit in a cell that `puzzle` left empty differs from the
/// digit of each of its peers. Two given digits are not held against each
/// other: that is `is_consistent`.
pub open spec fn is_completion(puzzle: Grid, g: Grid) -> bool {
    &&& forall|r: int, c: int| in_bounds(r, c) ==> is_digit(#[trigger] cell(g, r, c))
    &&& keeps_givens(puzzle, g)
    &&& forall|r1: int, c1: int, r2: int, c2: int|
        peers(r1, c1, r2, c2) && cell(puzzle, r1, c1) == 0 ==> #[trigger] cell(g, r1, c1)
            != #[trigger] cell(g, r2, c2)
}

/// Some grid completes `puzzle`.
pub open spec fn has_completion(puzzle: Grid) -> bool {
    exists|g: Grid| is_completion(puzzle, g)
}

/// `a` and `b` hold the same digit in every cell that comes after
/// `(row, col)` in row-major order.
pub open spec fn agree_after(a: Grid, b: Grid, row: int, col: int) -> bool {
    forall|r: int, c: int|
        in_bounds(r, c) && row_major(r, c) > row_major(row, col) ==> #[trigger] cell(a, r, c)
            == cell(b, r, c)
}

/// The order of the search. It fills the last empty cell first and tries
/// the digits in ascending order, so of two grids it meets first the one
/// that holds the smaller digit in the last cell in which they differ.
pub open spec fn comes_before(a: Grid, b: Grid) -> bool {
    exists|r: int, c: int|
        in_bounds(r, c) && #[trigger] cell(a, r, c) < cell(b, r, c) && agree_after(a, b, r, c)
}

/// `g` is the completion of `puzzle` that the search meets first.
pub open spec fn is_first_completion(puzzle: Grid, g: Grid) -> bool {
    &&& is_completion(puzzle, g)
    &&& forall|h: Grid| #[trigger] is_completion(puzzle, h) ==> h == g || comes_before(g, h)
}

} // verus!
