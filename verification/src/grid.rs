//! The 9×9 grid, its cells, and the three kinds of unit (row, column, box).

use vstd::array::spec_array_update;
use vstd::prelude::*;

verus! {

/// A 9×9 grid of digits, indexed by row and then by column. `0` marks an
/// empty cell; `1..=9` are placed digits.
pub type Grid = [[u8; 9]; 9];

/// Whether `(row, col)` names a cell of the grid.
pub open spec fn in_bounds(row: int, col: int) -> bool {
    0 <= row < 9 && 0 <= col < 9
}

/// Whether `d` is a digit that can be placed in a cell.
pub open spec fn is_digit(d: int) -> bool {
    1 <= d <= 9
}

/// The digit held by the cell `(row, col)`, `0` if the cell is empty.
pub open spec fn cell(g: Grid, row: int, col: int) -> int {
    g[row][col] as int
}

/// The box that holds the cell `(row, col)`; boxes are numbered row by row.
pub open spec fn box_of(row: int, col: int) -> int {
    (row / 3) * 3 + col / 3
}

/// The position of the cell `(row, col)` when the grid is read row by row.
pub open spec fn row_major(row: int, col: int) -> int {
    row * 9 + col
}

/// Every cell holds `0` or a digit.
pub open spec fn digits_in_range(g: Grid) -> bool {
    forall|r: int, c: int| in_bounds(r, c) ==> #[trigger] cell(g, r, c) <= 9
}

/// No cell is empty, and every cell holds a digit.
pub open spec fn is_full(g: Grid) -> bool {
    forall|r: int, c: int| in_bounds(r, c) ==> is_digit(#[trigger] cell(g, r, c))
}

/// Some cell of row `row` holds `d`.
pub open spec fn row_has(g: Grid, row: int, d: int) -> bool {
    exists|c: int| 0 <= c < 9 && #[trigger] cell(g, row, c) == d
}

/// Some cell of column `col` holds `d`.
pub open spec fn col_has(g: Grid, col: int, d: int) -> bool {
    exists|r: int| 0 <= r < 9 && #[trigger] cell(g, r, col) == d
}

/// Some cell of box `b` holds `d`.
pub open spec fn box_has(g: Grid, b: int, d: int) -> bool {
    exists|r: int, c: int| in_bounds(r, c) && box_of(r, c) == b && #[trigger] cell(g, r, c) == d
}

/// Two different cells that share a row, a column or a box.
pub open spec fn peers(r1: int, c1: int, r2: int, c2: int) -> bool {
    &&& in_bounds(r1, c1)
    &&& in_bounds(r2, c2)
    &&& (r1 != r2 || c1 != c2)
    &&& (r1 == r2 || c1 == c2 || box_of(r1, c1) == box_of(r2, c2))
}

/// `d` occurs nowhere in the row, the column or the box of `(row, col)`.
/// This looks at the three units only, not at whether the cell itself is
/// empty: a digit that the cell already holds is not legal for it.
pub open spec fn is_legal(g: Grid, row: int, col: int, d: int) -> bool {
    &&& !row_has(g, row, d)
    &&& !col_has(g, col, d)
    &&& !box_has(g, box_of(row, col), d)
}

/// The grid `g` with the cell `(row, col)` set to `d`.
pub open spec fn with_digit(g: Grid, row: int, col: int, d: u8) -> Grid {
    spec_array_update(g, row, spec_array_update(g[row], col, d))
}

/// The number of non-empty cells among the first `n` cells in row-major order.
pub open spec fn filled_before(g: Grid, n: nat) -> nat
    decreases n,
{
    if n == 0 {
        0
    } else {
        let k = (n - 1) as int;
        filled_before(g, (n - 1) as nat) + if cell(g, k / 9, k % 9) != 0 {
            1nat
        } else {
            0nat
        }
    }
}

/// The number of non-empty cells of the grid.
pub open spec fn filled_count(g: Grid) -> nat {
    filled_before(g, 81)
}

/// The index of the 3×3 box that contains the cell `(row, col)`.
#[inline]
pub fn get_box_index(row: usize, col: usize) -> (index: usize)
    requires
        in_bounds(row as int, col as int),
    ensures
        index == box_of(row as int, col as int),
        index < 9,
{
    (row / 3) * 3 + (col / 3)
}

/// Two grids that hold the same digit in every cell are the same grid.
pub proof fn lemma_grid_ext(a: Grid, b: Grid)
    requires
        forall|r: int, c: int| in_bounds(r, c) ==> #[trigger] cell(a, r, c) == cell(b, r, c),
    ensures
        a == b,
{
    assert forall|r: int| 0 <= r < 9 implies a[r] == b[r] by {
        assert forall|c: int| 0 <= c < 9 implies a[r][c] == b[r][c] by {
            assert(cell(a, r, c) == cell(b, r, c));
        }
        assert(a[r] =~= b[r]);
    }
    assert(a =~= b);
}

/// Setting one cell changes that cell and no other.
pub proof fn lemma_with_digit(g: Grid, row: int, col: int, d: u8)
    requires
        in_bounds(row, col),
    ensures
        cell(with_digit(g, row, col, d), row, col) == d,
        forall|r: int, c: int|
            in_bounds(r, c) && (r != row || c != col) ==> #[trigger] cell(
                with_digit(g, row, col, d),
                r,
                c,
            ) == cell(g, r, c),
{
}

} // verus!
