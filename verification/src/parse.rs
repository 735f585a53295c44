//! Reading a grid from its one-line text form.

use crate::grid::{cell, digits_in_range, in_bounds, row_major, Grid};
use vstd::prelude::*;

verus! {

/// The digit that a character of the text form stands for: `'1'` to `'9'`
/// stand for themselves, every other character for an empty cell.
pub open spec fn digit_of_char(c: char) -> int {
    if '1' <= c && c <= '9' {
        c as int - '0' as int
    } else {
        0
    }
}

/// What the text `input` says of the cell at row-major position `k`: the
/// digit of its `k`-th character, or empty where the text is too short.
pub open spec fn parsed_cell(input: Seq<char>, k: int) -> int {
    if 0 <= k < input.len() {
        digit_of_char(input[k])
    } else {
        0
    }
}

/// Reads a grid from a line of up to 81 characters, which give the cells in
/// row-major order. A character from `'1'` to `'9'` is that digit; any
/// other character, by convention `'.'`, is an empty cell. Cells beyond the
/// end of the line are empty.
pub fn parse_grid(input: &str) -> (grid: Grid)
    requires
        input@.len() <= 81,
    ensures
        forall|r: int, c: int|
            in_bounds(r, c) ==> #[trigger] cell(grid, r, c) == parsed_cell(
                input@,
                row_major(r, c),
            ),
        digits_in_range(grid),
{
    let mut grid: Grid = [[0; 9]; 9];
    let mut i: usize = 0;
    for c in chars: input.chars()
        invariant
            i == chars.index(),
            chars.seq() == input@,
            input@.len() <= 81,
            forall|r: int, c: int|
                in_bounds(r, c) ==> #[trigger] cell(grid, r, c) == if row_major(r, c) < i {
                    parsed_cell(input@, row_major(r, c))
                } else {
                    0
                },
    {
        let row = i / 9;
        let col = i % 9;
        let ghost before = grid;
        grid[row][col] = match c {
            '1'..='9' => (c as u32 - '0' as u32) as u8,
            _ => 0,
        };
        proof {
            assert(c == input@[i as int]);
            assert forall|r: int, c: int| in_bounds(r, c) implies #[trigger] cell(grid, r, c)
                == if row_major(r, c) < i + 1 {
                parsed_cell(input@, row_major(r, c))
            } else {
                0
            } by {
                if r == row && c == col {
                } else {
                    assert(cell(grid, r, c) == cell(before, r, c));
                }
            }
        }
        i = i + 1;
    }
    grid
}

} // verus!
