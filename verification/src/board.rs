//! The board: a grid together with what the search needs to know about it.

use crate::grid::{
    box_has, box_of, cell, col_has, digits_in_range, filled_before, filled_count, get_box_index,
    in_bounds, is_digit, is_full, is_legal, lemma_grid_ext, lemma_with_digit, peers, row_has,
    row_major, with_digit, Grid,
};
use crate::mask::{
    digit_bit, is_digit_mask, lemma_mask_empty, lemma_mask_insert, lemma_mask_test,
    lemma_mask_union, mask_has,
};
use crate::rules::is_consistent;
use vstd::prelude::*;

verus! {

/// A grid, the digits that each row, column and box already holds, and the
/// cells that are still empty.
#[derive(Debug)]
pub struct Board {
    /// The digits placed so far.
    pub grid: Grid,
    /// For each row, the mask of the digits that it holds.
    pub row_contains: [u16; 9],
    /// For each column, the mask of the digits that it holds.
    pub col_contains: [u16; 9],
    /// For each box, the mask of the digits that it holds.
    pub box_contains: [u16; 9],
    /// The empty cells as `(row, col)`, in row-major order.
    pub empty_cells: Vec<(usize, usize)>,
}

/// `cells` lists, in row-major order and without repetition, exactly the
/// empty cells of `g`.
pub open spec fn lists_empty_cells(cells: Seq<(usize, usize)>, g: Grid) -> bool {
    &&& forall|i: int|
        0 <= i < cells.len() ==> {
            let p = #[trigger] cells[i];
            in_bounds(p.0 as int, p.1 as int) && cell(g, p.0 as int, p.1 as int) == 0
        }
    &&& forall|i: int, j: int|
        0 <= i < j < cells.len() ==> row_major(
            (#[trigger] cells[i]).0 as int,
            cells[i].1 as int,
        ) < row_major((#[trigger] cells[j]).0 as int, cells[j].1 as int)
    &&& forall|r: int, c: int|
        in_bounds(r, c) && #[trigger] cell(g, r, c) == 0 ==> cells.contains(
            (r as usize, c as usize),
        )
}

/// `moves` lists, in ascending order and without repetition, exactly the
/// digits that are legal at `(row, col)` of `g`.
pub open spec fn lists_legal_digits(moves: Seq<u8>, g: Grid, row: int, col: int) -> bool {
    &&& forall|i: int|
        0 <= i < moves.len() ==> is_digit((#[trigger] moves[i]) as int) && is_legal(
            g,
            row,
            col,
            moves[i] as int,
        )
    &&& forall|i: int, j: int| 0 <= i < j < moves.len() ==> #[trigger] moves[i] < #[trigger] moves[j]
    &&& forall|d: u8|
        is_digit(d as int) && is_legal(g, row, col, d as int) ==> #[trigger] moves.contains(d)
}

/// `cells` lists, in row-major order and without repetition, exactly the
/// empty cells among the first `n` cells of `g`.
spec fn lists_empty_cells_before(cells: Seq<(usize, usize)>, g: Grid, n: int) -> bool {
    &&& forall|i: int|
        0 <= i < cells.len() ==> {
            let p = #[trigger] cells[i];
            in_bounds(p.0 as int, p.1 as int) && row_major(p.0 as int, p.1 as int) < n && cell(
                g,
                p.0 as int,
                p.1 as int,
            ) == 0
        }
    &&& forall|i: int, j: int|
        0 <= i < j < cells.len() ==> row_major(
            (#[trigger] cells[i]).0 as int,
            cells[i].1 as int,
        ) < row_major((#[trigger] cells[j]).0 as int, cells[j].1 as int)
    &&& forall|r: int, c: int|
        in_bounds(r, c) && row_major(r, c) < n && #[trigger] cell(g, r, c) == 0 ==> cells.contains(
            (r as usize, c as usize),
        )
}

/// `moves` lists, in ascending order and without repetition, exactly the
/// digits below `bound` that are legal at `(row, col)` of `g`.
spec fn lists_legal_digits_below(moves: Seq<u8>, g: Grid, row: int, col: int, bound: int) -> bool {
    &&& forall|i: int|
        0 <= i < moves.len() ==> is_digit((#[trigger] moves[i]) as int) && moves[i] < bound
            && is_legal(g, row, col, moves[i] as int)
    &&& forall|i: int, j: int| 0 <= i < j < moves.len() ==> #[trigger] moves[i] < #[trigger] moves[j]
    &&& forall|d: u8|
        is_digit(d as int) && d < bound && is_legal(g, row, col, d as int) ==> #[trigger] moves.contains(
            d,
        )
}

/// One of the first `n` cells of `g` lies in row `row` and holds `d`.
spec fn row_has_before(g: Grid, row: int, d: int, n: int) -> bool {
    exists|c: int| 0 <= c < 9 && row_major(row, c) < n && #[trigger] cell(g, row, c) == d
}

/// One of the first `n` cells of `g` lies in column `col` and holds `d`.
spec fn col_has_before(g: Grid, col: int, d: int, n: int) -> bool {
    exists|r: int| 0 <= r < 9 && row_major(r, col) < n && #[trigger] cell(g, r, col) == d
}

/// One of the first `n` cells of `g` lies in box `b` and holds `d`.
spec fn box_has_before(g: Grid, b: int, d: int, n: int) -> bool {
    exists|r: int, c: int|
        in_bounds(r, c) && box_of(r, c) == b && row_major(r, c) < n && #[trigger] cell(g, r, c)
            == d
}

impl Clone for Board {
    /// A second board that is equal to this one in every field.
    fn clone(&self) -> (copy: Self)
        ensures
            copy.grid == self.grid,
            copy.row_contains == self.row_contains,
            copy.col_contains == self.col_contains,
            copy.box_contains == self.box_contains,
            copy.empty_cells@ == self.empty_cells@,
    {
        let mut empty_cells: Vec<(usize, usize)> = Vec::with_capacity(self.empty_cells.len());
        for i in 0..self.empty_cells.len()
            invariant
                empty_cells@ == self.empty_cells@.take(i as int),
        {
            empty_cells.push(self.empty_cells[i]);
        }
        Board {
            grid: self.grid,
            row_contains: self.row_contains,
            col_contains: self.col_contains,
            box_contains: self.box_contains,
            empty_cells,
        }
    }
}

impl Board {
    /// The masks and the list of empty cells describe the first `n` cells
    /// of the grid, in row-major order, and nothing beyond them.
    spec fn describes_first(&self, n: int) -> bool {
        &&& digits_in_range(self.grid)
        &&& forall|k: int|
            0 <= k < 9 ==> is_digit_mask(#[trigger] self.row_contains[k]) && is_digit_mask(
                self.col_contains[k],
            ) && is_digit_mask(self.box_contains[k])
        &&& forall|k: int, d: int|
            0 <= k < 9 && is_digit(d) ==> (#[trigger] mask_has(self.row_contains[k], d)
                <==> row_has_before(self.grid, k, d, n))
        &&& forall|k: int, d: int|
            0 <= k < 9 && is_digit(d) ==> (#[trigger] mask_has(self.col_contains[k], d)
                <==> col_has_before(self.grid, k, d, n))
        &&& forall|k: int, d: int|
            0 <= k < 9 && is_digit(d) ==> (#[trigger] mask_has(self.box_contains[k], d)
                <==> box_has_before(self.grid, k, d, n))
        &&& lists_empty_cells_before(self.empty_cells@, self.grid, n)
        &&& self.empty_cells@.len() + filled_before(self.grid, n as nat) == n
    }

    /// The board's invariant. Every cell holds `0` or a digit; each mask
    /// holds exactly the digits that its row, column or box holds, and no
    /// other bit; `empty_cells` lists exactly the empty cells, in row-major
    /// order, so that it is as long as the grid has empty cells.
    pub open spec fn wf(&self) -> bool {
        &&& digits_in_range(self.grid)
        &&& forall|k: int|
            0 <= k < 9 ==> is_digit_mask(#[trigger] self.row_contains[k]) && is_digit_mask(
                self.col_contains[k],
            ) && is_digit_mask(self.box_contains[k])
        &&& forall|k: int, d: int|
            0 <= k < 9 && is_digit(d) ==> (#[trigger] mask_has(self.row_contains[k], d) <==> row_has(
                self.grid,
                k,
                d,
            ))
        &&& forall|k: int, d: int|
            0 <= k < 9 && is_digit(d) ==> (#[trigger] mask_has(self.col_contains[k], d) <==> col_has(
                self.grid,
                k,
                d,
            ))
        &&& forall|k: int, d: int|
            0 <= k < 9 && is_digit(d) ==> (#[trigger] mask_has(self.box_contains[k], d) <==> box_has(
                self.grid,
                k,
                d,
            ))
        &&& lists_empty_cells(self.empty_cells@, self.grid)
        &&& self.empty_cells@.len() + filled_count(self.grid) == 81
    }

    /// Builds the board of `grid`: scans the cells in row-major order,
    /// lists the empty ones and records each placed digit in the masks of
    /// its row, column and box.
    pub fn new(grid: Grid) -> (board: Board)
        requires
            digits_in_range(grid),
        ensures
            board.wf(),
            board.grid == grid,
            is_full(grid) ==> board.empty_cells@.len() == 0,
    {
        let mut board = Board {
            grid,
            row_contains: [0; 9],
            col_contains: [0; 9],
            box_contains: [0; 9],
            empty_cells: Vec::new(),
        };
        proof {
            lemma_describes_nothing(board);
        }
        for row in 0..9usize
            invariant
                board.grid == grid,
                board.describes_first(row * 9),
        {
            for col in 0..9usize
                invariant
                    row < 9,
                    board.grid == grid,
                    board.describes_first(row * 9 + col),
            {
                let ghost before = board;
                match board.grid[row][col] {
                    0 => {
                        board.empty_cells.push((row, col));
                        proof {
                            lemma_describes_empty(before, board, row as int, col as int);
                        }
                    },
                    value => {
                        assert(value == cell(grid, row as int, col as int));
                        let bit: u16 = 1 << (value - 1);
                        board.row_contains[row] |= bit;
                        board.col_contains[col] |= bit;
                        board.box_contains[get_box_index(row, col)] |= bit;
                        proof {
                            lemma_describes_digit(before, board, row as int, col as int);
                        }
                    },
                }
            }
        }
        proof {
            lemma_describes_all(board);
            if is_full(grid) && board.empty_cells@.len() > 0 {
                let p = board.empty_cells@[0];
                assert(is_digit(cell(grid, p.0 as int, p.1 as int)));
            }
        }
        board
    }

    /// The digits that may be placed at `(row, col)`: those that occur
    /// neither in its row nor in its column nor in its box, in ascending
    /// order. The cell need not be empty.
    pub fn valid_moves(&self, row: usize, col: usize) -> (moves: Vec<u8>)
        requires
            self.wf(),
            in_bounds(row as int, col as int),
        ensures
            lists_legal_digits(moves@, self.grid, row as int, col as int),
    {
        let invalid_moves: u16 = self.row_contains[row] | self.col_contains[col]
            | self.box_contains[get_box_index(row, col)];
        let mut moves: Vec<u8> = Vec::new();
        for value in 1..10u8
            invariant
                self.wf(),
                in_bounds(row as int, col as int),
                invalid_moves == self.row_contains[row as int] | self.col_contains[col as int]
                    | self.box_contains[box_of(row as int, col as int)],
                lists_legal_digits_below(moves@, self.grid, row as int, col as int, value as int),
        {
            let bit: u16 = 1 << (value - 1);
            proof {
                let d = value as int;
                lemma_mask_union(
                    self.row_contains[row as int],
                    self.col_contains[col as int],
                    self.box_contains[box_of(row as int, col as int)],
                    d,
                );
                assert(mask_has(self.row_contains[row as int], d) <==> row_has(
                    self.grid,
                    row as int,
                    d,
                ));
                assert(mask_has(self.col_contains[col as int], d) <==> col_has(
                    self.grid,
                    col as int,
                    d,
                ));
                assert(mask_has(self.box_contains[box_of(row as int, col as int)], d) <==> box_has(
                    self.grid,
                    box_of(row as int, col as int),
                    d,
                ));
                lemma_mask_test(invalid_moves, d);
            }
            let ghost before = moves@;
            if bit & invalid_moves == 0 {
                moves.push(value);
            }
            proof {
                lemma_legal_digits_step(before, moves@, self.grid, row as int, col as int, value);
            }
        }
        moves
    }

    /// The board after `value` is placed at `(row, col)`, which must be the
    /// last of the empty cells. This board stays as it is. The digit is not
    /// held against the masks: placing a legal digit is up to the caller.
    pub fn make_move(&self, row: usize, col: usize, value: u8) -> (next: Board)
        requires
            self.wf(),
            is_digit(value as int),
            self.empty_cells@.len() > 0,
            self.empty_cells@.last() == (row, col),
        ensures
            next.wf(),
            next.grid == with_digit(self.grid, row as int, col as int, value),
            next.empty_cells@ == self.empty_cells@.drop_last(),
            next.row_contains@ == self.row_contains@.update(
                row as int,
                self.row_contains[row as int] | digit_bit(value as int),
            ),
            next.col_contains@ == self.col_contains@.update(
                col as int,
                self.col_contains[col as int] | digit_bit(value as int),
            ),
            next.box_contains@ == self.box_contains@.update(
                box_of(row as int, col as int),
                self.box_contains[box_of(row as int, col as int)] | digit_bit(value as int),
            ),
            is_consistent(self.grid) && is_legal(self.grid, row as int, col as int, value as int)
                ==> is_consistent(next.grid),
    {
        proof {
            let last = self.empty_cells@.len() - 1;
            assert(self.empty_cells@[last] == (row, col));
        }
        let bit: u16 = 1 << (value - 1);
        let mut new_board = self.clone();
        new_board.grid[row][col] = value;
        new_board.row_contains[row] |= bit;
        new_board.col_contains[col] |= bit;
        new_board.box_contains[get_box_index(row, col)] |= bit;
        new_board.empty_cells.pop();
        proof {
            lemma_grid_ext_with_digit(self.grid, new_board.grid, row as int, col as int, value);
            lemma_move_keeps_wf(*self, new_board, row as int, col as int, value);
            if is_consistent(self.grid) && is_legal(
                self.grid,
                row as int,
                col as int,
                value as int,
            ) {
                lemma_legal_move_keeps_consistent(self.grid, row as int, col as int, value);
            }
        }
        new_board
    }
}

/// A board with empty masks and no listed cell describes no cell at all.
proof fn lemma_describes_nothing(b: Board)
    requires
        digits_in_range(b.grid),
        forall|k: int| 0 <= k < 9 ==> b.row_contains[k] == 0,
        forall|k: int| 0 <= k < 9 ==> b.col_contains[k] == 0,
        forall|k: int| 0 <= k < 9 ==> b.box_contains[k] == 0,
        b.empty_cells@.len() == 0,
    ensures
        b.describes_first(0),
{
    assert forall|d: int| is_digit(d) implies !#[trigger] mask_has(0, d) by {
        lemma_mask_empty(d);
    }
    lemma_mask_empty(1);
}

/// Scanning an empty cell: it joins the end of the list.
proof fn lemma_describes_empty(old: Board, new: Board, row: int, col: int)
    requires
        in_bounds(row, col),
        old.describes_first(row_major(row, col)),
        cell(old.grid, row, col) == 0,
        new.grid == old.grid,
        new.row_contains == old.row_contains,
        new.col_contains == old.col_contains,
        new.box_contains == old.box_contains,
        new.empty_cells@ == old.empty_cells@.push((row as usize, col as usize)),
    ensures
        new.describes_first(row_major(row, col) + 1),
{
    let n = row_major(row, col);
    let g = old.grid;
    assert((n + 1) as nat - 1 == n);
    assert(n / 9 == row && n % 9 == col);
    assert forall|k: int, d: int| 0 <= k < 9 && is_digit(d) implies (row_has_before(g, k, d, n + 1)
        <==> row_has_before(g, k, d, n)) by {
        if row_has_before(g, k, d, n + 1) {
            let c = choose|c: int| 0 <= c < 9 && row_major(k, c) < n + 1 && cell(g, k, c) == d;
            assert(row_major(k, c) < n);
        }
    }
    assert forall|k: int, d: int| 0 <= k < 9 && is_digit(d) implies (col_has_before(g, k, d, n + 1)
        <==> col_has_before(g, k, d, n)) by {
        if col_has_before(g, k, d, n + 1) {
            let r = choose|r: int| 0 <= r < 9 && row_major(r, k) < n + 1 && cell(g, r, k) == d;
            assert(row_major(r, k) < n);
        }
    }
    assert forall|k: int, d: int| 0 <= k < 9 && is_digit(d) implies (box_has_before(g, k, d, n + 1)
        <==> box_has_before(g, k, d, n)) by {
        if box_has_before(g, k, d, n + 1) {
            let (r, c) = choose|r: int, c: int|
                in_bounds(r, c) && box_of(r, c) == k && row_major(r, c) < n + 1 && cell(g, r, c)
                    == d;
            assert(row_major(r, c) < n);
        }
    }
    let cells = new.empty_cells@;
    let last = old.empty_cells@.len() as int;
    assert(cells[last] == (row as usize, col as usize));
    assert forall|r: int, c: int|
        in_bounds(r, c) && row_major(r, c) < n + 1 && #[trigger] cell(g, r, c) == 0 implies cells.contains(
        (r as usize, c as usize),
    ) by {
        if row_major(r, c) < n {
            assert(old.empty_cells@.contains((r as usize, c as usize)));
            let i = choose|i: int|
                0 <= i < old.empty_cells@.len() && old.empty_cells@[i] == (r as usize, c as usize);
            assert(cells[i] == (r as usize, c as usize));
        } else {
            assert(r == row && c == col);
        }
    }
}

/// Scanning a placed digit: it joins the masks of its row, column and box.
proof fn lemma_describes_digit(old: Board, new: Board, row: int, col: int)
    requires
        in_bounds(row, col),
        old.describes_first(row_major(row, col)),
        cell(old.grid, row, col) != 0,
        new.grid == old.grid,
        new.empty_cells == old.empty_cells,
        new.row_contains@ == old.row_contains@.update(
            row,
            old.row_contains[row] | digit_bit(cell(old.grid, row, col)),
        ),
        new.col_contains@ == old.col_contains@.update(
            col,
            old.col_contains[col] | digit_bit(cell(old.grid, row, col)),
        ),
        new.box_contains@ == old.box_contains@.update(
            box_of(row, col),
            old.box_contains[box_of(row, col)] | digit_bit(cell(old.grid, row, col)),
        ),
    ensures
        new.describes_first(row_major(row, col) + 1),
{
    let n = row_major(row, col);
    let g = old.grid;
    let v = cell(g, row, col);
    let b = box_of(row, col);
    assert((n + 1) as nat - 1 == n);
    assert(n / 9 == row && n % 9 == col);
    assert(is_digit(v));
    assert forall|k: int|
        0 <= k < 9 implies is_digit_mask(#[trigger] new.row_contains[k]) && is_digit_mask(
        new.col_contains[k],
    ) && is_digit_mask(new.box_contains[k]) by {
        assert(is_digit_mask(old.row_contains[k]));
        lemma_mask_insert(old.row_contains[k], v, v);
        lemma_mask_insert(old.col_contains[k], v, v);
        lemma_mask_insert(old.box_contains[k], v, v);
    }
    assert forall|k: int, d: int| 0 <= k < 9 && is_digit(d) implies (#[trigger] mask_has(
        new.row_contains[k],
        d,
    ) <==> row_has_before(g, k, d, n + 1)) by {
        lemma_mask_insert(old.row_contains[k], v, d);
        assert(mask_has(old.row_contains[k], d) <==> row_has_before(g, k, d, n));
        if row_has_before(g, k, d, n + 1) {
            let c = choose|c: int| 0 <= c < 9 && row_major(k, c) < n + 1 && cell(g, k, c) == d;
            if row_major(k, c) == n {
                assert(k == row && c == col);
            }
        }
        if k == row && d == v {
            assert(cell(g, row, col) == d);
        }
    }
    assert forall|k: int, d: int| 0 <= k < 9 && is_digit(d) implies (#[trigger] mask_has(
        new.col_contains[k],
        d,
    ) <==> col_has_before(g, k, d, n + 1)) by {
        lemma_mask_insert(old.col_contains[k], v, d);
        assert(mask_has(old.col_contains[k], d) <==> col_has_before(g, k, d, n));
        if col_has_before(g, k, d, n + 1) {
            let r = choose|r: int| 0 <= r < 9 && row_major(r, k) < n + 1 && cell(g, r, k) == d;
            if row_major(r, k) == n {
                assert(r == row && k == col);
            }
        }
        if k == col && d == v {
            assert(cell(g, row, col) == d);
        }
    }
    assert forall|k: int, d: int| 0 <= k < 9 && is_digit(d) implies (#[trigger] mask_has(
        new.box_contains[k],
        d,
    ) <==> box_has_before(g, k, d, n + 1)) by {
        lemma_mask_insert(old.box_contains[k], v, d);
        assert(mask_has(old.box_contains[k], d) <==> box_has_before(g, k, d, n));
        if box_has_before(g, k, d, n + 1) {
            let (r, c) = choose|r: int, c: int|
                in_bounds(r, c) && box_of(r, c) == k && row_major(r, c) < n + 1 && cell(g, r, c)
                    == d;
            if row_major(r, c) == n {
                assert(r == row && c == col);
            }
        }
        if k == b && d == v {
            assert(cell(g, row, col) == d);
        }
    }
    assert forall|r: int, c: int|
        in_bounds(r, c) && row_major(r, c) < n + 1 && #[trigger] cell(g, r, c) == 0 implies new.empty_cells@.contains(
        (r as usize, c as usize),
    ) by {
        assert(row_major(r, c) < n);
    }
}

/// A board that describes all 81 cells is well formed.
proof fn lemma_describes_all(b: Board)
    requires
        b.describes_first(81),
    ensures
        b.wf(),
{
    let g = b.grid;
    assert forall|k: int, d: int| 0 <= k < 9 && is_digit(d) implies (row_has_before(g, k, d, 81)
        <==> row_has(g, k, d)) by {
        if row_has(g, k, d) {
            let c = choose|c: int| 0 <= c < 9 && cell(g, k, c) == d;
            assert(row_major(k, c) < 81);
        }
    }
    assert forall|k: int, d: int| 0 <= k < 9 && is_digit(d) implies (col_has_before(g, k, d, 81)
        <==> col_has(g, k, d)) by {
        if col_has(g, k, d) {
            let r = choose|r: int| 0 <= r < 9 && cell(g, r, k) == d;
            assert(row_major(r, k) < 81);
        }
    }
    assert forall|k: int, d: int| 0 <= k < 9 && is_digit(d) implies (box_has_before(g, k, d, 81)
        <==> box_has(g, k, d)) by {
        if box_has(g, k, d) {
            let (r, c) = choose|r: int, c: int|
                in_bounds(r, c) && box_of(r, c) == k && cell(g, r, c) == d;
            assert(row_major(r, c) < 81);
        }
    }
}

/// Going from the digits below `value` to those below `value + 1`: the
/// list grows by `value` if it is legal and stays as it is if not.
proof fn lemma_legal_digits_step(
    before: Seq<u8>,
    after: Seq<u8>,
    g: Grid,
    row: int,
    col: int,
    value: u8,
)
    requires
        is_digit(value as int),
        lists_legal_digits_below(before, g, row, col, value as int),
        after == if is_legal(g, row, col, value as int) {
            before.push(value)
        } else {
            before
        },
    ensures
        lists_legal_digits_below(after, g, row, col, value + 1),
{
    assert forall|d: u8|
        is_digit(d as int) && d < value + 1 && is_legal(
            g,
            row,
            col,
            d as int,
        ) implies #[trigger] after.contains(d) by {
        if d < value {
            assert(before.contains(d));
            let i = choose|i: int| 0 <= i < before.len() && before[i] == d;
            assert(after[i] == d);
        } else {
            assert(after[before.len() as int] == value);
        }
    }
}

/// A grid that was changed in one cell is the grid before with that digit set.
proof fn lemma_grid_ext_with_digit(old: Grid, new: Grid, row: int, col: int, value: u8)
    requires
        in_bounds(row, col),
        new@ == old@.update(row, new[row]),
        new[row]@ == old[row]@.update(col, value),
    ensures
        new == with_digit(old, row, col, value),
{
    let w = with_digit(old, row, col, value);
    lemma_with_digit(old, row, col, value);
    assert forall|r: int, c: int| in_bounds(r, c) implies #[trigger] cell(new, r, c) == cell(
        w,
        r,
        c,
    ) by {
        if r == row && c == col {
        } else {
            assert(cell(w, r, c) == cell(old, r, c));
        }
    }
    lemma_grid_ext(new, w);
}

/// Placing a legal digit in a grid without contradiction leaves it without
/// contradiction.
pub proof fn lemma_legal_move_keeps_consistent(g: Grid, row: int, col: int, value: u8)
    requires
        in_bounds(row, col),
        is_consistent(g),
        is_legal(g, row, col, value as int),
    ensures
        is_consistent(with_digit(g, row, col, value)),
{
    let w = with_digit(g, row, col, value);
    lemma_with_digit(g, row, col, value);
    assert forall|r1: int, c1: int, r2: int, c2: int|
        peers(r1, c1, r2, c2) && cell(w, r1, c1) != 0 implies #[trigger] cell(w, r1, c1)
        != #[trigger] cell(w, r2, c2) by {
        if r1 == row && c1 == col {
            assert(cell(w, r2, c2) == cell(g, r2, c2));
            if cell(g, r2, c2) == value {
                if r2 == row {
                    assert(row_has(g, row, value as int));
                } else if c2 == col {
                    assert(col_has(g, col, value as int));
                } else {
                    assert(box_has(g, box_of(row, col), value as int));
                }
            }
        } else if r2 == row && c2 == col {
            assert(cell(w, r1, c1) == cell(g, r1, c1));
            if cell(g, r1, c1) == value {
                if r1 == row {
                    assert(row_has(g, row, value as int));
                } else if c1 == col {
                    assert(col_has(g, col, value as int));
                } else {
                    assert(box_has(g, box_of(row, col), value as int));
                }
            }
        } else {
            assert(cell(w, r1, c1) == cell(g, r1, c1));
            assert(cell(w, r2, c2) == cell(g, r2, c2));
        }
    }
}

/// Filling an empty cell raises the number of filled cells by one.
proof fn lemma_filled_after_move(g: Grid, row: int, col: int, value: u8, n: nat)
    requires
        in_bounds(row, col),
        cell(g, row, col) == 0,
        value != 0,
        n <= 81,
    ensures
        filled_before(with_digit(g, row, col, value), n) == filled_before(g, n) + if row_major(
            row,
            col,
        ) < n {
            1nat
        } else {
            0nat
        },
    decreases n,
{
    if n > 0 {
        let k = (n - 1) as int;
        lemma_filled_after_move(g, row, col, value, (n - 1) as nat);
        lemma_with_digit(g, row, col, value);
        let w = with_digit(g, row, col, value);
        if k == row_major(row, col) {
            assert(k / 9 == row && k % 9 == col);
        } else {
            assert(in_bounds(k / 9, k % 9));
            assert(k / 9 != row || k % 9 != col);
            assert(cell(w, k / 9, k % 9) == cell(g, k / 9, k % 9));
        }
    }
}

/// Placing a digit in the last empty cell, setting its bit in the three
/// masks and dropping the cell from the list keeps a board well formed.
proof fn lemma_move_keeps_wf(old: Board, new: Board, row: int, col: int, value: u8)
    requires
        old.wf(),
        in_bounds(row, col),
        is_digit(value as int),
        old.empty_cells@.len() > 0,
        old.empty_cells@.last() == (row as usize, col as usize),
        new.grid == with_digit(old.grid, row, col, value),
        new.empty_cells@ == old.empty_cells@.drop_last(),
        new.row_contains@ == old.row_contains@.update(
            row,
            old.row_contains[row] | digit_bit(value as int),
        ),
        new.col_contains@ == old.col_contains@.update(
            col,
            old.col_contains[col] | digit_bit(value as int),
        ),
        new.box_contains@ == old.box_contains@.update(
            box_of(row, col),
            old.box_contains[box_of(row, col)] | digit_bit(value as int),
        ),
    ensures
        new.wf(),
{
    let g = old.grid;
    let w = new.grid;
    let v = value as int;
    let b = box_of(row, col);
    let last = old.empty_cells@.len() - 1;
    lemma_with_digit(g, row, col, value);
    assert(old.empty_cells@[last] == (row as usize, col as usize));
    assert(cell(g, row, col) == 0);
    assert(cell(w, row, col) == v);
    assert forall|r: int, c: int| in_bounds(r, c) implies #[trigger] cell(w, r, c) <= 9 by {
        if r == row && c == col {
        } else {
            assert(cell(w, r, c) == cell(g, r, c));
        }
    }
    assert forall|k: int|
        0 <= k < 9 implies is_digit_mask(#[trigger] new.row_contains[k]) && is_digit_mask(
        new.col_contains[k],
    ) && is_digit_mask(new.box_contains[k]) by {
        assert(is_digit_mask(old.row_contains[k]));
        lemma_mask_insert(old.row_contains[k], v, v);
        lemma_mask_insert(old.col_contains[k], v, v);
        lemma_mask_insert(old.box_contains[k], v, v);
    }
    assert forall|k: int, d: int| 0 <= k < 9 && is_digit(d) implies (#[trigger] mask_has(
        new.row_contains[k],
        d,
    ) <==> row_has(w, k, d)) by {
        lemma_mask_insert(old.row_contains[k], v, d);
        assert(mask_has(old.row_contains[k], d) <==> row_has(g, k, d));
        if row_has(g, k, d) {
            let c = choose|c: int| 0 <= c < 9 && cell(g, k, c) == d;
            assert(cell(w, k, c) == d);
        }
        if row_has(w, k, d) {
            let c = choose|c: int| 0 <= c < 9 && cell(w, k, c) == d;
            if !(k == row && c == col) {
                assert(cell(g, k, c) == d);
            }
        }
        if k == row && d == v {
            assert(cell(w, row, col) == d);
        }
    }
    assert forall|k: int, d: int| 0 <= k < 9 && is_digit(d) implies (#[trigger] mask_has(
        new.col_contains[k],
        d,
    ) <==> col_has(w, k, d)) by {
        lemma_mask_insert(old.col_contains[k], v, d);
        assert(mask_has(old.col_contains[k], d) <==> col_has(g, k, d));
        if col_has(g, k, d) {
            let r = choose|r: int| 0 <= r < 9 && cell(g, r, k) == d;
            assert(cell(w, r, k) == d);
        }
        if col_has(w, k, d) {
            let r = choose|r: int| 0 <= r < 9 && cell(w, r, k) == d;
            if !(r == row && k == col) {
                assert(cell(g, r, k) == d);
            }
        }
        if k == col && d == v {
            assert(cell(w, row, col) == d);
        }
    }
    assert forall|k: int, d: int| 0 <= k < 9 && is_digit(d) implies (#[trigger] mask_has(
        new.box_contains[k],
        d,
    ) <==> box_has(w, k, d)) by {
        lemma_mask_insert(old.box_contains[k], v, d);
        assert(mask_has(old.box_contains[k], d) <==> box_has(g, k, d));
        if box_has(g, k, d) {
            let (r, c) = choose|r: int, c: int|
                in_bounds(r, c) && box_of(r, c) == k && cell(g, r, c) == d;
            assert(cell(w, r, c) == d);
        }
        if box_has(w, k, d) {
            let (r, c) = choose|r: int, c: int|
                in_bounds(r, c) && box_of(r, c) == k && cell(w, r, c) == d;
            if !(r == row && c == col) {
                assert(cell(g, r, c) == d);
            }
        }
        if k == b && d == v {
            assert(cell(w, row, col) == d);
        }
    }
    let cells = new.empty_cells@;
    assert forall|i: int| 0 <= i < cells.len() implies {
        let p = #[trigger] cells[i];
        in_bounds(p.0 as int, p.1 as int) && cell(w, p.0 as int, p.1 as int) == 0
    } by {
        let p = old.empty_cells@[i];
        assert(cells[i] == p);
        assert(row_major(p.0 as int, p.1 as int) < row_major(
            old.empty_cells@[last].0 as int,
            old.empty_cells@[last].1 as int,
        ));
        assert(cell(w, p.0 as int, p.1 as int) == cell(g, p.0 as int, p.1 as int));
    }
    assert forall|i: int, j: int| 0 <= i < j < cells.len() implies row_major(
        (#[trigger] cells[i]).0 as int,
        cells[i].1 as int,
    ) < row_major((#[trigger] cells[j]).0 as int, cells[j].1 as int) by {
        assert(cells[i] == old.empty_cells@[i]);
        assert(cells[j] == old.empty_cells@[j]);
    }
    assert forall|r: int, c: int|
        in_bounds(r, c) && #[trigger] cell(w, r, c) == 0 implies cells.contains(
        (r as usize, c as usize),
    ) by {
        assert(r != row || c != col);
        assert(cell(g, r, c) == 0);
        assert(old.empty_cells@.contains((r as usize, c as usize)));
        let i = choose|i: int|
            0 <= i < old.empty_cells@.len() && old.empty_cells@[i] == (r as usize, c as usize);
        assert(i != last);
        assert(cells[i] == (r as usize, c as usize));
    }
    lemma_filled_after_move(g, row, col, value, 81);
}

} // verus!
