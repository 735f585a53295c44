//! What holds of solutions and completions, whatever the puzzle.

use crate::grid::{
    box_of, cell, in_bounds, is_digit, is_full, lemma_grid_ext, peers, row_major, Grid,
};
use crate::rules::{
    agree_after, box_has_once, col_has_once, comes_before, consistent_apart_from_row,
    gives_twice_in_row, has_completion, has_solution, is_completion, is_consistent, is_first_completion,
    is_solution, row_has_once, solves,
};
use vstd::prelude::*;

verus! {

/// A sequence of `n` different numbers from `1` to `n` holds each of them.
proof fn lemma_permutation(s: Seq<int>)
    requires
        forall|i: int| 0 <= i < s.len() ==> 1 <= #[trigger] s[i] <= s.len(),
        forall|i: int, j: int| 0 <= i < j < s.len() ==> #[trigger] s[i] != #[trigger] s[j],
    ensures
        forall|d: int| 1 <= d <= s.len() ==> #[trigger] s.contains(d),
    decreases s.len(),
{
    let n = s.len() as int;
    if n > 0 {
        if exists|p: int| 0 <= p < n && #[trigger] s[p] == n {
            let p = choose|p: int| 0 <= p < n && #[trigger] s[p] == n;
            let t = Seq::new(
                (n - 1) as nat,
                |i: int|
                    if i < p {
                        s[i]
                    } else {
                        s[i + 1]
                    },
            );
            assert forall|i: int| 0 <= i < t.len() implies 1 <= #[trigger] t[i] <= t.len() by {
                let k = if i < p {
                    i
                } else {
                    i + 1
                };
                assert(t[i] == s[k]);
                if k < p {
                    assert(s[k] != s[p]);
                } else {
                    assert(s[p] != s[k]);
                }
            }
            assert forall|i: int, j: int| 0 <= i < j < t.len() implies #[trigger] t[i]
                != #[trigger] t[j] by {
                let ki = if i < p {
                    i
                } else {
                    i + 1
                };
                let kj = if j < p {
                    j
                } else {
                    j + 1
                };
                assert(t[i] == s[ki] && t[j] == s[kj]);
                assert(s[ki] != s[kj]);
            }
            lemma_permutation(t);
            assert forall|d: int| 1 <= d <= s.len() implies #[trigger] s.contains(d) by {
                if d == n {
                    assert(s[p] == d);
                } else {
                    assert(t.contains(d));
                    let i = choose|i: int| 0 <= i < t.len() && t[i] == d;
                    let k = if i < p {
                        i
                    } else {
                        i + 1
                    };
                    assert(s[k] == d);
                }
            }
        } else {
            let t = s.drop_last();
            assert forall|i: int| 0 <= i < t.len() implies 1 <= #[trigger] t[i] <= t.len() by {
                assert(t[i] == s[i]);
            }
            assert forall|i: int, j: int| 0 <= i < j < t.len() implies #[trigger] t[i]
                != #[trigger] t[j] by {
                assert(t[i] == s[i] && t[j] == s[j]);
            }
            lemma_permutation(t);
            let d = s[n - 1];
            assert(1 <= d <= n - 1);
            assert(t.contains(d));
            let i = choose|i: int| 0 <= i < t.len() && t[i] == d;
            assert(s[i] == t[i]);
            assert(s[i] != s[n - 1]);
        }
    }
}

/// More than `n` numbers below `n` cannot all be different.
proof fn lemma_pigeonhole(s: Seq<int>)
    requires
        s.len() > 0,
        forall|i: int| 0 <= i < s.len() ==> 0 <= #[trigger] s[i] < s.len() - 1,
    ensures
        exists|i: int, j: int| 0 <= i < j < s.len() && #[trigger] s[i] == #[trigger] s[j],
{
    let n = s.len() - 1;
    if !exists|i: int, j: int| 0 <= i < j < s.len() && #[trigger] s[i] == #[trigger] s[j] {
        let t = Seq::new(n as nat, |i: int| s[i] + 1);
        assert forall|i: int, j: int| 0 <= i < j < t.len() implies #[trigger] t[i]
            != #[trigger] t[j] by {
            assert(s[i] != s[j]);
        }
        assert forall|i: int| 0 <= i < t.len() implies 1 <= #[trigger] t[i] <= t.len() by {
            assert(t[i] == s[i] + 1);
        }
        lemma_permutation(t);
        let d = s[n] + 1;
        assert(t.contains(d));
        let i = choose|i: int| 0 <= i < t.len() && t[i] == d;
        assert(s[i] == s[n]);
    }
}

/// In a full grid without contradiction, every row holds every digit.
proof fn lemma_row_holds_digit(g: Grid, row: int, d: int)
    requires
        is_full(g),
        is_consistent(g),
        0 <= row < 9,
        is_digit(d),
    ensures
        row_has_once(g, row, d),
{
    let s = Seq::new(9, |c: int| cell(g, row, c));
    assert forall|i: int| 0 <= i < s.len() implies 1 <= #[trigger] s[i] <= s.len() by {
        assert(is_digit(cell(g, row, i)));
    }
    assert forall|i: int, j: int| 0 <= i < j < s.len() implies #[trigger] s[i] != #[trigger] s[j] by {
        assert(peers(row, i, row, j));
        assert(cell(g, row, i) != cell(g, row, j));
    }
    lemma_permutation(s);
    assert(s.contains(d));
    let c = choose|c: int| 0 <= c < s.len() && s[c] == d;
    assert(cell(g, row, c) == d);
    assert forall|c2: int| 0 <= c2 < 9 && #[trigger] cell(g, row, c2) == d implies c2 == c by {
        if c2 != c {
            assert(peers(row, c, row, c2));
            assert(cell(g, row, c) != cell(g, row, c2));
        }
    }
}

/// In a full grid without contradiction, every column holds every digit.
proof fn lemma_col_holds_digit(g: Grid, col: int, d: int)
    requires
        is_full(g),
        is_consistent(g),
        0 <= col < 9,
        is_digit(d),
    ensures
        col_has_once(g, col, d),
{
    let s = Seq::new(9, |r: int| cell(g, r, col));
    assert forall|i: int| 0 <= i < s.len() implies 1 <= #[trigger] s[i] <= s.len() by {
        assert(is_digit(cell(g, i, col)));
    }
    assert forall|i: int, j: int| 0 <= i < j < s.len() implies #[trigger] s[i] != #[trigger] s[j] by {
        assert(peers(i, col, j, col));
        assert(cell(g, i, col) != cell(g, j, col));
    }
    lemma_permutation(s);
    assert(s.contains(d));
    let r = choose|r: int| 0 <= r < s.len() && s[r] == d;
    assert(cell(g, r, col) == d);
    assert forall|r2: int| 0 <= r2 < 9 && #[trigger] cell(g, r2, col) == d implies r2 == r by {
        if r2 != r {
            assert(peers(r, col, r2, col));
            assert(cell(g, r, col) != cell(g, r2, col));
        }
    }
}

/// In a full grid without contradiction, every box holds every digit.
proof fn lemma_box_holds_digit(g: Grid, b: int, d: int)
    requires
        is_full(g),
        is_consistent(g),
        0 <= b < 9,
        is_digit(d),
    ensures
        box_has_once(g, b, d),
{
    let top = (b / 3) * 3;
    let left = (b % 3) * 3;
    let s = Seq::new(9, |i: int| cell(g, top + i / 3, left + i % 3));
    assert forall|i: int| 0 <= i < s.len() implies 1 <= #[trigger] s[i] <= s.len() by {
        assert(is_digit(cell(g, top + i / 3, left + i % 3)));
    }
    assert forall|i: int, j: int| 0 <= i < j < s.len() implies #[trigger] s[i] != #[trigger] s[j] by {
        assert(peers(top + i / 3, left + i % 3, top + j / 3, left + j % 3));
        assert(cell(g, top + i / 3, left + i % 3) != cell(g, top + j / 3, left + j % 3));
    }
    lemma_permutation(s);
    assert(s.contains(d));
    let i = choose|i: int| 0 <= i < s.len() && s[i] == d;
    let r = top + i / 3;
    let c = left + i % 3;
    assert(cell(g, r, c) == d);
    assert(in_bounds(r, c) && box_of(r, c) == b);
    assert forall|r2: int, c2: int|
        in_bounds(r2, c2) && box_of(r2, c2) == b && #[trigger] cell(g, r2, c2) == d implies r2 == r
        && c2 == c by {
        if r2 != r || c2 != c {
            assert(peers(r, c, r2, c2));
            assert(cell(g, r, c) != cell(g, r2, c2));
        }
    }
}

/// A full grid in which no two peers hold the same digit obeys the rule of
/// Sudoku.
proof fn lemma_full_and_consistent_is_solution(g: Grid)
    requires
        is_full(g),
        is_consistent(g),
    ensures
        is_solution(g),
{
    assert forall|k: int, d: int| 0 <= k < 9 && is_digit(d) implies #[trigger] row_has_once(
        g,
        k,
        d,
    ) by {
        lemma_row_holds_digit(g, k, d);
    }
    assert forall|k: int, d: int| 0 <= k < 9 && is_digit(d) implies #[trigger] col_has_once(
        g,
        k,
        d,
    ) by {
        lemma_col_holds_digit(g, k, d);
    }
    assert forall|k: int, d: int| 0 <= k < 9 && is_digit(d) implies #[trigger] box_has_once(
        g,
        k,
        d,
    ) by {
        lemma_box_holds_digit(g, k, d);
    }
}

/// A digit that a row holds once is not held by two of its cells.
proof fn lemma_once_in_row(g: Grid, row: int, c1: int, c2: int)
    requires
        row_has_once(g, row, cell(g, row, c1)),
        0 <= c1 < 9,
        0 <= c2 < 9,
        cell(g, row, c1) == cell(g, row, c2),
    ensures
        c1 == c2,
{
    let d = cell(g, row, c1);
    let c = choose|c: int|
        0 <= c < 9 && #[trigger] cell(g, row, c) == d && forall|c3: int|
            0 <= c3 < 9 && #[trigger] cell(g, row, c3) == d ==> c3 == c;
    assert(c1 == c && c2 == c);
}

/// A digit that a column holds once is not held by two of its cells.
proof fn lemma_once_in_col(g: Grid, col: int, r1: int, r2: int)
    requires
        col_has_once(g, col, cell(g, r1, col)),
        0 <= r1 < 9,
        0 <= r2 < 9,
        cell(g, r1, col) == cell(g, r2, col),
    ensures
        r1 == r2,
{
    let d = cell(g, r1, col);
    let r = choose|r: int|
        0 <= r < 9 && #[trigger] cell(g, r, col) == d && forall|r3: int|
            0 <= r3 < 9 && #[trigger] cell(g, r3, col) == d ==> r3 == r;
    assert(r1 == r && r2 == r);
}

/// A digit that a box holds once is not held by two of its cells.
proof fn lemma_once_in_box(g: Grid, r1: int, c1: int, r2: int, c2: int)
    requires
        box_has_once(g, box_of(r1, c1), cell(g, r1, c1)),
        in_bounds(r1, c1),
        in_bounds(r2, c2),
        box_of(r1, c1) == box_of(r2, c2),
        cell(g, r1, c1) == cell(g, r2, c2),
    ensures
        r1 == r2 && c1 == c2,
{
    let d = cell(g, r1, c1);
    let b = box_of(r1, c1);
    let (r, c) = choose|r: int, c: int|
        in_bounds(r, c) && box_of(r, c) == b && #[trigger] cell(g, r, c) == d && forall|
            r3: int,
            c3: int,
        |
            in_bounds(r3, c3) && box_of(r3, c3) == b && #[trigger] cell(g, r3, c3) == d ==> r3 == r
                && c3 == c;
    assert(r1 == r && c1 == c);
    assert(r2 == r && c2 == c);
}

/// A grid obeys the rule of Sudoku exactly when it is full and no two of
/// its peers hold the same digit.
pub proof fn lemma_solution_iff_full_and_consistent(g: Grid)
    ensures
        is_solution(g) <==> is_full(g) && is_consistent(g),
{
    if is_full(g) && is_consistent(g) {
        lemma_full_and_consistent_is_solution(g);
    }
    if is_solution(g) {
        assert forall|r1: int, c1: int, r2: int, c2: int|
            peers(r1, c1, r2, c2) && cell(g, r1, c1) != 0 implies #[trigger] cell(g, r1, c1)
            != #[trigger] cell(g, r2, c2) by {
            let d = cell(g, r1, c1);
            assert(is_digit(d));
            if d == cell(g, r2, c2) {
                if r1 == r2 {
                    assert(row_has_once(g, r1, d));
                    lemma_once_in_row(g, r1, c1, c2);
                } else if c1 == c2 {
                    assert(col_has_once(g, c1, d));
                    lemma_once_in_col(g, c1, r1, r2);
                } else {
                    assert(0 <= box_of(r1, c1) < 9);
                    assert(box_has_once(g, box_of(r1, c1), d));
                    lemma_once_in_box(g, r1, c1, r2, c2);
                }
            }
        }
    }
}

/// A completion of a puzzle whose givens do not contradict each other obeys
/// the rule of Sudoku: every row, column and box holds each digit once.
pub proof fn lemma_completion_is_solution(puzzle: Grid, g: Grid)
    requires
        is_consistent(puzzle),
        is_completion(puzzle, g),
    ensures
        solves(puzzle, g),
{
    assert forall|r1: int, c1: int, r2: int, c2: int|
        peers(r1, c1, r2, c2) && cell(g, r1, c1) != 0 implies #[trigger] cell(g, r1, c1)
        != #[trigger] cell(g, r2, c2) by {
        if cell(puzzle, r1, c1) == 0 {
        } else if cell(puzzle, r2, c2) == 0 {
            assert(peers(r2, c2, r1, c1));
            assert(cell(g, r2, c2) != cell(g, r1, c1));
        } else {
            assert(cell(puzzle, r1, c1) != cell(puzzle, r2, c2));
            assert(cell(g, r1, c1) == cell(puzzle, r1, c1));
            assert(cell(g, r2, c2) == cell(puzzle, r2, c2));
        }
    }
    lemma_solution_iff_full_and_consistent(g);
}

/// Every solution of a puzzle is one of its completions.
pub proof fn lemma_solution_is_completion(puzzle: Grid, g: Grid)
    requires
        solves(puzzle, g),
    ensures
        is_completion(puzzle, g),
{
    lemma_solution_iff_full_and_consistent(g);
    assert forall|r1: int, c1: int, r2: int, c2: int|
        peers(r1, c1, r2, c2) && cell(puzzle, r1, c1) == 0 implies #[trigger] cell(g, r1, c1)
        != #[trigger] cell(g, r2, c2) by {
        assert(is_digit(cell(g, r1, c1)));
    }
}

/// A grid that obeys the rule of Sudoku and keeps the givens of a puzzle
/// shows that these givens do not contradict each other.
pub proof fn lemma_solved_puzzle_is_consistent(puzzle: Grid, g: Grid)
    requires
        solves(puzzle, g),
    ensures
        is_consistent(puzzle),
{
    lemma_solution_iff_full_and_consistent(g);
    assert forall|r1: int, c1: int, r2: int, c2: int|
        peers(r1, c1, r2, c2) && cell(puzzle, r1, c1) != 0 implies #[trigger] cell(puzzle, r1, c1)
        != #[trigger] cell(puzzle, r2, c2) by {
        if cell(puzzle, r2, c2) != 0 {
            assert(cell(g, r1, c1) == cell(puzzle, r1, c1));
            assert(cell(g, r2, c2) == cell(puzzle, r2, c2));
            assert(cell(g, r1, c1) != cell(g, r2, c2));
        }
    }
}

/// A puzzle without a completion has no solution.
pub proof fn lemma_no_completion_no_solution(puzzle: Grid)
    requires
        !has_completion(puzzle),
    ensures
        !has_solution(puzzle),
{
    assert forall|g: Grid| !solves(puzzle, g) by {
        if solves(puzzle, g) {
            lemma_solution_is_completion(puzzle, g);
        }
    }
}

/// A grid without an empty cell has one completion: itself.
pub proof fn lemma_full_grid_completes_itself(g: Grid)
    requires
        is_full(g),
    ensures
        is_first_completion(g, g),
{
    assert forall|h: Grid| #[trigger] is_completion(g, h) implies h == g || comes_before(g, h) by {
        assert forall|r: int, c: int| in_bounds(r, c) implies #[trigger] cell(h, r, c) == cell(
            g,
            r,
            c,
        ) by {
            assert(is_digit(cell(g, r, c)));
        }
        lemma_grid_ext(h, g);
    }
}

/// Of two different grids, at most one comes before the other.
pub proof fn lemma_order_is_asymmetric(a: Grid, b: Grid)
    requires
        comes_before(a, b),
    ensures
        !comes_before(b, a),
{
    if comes_before(b, a) {
        let (r1, c1) = choose|r: int, c: int|
            in_bounds(r, c) && #[trigger] cell(a, r, c) < cell(b, r, c) && agree_after(a, b, r, c);
        let (r2, c2) = choose|r: int, c: int|
            in_bounds(r, c) && #[trigger] cell(b, r, c) < cell(a, r, c) && agree_after(b, a, r, c);
        if row_major(r2, c2) > row_major(r1, c1) {
            assert(cell(a, r2, c2) == cell(b, r2, c2));
        } else if row_major(r1, c1) > row_major(r2, c2) {
            assert(cell(b, r1, c1) == cell(a, r1, c1));
        } else {
            assert(r1 == r2 && c1 == c2);
        }
    }
}

/// A puzzle has one first completion at most: whatever the search returns
/// for a puzzle, it returns the same every time.
pub proof fn lemma_first_completion_is_unique(puzzle: Grid, a: Grid, b: Grid)
    requires
        is_first_completion(puzzle, a),
        is_first_completion(puzzle, b),
    ensures
        a == b,
{
    if a != b {
        assert(is_completion(puzzle, b));
        assert(comes_before(a, b));
        assert(is_completion(puzzle, a));
        assert(comes_before(b, a));
        lemma_order_is_asymmetric(a, b);
    }
}

/// A completion holds every digit in each row whose givens are all
/// different.
proof fn lemma_completed_row_holds_digit(puzzle: Grid, g: Grid, row: int, d: int)
    requires
        is_completion(puzzle, g),
        0 <= row < 9,
        is_digit(d),
        forall|ca: int, cb: int|
            0 <= ca < 9 && 0 <= cb < 9 && ca != cb && cell(puzzle, row, ca) != 0 ==> #[trigger] cell(
                puzzle,
                row,
                ca,
            ) != #[trigger] cell(puzzle, row, cb),
    ensures
        exists|c: int| 0 <= c < 9 && #[trigger] cell(g, row, c) == d,
{
    let s = Seq::new(9, |c: int| cell(g, row, c));
    assert forall|i: int| 0 <= i < s.len() implies 1 <= #[trigger] s[i] <= s.len() by {
        assert(is_digit(cell(g, row, i)));
    }
    assert forall|i: int, j: int| 0 <= i < j < s.len() implies #[trigger] s[i] != #[trigger] s[j] by {
        assert(peers(row, i, row, j));
        assert(peers(row, j, row, i));
        if cell(puzzle, row, i) == 0 {
            assert(cell(g, row, i) != cell(g, row, j));
        } else if cell(puzzle, row, j) == 0 {
            assert(cell(g, row, j) != cell(g, row, i));
        } else {
            assert(cell(puzzle, row, i) != cell(puzzle, row, j));
            assert(cell(g, row, i) == cell(puzzle, row, i));
            assert(cell(g, row, j) == cell(puzzle, row, j));
        }
    }
    lemma_permutation(s);
    assert(s.contains(d));
    let c = choose|c: int| 0 <= c < s.len() && s[c] == d;
    assert(cell(g, row, c) == d);
}

/// A puzzle that gives a digit twice in one row, and is without fault in
/// its other rows and in its columns, has no completion: the search
/// returns nothing for it.
pub proof fn lemma_row_conflict_has_no_completion(puzzle: Grid, row: int, c1: int, c2: int)
    requires
        gives_twice_in_row(puzzle, row, c1, c2),
        consistent_apart_from_row(puzzle, row),
    ensures
        !has_completion(puzzle),
{
    assert forall|h: Grid| !is_completion(puzzle, h) by {
        lemma_ten_cells_in_nine_columns(puzzle, h, row, c1, c2);
    }
}

/// The digit that the row gives twice would stand ten times in a
/// completion, so twice in one column: but there no completion and no
/// column of the puzzle has it twice.
proof fn lemma_ten_cells_in_nine_columns(puzzle: Grid, h: Grid, row: int, c1: int, c2: int)
    requires
        gives_twice_in_row(puzzle, row, c1, c2),
        consistent_apart_from_row(puzzle, row),
    ensures
        !is_completion(puzzle, h),
{
    if is_completion(puzzle, h) {
        let d = cell(puzzle, row, c1);
        assert(cell(h, row, c1) == d);
        assert(cell(h, row, c2) == d);
        assert(is_digit(d));
        let col_of = |r: int| choose|c: int| 0 <= c < 9 && #[trigger] cell(h, r, c) == d;
        assert forall|r: int| 0 <= r < 9 && r != row implies 0 <= col_of(r) < 9 && cell(
            h,
            r,
            #[trigger] col_of(r),
        ) == d by {
            lemma_completed_row_holds_digit(puzzle, h, r, d);
        }
        let f = Seq::new(
            10,
            |i: int|
                if i == 9 {
                    c2
                } else if i == row {
                    c1
                } else {
                    col_of(i)
                },
        );
        let row_of = |i: int|
            if i == 9 {
                row
            } else {
                i
            };
        assert forall|i: int| 0 <= i < f.len() implies 0 <= #[trigger] f[i] < f.len() - 1 by {
            if i != 9 && i != row {
                assert(0 <= col_of(i) < 9);
            }
        }
        lemma_pigeonhole(f);
        let (i, j) = choose|i: int, j: int| 0 <= i < j < f.len() && #[trigger] f[i] == #[trigger] f[j];
        let ra = row_of(i);
        let rb = row_of(j);
        let c = f[i];
        assert(cell(h, ra, c) == d) by {
            if i != 9 && i != row {
                assert(cell(h, i, col_of(i)) == d);
            }
        }
        assert(cell(h, rb, c) == d) by {
            if j != 9 && j != row {
                assert(cell(h, j, col_of(j)) == d);
            }
        }
        assert(ra != rb);
        assert(peers(ra, c, rb, c));
        assert(peers(rb, c, ra, c));
        if cell(puzzle, ra, c) == 0 {
            assert(cell(h, ra, c) != cell(h, rb, c));
        } else if cell(puzzle, rb, c) == 0 {
            assert(cell(h, rb, c) != cell(h, ra, c));
        } else {
            assert(cell(h, ra, c) == cell(puzzle, ra, c));
            assert(cell(h, rb, c) == cell(puzzle, rb, c));
            assert(cell(puzzle, ra, c) != cell(puzzle, rb, c));
        }
    }
}

} // verus!
