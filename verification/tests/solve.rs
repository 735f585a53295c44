use sudoku_solver::board::Board;
use sudoku_solver::parse::parse_grid;
use sudoku_solver::search::{solve, solve_recursive};

const CLASSIC: &str =
    "530070000600195000098000060800060003400803001700020006060000280000419005000080079";

const CLASSIC_SOLVED: [[u8; 9]; 9] = [
    [5, 3, 4, 6, 7, 8, 9, 1, 2],
    [6, 7, 2, 1, 9, 5, 3, 4, 8],
    [1, 9, 8, 3, 4, 2, 5, 6, 7],
    [8, 5, 9, 7, 6, 1, 4, 2, 3],
    [4, 2, 6, 8, 5, 3, 7, 9, 1],
    [7, 1, 3, 9, 2, 4, 8, 5, 6],
    [9, 6, 1, 5, 3, 7, 2, 8, 4],
    [2, 8, 7, 4, 1, 9, 6, 3, 5],
    [3, 4, 5, 2, 8, 6, 1, 7, 9],
];

const SPARSE: [[u8; 9]; 9] = [
    [0, 0, 0, 0, 0, 0, 0, 0, 0],
    [0, 0, 0, 0, 0, 3, 0, 8, 5],
    [0, 0, 1, 0, 2, 0, 0, 0, 0],
    [0, 0, 0, 5, 0, 7, 0, 0, 0],
    [0, 0, 4, 0, 0, 0, 1, 0, 0],
    [0, 9, 0, 0, 0, 0, 0, 0, 0],
    [5, 0, 0, 0, 0, 0, 0, 7, 3],
    [0, 0, 2, 0, 1, 0, 0, 0, 0],
    [0, 0, 0, 0, 4, 0, 0, 0, 9],
];

fn holds_each_digit_once(cells: [u8; 9]) -> bool {
    let mut seen = [false; 10];
    for d in cells {
        if d < 1 || d > 9 || seen[d as usize] {
            return false;
        }
        seen[d as usize] = true;
    }
    true
}

fn obeys_the_rule(grid: &[[u8; 9]; 9]) -> bool {
    for k in 0..9 {
        let row = grid[k];
        let mut col = [0u8; 9];
        let mut boxed = [0u8; 9];
        for i in 0..9 {
            col[i] = grid[i][k];
            boxed[i] = grid[(k / 3) * 3 + i / 3][(k % 3) * 3 + i % 3];
        }
        if !holds_each_digit_once(row) || !holds_each_digit_once(col)
            || !holds_each_digit_once(boxed)
        {
            return false;
        }
    }
    true
}

fn keeps_the_givens(puzzle: &[[u8; 9]; 9], solved: &[[u8; 9]; 9]) -> bool {
    for row in 0..9 {
        for col in 0..9 {
            if puzzle[row][col] != 0 && solved[row][col] != puzzle[row][col] {
                return false;
            }
        }
    }
    true
}

#[test]
fn classic_puzzle_is_solved() {
    let solved = solve(parse_grid(CLASSIC)).unwrap();
    assert_eq!(solved[0], [5, 3, 4, 6, 7, 8, 9, 1, 2]);
    assert_eq!(solved, CLASSIC_SOLVED);
}

#[test]
fn solution_holds_each_digit_once_in_every_unit() {
    let solved = solve(parse_grid(CLASSIC)).unwrap();
    assert!(obeys_the_rule(&solved));
    let solved = solve(SPARSE).unwrap();
    assert!(obeys_the_rule(&solved));
}

#[test]
fn solution_keeps_the_givens() {
    let puzzle = parse_grid(CLASSIC);
    let solved = solve(puzzle).unwrap();
    assert!(keeps_the_givens(&puzzle, &solved));
    let solved = solve(SPARSE).unwrap();
    assert!(keeps_the_givens(&SPARSE, &solved));
}

#[test]
fn sparse_puzzle_is_solved() {
    let solved = solve(SPARSE).unwrap();
    assert_eq!(
        solved,
        [
            [9, 8, 7, 6, 5, 4, 3, 2, 1],
            [2, 4, 6, 1, 7, 3, 9, 8, 5],
            [3, 5, 1, 9, 2, 8, 7, 4, 6],
            [1, 2, 8, 5, 3, 7, 6, 9, 4],
            [6, 3, 4, 8, 9, 2, 1, 5, 7],
            [7, 9, 5, 4, 6, 1, 8, 3, 2],
            [5, 1, 9, 2, 8, 6, 4, 7, 3],
            [4, 7, 2, 3, 1, 9, 5, 6, 8],
            [8, 6, 3, 7, 4, 5, 2, 1, 9],
        ]
    );
}

#[test]
fn solved_grid_is_returned_unchanged() {
    assert_eq!(solve(CLASSIC_SOLVED), Some(CLASSIC_SOLVED));
}

#[test]
fn solved_board_is_returned_at_once() {
    let board = Board::new(CLASSIC_SOLVED);
    assert!(board.empty_cells.is_empty());
    let solved = solve_recursive(board).unwrap();
    assert_eq!(solved.grid, CLASSIC_SOLVED);
    assert!(solved.empty_cells.is_empty());
    assert_eq!(solved.row_contains, [0x1ff; 9]);
}

#[test]
fn solving_twice_gives_the_same_grid() {
    let puzzle = parse_grid(CLASSIC);
    assert_eq!(solve(puzzle), solve(puzzle));
    let empty = [[0u8; 9]; 9];
    assert_eq!(solve(empty), solve(empty));
}

#[test]
fn empty_grid_is_completed_to_a_solution() {
    let solved = solve([[0; 9]; 9]).unwrap();
    assert!(obeys_the_rule(&solved));
}

#[test]
fn empty_grid_is_filled_from_the_last_cell_with_the_smallest_digits() {
    let solved = solve([[0; 9]; 9]).unwrap();
    assert_eq!(solved[8], [9, 8, 7, 6, 5, 4, 3, 2, 1]);
    assert_eq!(solved[7], [3, 2, 1, 9, 8, 7, 6, 5, 4]);
    assert_eq!(
        solved,
        [
            [2, 4, 6, 1, 3, 5, 8, 7, 9],
            [1, 3, 5, 8, 7, 9, 2, 4, 6],
            [8, 7, 9, 2, 4, 6, 1, 3, 5],
            [5, 6, 3, 4, 1, 2, 7, 9, 8],
            [4, 1, 2, 7, 9, 8, 5, 6, 3],
            [7, 9, 8, 5, 6, 3, 4, 1, 2],
            [6, 5, 4, 3, 2, 1, 9, 8, 7],
            [3, 2, 1, 9, 8, 7, 6, 5, 4],
            [9, 8, 7, 6, 5, 4, 3, 2, 1],
        ]
    );
}

#[test]
fn of_two_solutions_the_one_with_the_smaller_last_digit_is_found() {
    // the four cells hold 4 2 / 2 4 in the solved grid and may as well hold
    // 2 4 / 4 2; the search fills (5, 5) first and tries 2 before 4
    let mut puzzle = CLASSIC_SOLVED;
    puzzle[2][4] = 0;
    puzzle[2][5] = 0;
    puzzle[5][4] = 0;
    puzzle[5][5] = 0;
    let mut both = CLASSIC_SOLVED;
    both[2][4] = 2;
    both[2][5] = 4;
    both[5][4] = 4;
    both[5][5] = 2;
    assert!(obeys_the_rule(&both));
    assert_eq!(solve(puzzle), Some(both));
}

#[test]
fn of_two_solutions_the_given_one_is_found_where_its_last_digit_is_smaller() {
    // the four cells hold 6 7 / 7 6: the search fills (3, 4) first, with 6
    let mut puzzle = CLASSIC_SOLVED;
    puzzle[0][3] = 0;
    puzzle[0][4] = 0;
    puzzle[3][3] = 0;
    puzzle[3][4] = 0;
    assert_eq!(solve(puzzle), Some(CLASSIC_SOLVED));
}

#[test]
fn digit_given_twice_in_a_row_has_no_solution() {
    // row 0 gives 3 twice; every other row and every column is without fault
    let mut puzzle = CLASSIC_SOLVED;
    puzzle[0][0] = 3;
    puzzle[8][0] = 0;
    assert_eq!(solve(puzzle), None);
}

#[test]
fn digit_given_twice_in_a_row_with_an_empty_cell_has_no_solution() {
    let mut puzzle = CLASSIC_SOLVED;
    puzzle[0][0] = 3;
    puzzle[8][0] = 0;
    puzzle[0][8] = 0;
    puzzle[4][4] = 0;
    assert_eq!(solve(puzzle), None);
}

#[test]
fn givens_without_fault_may_still_have_no_solution() {
    // (8, 8) needs the 9 that its row lacks, but its column holds a 9
    let mut puzzle = CLASSIC_SOLVED;
    puzzle[0][6] = 0;
    puzzle[0][8] = 9;
    puzzle[8][8] = 0;
    assert_eq!(solve(puzzle), None);
    assert!(solve_recursive(Board::new(puzzle)).is_none());
}

#[test]
fn full_grid_is_returned_even_where_its_givens_contradict() {
    // two givens are never held against each other
    let ones = [[1u8; 9]; 9];
    assert_eq!(solve(ones), Some(ones));
    let mut twice = CLASSIC_SOLVED;
    twice[0][0] = 3;
    assert_eq!(solve(twice), Some(twice));
}

#[test]
fn contradiction_among_the_givens_is_not_seen_where_the_empty_cells_fit() {
    // row 0 gives 3 twice, yet (0, 2) can take its 4
    let mut puzzle = CLASSIC_SOLVED;
    puzzle[0][0] = 3;
    puzzle[0][2] = 0;
    let mut filled = puzzle;
    filled[0][2] = 4;
    assert_eq!(solve(puzzle), Some(filled));
    assert!(!obeys_the_rule(&filled));
}

#[test]
fn search_from_a_board_gives_a_full_board() {
    let board = Board::new(parse_grid(CLASSIC));
    let solved = solve_recursive(board).unwrap();
    assert_eq!(solved.grid, CLASSIC_SOLVED);
    assert!(solved.empty_cells.is_empty());
    assert_eq!(solved.row_contains, [0x1ff; 9]);
    assert_eq!(solved.col_contains, [0x1ff; 9]);
    assert_eq!(solved.box_contains, [0x1ff; 9]);
}

#[test]
fn search_takes_up_a_board_after_a_move() {
    let board = Board::new(parse_grid(CLASSIC));
    let (row, col) = *board.empty_cells.last().unwrap();
    assert_eq!((row, col), (8, 6));
    assert_eq!(board.valid_moves(row, col), vec![1, 3, 4, 6]);
    assert_eq!(solve_recursive(board.make_move(row, col, 1)).unwrap().grid, CLASSIC_SOLVED);
    assert!(solve_recursive(board.make_move(row, col, 3)).is_none());
    assert!(solve_recursive(board.make_move(row, col, 4)).is_none());
    assert!(solve_recursive(board.make_move(row, col, 6)).is_none());
}

#[test]
fn one_empty_cell_is_filled_with_the_missing_digit() {
    for row in 0..9 {
        for col in 0..9 {
            let mut puzzle = CLASSIC_SOLVED;
            puzzle[row][col] = 0;
            assert_eq!(solve(puzzle), Some(CLASSIC_SOLVED));
        }
    }
}
