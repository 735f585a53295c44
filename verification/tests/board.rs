use sudoku_solver::board::Board;
use sudoku_solver::grid::get_box_index;

const PUZZLE: [[u8; 9]; 9] = [
    [5, 3, 0, 0, 7, 0, 0, 0, 0],
    [6, 0, 0, 1, 9, 5, 0, 0, 0],
    [0, 9, 8, 0, 0, 0, 0, 6, 0],
    [8, 0, 0, 0, 6, 0, 0, 0, 3],
    [4, 0, 0, 8, 0, 3, 0, 0, 1],
    [7, 0, 0, 0, 2, 0, 0, 0, 6],
    [0, 6, 0, 0, 0, 0, 2, 8, 0],
    [0, 0, 0, 4, 1, 9, 0, 0, 5],
    [0, 0, 0, 0, 8, 0, 0, 7, 9],
];

const SOLVED: [[u8; 9]; 9] = [
    [5, 3, 4, 6, 7, 8, 9, 1, 2],
    [6, 7, 2, 1, 9, 5, 3, 4, 8],
    [1, 9, 8, 3, 4, 2, 5, 6, 7],
    [8, 5, 9, 7, 6, 1, 4, 2, 3],
    [4, 2, 6, 8, 5, 3, 7, 9, 1],
    [7, 1, 3, 9, 2, 4, 8, 5, 6],
    [9, 6, 1, 5, 3, 7, 2, 8, 4],
    [2, 8, 7, 4, 1, 9, 6, 3, 5],
    [3, 4, 5, 2, 8, 6, 1, 7, 9],
];

fn mask_of(digits: &[u8]) -> u16 {
    let mut mask = 0u16;
    for d in digits {
        mask |= 1 << (d - 1);
    }
    mask
}

#[test]
fn box_index_numbers_boxes_row_by_row() {
    assert_eq!(get_box_index(0, 0), 0);
    assert_eq!(get_box_index(2, 2), 0);
    assert_eq!(get_box_index(0, 3), 1);
    assert_eq!(get_box_index(2, 8), 2);
    assert_eq!(get_box_index(3, 0), 3);
    assert_eq!(get_box_index(4, 4), 4);
    assert_eq!(get_box_index(5, 6), 5);
    assert_eq!(get_box_index(8, 0), 6);
    assert_eq!(get_box_index(6, 5), 7);
    assert_eq!(get_box_index(8, 8), 8);
}

#[test]
fn box_index_follows_the_formula_everywhere() {
    for row in 0..9 {
        for col in 0..9 {
            assert_eq!(get_box_index(row, col), (row / 3) * 3 + col / 3);
        }
    }
}

#[test]
fn new_keeps_the_grid() {
    let board = Board::new(PUZZLE);
    assert_eq!(board.grid, PUZZLE);
}

#[test]
fn new_lists_empty_cells_in_row_major_order() {
    let mut grid = [[1u8; 9]; 9];
    grid[0][4] = 0;
    grid[0][7] = 0;
    grid[3][0] = 0;
    grid[8][8] = 0;
    grid[8][2] = 0;
    let board = Board::new(grid);
    assert_eq!(board.empty_cells, vec![(0, 4), (0, 7), (3, 0), (8, 2), (8, 8)]);
}

#[test]
fn new_ends_the_list_with_the_last_empty_cell() {
    let board = Board::new(PUZZLE);
    assert_eq!(board.empty_cells.first(), Some(&(0, 2)));
    assert_eq!(board.empty_cells.last(), Some(&(8, 6)));
}

#[test]
fn new_lists_as_many_cells_as_are_empty() {
    let board = Board::new(PUZZLE);
    let filled = PUZZLE.iter().flatten().filter(|&&d| d != 0).count();
    assert_eq!(filled, 30);
    assert_eq!(board.empty_cells.len(), 81 - filled);
    for &(row, col) in &board.empty_cells {
        assert_eq!(PUZZLE[row][col], 0);
    }
}

#[test]
fn new_of_an_empty_grid_lists_every_cell() {
    let board = Board::new([[0; 9]; 9]);
    assert_eq!(board.empty_cells.len(), 81);
    for (k, &(row, col)) in board.empty_cells.iter().enumerate() {
        assert_eq!((row, col), (k / 9, k % 9));
    }
    assert_eq!(board.row_contains, [0; 9]);
    assert_eq!(board.col_contains, [0; 9]);
    assert_eq!(board.box_contains, [0; 9]);
}

#[test]
fn new_of_a_full_grid_lists_no_cell() {
    let board = Board::new(SOLVED);
    assert!(board.empty_cells.is_empty());
    assert_eq!(board.row_contains, [0x1ff; 9]);
    assert_eq!(board.col_contains, [0x1ff; 9]);
    assert_eq!(board.box_contains, [0x1ff; 9]);
}

#[test]
fn new_sets_the_bit_of_each_digit_in_its_row() {
    let board = Board::new(PUZZLE);
    assert_eq!(board.row_contains[0], 0b0_0101_0100);
    assert_eq!(board.row_contains[0], mask_of(&[5, 3, 7]));
    assert_eq!(board.row_contains[1], mask_of(&[6, 1, 9, 5]));
    assert_eq!(board.row_contains[8], mask_of(&[8, 7, 9]));
}

#[test]
fn new_sets_the_bit_of_each_digit_in_its_column() {
    let board = Board::new(PUZZLE);
    assert_eq!(board.col_contains[0], mask_of(&[5, 6, 8, 4, 7]));
    assert_eq!(board.col_contains[2], mask_of(&[8]));
    assert_eq!(board.col_contains[2], 0b0_1000_0000);
    assert_eq!(board.col_contains[8], mask_of(&[3, 1, 6, 5, 9]));
}

#[test]
fn new_sets_the_bit_of_each_digit_in_its_box() {
    let board = Board::new(PUZZLE);
    assert_eq!(board.box_contains[0], mask_of(&[5, 3, 6, 9, 8]));
    assert_eq!(board.box_contains[4], mask_of(&[6, 8, 3, 2]));
    assert_eq!(board.box_contains[8], mask_of(&[2, 8, 5, 7, 9]));
}

#[test]
fn new_keeps_a_digit_that_is_given_twice() {
    let mut grid = [[0u8; 9]; 9];
    grid[0][0] = 4;
    grid[0][5] = 4;
    let board = Board::new(grid);
    assert_eq!(board.row_contains[0], 0b1000);
    assert_eq!(board.col_contains[0], 0b1000);
    assert_eq!(board.col_contains[5], 0b1000);
    assert_eq!(board.box_contains[0], 0b1000);
    assert_eq!(board.box_contains[1], 0b1000);
    assert_eq!(board.empty_cells.len(), 79);
}

#[test]
fn valid_moves_are_the_digits_missing_from_row_column_and_box() {
    let board = Board::new(PUZZLE);
    // row 0 holds 5 3 7, column 2 holds 8, box 0 holds 5 3 6 9 8
    assert_eq!(board.valid_moves(0, 2), vec![1, 2, 4]);
    // row 8 holds 8 7 9, column 6 holds 2, box 8 holds 2 8 5 7 9
    assert_eq!(board.valid_moves(8, 6), vec![1, 3, 4, 6]);
    // row 4 holds 4 8 3 1, column 4 holds 7 9 6 2 1 8, box 4 holds 6 8 3 2
    assert_eq!(board.valid_moves(4, 4), vec![5]);
}

#[test]
fn valid_moves_of_an_empty_grid_are_all_digits() {
    let board = Board::new([[0; 9]; 9]);
    assert_eq!(board.valid_moves(4, 7), vec![1, 2, 3, 4, 5, 6, 7, 8, 9]);
}

#[test]
fn valid_moves_of_a_full_grid_are_none() {
    let board = Board::new(SOLVED);
    for row in 0..9 {
        for col in 0..9 {
            assert!(board.valid_moves(row, col).is_empty());
        }
    }
}

#[test]
fn valid_moves_of_a_filled_cell_leave_out_its_own_digit() {
    let board = Board::new(PUZZLE);
    // (0, 0) holds 5; row 0: 5 3 7, column 0: 5 6 8 4 7, box 0: 5 3 6 9 8
    assert_eq!(board.valid_moves(0, 0), vec![1, 2]);
}

#[test]
fn valid_moves_are_computed_anew_each_time() {
    let board = Board::new(PUZZLE);
    assert_eq!(board.valid_moves(8, 6), board.valid_moves(8, 6));
    let next = board.make_move(8, 6, 1);
    // row 8 holds 8 7 9, column 5 holds 5 3 9, box 7 holds 4 1 9 8
    assert_eq!(board.valid_moves(8, 5), vec![2, 6]);
    assert_eq!(board.valid_moves(8, 0), vec![1, 2, 3]);
    assert_eq!(next.valid_moves(8, 5), vec![2, 6]);
    assert_eq!(next.valid_moves(8, 0), vec![2, 3]);
    assert_eq!(next.valid_moves(8, 3), vec![2, 3, 5, 6]);
    let after = next.make_move(8, 5, 2);
    assert_eq!(after.valid_moves(8, 3), vec![3, 5, 6]);
}

#[test]
fn make_move_places_the_digit_and_sets_its_bits() {
    let board = Board::new(PUZZLE);
    let next = board.make_move(8, 6, 4);
    let mut grid = PUZZLE;
    grid[8][6] = 4;
    assert_eq!(next.grid, grid);
    assert_eq!(next.row_contains[8], mask_of(&[8, 7, 9, 4]));
    assert_eq!(next.col_contains[6], mask_of(&[2, 4]));
    assert_eq!(next.box_contains[8], mask_of(&[2, 8, 5, 7, 9, 4]));
    for k in 0..9 {
        if k != 8 {
            assert_eq!(next.row_contains[k], board.row_contains[k]);
            assert_eq!(next.box_contains[k], board.box_contains[k]);
        }
        if k != 6 {
            assert_eq!(next.col_contains[k], board.col_contains[k]);
        }
    }
}

#[test]
fn make_move_drops_the_last_empty_cell() {
    let board = Board::new(PUZZLE);
    let next = board.make_move(8, 6, 4);
    assert_eq!(next.empty_cells.len(), board.empty_cells.len() - 1);
    assert_eq!(next.empty_cells[..], board.empty_cells[..board.empty_cells.len() - 1]);
    assert_eq!(next.empty_cells.last(), Some(&(8, 5)));
}

#[test]
fn make_move_leaves_the_board_as_it_was() {
    let board = Board::new(PUZZLE);
    let before = board.clone();
    let _ = board.make_move(8, 6, 4);
    assert_eq!(board.grid, before.grid);
    assert_eq!(board.row_contains, before.row_contains);
    assert_eq!(board.col_contains, before.col_contains);
    assert_eq!(board.box_contains, before.box_contains);
    assert_eq!(board.empty_cells, before.empty_cells);
}

#[test]
fn make_move_gives_what_new_gives_for_the_changed_grid() {
    let board = Board::new(PUZZLE);
    let next = board.make_move(8, 6, 4);
    let fresh = Board::new(next.grid);
    assert_eq!(next.row_contains, fresh.row_contains);
    assert_eq!(next.col_contains, fresh.col_contains);
    assert_eq!(next.box_contains, fresh.box_contains);
    assert_eq!(next.empty_cells, fresh.empty_cells);
}

#[test]
fn make_move_of_the_largest_digit_sets_the_ninth_bit() {
    let mut grid = SOLVED;
    grid[8][8] = 0;
    let board = Board::new(grid);
    assert_eq!(board.row_contains[8], 0x0ff);
    let next = board.make_move(8, 8, 9);
    assert_eq!(next.row_contains[8], 0x1ff);
    assert_eq!(next.grid, SOLVED);
    assert!(next.empty_cells.is_empty());
}

#[test]
fn clone_copies_every_field() {
    let board = Board::new(PUZZLE);
    let copy = board.clone();
    assert_eq!(copy.grid, board.grid);
    assert_eq!(copy.row_contains, board.row_contains);
    assert_eq!(copy.col_contains, board.col_contains);
    assert_eq!(copy.box_contains, board.box_contains);
    assert_eq!(copy.empty_cells, board.empty_cells);
}
