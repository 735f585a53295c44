use sudoku_solver::parse::parse_grid;

#[test]
fn parse_reads_digits_and_dots() {
    let grid = parse_grid(
        "53..7....6..195....98....6.8...6...34..8.3..17...2...6.6....28....419..5....8..79",
    );
    assert_eq!(
        grid,
        [
            [5, 3, 0, 0, 7, 0, 0, 0, 0],
            [6, 0, 0, 1, 9, 5, 0, 0, 0],
            [0, 9, 8, 0, 0, 0, 0, 6, 0],
            [8, 0, 0, 0, 6, 0, 0, 0, 3],
            [4, 0, 0, 8, 0, 3, 0, 0, 1],
            [7, 0, 0, 0, 2, 0, 0, 0, 6],
            [0, 6, 0, 0, 0, 0, 2, 8, 0],
            [0, 0, 0, 4, 1, 9, 0, 0, 5],
            [0, 0, 0, 0, 8, 0, 0, 7, 9],
        ]
    );
}

#[test]
fn parse_reads_zero_as_empty() {
    let with_zeros = parse_grid(
        "530070000600195000098000060800060003400803001700020006060000280000419005000080079",
    );
    let with_dots = parse_grid(
        "53..7....6..195....98....6.8...6...34..8.3..17...2...6.6....28....419..5....8..79",
    );
    assert_eq!(with_zeros, with_dots);
}

#[test]
fn parse_reads_every_digit() {
    let grid = parse_grid("123456789");
    assert_eq!(grid[0], [1, 2, 3, 4, 5, 6, 7, 8, 9]);
    for row in 1..9 {
        assert_eq!(grid[row], [0; 9]);
    }
}

#[test]
fn parse_takes_any_other_character_as_empty() {
    let grid = parse_grid("1x2 3-4_5a6Z7/8:9");
    assert_eq!(grid[0], [1, 0, 2, 0, 3, 0, 4, 0, 5]);
    assert_eq!(grid[1], [0, 6, 0, 7, 0, 8, 0, 9, 0]);
}

#[test]
fn parse_counts_characters_not_bytes() {
    let grid = parse_grid("é1ß2");
    assert_eq!(grid[0], [0, 1, 0, 2, 0, 0, 0, 0, 0]);
}

#[test]
fn parse_takes_other_numerals_as_empty() {
    // Arabic-Indic digit three and fullwidth digit four are no ASCII digits
    let grid = parse_grid("\u{0663}\u{ff14}5");
    assert_eq!(grid[0], [0, 0, 5, 0, 0, 0, 0, 0, 0]);
}

#[test]
fn parse_of_an_empty_line_is_the_empty_grid() {
    assert_eq!(parse_grid(""), [[0; 9]; 9]);
}

#[test]
fn parse_fills_the_cells_in_row_major_order() {
    let grid = parse_grid("..........7");
    assert_eq!(grid[1][1], 7);
    let filled = grid.iter().flatten().filter(|&&d| d != 0).count();
    assert_eq!(filled, 1);
}

#[test]
fn parse_reads_the_last_cell() {
    let mut line = ".".repeat(80);
    line.push('9');
    let grid = parse_grid(&line);
    assert_eq!(grid[8][8], 9);
    assert_eq!(grid[8][7], 0);
}
