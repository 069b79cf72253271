use sudoku_solver::sudoku::Sudoku;

/// A complete valid grid: cell (r, c) holds (r * 3 + r / 3 + c) % 9 + 1.
fn pattern_grid() -> Vec<u8> {
    let mut cells = Vec::with_capacity(81);
    for r in 0..9u8 {
        for c in 0..9u8 {
            cells.push((r * 3 + r / 3 + c) % 9 + 1);
        }
    }
    cells
}

/// The first solution of the empty grid under ascending-position,
/// ascending-digit search.
const EMPTY_GRID_SOLUTION: &str =
    "123456789456789123789123456214365897365897214897214365531642978642978531978531642";

fn grid_of(text: &str) -> Vec<u8> {
    text.bytes().map(|b| b - b'0').collect()
}

#[test]
fn check_accepts_duplicate_free_grids() {
    assert!(Sudoku::new(vec![0u8; 81]).check());
    assert!(Sudoku::new(pattern_grid()).check());
    // A sparse grid with no duplicate in any row, column or block.
    let mut cells = vec![0u8; 81];
    cells[0] = 5;
    cells[1] = 3;
    cells[40] = 5;
    assert!(Sudoku::new(cells).check());
}

#[test]
fn check_rejects_row_duplicate() {
    let mut cells = vec![0u8; 81];
    cells[0] = 5;
    cells[5] = 5;
    assert!(!Sudoku::new(cells).check());
}

#[test]
fn check_rejects_column_duplicate() {
    let mut cells = vec![0u8; 81];
    cells[0] = 7;
    cells[27] = 7;
    assert!(!Sudoku::new(cells).check());
}

#[test]
fn check_rejects_block_duplicate() {
    let mut cells = vec![0u8; 81];
    cells[1] = 1;
    cells[11] = 1;
    assert!(!Sudoku::new(cells).check());
}

#[test]
fn check_twice_gives_same_result() {
    let valid = Sudoku::new(pattern_grid());
    assert_eq!(valid.check(), valid.check());
    let mut cells = vec![0u8; 81];
    cells[0] = 5;
    cells[5] = 5;
    let invalid = Sudoku::new(cells);
    assert_eq!(invalid.check(), invalid.check());
}

#[test]
fn solve_empty_grid() {
    let sudoku = Sudoku::new(vec![0u8; 81]);
    let solved = sudoku.solve().expect("the empty grid is solvable");
    assert!(solved.check());
    assert!(solved.cells.iter().all(|&v| (1..=9).contains(&v)));
    for r in 0..9 {
        let mut row: Vec<u8> = solved.cells[r * 9..r * 9 + 9].to_vec();
        row.sort();
        assert_eq!(row, vec![1, 2, 3, 4, 5, 6, 7, 8, 9]);
    }
    assert_eq!(solved.cells, grid_of(EMPTY_GRID_SOLUTION));
}

#[test]
fn solve_keeps_a_complete_grid() {
    let sudoku = Sudoku::new(pattern_grid());
    let solved = sudoku.solve().expect("a complete valid grid is solvable");
    assert_eq!(solved.cells, pattern_grid());
}

#[test]
fn solve_fills_single_missing_cell() {
    let mut cells = pattern_grid();
    let removed = cells[40];
    cells[40] = 0;
    let sudoku = Sudoku::new(cells);
    let solved = sudoku.solve().expect("one open cell with one candidate");
    assert_eq!(solved.cells[40], removed);
    assert_eq!(solved.cells, pattern_grid());
}

#[test]
fn solve_rejects_row_duplicate() {
    let mut cells = vec![0u8; 81];
    cells[2] = 5;
    cells[6] = 5;
    let sudoku = Sudoku::new(cells.clone());
    assert!(!sudoku.check());
    assert_eq!(sudoku.solve().unwrap_err(), "Sudoku is not solvable!");
    // The caller's grid is untouched by the failed solve.
    assert_eq!(sudoku.cells, cells);
}

#[test]
fn solve_keeps_fixed_cells() {
    let mut cells = vec![0u8; 81];
    cells[0] = 4;
    cells[40] = 9;
    cells[80] = 2;
    let sudoku = Sudoku::new(cells);
    let solved = sudoku.solve().expect("a three-clue grid is solvable");
    assert!(solved.check());
    assert_eq!(solved.cells[0], 4);
    assert_eq!(solved.cells[40], 9);
    assert_eq!(solved.cells[80], 2);
}

#[test]
fn solve_picks_first_completion_in_order() {
    // Only the first row is fixed, so many completions exist; the solver
    // must return the one found by ascending positions and ascending
    // digits, which here is the same grid the empty puzzle solves to.
    let mut cells = vec![0u8; 81];
    for c in 0..9 {
        cells[c] = (c + 1) as u8;
    }
    let sudoku = Sudoku::new(cells);
    let solved = sudoku.solve().expect("a one-row grid is solvable");
    assert_eq!(solved.cells, grid_of(EMPTY_GRID_SOLUTION));
}

#[test]
fn views_list_rows_columns_and_blocks() {
    let mut cells = vec![0u8; 81];
    for (i, cell) in cells.iter_mut().enumerate() {
        *cell = (i % 9) as u8 + 1;
    }
    let sudoku = Sudoku::new(cells);
    let rows = sudoku.get_rows();
    let cols = sudoku.get_cols();
    let squares = sudoku.get_squares();
    assert_eq!(rows.len(), 9);
    assert_eq!(cols.len(), 9);
    assert_eq!(squares.len(), 9);
    for r in 0..9 {
        assert_eq!(rows[r], vec![1, 2, 3, 4, 5, 6, 7, 8, 9]);
    }
    for c in 0..9 {
        assert_eq!(cols[c], vec![(c + 1) as u8; 9]);
    }
    assert_eq!(squares[0], vec![1, 2, 3, 1, 2, 3, 1, 2, 3]);
    assert_eq!(squares[5], vec![7, 8, 9, 7, 8, 9, 7, 8, 9]);
}
