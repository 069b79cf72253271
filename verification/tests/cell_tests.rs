use sudoku_solver::cell::Cell;
use sudoku_solver::cell::CellPosition;
use sudoku_solver::sudoku::Sudoku;

#[test]
fn linear_index_addressing() {
    assert_eq!(0usize.get_row(), 0);
    assert_eq!(0usize.get_col(), 0);
    assert_eq!(0usize.get_square(), 0);
    assert_eq!(40usize.get_row(), 4);
    assert_eq!(40usize.get_col(), 4);
    assert_eq!(40usize.get_square(), 4);
    assert_eq!(80usize.get_row(), 8);
    assert_eq!(80usize.get_col(), 8);
    assert_eq!(80usize.get_square(), 8);
    assert_eq!(11usize.get_row(), 1);
    assert_eq!(11usize.get_col(), 2);
    assert_eq!(11usize.get_square(), 0);
}

#[test]
fn cell_position_fields_and_offset() {
    let p = CellPosition::new(1, 2);
    assert_eq!(p.row, 1);
    assert_eq!(p.col, 2);
    assert_eq!(p.size, 9);
    assert_eq!(p.get_row(), 1);
    assert_eq!(p.get_col(), 2);
    assert_eq!(p.get_position(), 11);
    assert_eq!(CellPosition::new(4, 7).get_square(), 5);
}

#[test]
fn composed_position_maps_nested_layout() {
    // Outer block (1, 2), inner cell (0, 1) addresses global row 3, column 7.
    let idx = Sudoku::get_position(CellPosition::new(1, 2), CellPosition::new(0, 1));
    assert_eq!(idx, 3 * 9 + 7);
}

#[test]
fn composed_position_covers_grid_once() {
    let mut seen = [false; 81];
    for outer_row in 0..3 {
        for outer_col in 0..3 {
            for inner_row in 0..3 {
                for inner_col in 0..3 {
                    let idx = Sudoku::get_position(
                        CellPosition::new(outer_row, outer_col),
                        CellPosition::new(inner_row, inner_col),
                    );
                    let row = 3 * outer_row + inner_row;
                    let col = 3 * outer_col + inner_col;
                    assert_eq!(idx, row * 9 + col);
                    assert!(!seen[idx]);
                    seen[idx] = true;
                }
            }
        }
    }
    assert!(seen.iter().all(|&s| s));
}
