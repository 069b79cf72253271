//! Cell addressing: mapping a linear cell index (0..81) to its row, column
//! and 3x3 block, and composing nested block/inner coordinates back into a
//! linear index.

use vstd::prelude::*;

verus! {

/// Row of a linear cell index in a row-major 9-wide grid.
pub open spec fn row_of(i: int) -> int {
    i / 9
}

/// Column of a linear cell index in a row-major 9-wide grid.
pub open spec fn col_of(i: int) -> int {
    i % 9
}

/// Index of the 3x3 block that a linear cell index falls in.
pub open spec fn square_of(i: int) -> int {
    row_of(i) / 3 * 3 + col_of(i) / 3
}

/// Anything that addresses a cell of the grid: it has a row, a column and a
/// 3x3 block, the block being determined by the row and the column.
pub trait Cell {
    spec fn spec_row(&self) -> int;

    spec fn spec_col(&self) -> int;

    /// The block formula: three rows of blocks, three blocks per row.
    open spec fn spec_square(&self) -> int {
        self.spec_row() / 3 * 3 + self.spec_col() / 3
    }

    fn get_row(&self) -> (r: usize)
        ensures
            r == self.spec_row(),
    ;

    fn get_col(&self) -> (r: usize)
        ensures
            r == self.spec_col(),
    ;

    fn get_square(&self) -> (r: usize)
        requires
            self.spec_row() / 3 * 3 + self.spec_col() / 3 <= usize::MAX,
        ensures
            r == self.spec_square(),
    ;
}

impl Cell for usize {
    open spec fn spec_row(&self) -> int {
        row_of(*self as int)
    }

    open spec fn spec_col(&self) -> int {
        col_of(*self as int)
    }

    fn get_row(&self) -> (r: usize) {
        *self / 9
    }

    fn get_col(&self) -> (r: usize) {
        *self % 9
    }

    fn get_square(&self) -> (r: usize) {
        self.get_row() / 3 * 3 + self.get_col() / 3
    }
}

/// A (row, column) pair inside a square grid of a fixed side length.
pub struct CellPosition {
    pub row: usize,
    pub col: usize,
    pub size: usize,
}

impl Cell for CellPosition {
    open spec fn spec_row(&self) -> int {
        self.row as int
    }

    open spec fn spec_col(&self) -> int {
        self.col as int
    }

    fn get_row(&self) -> (r: usize) {
        self.row
    }

    fn get_col(&self) -> (r: usize) {
        self.col
    }

    fn get_square(&self) -> (r: usize) {
        self.row / 3 * 3 + self.col / 3
    }
}

impl CellPosition {
    /// The linear offset of this position: `row * size + col`.
    pub open spec fn spec_position(&self) -> int {
        self.row * self.size + self.col
    }

    /// A position in the standard 9-wide grid.
    pub fn new(row: usize, col: usize) -> (r: Self)
        ensures
            r.row == row,
            r.col == col,
            r.size == 9,
    {
        Self { row, col, size: 9 }
    }

    /// The linear offset of this position inside its grid.
    pub fn get_position(&self) -> (r: usize)
        requires
            self.row * self.size + self.col <= usize::MAX,
        ensures
            r == self.spec_position(),
    {
        self.row * self.size + self.col
    }
}

} // verus!
