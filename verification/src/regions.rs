//! The three regions of a cell (its column, its row and its 3×3 sub-square)
//! and the digits that stand in them.

use crate::board::{BoardView, Sudoku};
use crate::position::{block_start, CellPos};
use vstd::prelude::*;

verus! {

/// The nine cells of column `col`, from the top row down.
pub open spec fn column_cells(board: BoardView, col: int) -> Seq<Option<u8>> {
    Seq::new(9, |r: int| board[r][col].value)
}

/// The nine cells of row `row`, from the left column on.
pub open spec fn row_cells(board: BoardView, row: int) -> Seq<Option<u8>> {
    Seq::new(9, |c: int| board[row][c].value)
}

/// The nine cells of the sub-square that holds `(row, col)`, row by row.
pub open spec fn minisquare_cells(board: BoardView, row: int, col: int) -> Seq<Option<u8>> {
    Seq::new(9, |k: int| board[block_start(row) + k / 3][block_start(col) + k % 3].value)
}

/// The digits of the filled cells among `cells`, in the order of the cells.
/// A digit that stands in two cells is listed twice.
pub open spec fn digits_of(cells: Seq<Option<u8>>) -> Seq<u8>
    decreases cells.len(),
{
    if cells.len() == 0 {
        Seq::empty()
    } else {
        let before = digits_of(cells.drop_last());
        match cells.last() {
            Some(digit) => before.push(digit),
            None => before,
        }
    }
}

/// The digits of the first `n + 1` cells are those of the first `n` cells,
/// followed by the digit of cell `n` if that cell is filled.
proof fn lemma_digits_of_next(cells: Seq<Option<u8>>, n: int)
    requires
        0 <= n < cells.len(),
    ensures
        digits_of(cells.take(n + 1)) == match cells[n] {
            Some(digit) => digits_of(cells.take(n)).push(digit),
            None => digits_of(cells.take(n)),
        },
{
    assert(cells.take(n + 1).drop_last() =~= cells.take(n));
}

/// A region lists no more digits than it has cells, and it lists a digit
/// exactly when one of its cells holds that digit.
pub proof fn lemma_digits_of_cells(cells: Seq<Option<u8>>)
    ensures
        digits_of(cells).len() <= cells.len(),
        forall|digit: u8|
            digits_of(cells).contains(digit) <==> exists|i: int|
                0 <= i < cells.len() && #[trigger] cells[i] == Some(digit),
    decreases cells.len(),
{
    if cells.len() > 0 {
        let front = cells.drop_last();
        let listed = digits_of(cells);
        lemma_digits_of_cells(front);
        assert forall|digit: u8|
            listed.contains(digit) <==> exists|i: int|
                0 <= i < cells.len() && #[trigger] cells[i] == Some(digit) by {
            if listed.contains(digit) {
                let at = choose|at: int| 0 <= at < listed.len() && listed[at] == digit;
                if at < digits_of(front).len() {
                    assert(digits_of(front)[at] == digit);
                    assert(digits_of(front).contains(digit));
                    let i = choose|i: int| 0 <= i < front.len() && #[trigger] front[i] == Some(digit);
                    assert(cells[i] == Some(digit));
                } else {
                    assert(cells[cells.len() - 1] == Some(digit));
                }
            }
            if exists|i: int| 0 <= i < cells.len() && #[trigger] cells[i] == Some(digit) {
                let i = choose|i: int| 0 <= i < cells.len() && #[trigger] cells[i] == Some(digit);
                if i < front.len() {
                    assert(front[i] == Some(digit));
                    assert(digits_of(front).contains(digit));
                    let at = choose|at: int|
                        0 <= at < digits_of(front).len() && digits_of(front)[at] == digit;
                    assert(listed[at] == digit);
                } else {
                    assert(listed[listed.len() - 1] == digit);
                }
            }
        }
    }
}

impl<'a> Sudoku<'a> {
    /// The digits that stand in the column of `pos`, from the top row down.
    pub fn column_values_for(&self, pos: &CellPos) -> (values: Vec<u8>)
        ensures
            values@ == digits_of(column_cells(self@, pos.col() as int)),
            values@.len() <= 9,
    {
        let col: usize = pos.col();
        let ghost cells = column_cells(self@, col as int);
        let mut values: Vec<u8> = Vec::with_capacity(9);
        for row in 0usize..9
            invariant
                col < 9,
                cells == column_cells(self@, col as int),
                values@ == digits_of(cells.take(row as int)),
        {
            proof {
                lemma_digits_of_next(cells, row as int);
            }
            if let Some(value) = self.value_at(row, col) {
                values.push(value);
            }
        }
        proof {
            assert(cells.take(9) =~= cells);
            lemma_digits_of_cells(cells);
        }
        values
    }

    /// The digits that stand in the row of `pos`, from the left column on.
    pub fn row_values_for(&self, pos: &CellPos) -> (values: Vec<u8>)
        ensures
            values@ == digits_of(row_cells(self@, pos.row() as int)),
            values@.len() <= 9,
    {
        let row: usize = pos.row();
        let ghost cells = row_cells(self@, row as int);
        let mut values: Vec<u8> = Vec::with_capacity(9);
        for col in 0usize..9
            invariant
                row < 9,
                cells == row_cells(self@, row as int),
                values@ == digits_of(cells.take(col as int)),
        {
            proof {
                lemma_digits_of_next(cells, col as int);
            }
            if let Some(value) = self.value_at(row, col) {
                values.push(value);
            }
        }
        proof {
            assert(cells.take(9) =~= cells);
            lemma_digits_of_cells(cells);
        }
        values
    }

    /// The digits that stand in the sub-square of `pos`, row by row.
    pub fn minisquare_values_for(&self, pos: &CellPos) -> (values: Vec<u8>)
        ensures
            values@ == digits_of(minisquare_cells(self@, pos.row() as int, pos.col() as int)),
            values@.len() <= 9,
    {
        let bounds = Self::calculate_minisquare_bounds(pos);
        let top: usize = bounds.top_left.row();
        let left: usize = bounds.top_left.col();
        let bottom: usize = bounds.bottom_right.row();
        let right: usize = bounds.bottom_right.col();
        let ghost cells = minisquare_cells(self@, pos.row() as int, pos.col() as int);
        let mut values: Vec<u8> = Vec::with_capacity(9);
        for row in top..bottom + 1
            invariant
                top == block_start(pos.row() as int),
                left == block_start(pos.col() as int),
                bottom == top + 2,
                right == left + 2,
                bottom < 9,
                right < 9,
                cells == minisquare_cells(self@, pos.row() as int, pos.col() as int),
                values@ == digits_of(cells.take(3 * (row - top))),
        {
            for col in left..right + 1
                invariant
                    top == block_start(pos.row() as int),
                    left == block_start(pos.col() as int),
                    right == left + 2,
                    right < 9,
                    top <= row < top + 3,
                    row < 9,
                    cells == minisquare_cells(self@, pos.row() as int, pos.col() as int),
                    values@ == digits_of(cells.take(3 * (row - top) + (col - left))),
            {
                proof {
                    lemma_digits_of_next(cells, 3 * (row - top) + (col - left));
                }
                if let Some(value) = self.value_at(row, col) {
                    values.push(value);
                }
            }
        }
        proof {
            assert(cells.take(9) =~= cells);
            lemma_digits_of_cells(cells);
        }
        values
    }
}

} // verus!
