//! Validated board coordinates and the geometry of the 3×3 sub-squares.

use crate::board::Sudoku;
use crate::error::SudokuError;
use vstd::prelude::*;

verus! {

/// A coordinate on the board. Both indices lie in `0..=8`: no other position
/// can be built, and a position never changes once it exists.
#[derive(Debug, Clone, Copy, PartialEq, Eq, Structural)]
pub struct CellPos {
    row: usize,
    col: usize,
}

/// The corners of a 3×3 sub-square, both inclusive.
#[derive(Debug, Clone, Copy, PartialEq, Eq, Structural)]
pub struct MiniSquareBounds {
    pub top_left: CellPos,
    pub bottom_right: CellPos,
}

/// Whether `index` can address a row or a column of the board.
pub open spec fn on_board(index: int) -> bool {
    0 <= index <= 8
}

/// The first row (or column) of the sub-square that row (or column) `index`
/// runs through.
pub open spec fn block_start(index: int) -> int {
    index / 3 * 3
}

/// Whether the cell `(r, c)` lies in the sub-square that holds `(row, col)`.
pub open spec fn in_block_of(row: int, col: int, r: int, c: int) -> bool {
    &&& block_start(row) <= r <= block_start(row) + 2
    &&& block_start(col) <= c <= block_start(col) + 2
}

/// Whether `(row, col)` is the top-left cell of a sub-square.
pub open spec fn is_block_corner(row: int, col: int) -> bool {
    on_board(row) && on_board(col) && row % 3 == 0 && col % 3 == 0
}

/// The top-left cells of all sub-squares.
pub open spec fn block_corners() -> Set<(int, int)> {
    Set::new(|cell: (int, int)| is_block_corner(cell.0, cell.1))
}

/// The cells of the sub-square that holds `(row, col)`.
pub open spec fn minisquare_positions(row: int, col: int) -> Set<(int, int)> {
    Set::new(|cell: (int, int)| in_block_of(row, col, cell.0, cell.1))
}

/// The sub-squares of the corner cells tile the board: every cell lies in the
/// sub-square of exactly one corner cell, the one at the start of its own
/// sub-square. So no cell is left out and no two sub-squares overlap.
pub proof fn lemma_minisquares_partition_board(r: int, c: int)
    requires
        on_board(r),
        on_board(c),
    ensures
        is_block_corner(block_start(r), block_start(c)),
        in_block_of(block_start(r), block_start(c), r, c),
        forall|row: int, col: int|
            is_block_corner(row, col) ==> (#[trigger] in_block_of(row, col, r, c) <==> row
                == block_start(r) && col == block_start(c)),
{
}

/// Two cells of the board lie in one sub-square exactly when their
/// sub-squares start at the same row and the same column.
pub proof fn lemma_in_block_iff_same_start(row: int, col: int, r: int, c: int)
    requires
        on_board(row),
        on_board(col),
        on_board(r),
        on_board(c),
    ensures
        in_block_of(row, col, r, c) <==> block_start(r) == block_start(row) && block_start(c)
            == block_start(col),
{
}

/// The board has nine sub-squares: there are nine corner cells.
pub proof fn lemma_nine_block_corners()
    ensures
        block_corners().finite(),
        block_corners().len() == 9,
{
    let listed = set![
        (0int, 0int),
        (0int, 3int),
        (0int, 6int),
        (3int, 0int),
        (3int, 3int),
        (3int, 6int),
        (6int, 0int),
        (6int, 3int),
        (6int, 6int),
    ];
    assert(block_corners() =~= listed);
}

/// A sub-square has nine cells, and all of them are cells of the board.
pub proof fn lemma_minisquare_has_nine_cells(row: int, col: int)
    requires
        on_board(row),
        on_board(col),
    ensures
        minisquare_positions(row, col).finite(),
        minisquare_positions(row, col).len() == 9,
        forall|cell: (int, int)| #[trigger]
            minisquare_positions(row, col).contains(cell) ==> on_board(cell.0) && on_board(
                cell.1,
            ),
{
    let top = block_start(row);
    let left = block_start(col);
    let listed = set![
        (top, left),
        (top, left + 1),
        (top, left + 2),
        (top + 1, left),
        (top + 1, left + 1),
        (top + 1, left + 2),
        (top + 2, left),
        (top + 2, left + 1),
        (top + 2, left + 2),
    ];
    assert(minisquare_positions(row, col) =~= listed);
}

impl CellPos {
    /// Both indices address the board.
    #[verifier::type_invariant]
    pub open spec fn wf(self) -> bool {
        on_board(self.row() as int) && on_board(self.col() as int)
    }

    /// The row index, as contracts see it.
    pub closed spec fn spec_row(&self) -> usize {
        self.row
    }

    /// The column index, as contracts see it.
    pub closed spec fn spec_col(&self) -> usize {
        self.col
    }

    /// The zero-based row index.
    #[verifier::when_used_as_spec(spec_row)]
    pub fn row(&self) -> (row: usize)
        ensures
            row == self.spec_row(),
            on_board(row as int),
    {
        proof {
            use_type_invariant(self);
        }
        self.row
    }

    /// The zero-based column index.
    #[verifier::when_used_as_spec(spec_col)]
    pub fn col(&self) -> (col: usize)
        ensures
            col == self.spec_col(),
            on_board(col as int),
    {
        proof {
            use_type_invariant(self);
        }
        self.col
    }

    /// Builds the position `(row, col)`, or refuses it when either index is
    /// greater than 8.
    pub fn build(row: usize, col: usize) -> (result: Result<CellPos, SudokuError>)
        ensures
            match result {
                Ok(pos) => row <= 8 && col <= 8 && pos.row() == row && pos.col() == col,
                Err(e) => (row > 8 || col > 8) && e == SudokuError::IndexOutOfRange,
            },
    {
        Self::validate_sudoku_indexes(row, col)?;
        Ok(CellPos { row, col })
    }

    /// Accepts a pair of indices exactly when both are at most 8.
    pub fn validate_sudoku_indexes(row: usize, col: usize) -> (result: Result<(), SudokuError>)
        ensures
            result == (if row <= 8 && col <= 8 {
                Ok::<(), SudokuError>(())
            } else {
                Err::<(), SudokuError>(SudokuError::IndexOutOfRange)
            }),
    {
        if row > 8 || col > 8 {
            return Err(SudokuError::IndexOutOfRange);
        }
        Ok(())
    }
}

impl MiniSquareBounds {
    /// Whether the cell `(r, c)` lies between the two corners.
    pub open spec fn contains(self, r: int, c: int) -> bool {
        &&& self.top_left.row() <= r <= self.bottom_right.row()
        &&& self.top_left.col() <= c <= self.bottom_right.col()
    }
}

impl<'a> Sudoku<'a> {
    /// The corners of the 3×3 sub-square that holds `pos`.
    pub fn calculate_minisquare_bounds(pos: &CellPos) -> (bounds: MiniSquareBounds)
        ensures
            bounds.top_left.row() == block_start(pos.row() as int),
            bounds.top_left.col() == block_start(pos.col() as int),
            bounds.bottom_right.row() == bounds.top_left.row() + 2,
            bounds.bottom_right.col() == bounds.top_left.col() + 2,
            bounds.top_left.row() % 3 == 0,
            bounds.top_left.col() % 3 == 0,
            bounds.contains(pos.row() as int, pos.col() as int),
            forall|r: int, c: int|
                bounds.contains(r, c) <==> in_block_of(pos.row() as int, pos.col() as int, r, c),
    {
        let top: usize = pos.row() / 3 * 3;
        let left: usize = pos.col() / 3 * 3;
        let bottom: usize = top + 2;
        let right: usize = left + 2;
        MiniSquareBounds {
            top_left: CellPos { row: top, col: left },
            bottom_right: CellPos { row: bottom, col: right },
        }
    }
}

} // verus!
