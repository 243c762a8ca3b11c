//! The board: a 9×9 grid of cells, each with an optional digit and a note.

use crate::error::SudokuError;
use crate::position::{on_board, CellPos};
use vstd::prelude::*;

verus! {

/// What a cell holds, as contracts see it.
pub struct CellView {
    /// The digit in the cell, or `None` while the cell is unfilled.
    pub value: Option<u8>,
    /// The annotation attached to the cell.
    pub note: Seq<char>,
}

/// What a board holds, as contracts see it: rows of cells, `board[row][col]`.
pub type BoardView = Seq<Seq<CellView>>;

/// Whether `value` is an unfilled cell or one of the digits 1 to 9.
pub open spec fn cell_value_ok(value: Option<u8>) -> bool {
    value matches Some(digit) ==> 1 <= digit <= 9
}

/// Whether `board` has nine rows of nine cells, each unfilled or holding a
/// digit from 1 to 9.
pub open spec fn board_wf(board: BoardView) -> bool {
    &&& board.len() == 9
    &&& forall|r: int| 0 <= r < 9 ==> (#[trigger] board[r]).len() == 9
    &&& forall|r: int, c: int|
        0 <= r < 9 && 0 <= c < 9 ==> cell_value_ok((#[trigger] board[r][c]).value)
}

/// The board on which every cell is unfilled and carries an empty note.
pub open spec fn empty_board() -> BoardView {
    Seq::new(9, |r: int| Seq::new(9, |c: int| CellView { value: None, note: Seq::empty() }))
}

/// `board` with the value of cell `(row, col)` replaced by `value`.
pub open spec fn with_value(board: BoardView, row: int, col: int, value: Option<u8>) -> BoardView {
    board.update(row, board[row].update(col, CellView { value, note: board[row][col].note }))
}

/// `board` with the note of cell `(row, col)` replaced by `note`.
pub open spec fn with_note(board: BoardView, row: int, col: int, note: Seq<char>) -> BoardView {
    board.update(row, board[row].update(col, CellView { value: board[row][col].value, note }))
}

/// One slot of the grid.
#[derive(Debug)]
struct Cell<'a> {
    value: Option<u8>,
    note: &'a str,
}

impl<'a> View for Cell<'a> {
    type V = CellView;

    closed spec fn view(&self) -> CellView {
        CellView { value: self.value, note: self.note@ }
    }
}

/// A Sudoku board. It owns its 81 cells; a digit stored in it lies in `1..=9`.
///
/// The board does not stop a digit from being stored twice in a row, a column
/// or a sub-square: which digits are still open for a cell is answered on
/// request, not enforced.
#[derive(Debug)]
pub struct Sudoku<'a> {
    grid: Vec<Vec<Cell<'a>>>,
}

spec fn grid_view<'a>(grid: Seq<Vec<Cell<'a>>>) -> BoardView {
    Seq::new(grid.len(), |r: int| Seq::new(grid[r]@.len(), |c: int| grid[r]@[c]@))
}

fn store_value<'a>(grid: &mut Vec<Vec<Cell<'a>>>, row: usize, col: usize, value: Option<u8>)
    requires
        board_wf(grid_view(old(grid)@)),
        row < 9,
        col < 9,
    ensures
        grid_view(final(grid)@) == with_value(grid_view(old(grid)@), row as int, col as int, value),
    no_unwind
{
    assert(old(grid)@[row as int]@.len() == grid_view(old(grid)@)[row as int].len());
    grid[row][col].value = value;
    assert(grid_view(grid@) =~~= with_value(
        grid_view(old(grid)@),
        row as int,
        col as int,
        value,
    ));
}

fn store_note<'a, 'b: 'a>(grid: &mut Vec<Vec<Cell<'a>>>, row: usize, col: usize, note: &'b str)
    requires
        board_wf(grid_view(old(grid)@)),
        row < 9,
        col < 9,
    ensures
        grid_view(final(grid)@) == with_note(grid_view(old(grid)@), row as int, col as int, note@),
    no_unwind
{
    assert(old(grid)@[row as int]@.len() == grid_view(old(grid)@)[row as int].len());
    grid[row][col].note = note;
    assert(grid_view(grid@) =~~= with_note(
        grid_view(old(grid)@),
        row as int,
        col as int,
        note@,
    ));
}

/// Replacing a cell's value by an unfilled cell or a digit from 1 to 9 keeps
/// a board well formed.
pub proof fn lemma_with_value_wf(board: BoardView, row: int, col: int, value: Option<u8>)
    requires
        board_wf(board),
        on_board(row),
        on_board(col),
        cell_value_ok(value),
    ensures
        board_wf(with_value(board, row, col, value)),
{
}

/// Replacing a cell's note keeps a board well formed.
pub proof fn lemma_with_note_wf(board: BoardView, row: int, col: int, note: Seq<char>)
    requires
        board_wf(board),
        on_board(row),
        on_board(col),
    ensures
        board_wf(with_note(board, row, col, note)),
{
}

/// After a value is stored in a cell, that cell reads back the value and
/// keeps its note, and every other cell is as it was.
pub proof fn lemma_with_value_reads_back(board: BoardView, row: int, col: int, value: Option<u8>)
    requires
        board_wf(board),
        on_board(row),
        on_board(col),
    ensures
        with_value(board, row, col, value)[row][col].value == value,
        with_value(board, row, col, value)[row][col].note == board[row][col].note,
        forall|r: int, c: int|
            on_board(r) && on_board(c) && (r != row || c != col) ==> #[trigger] with_value(
                board,
                row,
                col,
                value,
            )[r][c] == board[r][c],
{
}

/// After a note is stored in a cell, that cell reads back the note and
/// keeps its value, and every other cell is as it was.
pub proof fn lemma_with_note_reads_back(board: BoardView, row: int, col: int, note: Seq<char>)
    requires
        board_wf(board),
        on_board(row),
        on_board(col),
    ensures
        with_note(board, row, col, note)[row][col].note == note,
        with_note(board, row, col, note)[row][col].value == board[row][col].value,
        forall|r: int, c: int|
            on_board(r) && on_board(c) && (r != row || c != col) ==> #[trigger] with_note(
                board,
                row,
                col,
                note,
            )[r][c] == board[r][c],
{
}

impl<'a> View for Sudoku<'a> {
    type V = BoardView;

    closed spec fn view(&self) -> BoardView {
        grid_view(self.grid@)
    }
}

impl<'a> Sudoku<'a> {
    /// Every board is well formed.
    #[verifier::type_invariant]
    pub open spec fn wf(self) -> bool {
        board_wf(self@)
    }

    /// Creates the board with 81 unfilled cells and empty notes.
    pub fn build_empty() -> (board: Self)
        ensures
            board@ == empty_board(),
    {
        let mut grid: Vec<Vec<Cell<'a>>> = Vec::new();
        for r in 0usize..9
            invariant
                grid@.len() == r,
                grid_view(grid@) == empty_board().take(r as int),
        {
            let mut line: Vec<Cell<'a>> = Vec::new();
            for c in 0usize..9
                invariant
                    line@.len() == c,
                    forall|k: int| 0 <= k < c ==> (#[trigger] line@[k])@ == (CellView {
                        value: None,
                        note: Seq::empty(),
                    }),
            {
                proof {
                    reveal_strlit("");
                }
                let cell = Cell { value: None, note: "" };
                assert(cell@.note =~= Seq::empty());
                line.push(cell);
            }
            grid.push(line);
            assert(grid_view(grid@) =~~= empty_board().take(r + 1));
        }
        Sudoku { grid }
    }

    /// Creates the board for a new puzzle that is to show
    /// `uncovered_cells_amount` digits. No digit is placed on it: whatever the
    /// amount, the board comes back with every cell unfilled.
    #[allow(unused_variables)]
    pub fn generate(uncovered_cells_amount: u8) -> (board: Self)
        ensures
            board@ == empty_board(),
    {
        let mut sudoku = Self::build_empty();
        sudoku.fill_randomly();
        sudoku
    }

    /// Passes over the cells of the board until a whole pass leaves nothing
    /// to do. A pass places no digit, so the board stays as it was.
    fn fill_randomly(&mut self)
        ensures
            final(self)@ == old(self)@,
    {
        let mut is_filled = false;
        while !is_filled
            invariant
                self@ == old(self)@,
            decreases (if is_filled { 0int } else { 1int }),
        {
            is_filled = true;
            for _row in 0usize..9 {
                for _col in 0usize..9 {
                }
            }
        }
    }

    /// Reads the cell at `(row, col)`.
    pub(crate) fn value_at(&self, row: usize, col: usize) -> (value: Option<u8>)
        requires
            row < 9,
            col < 9,
        ensures
            value == self@[row as int][col as int].value,
            cell_value_ok(value),
    {
        proof {
            use_type_invariant(self);
        }
        self.grid[row][col].value
    }

    /// Reads the digit at `pos`; `None` means that the cell is unfilled.
    pub fn get_value(&self, pos: &CellPos) -> (result: Result<Option<u8>, SudokuError>)
        ensures
            result == Ok::<Option<u8>, SudokuError>(
                self@[pos.row() as int][pos.col() as int].value,
            ),
    {
        Ok(self.value_at(pos.row(), pos.col()))
    }

    /// Reads the note at `pos`.
    pub fn get_note(&self, pos: &CellPos) -> (result: Result<&'a str, SudokuError>)
        ensures
            result matches Ok(note) && note@ == self@[pos.row() as int][pos.col() as int].note,
    {
        let row: usize = pos.row();
        let col: usize = pos.col();
        proof {
            use_type_invariant(self);
        }
        Ok(self.grid[row][col].note)
    }

    /// Stores `value` at `pos`, over whatever the cell held before. A value
    /// outside `1..=9` is refused and the board stays as it was.
    ///
    /// Whether the digit already occurs in the row, the column or the
    /// sub-square of `pos` is not looked at.
    pub fn set_value(&mut self, pos: &CellPos, value: u8) -> (result: Result<(), SudokuError>)
        ensures
            result == (if 1 <= value <= 9 {
                Ok::<(), SudokuError>(())
            } else {
                Err::<(), SudokuError>(SudokuError::InvalidDigit)
            }),
            final(self)@ == (if 1 <= value <= 9 {
                with_value(old(self)@, pos.row() as int, pos.col() as int, Some(value))
            } else {
                old(self)@
            }),
    {
        if value < 1 || value > 9 {
            return Err(SudokuError::InvalidDigit);
        }
        let row: usize = pos.row();
        let col: usize = pos.col();
        proof {
            use_type_invariant(&*self);
            lemma_with_value_wf(self@, row as int, col as int, Some(value));
        }
        store_value(&mut self.grid, row, col, Some(value));
        Ok(())
    }

    /// Clears the cell at `pos`.
    pub fn unset_value(&mut self, pos: &CellPos) -> (result: Result<(), SudokuError>)
        ensures
            result == Ok::<(), SudokuError>(()),
            final(self)@ == with_value(old(self)@, pos.row() as int, pos.col() as int, None),
    {
        let row: usize = pos.row();
        let col: usize = pos.col();
        proof {
            use_type_invariant(&*self);
            lemma_with_value_wf(self@, row as int, col as int, None);
        }
        store_value(&mut self.grid, row, col, None);
        Ok(())
    }

    /// Replaces the note at `pos` by `note`.
    pub fn set_note<'b: 'a>(&mut self, pos: &CellPos, note: &'b str) -> (result: Result<
        (),
        SudokuError,
    >)
        ensures
            result == Ok::<(), SudokuError>(()),
            final(self)@ == with_note(old(self)@, pos.row() as int, pos.col() as int, note@),
    {
        let row: usize = pos.row();
        let col: usize = pos.col();
        proof {
            use_type_invariant(&*self);
            lemma_with_note_wf(self@, row as int, col as int, note@);
        }
        store_note(&mut self.grid, row, col, note);
        Ok(())
    }
}

} // verus!
