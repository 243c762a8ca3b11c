//! The candidate engine: the digits that the row, the column and the
//! sub-square of a cell still leave open.

use crate::board::{board_wf, cell_value_ok, BoardView, Sudoku};
use crate::position::{block_start, in_block_of, on_board, CellPos};
use crate::regions::{column_cells, digits_of, lemma_digits_of_cells, minisquare_cells, row_cells};
use vstd::prelude::*;

verus! {

/// The digits 1 to 9.
pub open spec fn all_digits() -> Set<u8> {
    Set::new(|digit: u8| 1 <= digit <= 9)
}

/// The digits that can go into cell `(row, col)` without repeating a digit of
/// its column, its row or its sub-square: all nine digits, less those that
/// stand in one of the three regions.
///
/// This looks at the three regions only. It does not say whether the rest of
/// the board can still be completed once such a digit is placed.
pub open spec fn candidates(board: BoardView, row: int, col: int) -> Set<u8> {
    all_digits().difference(digits_of(column_cells(board, col)).to_set()).difference(
        digits_of(row_cells(board, row)).to_set(),
    ).difference(digits_of(minisquare_cells(board, row, col)).to_set())
}

/// Whether the cells `(row, col)` and `(r, c)` lie in one row, one column or
/// one sub-square.
pub open spec fn shares_region(row: int, col: int, r: int, c: int) -> bool {
    r == row || c == col || in_block_of(row, col, r, c)
}

/// Whether `values` lists digits in strictly rising order.
pub open spec fn strictly_ascending(values: Seq<u8>) -> bool {
    forall|i: int, j: int| 0 <= i < j < values.len() ==> values[i] < values[j]
}

/// On a well-formed board, whatever is listed for a column, a row or a
/// sub-square is a digit from 1 to 9.
pub proof fn lemma_region_digits_in_range(board: BoardView, row: int, col: int)
    requires
        board_wf(board),
        on_board(row),
        on_board(col),
    ensures
        digits_of(column_cells(board, col)).to_set().subset_of(all_digits()),
        digits_of(row_cells(board, row)).to_set().subset_of(all_digits()),
        digits_of(minisquare_cells(board, row, col)).to_set().subset_of(all_digits()),
{
    let column = column_cells(board, col);
    let line = row_cells(board, row);
    let square = minisquare_cells(board, row, col);
    lemma_digits_of_cells(column);
    lemma_digits_of_cells(line);
    lemma_digits_of_cells(square);
    assert forall|digit: u8| digits_of(column).contains(digit) implies 1 <= digit <= 9 by {
        let r = choose|r: int| 0 <= r < 9 && #[trigger] column[r] == Some(digit);
        assert(cell_value_ok(board[r][col].value));
    }
    assert forall|digit: u8| digits_of(line).contains(digit) implies 1 <= digit <= 9 by {
        let c = choose|c: int| 0 <= c < 9 && #[trigger] line[c] == Some(digit);
        assert(cell_value_ok(board[row][c].value));
    }
    assert forall|digit: u8| digits_of(square).contains(digit) implies 1 <= digit <= 9 by {
        let k = choose|k: int| 0 <= k < 9 && #[trigger] square[k] == Some(digit);
        assert(cell_value_ok(board[block_start(row) + k / 3][block_start(col) + k % 3].value));
    }
}

/// The candidates of a cell are digits from 1 to 9, and the digits from 1 to 9
/// that are no candidates are exactly those that stand in the cell's column,
/// row or sub-square.
pub proof fn lemma_candidates_complement(board: BoardView, row: int, col: int)
    requires
        board_wf(board),
        on_board(row),
        on_board(col),
    ensures
        candidates(board, row, col).subset_of(all_digits()),
        all_digits().difference(candidates(board, row, col)) == digits_of(
            column_cells(board, col),
        ).to_set().union(digits_of(row_cells(board, row)).to_set()).union(
            digits_of(minisquare_cells(board, row, col)).to_set(),
        ),
{
    lemma_region_digits_in_range(board, row, col);
}

/// A digit is a candidate for a cell exactly when it lies in `1..=9` and no
/// cell of the board that shares a row, a column or a sub-square with that
/// cell holds it.
pub proof fn lemma_candidates_are_unused_digits(board: BoardView, row: int, col: int, digit: u8)
    requires
        on_board(row),
        on_board(col),
    ensures
        candidates(board, row, col).contains(digit) <==> (1 <= digit <= 9 && forall|r: int, c: int|
            on_board(r) && on_board(c) && shares_region(row, col, r, c) ==> (
            #[trigger] board[r][c]).value != Some(digit)),
{
    let column = column_cells(board, col);
    let line = row_cells(board, row);
    let square = minisquare_cells(board, row, col);
    lemma_digits_of_cells(column);
    lemma_digits_of_cells(line);
    lemma_digits_of_cells(square);
    let unused = forall|r: int, c: int|
        on_board(r) && on_board(c) && shares_region(row, col, r, c) ==> (
        #[trigger] board[r][c]).value != Some(digit);
    if candidates(board, row, col).contains(digit) {
        // A cell of one of the three regions that held the digit would make
        // that region list it.
        assert forall|r: int, c: int|
            on_board(r) && on_board(c) && shares_region(row, col, r, c) implies (
            #[trigger] board[r][c]).value != Some(digit) by {
            if board[r][c].value == Some(digit) {
                if c == col {
                    assert(column[r] == Some(digit));
                } else if r == row {
                    assert(line[c] == Some(digit));
                } else {
                    let k = 3 * (r - block_start(row)) + (c - block_start(col));
                    assert(square[k] == Some(digit));
                }
            }
        }
    }
    if 1 <= digit <= 9 && unused {
        // A region that listed the digit would have a cell that holds it.
        if digits_of(column).contains(digit) {
            let r = choose|r: int| 0 <= r < 9 && #[trigger] column[r] == Some(digit);
            assert(board[r][col].value == Some(digit));
        }
        if digits_of(line).contains(digit) {
            let c = choose|c: int| 0 <= c < 9 && #[trigger] line[c] == Some(digit);
            assert(board[row][c].value == Some(digit));
        }
        if digits_of(square).contains(digit) {
            let k = choose|k: int| 0 <= k < 9 && #[trigger] square[k] == Some(digit);
            let r = block_start(row) + k / 3;
            let c = block_start(col) + k % 3;
            assert(in_block_of(row, col, r, c));
            assert(board[r][c].value == Some(digit));
        }
    }
}

/// A list that got one more digit holds that digit and what it held before.
proof fn lemma_push_contains(list: Seq<u8>, last: u8)
    ensures
        forall|digit: u8| list.push(last).contains(digit) <==> (list.contains(digit) || digit == last),
{
    let longer = list.push(last);
    assert forall|digit: u8| longer.contains(digit) <==> (list.contains(digit) || digit
        == last) by {
        if list.contains(digit) {
            let i = choose|i: int| 0 <= i < list.len() && list[i] == digit;
            assert(longer[i] == digit);
        }
        if digit == last {
            assert(longer[list.len() as int] == digit);
        }
    }
}

/// Marks every digit listed in `taken` as no longer open.
fn strike_out(open: &mut Vec<bool>, taken: &Vec<u8>)
    requires
        old(open)@.len() == 10,
        forall|i: int| 0 <= i < taken@.len() ==> taken@[i] <= 9,
    ensures
        final(open)@.len() == 10,
        forall|digit: u8|
            digit <= 9 ==> #[trigger] final(open)@[digit as int] == (old(open)@[digit as int]
                && !taken@.contains(digit)),
{
    for n in 0usize..taken.len()
        invariant
            open@.len() == 10,
            forall|i: int| 0 <= i < taken@.len() ==> taken@[i] <= 9,
            forall|digit: u8|
                digit <= 9 ==> #[trigger] open@[digit as int] == (old(open)@[digit as int]
                    && !taken@.take(n as int).contains(digit)),
    {
        let digit: u8 = taken[n];
        open[digit as usize] = false;
        proof {
            assert(taken@.take(n + 1) =~= taken@.take(n as int).push(digit));
            lemma_push_contains(taken@.take(n as int), digit);
        }
    }
    assert(taken@.take(taken@.len() as int) =~= taken@);
}

impl<'a> Sudoku<'a> {
    /// The digits that can go into `pos` without repeating a digit of its
    /// column, its row or its sub-square, in rising order.
    pub fn available_values_for(&self, pos: &CellPos) -> (values: Vec<u8>)
        ensures
            values@.to_set() == candidates(self@, pos.row() as int, pos.col() as int),
            strictly_ascending(values@),
            forall|i: int| 0 <= i < values@.len() ==> 1 <= #[trigger] values@[i] <= 9,
    {
        let column = self.column_values_for(pos);
        let line = self.row_values_for(pos);
        let square = self.minisquare_values_for(pos);
        proof {
            use_type_invariant(self);
            use_type_invariant(pos);
            lemma_region_digits_in_range(self@, pos.row() as int, pos.col() as int);
            assert forall|i: int| 0 <= i < column@.len() implies column@[i] <= 9 by {
                assert(column@.to_set().contains(column@[i]));
            }
            assert forall|i: int| 0 <= i < line@.len() implies line@[i] <= 9 by {
                assert(line@.to_set().contains(line@[i]));
            }
            assert forall|i: int| 0 <= i < square@.len() implies square@[i] <= 9 by {
                assert(square@.to_set().contains(square@[i]));
            }
        }
        let mut open: Vec<bool> = vec![true; 10];
        strike_out(&mut open, &column);
        strike_out(&mut open, &line);
        strike_out(&mut open, &square);

        let ghost wanted = candidates(self@, pos.row() as int, pos.col() as int);
        assert(forall|d: u8| 1 <= d <= 9 ==> (#[trigger] open@[d as int] <==> wanted.contains(d)));
        let mut values: Vec<u8> = Vec::new();
        let mut digit: u8 = 1;
        while digit <= 9
            invariant
                1 <= digit <= 10,
                open@.len() == 10,
                forall|d: u8| 1 <= d <= 9 ==> (#[trigger] open@[d as int] <==> wanted.contains(d)),
                wanted.subset_of(all_digits()),
                strictly_ascending(values@),
                forall|i: int| 0 <= i < values@.len() ==> values@[i] < digit,
                forall|d: u8| values@.contains(d) <==> (d < digit && wanted.contains(d)),
            decreases 10 - digit,
        {
            if open[digit as usize] {
                proof {
                    lemma_push_contains(values@, digit);
                }
                values.push(digit);
            }
            digit += 1;
        }
        proof {
            assert forall|i: int| 0 <= i < values@.len() implies 1 <= #[trigger] values@[i]
                <= 9 by {
                assert(all_digits().contains(values@[i]));
            }
        }
        values
    }
}

} // verus!
