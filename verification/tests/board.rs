use sudoku::{CellPos, Sudoku, SudokuError};

fn cell(row: usize, col: usize) -> CellPos {
    CellPos::build(row, col).unwrap()
}

#[test]
fn empty_board_has_no_digit_and_no_note() {
    let sudoku = Sudoku::build_empty();
    for row in 0..9 {
        for col in 0..9 {
            assert_eq!(sudoku.get_value(&cell(row, col)), Ok(None));
            assert_eq!(sudoku.get_note(&cell(row, col)), Ok(""));
        }
    }
}

#[test]
fn generated_board_has_every_cell_unfilled() {
    for amount in [0u8, 17, 81, 255] {
        let sudoku = Sudoku::generate(amount);
        for row in 0..9 {
            for col in 0..9 {
                assert_eq!(sudoku.get_value(&cell(row, col)), Ok(None));
                assert_eq!(sudoku.get_note(&cell(row, col)), Ok(""));
            }
        }
    }
}

#[test]
fn set_value_is_read_back() {
    let mut sudoku = Sudoku::build_empty();
    let pos = cell(4, 7);
    assert_eq!(sudoku.set_value(&pos, 6), Ok(()));
    assert_eq!(sudoku.get_value(&pos), Ok(Some(6)));
}

#[test]
fn set_value_accepts_one_and_nine() {
    let mut sudoku = Sudoku::build_empty();
    assert_eq!(sudoku.set_value(&cell(0, 0), 1), Ok(()));
    assert_eq!(sudoku.set_value(&cell(8, 8), 9), Ok(()));
    assert_eq!(sudoku.get_value(&cell(0, 0)), Ok(Some(1)));
    assert_eq!(sudoku.get_value(&cell(8, 8)), Ok(Some(9)));
}

#[test]
fn set_value_accepts_each_digit_in_each_cell() {
    let mut sudoku = Sudoku::build_empty();
    for row in 0..9usize {
        for col in 0..9usize {
            let digit = ((row * 9 + col) % 9 + 1) as u8;
            assert_eq!(sudoku.set_value(&cell(row, col), digit), Ok(()));
        }
    }
    for row in 0..9usize {
        for col in 0..9usize {
            let digit = ((row * 9 + col) % 9 + 1) as u8;
            assert_eq!(sudoku.get_value(&cell(row, col)), Ok(Some(digit)));
        }
    }
}

#[test]
fn set_value_refuses_zero_and_ten_and_keeps_the_cell() {
    let mut sudoku = Sudoku::build_empty();
    let pos = cell(2, 5);

    assert_eq!(sudoku.set_value(&pos, 0), Err(SudokuError::InvalidDigit));
    assert_eq!(sudoku.get_value(&pos), Ok(None));
    assert_eq!(sudoku.set_value(&pos, 10), Err(SudokuError::InvalidDigit));
    assert_eq!(sudoku.get_value(&pos), Ok(None));

    assert_eq!(sudoku.set_value(&pos, 4), Ok(()));
    assert_eq!(sudoku.set_value(&pos, 0), Err(SudokuError::InvalidDigit));
    assert_eq!(sudoku.get_value(&pos), Ok(Some(4)));
    assert_eq!(sudoku.set_value(&pos, 10), Err(SudokuError::InvalidDigit));
    assert_eq!(sudoku.get_value(&pos), Ok(Some(4)));
    assert_eq!(sudoku.set_value(&pos, 255), Err(SudokuError::InvalidDigit));
    assert_eq!(sudoku.get_value(&pos), Ok(Some(4)));
}

#[test]
fn set_value_refuses_every_value_above_nine() {
    let mut sudoku = Sudoku::build_empty();
    let pos = cell(6, 1);
    for value in 10..=255u8 {
        assert_eq!(sudoku.set_value(&pos, value), Err(SudokuError::InvalidDigit));
    }
    assert_eq!(sudoku.get_value(&pos), Ok(None));
}

#[test]
fn set_value_overwrites_the_earlier_digit() {
    let mut sudoku = Sudoku::build_empty();
    let pos = cell(3, 3);
    assert_eq!(sudoku.set_value(&pos, 2), Ok(()));
    assert_eq!(sudoku.set_value(&pos, 8), Ok(()));
    assert_eq!(sudoku.get_value(&pos), Ok(Some(8)));
}

#[test]
fn set_value_changes_no_other_cell() {
    let mut sudoku = Sudoku::build_empty();
    assert_eq!(sudoku.set_value(&cell(1, 1), 3), Ok(()));
    assert_eq!(sudoku.set_note(&cell(1, 1), "kept"), Ok(()));
    assert_eq!(sudoku.set_value(&cell(1, 2), 7), Ok(()));
    for row in 0..9 {
        for col in 0..9 {
            let expected = match (row, col) {
                (1, 1) => Some(3),
                (1, 2) => Some(7),
                _ => None,
            };
            assert_eq!(sudoku.get_value(&cell(row, col)), Ok(expected));
        }
    }
    assert_eq!(sudoku.get_note(&cell(1, 1)), Ok("kept"));
    assert_eq!(sudoku.get_note(&cell(1, 2)), Ok(""));
}

#[test]
fn set_value_may_repeat_a_digit_in_a_region() {
    let mut sudoku = Sudoku::build_empty();
    assert_eq!(sudoku.set_value(&cell(0, 0), 5), Ok(()));
    assert_eq!(sudoku.set_value(&cell(0, 1), 5), Ok(()));
    assert_eq!(sudoku.set_value(&cell(1, 0), 5), Ok(()));
    assert_eq!(sudoku.get_value(&cell(0, 0)), Ok(Some(5)));
    assert_eq!(sudoku.get_value(&cell(0, 1)), Ok(Some(5)));
    assert_eq!(sudoku.get_value(&cell(1, 0)), Ok(Some(5)));
}

#[test]
fn unset_value_leaves_the_cell_unfilled() {
    let mut sudoku = Sudoku::build_empty();
    let pos = cell(5, 2);
    assert_eq!(sudoku.set_value(&pos, 9), Ok(()));
    assert_eq!(sudoku.unset_value(&pos), Ok(()));
    assert_eq!(sudoku.get_value(&pos), Ok(None));
    assert_eq!(sudoku.unset_value(&pos), Ok(()));
    assert_eq!(sudoku.get_value(&pos), Ok(None));
}

#[test]
fn unset_value_keeps_the_note_and_the_other_cells() {
    let mut sudoku = Sudoku::build_empty();
    assert_eq!(sudoku.set_value(&cell(5, 2), 9), Ok(()));
    assert_eq!(sudoku.set_note(&cell(5, 2), "1 or 9"), Ok(()));
    assert_eq!(sudoku.set_value(&cell(5, 3), 1), Ok(()));
    assert_eq!(sudoku.unset_value(&cell(5, 2)), Ok(()));
    assert_eq!(sudoku.get_value(&cell(5, 2)), Ok(None));
    assert_eq!(sudoku.get_note(&cell(5, 2)), Ok("1 or 9"));
    assert_eq!(sudoku.get_value(&cell(5, 3)), Ok(Some(1)));
}

#[test]
fn set_note_is_read_back_and_leaves_values_alone() {
    let mut sudoku = Sudoku::build_empty();
    let pos = cell(8, 0);
    assert_eq!(sudoku.set_value(&pos, 2), Ok(()));
    assert_eq!(sudoku.set_note(&pos, "2? 4?"), Ok(()));
    assert_eq!(sudoku.get_note(&pos), Ok("2? 4?"));
    assert_eq!(sudoku.get_value(&pos), Ok(Some(2)));
    assert_eq!(sudoku.set_note(&pos, ""), Ok(()));
    assert_eq!(sudoku.get_note(&pos), Ok(""));
    assert_eq!(sudoku.get_note(&cell(8, 1)), Ok(""));
    assert_eq!(sudoku.available_values_for(&cell(0, 8)), vec![1, 2, 3, 4, 5, 6, 7, 8, 9]);
}

#[test]
fn set_note_takes_a_note_that_lives_as_long_as_the_board() {
    let note = String::from("pencil: 3 7");
    let mut sudoku = Sudoku::build_empty();
    assert_eq!(sudoku.set_note(&cell(4, 4), note.as_str()), Ok(()));
    assert_eq!(sudoku.get_note(&cell(4, 4)), Ok("pencil: 3 7"));
}
