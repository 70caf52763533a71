use schiebepuzzle_solver::reading::validate_input;
use schiebepuzzle_solver::reading::validate_line;
use schiebepuzzle_solver::text::InputError;
use schiebepuzzle_solver::PuzzleState;

#[test]
fn test_as_string_writes_rows_as_lines() {
    let state = PuzzleState::new([[1, 0, 2], [3, 4, 5], [6, 7, 8]]);
    assert_eq!(state.as_string(), "1 0 2\n3 4 5\n6 7 8");
    let wide = PuzzleState::new([[1, 2, 3, 4], [5, 6, 7, 8], [9, 10, 11, 12], [13, 14, 15, 0]]);
    assert_eq!(wide.as_string(), "1 2 3 4\n5 6 7 8\n9 10 11 12\n13 14 15 0");
    assert_eq!(PuzzleState::new([[100, 255], [9, 10]]).as_string(), "100 255\n9 10");
    assert_eq!(PuzzleState::new([[0]]).as_string(), "0");
    assert_eq!(PuzzleState::from_cells(0, vec![]).unwrap().as_string(), "");
}

#[test]
fn test_text_round_trip() {
    let boards = [
        PuzzleState::new([[1, 0, 2], [3, 4, 5], [6, 7, 8]]),
        PuzzleState::new([[8, 7, 6], [5, 4, 3], [2, 1, 0]]),
        PuzzleState::new([[200, 13], [0, 99]]),
        PuzzleState::new([[0]]),
        PuzzleState::from_cells(0, vec![]).unwrap(),
        PuzzleState::from_cells(16, (0..=255).collect()).unwrap(),
    ];
    for state in boards {
        assert_eq!(PuzzleState::from_string(&state.as_string()), state);
        assert_eq!(PuzzleState::parse(&state.as_string()), Some(state));
    }
}

#[test]
fn test_parse_accepts_blanks_and_a_last_line_feed() {
    let plain = PuzzleState::new([[1, 0], [2, 3]]);
    assert_eq!(PuzzleState::parse("1 0\n2 3\n"), Some(plain.clone()));
    assert_eq!(PuzzleState::parse("  1\t0 \n2   3"), Some(plain.clone()));
    assert_eq!(PuzzleState::parse("1 0\r\n2 3\r\n"), Some(plain.clone()));
    assert_eq!(PuzzleState::parse("+1 00\n02 3"), Some(plain));
    assert_eq!(PuzzleState::parse("").unwrap().side(), 0);
    assert_eq!(PuzzleState::parse("7").unwrap().cells(), &vec![7]);
}

#[test]
fn test_parse_refuses_what_is_no_board() {
    assert_eq!(PuzzleState::parse("1 0\n2"), None);
    assert_eq!(PuzzleState::parse("1 0 2\n3 4 5"), None);
    assert_eq!(PuzzleState::parse("1 0\n2 x"), None);
    assert_eq!(PuzzleState::parse("1 0\n2 256"), None);
    assert_eq!(PuzzleState::parse("1 0\n2 -3"), None);
    assert_eq!(PuzzleState::parse("1 0\n\n2 3"), None);
    assert_eq!(PuzzleState::parse("\n"), None);
    assert_eq!(PuzzleState::parse("1 0\n2 +"), None);
    assert_eq!(PuzzleState::parse("1 0\n2 99999999999999999999"), None);
    let tall: String = (0..17).map(|_| "0 0 0 0 0 0 0 0 0 0 0 0 0 0 0 0 0\n").collect();
    assert_eq!(PuzzleState::parse(&tall), None);
}

#[test]
fn test_validate_line_accepts_a_row() {
    assert_eq!(validate_line("1 2 3 4", 4), Ok(()));
    assert_eq!(validate_line("  15   0 7\t9 ", 4), Ok(()));
    assert_eq!(validate_line("0 8 3", 3), Ok(()));
    assert_eq!(validate_line("", 0), Ok(()));
}

#[test]
fn test_validate_line_names_what_is_wrong() {
    assert_eq!(validate_line("1 2 x 4", 4), Err(InputError::NotANumber));
    assert_eq!(validate_line("1 2 -3 4", 4), Err(InputError::NotANumber));
    assert_eq!(validate_line("1 2 4294967296 4", 4), Err(InputError::NotANumber));
    assert_eq!(validate_line("1 2 3", 4), Err(InputError::WrongCount));
    assert_eq!(validate_line("1 2 3 4 5", 4), Err(InputError::WrongCount));
    assert_eq!(validate_line("", 4), Err(InputError::WrongCount));
    assert_eq!(validate_line("1 2 3 16", 4), Err(InputError::OutOfRange));
    assert_eq!(validate_line("1 2 4294967295 4", 4), Err(InputError::OutOfRange));
    assert_eq!(validate_line("1 2 9", 3), Err(InputError::OutOfRange));
    // a word that is no number comes before the count, the count before the range
    assert_eq!(validate_line("99 x", 4), Err(InputError::NotANumber));
    assert_eq!(validate_line("99 1", 4), Err(InputError::WrongCount));
}

#[test]
fn test_validate_input_accepts_a_board() {
    assert_eq!(validate_input("1 2 3 4\n5 6 7 8\n9 10 11 12\n13 14 15 0\n", 4), Ok(()));
    assert_eq!(validate_input("1 0 2\n3 4 5\n6 7 8", 3), Ok(()));
    assert_eq!(validate_input("", 0), Ok(()));
}

#[test]
fn test_validate_input_names_what_is_wrong() {
    assert_eq!(validate_input("1 2 3 4\n5 6 7 8\n9 10 11 12\n", 4), Err(InputError::WrongLineCount));
    assert_eq!(
        validate_input("1 2 3 4\n5 6 7 8\n9 10 11 12\n13 14 15 0\n1\n", 4),
        Err(InputError::WrongLineCount)
    );
    assert_eq!(
        validate_input("1 2 3 4\n5 6 7 8\n9 10 11 12\n13 14 15 zero\n", 4),
        Err(InputError::NotANumber)
    );
    assert_eq!(
        validate_input("1 2 3 4\n5 6 7 8\n9 10 11 12\n13 14 15\n", 4),
        Err(InputError::WrongTotal)
    );
    assert_eq!(
        validate_input("1 2 3 4\n5 6 7 8\n9 10 11 12\n13 14 15 16\n", 4),
        Err(InputError::OutOfRange)
    );
    assert_eq!(
        validate_input("1 2 3 4\n5 6 7 8\n9 10 11 12\n13 14 15 1\n", 4),
        Err(InputError::NotUnique)
    );
    assert_eq!(validate_input("0 1\n1 0", 2), Err(InputError::NotUnique));
    assert_eq!(validate_input("0 1\n2 2", 2), Err(InputError::NotUnique));
    // the total counts, not the length of each line
    assert_eq!(validate_input("0 1 2\n3", 2), Ok(()));
    // order of the checks
    assert_eq!(validate_input("x", 2), Err(InputError::WrongLineCount));
    assert_eq!(validate_input("x\n9 9 9", 2), Err(InputError::NotANumber));
    assert_eq!(validate_input("9\n9 9", 2), Err(InputError::WrongTotal));
    assert_eq!(validate_input("9 9\n9 9", 2), Err(InputError::OutOfRange));
}
