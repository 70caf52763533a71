use schiebepuzzle_solver::PuzzleState;

#[test]
fn test_state_macro() {
    let state = PuzzleState::new([[1, 2, 3, 4], [5, 6, 7, 8], [9, 10, 11, 12], [13, 14, 15, 0]]);
    assert_eq!(state.tile(0, 0), 1);
}

#[test]
fn test_state_with_last_zero_is_not_goal() {
    let state = PuzzleState::from_string("1 2 3 4\n5 6 7 8\n9 10 11 12\n13 14 15 0");
    assert!(!state.is_goal());
}

#[test]
fn test_state_with_leading_zero_and_sorted_is_goal() {
    let state = PuzzleState::from_string("0 1 2 3\n4 5 6 7\n8 9 10 11\n12 13 14 15");
    assert!(state.is_goal());
}

#[test]
fn test_state_with_leading_zero_and_unsorted_is_not_goal() {
    let state = PuzzleState::from_string("0 1 2 3\n4 5 6 7\n8 9 10 11\n12 13 15 14");
    assert!(!state.is_goal());
}

#[test]
fn test_goal_state_has_heuristic_of_zero() {
    let state = PuzzleState::from_string("0 1 2 3\n4 5 6 7\n8 9 10 11\n12 13 14 15");
    assert_eq!(state.heuristic(), 0);
}

#[test]
fn test_state_one_step_away_from_goal_has_heuristic_of_one() {
    let state = PuzzleState::from_string("1 0 2 3\n4 5 6 7\n8 9 10 11\n12 13 14 15");
    assert_eq!(state.heuristic(), 1);
}

#[test]
fn test_state_with_zero_in_the_first_row_has_three_options() {
    let state = PuzzleState::from_string("1 0 2 3\n4 5 6 7\n8 9 10 11\n12 13 14 15");
    let actions = state.get_actions();
    assert_eq!(actions.len(), 3);
}

#[test]
fn test_state_with_zero_in_the_middle_has_four_options() {
    let state = PuzzleState::from_string("1 2 3 4\n5 0 6 7\n8 9 10 11\n12 13 14 15");
    let actions = state.get_actions();
    assert_eq!(actions.len(), 4);
}

#[test]
fn test_state_with_zero_in_a_corner_has_two_options() {
    let state = PuzzleState::from_string("0 1 2 3\n4 5 6 7\n8 9 10 11\n12 13 14 15");
    let actions = state.get_actions();
    assert_eq!(actions.len(), 2);
}

#[test]
fn test_state_with_zero_in_a_corner_has_specific_options() {
    let state = PuzzleState::from_string("0 1 2 3\n4 5 6 7\n8 9 10 11\n12 13 14 15");
    let actions = state.get_actions();
    assert!(actions.contains(&PuzzleState::from_string(
        "1 0 2 3\n4 5 6 7\n8 9 10 11\n12 13 14 15"
    )));
    assert!(actions.contains(&PuzzleState::from_string(
        "4 1 2 3\n0 5 6 7\n8 9 10 11\n12 13 14 15"
    )));
}

#[test]
fn test_state_with_zero_in_the_middle_has_specific_options() {
    let state = PuzzleState::from_string("1 2 3 4\n5 0 6 7\n8 9 10 11\n12 13 14 15");
    let actions = state.get_actions();
    assert!(actions.contains(&PuzzleState::from_string(
        "1 0 3 4\n5 2 6 7\n8 9 10 11\n12 13 14 15"
    )));
    assert!(actions.contains(&PuzzleState::from_string(
        "1 2 3 4\n5 6 0 7\n8 9 10 11\n12 13 14 15"
    )));
    assert!(actions.contains(&PuzzleState::from_string(
        "1 2 3 4\n5 9 6 7\n8 0 10 11\n12 13 14 15"
    )));
    assert!(actions.contains(&PuzzleState::from_string(
        "1 2 3 4\n0 5 6 7\n8 9 10 11\n12 13 14 15"
    )));
}

#[test]
fn test_two_states_with_the_same_boards_are_equal() {
    let state1 = PuzzleState::from_string("1 2 3 4\n5 0 6 7\n8 9 10 11\n12 13 14 15");
    let state2 = PuzzleState::from_string("1 2 3 4\n5 0 6 7\n8 9 10 11\n12 13 14 15");
    assert_eq!(state1, state2);
}

#[test]
fn test_hashmap_shows_state_as_present() {
    let state1 = PuzzleState::from_string("1 2 3 4\n5 0 6 7\n8 9 10 11\n12 13 14 15");
    let state2 = PuzzleState::from_string("1 2 3 4\n5 0 6 7\n8 9 10 11\n12 13 14 15");
    let mut map = std::collections::HashMap::new();
    map.insert(state1, 1);
    assert!(map.contains_key(&state2));
}

#[test]
fn test_new_lays_rows_out_one_after_the_other() {
    let state = PuzzleState::new([[3, 1, 2], [6, 4, 5], [0, 7, 8]]);
    assert_eq!(state.side(), 3);
    assert_eq!(state.cells(), &vec![3, 1, 2, 6, 4, 5, 0, 7, 8]);
    assert_eq!(state.tile(1, 0), 6);
    assert_eq!(state.tile(2, 2), 8);
    assert_eq!(state, PuzzleState::from_string("3 1 2\n6 4 5\n0 7 8"));
}

#[test]
fn test_from_cells_wants_a_square() {
    let state = PuzzleState::from_cells(2, vec![1, 0, 2, 3]).unwrap();
    assert_eq!(state, PuzzleState::new([[1, 0], [2, 3]]));
    assert!(PuzzleState::from_cells(2, vec![1, 0, 2]).is_none());
    assert!(PuzzleState::from_cells(3, vec![1, 0, 2, 3]).is_none());
    assert!(PuzzleState::from_cells(17, vec![0; 289]).is_none());
    assert!(PuzzleState::from_cells(16, vec![0; 256]).is_some());
    assert_eq!(PuzzleState::from_cells(0, vec![]).unwrap().side(), 0);
}

#[test]
fn test_states_with_different_boards_are_not_equal() {
    let a = PuzzleState::from_string("1 0\n2 3");
    let b = PuzzleState::from_string("0 1\n2 3");
    assert_ne!(a, b);
    assert_ne!(PuzzleState::new([[0]]), PuzzleState::from_cells(0, vec![]).unwrap());
    assert_eq!(a.clone(), a);
}

#[test]
fn test_goal_is_sorted_row_major() {
    assert!(PuzzleState::from_string("0 1 2\n3 4 5\n6 7 8").is_goal());
    assert!(!PuzzleState::from_string("1 2 3\n4 5 6\n7 8 0").is_goal());
    assert!(!PuzzleState::from_string("1 0 2\n3 4 5\n6 7 8").is_goal());
    assert!(PuzzleState::from_cells(0, vec![]).unwrap().is_goal());
    assert!(PuzzleState::new([[7]]).is_goal());
}

#[test]
fn test_heuristic_sums_manhattan_distances() {
    assert_eq!(PuzzleState::from_string("0 1 2\n3 4 5\n6 7 8").heuristic(), 0);
    assert_eq!(PuzzleState::from_string("1 0 2\n3 4 5\n6 7 8").heuristic(), 1);
    // 1, 2, 4, 5, 7, 8 are one column off; 3 and 6 are a row and two columns off
    assert_eq!(PuzzleState::from_string("1 2 3\n4 5 6\n7 8 0").heuristic(), 12);
    // the blank counts for nothing, wherever it stands
    assert_eq!(PuzzleState::from_string("3 1 2\n0 4 5\n6 7 8").heuristic(), 1);
    assert_eq!(
        PuzzleState::from_string("1 2 3 4\n5 6 7 8\n9 10 11 12\n13 14 15 0").heuristic(),
        24
    );
    assert_eq!(
        PuzzleState::from_string("15 1 2 3\n4 5 6 7\n8 9 10 11\n12 13 14 0").heuristic(),
        6
    );
}

#[test]
fn test_goal_exactly_when_heuristic_is_zero() {
    let boards = [
        "0 1 2\n3 4 5\n6 7 8",
        "1 0 2\n3 4 5\n6 7 8",
        "3 1 2\n0 4 5\n6 7 8",
        "8 7 6\n5 4 3\n2 1 0",
        "0 1\n2 3",
        "0 1\n3 2",
        "0",
    ];
    for text in boards {
        let state = PuzzleState::from_string(text);
        assert_eq!(state.is_goal(), state.heuristic() == 0, "{}", text);
    }
}

#[test]
fn test_successors_come_up_down_left_right() {
    let state = PuzzleState::from_string("1 2 3\n4 0 5\n6 7 8");
    let actions = state.get_actions();
    assert_eq!(
        actions,
        vec![
            PuzzleState::from_string("1 0 3\n4 2 5\n6 7 8"),
            PuzzleState::from_string("1 2 3\n4 7 5\n6 0 8"),
            PuzzleState::from_string("1 2 3\n0 4 5\n6 7 8"),
            PuzzleState::from_string("1 2 3\n4 5 0\n6 7 8"),
        ]
    );
}

#[test]
fn test_successor_counts_by_blank_position() {
    for side in 2..=5usize {
        for blank in 0..side * side {
            let mut cells: Vec<u8> = (1..=(side * side) as u8).collect();
            cells[blank] = 0;
            let state = PuzzleState::from_cells(side, cells).unwrap();
            let row = blank / side;
            let col = blank % side;
            let row_border = row == 0 || row == side - 1;
            let col_border = col == 0 || col == side - 1;
            let expected = match (row_border, col_border) {
                (true, true) => 2,
                (false, false) => 4,
                _ => 3,
            };
            assert_eq!(state.get_actions().len(), expected);
        }
    }
}

#[test]
fn test_successors_differ_from_parent_in_two_cells() {
    for text in ["1 2 3\n4 0 5\n6 7 8", "0 1 2\n3 4 5\n6 7 8", "1 2 3\n4 5 6\n7 8 0"] {
        let state = PuzzleState::from_string(text);
        for next in state.get_actions() {
            let changed: Vec<usize> = (0..9)
                .filter(|&i| state.cells()[i] != next.cells()[i])
                .collect();
            assert_eq!(changed.len(), 2);
            let (a, b) = (changed[0], changed[1]);
            assert_eq!(state.cells()[a], next.cells()[b]);
            assert_eq!(state.cells()[b], next.cells()[a]);
            assert!(state.cells()[a] == 0 || state.cells()[b] == 0);
            let rows = (a / 3).abs_diff(b / 3);
            let cols = (a % 3).abs_diff(b % 3);
            assert_eq!(rows + cols, 1);
        }
    }
}

#[test]
fn test_board_without_blank_has_no_successors() {
    assert!(PuzzleState::from_string("2 1\n3 4").get_actions().is_empty());
    assert!(PuzzleState::from_cells(0, vec![]).unwrap().get_actions().is_empty());
    assert!(PuzzleState::new([[0]]).get_actions().is_empty());
}

#[test]
fn test_last_blank_moves_when_there_are_two() {
    let state = PuzzleState::from_string("0 1\n2 0");
    assert_eq!(
        state.get_actions(),
        vec![PuzzleState::from_string("0 0\n2 1"), PuzzleState::from_string("0 1\n0 2")]
    );
}

#[test]
fn test_fingerprint_depends_on_cells_alone() {
    let a = PuzzleState::from_string("1 0 2\n3 4 5\n6 7 8");
    let b = PuzzleState::new([[1, 0, 2], [3, 4, 5], [6, 7, 8]]);
    assert_eq!(a.fingerprint(), b.fingerprint());
    assert_eq!(PuzzleState::new([[1, 2], [3, 0]]).fingerprint(), ((1 * 257 + 2) * 257 + 3) * 257);
    assert_eq!(PuzzleState::from_cells(0, vec![]).unwrap().fingerprint(), 0);
}
