use std::collections::HashSet;
use std::collections::VecDeque;
use std::sync::Arc;

use schiebepuzzle_solver::node::Node;
use schiebepuzzle_solver::solve_best_first;
use schiebepuzzle_solver::solver;
use schiebepuzzle_solver::solver::solver_iteration;
use schiebepuzzle_solver::solver::IterationResult;
use schiebepuzzle_solver::PuzzleState;
use schiebepuzzle_solver::SolveError;

fn assert_is_solution(start: &PuzzleState, path: &[PuzzleState]) {
    assert_eq!(&path[0], start);
    assert!(path[path.len() - 1].is_goal());
    for pair in path.windows(2) {
        assert!(pair[0].get_actions().contains(&pair[1]));
    }
}

fn breadth_first_length(start: &PuzzleState) -> Option<usize> {
    let mut seen: HashSet<PuzzleState> = HashSet::new();
    let mut queue: VecDeque<(PuzzleState, usize)> = VecDeque::new();
    seen.insert(start.clone());
    queue.push_back((start.clone(), 1));
    while let Some((state, length)) = queue.pop_front() {
        if state.is_goal() {
            return Some(length);
        }
        for next in state.get_actions() {
            if seen.insert(next.clone()) {
                queue.push_back((next, length + 1));
            }
        }
    }
    None
}

#[test]
fn test_solver_solves_in_one_step() {
    let state = PuzzleState::from_string("1 0 2 3\n4 5 6 7\n8 9 10 11\n12 13 14 15");
    let solution = solver(state).unwrap();
    assert_eq!(solution.len(), 2);
    assert_eq!(
        solution[solution.len() - 1],
        PuzzleState::from_string("0 1 2 3\n4 5 6 7\n8 9 10 11\n12 13 14 15")
    );
}

#[test]
fn test_best_first_solves_in_one_step() {
    let state = PuzzleState::from_string("1 0 2 3\n4 5 6 7\n8 9 10 11\n12 13 14 15");
    let solution = solve_best_first(state.clone()).unwrap();
    assert_eq!(solution.len(), 2);
    assert_eq!(solution[0], state);
    assert_eq!(
        solution[1],
        PuzzleState::from_string("0 1 2 3\n4 5 6 7\n8 9 10 11\n12 13 14 15")
    );
}

#[test]
fn test_both_engines_solve_one_step_on_three_by_three() {
    let start = PuzzleState::from_string("1 0 2\n3 4 5\n6 7 8");
    let goal = PuzzleState::from_string("0 1 2\n3 4 5\n6 7 8");
    let deepening = solver(start.clone()).unwrap();
    let best_first = solve_best_first(start.clone()).unwrap();
    assert_eq!(deepening, vec![start.clone(), goal.clone()]);
    assert_eq!(best_first, vec![start, goal]);
}

#[test]
fn test_solved_start_gives_path_of_one() {
    let start = PuzzleState::from_string("0 1 2\n3 4 5\n6 7 8");
    assert!(start.is_goal());
    assert_eq!(start.heuristic(), 0);
    assert_eq!(solver(start.clone()).unwrap(), vec![start.clone()]);
    assert_eq!(solve_best_first(start.clone()).unwrap(), vec![start]);
}

#[test]
fn test_blank_in_bottom_right_is_solved_by_both_engines() {
    let start = PuzzleState::from_string("1 2 3\n4 5 6\n7 8 0");
    let best_first = solve_best_first(start.clone()).unwrap();
    let deepening = solver(start.clone()).unwrap();
    assert_is_solution(&start, &best_first);
    assert_is_solution(&start, &deepening);
    assert_eq!(best_first.len(), deepening.len());
    assert_eq!(Some(best_first.len()), breadth_first_length(&start));
    assert_eq!(best_first.len(), 23);
}

#[test]
fn test_best_first_is_as_short_as_breadth_first() {
    let boards = [
        "1 0 2\n3 4 5\n6 7 8",
        "3 1 2\n4 0 5\n6 7 8",
        "1 4 2\n3 7 5\n6 0 8",
        "3 1 2\n6 4 5\n0 7 8",
        "1 2 5\n3 4 0\n6 7 8",
        "3 1 2\n4 7 5\n6 8 0",
        "1 3\n2 0",
        "3 2\n0 1",
    ];
    for text in boards {
        let start = PuzzleState::from_string(text);
        let path = solve_best_first(start.clone()).unwrap();
        assert_is_solution(&start, &path);
        assert_eq!(Some(path.len()), breadth_first_length(&start), "{}", text);
    }
}

#[test]
fn test_engines_agree_on_path_length() {
    let boards = [
        "3 1 2\n4 0 5\n6 7 8",
        "1 4 2\n3 7 5\n6 0 8",
        "3 1 2\n6 4 5\n0 7 8",
        "1 2 5\n3 4 0\n6 7 8",
        "3 1 2\n4 7 5\n6 8 0",
        "4 1 2 3\n5 0 6 7\n8 9 10 11\n12 13 14 15",
        "1 3\n2 0",
        "3 2\n0 1",
    ];
    for text in boards {
        let start = PuzzleState::from_string(text);
        let deepening = solver(start.clone()).unwrap();
        let best_first = solve_best_first(start.clone()).unwrap();
        assert_is_solution(&start, &deepening);
        assert_is_solution(&start, &best_first);
        assert_eq!(deepening.len(), best_first.len(), "{}", text);
    }
}

#[test]
fn test_board_without_moves_has_no_solution_each_time() {
    let stuck = PuzzleState::from_string("2 1\n3 4");
    assert_eq!(solver(stuck.clone()), Err(SolveError::NoSolution));
    assert_eq!(solver(stuck.clone()), Err(SolveError::NoSolution));
    assert_eq!(solve_best_first(stuck.clone()), Err(SolveError::NoSolution));
    assert_eq!(solve_best_first(stuck), Err(SolveError::NoSolution));
}

#[test]
fn test_best_first_fails_on_unsolvable_permutation_each_time() {
    let start = PuzzleState::from_string("1 2\n3 0");
    assert_eq!(breadth_first_length(&start), None);
    assert_eq!(solve_best_first(start.clone()), Err(SolveError::NoSolution));
    assert_eq!(solve_best_first(start), Err(SolveError::NoSolution));
    let swapped = PuzzleState::from_string("0 2 1\n3 4 5\n6 7 8");
    assert_eq!(solve_best_first(swapped.clone()), Err(SolveError::NoSolution));
    assert_eq!(solve_best_first(swapped), Err(SolveError::NoSolution));
}

#[test]
fn test_empty_and_single_cell_boards_are_solved_at_once() {
    let empty = PuzzleState::from_cells(0, vec![]).unwrap();
    assert_eq!(solver(empty.clone()).unwrap(), vec![empty.clone()]);
    assert_eq!(solve_best_first(empty.clone()).unwrap(), vec![empty]);
    let single = PuzzleState::new([[0]]);
    assert_eq!(solver(single.clone()).unwrap(), vec![single.clone()]);
    assert_eq!(solve_best_first(single.clone()).unwrap(), vec![single]);
}

#[test]
fn test_no_solution_message() {
    assert_eq!(SolveError::NoSolution.message(), "There is no solution");
}

#[test]
fn test_iteration_reports_least_score_beyond_the_bound() {
    // two moves from the goal, estimate 2: under a bound of 1 nothing is expanded
    // beyond the start, whose moves score 2 (towards the goal) or 4 (away from it)
    let start = PuzzleState::from_string("1 2 0\n3 4 5\n6 7 8");
    assert_eq!(start.heuristic(), 2);
    match solver_iteration(start.clone(), 1) {
        IterationResult::MinEvaluated(least) => assert_eq!(least, 2),
        IterationResult::Solved(_) => panic!("no solution within one move"),
    }
    match solver_iteration(start.clone(), 2) {
        IterationResult::Solved(steps) => {
            assert_eq!(steps.len(), 3);
            assert_is_solution(&start, &steps);
        }
        IterationResult::MinEvaluated(_) => panic!("two moves solve the board"),
    }
    // a board without moves: nothing goes beyond any bound
    match solver_iteration(PuzzleState::from_string("2 1\n3 4"), 5) {
        IterationResult::MinEvaluated(least) => assert_eq!(least, u64::MAX),
        IterationResult::Solved(_) => panic!("the board has no solution"),
    }
}

#[test]
fn test_node_records_its_path() {
    let first = PuzzleState::from_string("1 2 0\n3 4 5\n6 7 8");
    let second = PuzzleState::from_string("1 0 2\n3 4 5\n6 7 8");
    let third = PuzzleState::from_string("0 1 2\n3 4 5\n6 7 8");
    let root = Arc::new(Node::new(first.clone(), None, 0));
    let middle = Arc::new(Node::new(second.clone(), Some(root.clone()), 1));
    let leaf = Node::new(third.clone(), Some(middle.clone()), 2);
    assert_eq!(root.get_steps(), vec![first.clone()]);
    assert_eq!(middle.get_steps(), vec![first.clone(), second.clone()]);
    assert_eq!(leaf.get_steps(), vec![first, second, third]);
}

#[test]
fn test_node_score_is_cost_plus_estimate() {
    let state = PuzzleState::from_string("1 2 3\n4 5 6\n7 8 0");
    assert_eq!(Node::new(state.clone(), None, 0).f(), 12);
    assert_eq!(Node::new(state.clone(), None, 7).f(), 19);
    assert_eq!(Node::new(state, None, u32::MAX).f(), 4294967295 + 12);
}

#[test]
fn test_node_notices_only_its_parents_board() {
    let a = PuzzleState::from_string("1 0 2\n3 4 5\n6 7 8");
    let b = PuzzleState::from_string("0 1 2\n3 4 5\n6 7 8");
    let root = Arc::new(Node::new(a.clone(), None, 0));
    assert!(!root.has_self_in_path());
    let child = Arc::new(Node::new(b.clone(), Some(root.clone()), 1));
    assert!(!child.has_self_in_path());
    let same = Node::new(b.clone(), Some(child.clone()), 2);
    assert!(same.has_self_in_path());
    // back at the grandparent's board: a cycle of two moves goes unnoticed
    let back = Node::new(a, Some(child), 2);
    assert!(!back.has_self_in_path());
}
