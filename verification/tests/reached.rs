use std::sync::Arc;

use schiebepuzzle_solver::node::Node;
use schiebepuzzle_solver::reached::Reached;
use schiebepuzzle_solver::PuzzleState;

fn node(text: &str, cost: u32) -> Arc<Node> {
    Arc::new(Node::new(PuzzleState::from_string(text), None, cost))
}

#[test]
fn test_reached_table_starts_empty() {
    let table = Reached::new();
    assert_eq!(table.len(), 0);
    assert_eq!(table.find(&PuzzleState::from_string("0 1\n2 3")), None);
}

#[test]
fn test_reached_table_numbers_boards_as_they_come() {
    let mut table = Reached::new();
    assert_eq!(table.insert(node("1 0\n2 3", 0)), 0);
    assert_eq!(table.insert(node("0 1\n2 3", 1)), 1);
    assert_eq!(table.insert(node("1 3\n2 0", 1)), 2);
    assert_eq!(table.len(), 3);
    assert_eq!(table.find(&PuzzleState::from_string("1 0\n2 3")), Some(0));
    assert_eq!(table.find(&PuzzleState::from_string("0 1\n2 3")), Some(1));
    assert_eq!(table.find(&PuzzleState::from_string("1 3\n2 0")), Some(2));
    assert_eq!(table.find(&PuzzleState::from_string("3 1\n2 0")), None);
    assert_eq!(table.node(1).cost, 1);
    assert_eq!(table.node(1).state, PuzzleState::from_string("0 1\n2 3"));
}

#[test]
fn test_reached_table_replaces_a_node_in_its_slot() {
    let mut table = Reached::new();
    table.insert(node("1 0\n2 3", 0));
    let slot = table.insert(node("0 1\n2 3", 5));
    table.replace(slot, node("0 1\n2 3", 1));
    assert_eq!(table.len(), 2);
    assert_eq!(table.find(&PuzzleState::from_string("0 1\n2 3")), Some(slot));
    assert_eq!(table.node(slot).cost, 1);
    assert_eq!(table.node(0).cost, 0);
}

#[test]
fn test_reached_table_finds_every_board_among_many() {
    let mut table = Reached::new();
    let mut boards: Vec<PuzzleState> = vec![PuzzleState::from_string("0 1 2\n3 4 5\n6 7 8")];
    let mut next = 0;
    while boards.len() < 500 {
        for board in boards[next].get_actions() {
            if !boards.contains(&board) {
                boards.push(board);
            }
        }
        next += 1;
    }
    for (i, board) in boards.iter().enumerate() {
        assert_eq!(table.find(board), None);
        assert_eq!(table.insert(Arc::new(Node::new(board.clone(), None, 0))), i);
    }
    for (i, board) in boards.iter().enumerate() {
        assert_eq!(table.find(board), Some(i));
    }
}
