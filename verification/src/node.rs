//! The nodes of a search tree.
use vstd::prelude::*;
use std::sync::Arc;
use crate::grid::Grid;
use crate::puzzle_state::PuzzleState;
use crate::puzzle_state::views;
use crate::walk::is_walk;

verus! {

/// A board that a search has reached, the node it was reached from, and the
/// number of moves it took. Nodes are never changed once made; a parent is
/// shared by all its children.
pub struct Node {
    pub state: PuzzleState,
    pub parent: Option<Arc<Node>>,
    pub cost: u32,
}

impl Node {
    /// The boards from the root of the tree down to this node.
    pub open spec fn path(&self) -> Seq<Grid>
        decreases self,
    {
        match self.parent {
            None => seq![self.state@],
            Some(p) => p.path().push(self.state@),
        }
    }

    /// The node records a walk, and its cost is the number of moves of it.
    pub open spec fn well_formed(&self) -> bool {
        &&& is_walk(self.path())
        &&& self.path().len() == self.cost + 1
    }

    /// The score of the node: the moves made plus the estimate of the moves
    /// to come.
    pub open spec fn score(&self) -> int {
        self.cost + self.state@.manhattan()
    }

    /// The path of a node ends in its own board.
    pub proof fn lemma_path_ends_here(&self)
        ensures
            self.path().len() > 0,
            self.path().last() == self.state@,
            self.parent is None ==> self.path().len() == 1,
            self.parent matches Some(p) ==> self.path().drop_last() == p.path(),
    {
        match self.parent {
            None => {},
            Some(p) => {
                assert(p.path().push(self.state@).drop_last() =~= p.path());
            },
        }
    }

    pub fn new(state: PuzzleState, parent: Option<Arc<Node>>, path_cost: u32) -> (node: Node)
        ensures
            node.state == state,
            node.parent == parent,
            node.cost == path_cost,
    {
        Node { state, parent, cost: path_cost }
    }

    /// The boards from the root down to this node, in the order in which
    /// they were reached.
    pub fn get_steps(&self) -> (steps: Vec<PuzzleState>)
        ensures
            views(steps@) == self.path(),
    {
        let ghost full = self.path();
        let mut upward: Vec<PuzzleState> = Vec::new();
        let mut node: &Node = self;
        loop
            invariant_except_break
                upward@.len() + node.path().len() == full.len(),
                node.path() =~= full.take(node.path().len() as int),
                forall|i: int| 0 <= i < upward@.len() ==> upward@[i]@ == full[full.len() - 1 - i],
            ensures
                upward@.len() == full.len(),
                forall|i: int| 0 <= i < upward@.len() ==> upward@[i]@ == full[full.len() - 1 - i],
            decreases node,
        {
            proof {
                node.lemma_path_ends_here();
                assert(full[node.path().len() - 1] == node.path().last());
            }
            upward.push(node.state.clone());
            match &node.parent {
                None => {
                    break ;
                },
                Some(parent) => {
                    proof {
                        assert(parent.path() =~= full.take(parent.path().len() as int));
                    }
                    node = &**parent;
                },
            }
        }
        let mut steps: Vec<PuzzleState> = Vec::new();
        while upward.len() > 0
            invariant
                steps@.len() + upward@.len() == full.len(),
                forall|i: int| 0 <= i < steps@.len() ==> steps@[i]@ == full[i],
                forall|i: int| 0 <= i < upward@.len() ==> upward@[i]@ == full[full.len() - 1 - i],
            decreases upward@.len(),
        {
            let step = upward.pop().unwrap();
            steps.push(step);
        }
        assert(views(steps@) =~= full);
        steps
    }

    /// Whether the node repeats the board of the node it was reached from.
    /// This is a cheap guard against a move that changes nothing; it does
    /// not look further up the tree, so longer cycles go unnoticed.
    pub fn has_self_in_path(&self) -> (repeats: bool)
        ensures
            repeats == (self.parent matches Some(p) && p.state@ == self.state@),
    {
        match &self.parent {
            None => false,
            Some(parent) => self.state == parent.state,
        }
    }

    /// The score of the node.
    pub fn f(&self) -> (score: u64)
        ensures
            score == self.score(),
            score < u64::MAX,
    {
        let h: u32 = self.state.heuristic();
        self.cost as u64 + h as u64
    }
}

} // verus!
