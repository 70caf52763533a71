//! Walks on the graph of boards, and what it means to solve a board.
use vstd::prelude::*;
use crate::grid::Grid;

verus! {

/// One move leads from `a` to `b`.
pub open spec fn is_move(a: Grid, b: Grid) -> bool {
    a.successors().contains(b)
}

/// Each board of the sequence is one move away from the board before it.
pub open spec fn is_walk(p: Seq<Grid>) -> bool {
    forall|i: int| 0 <= i < p.len() - 1 ==> #[trigger] is_move(p[i], p[i + 1])
}

/// `p` is a solution of `start`: a walk from `start` to a solved board, both
/// ends included.
pub open spec fn solves(p: Seq<Grid>, start: Grid) -> bool {
    &&& p.len() > 0
    &&& p[0] == start
    &&& is_walk(p)
    &&& p.last().is_goal()
}

/// No solution of `start` is shorter than `p`.
pub open spec fn is_shortest(p: Seq<Grid>, start: Grid) -> bool {
    forall|q: Seq<Grid>| #![trigger solves(q, start)] solves(q, start) ==> p.len() <= q.len()
}

/// The score that a search gives to board `j` of a walk: the moves made so
/// far plus the Manhattan estimate of the rest.
pub open spec fn score_at(p: Seq<Grid>, j: int) -> int {
    j + p[j].manhattan()
}

/// The last place from `j` on at which a walk still shows the board it shows
/// at `j`.
pub open spec fn last_stay(p: Seq<Grid>, j: int) -> int
    decreases p.len() - j,
{
    if 0 <= j && j + 1 < p.len() && p[j + 1] == p[j] {
        last_stay(p, j + 1)
    } else {
        j
    }
}

/// At `last_stay` the walk shows the same board, and the next board, if
/// there is one, differs.
pub proof fn lemma_last_stay(p: Seq<Grid>, j: int)
    requires
        0 <= j < p.len(),
    ensures
        j <= last_stay(p, j) < p.len(),
        p[last_stay(p, j)] == p[j],
        last_stay(p, j) + 1 < p.len() ==> p[last_stay(p, j) + 1] != p[j],
    decreases p.len() - j,
{
    if j + 1 < p.len() && p[j + 1] == p[j] {
        lemma_last_stay(p, j + 1);
    }
}

/// A walk extended by a move from its last board is a walk.
pub proof fn lemma_walk_push(p: Seq<Grid>, next: Grid)
    requires
        p.len() > 0,
        is_walk(p),
        is_move(p.last(), next),
    ensures
        is_walk(p.push(next)),
{
    let q = p.push(next);
    assert forall|i: int| 0 <= i < q.len() - 1 implies #[trigger] is_move(q[i], q[i + 1]) by {
        if i < p.len() - 1 {
            assert(is_move(p[i], p[i + 1]));
        }
    }
}

} // verus!
