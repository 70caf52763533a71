//! Iterative-deepening search: depth-first traversals under a rising bound
//! on the score.
use vstd::prelude::*;
use std::sync::Arc;
use crate::grid::Grid;
use crate::grid::lemma_successors_few;
use crate::laws::lemma_estimate_admissible;
use crate::node::Node;
use crate::puzzle_state::PuzzleState;
use crate::puzzle_state::views;
use crate::walk::is_move;
use crate::walk::is_walk;
use crate::walk::is_shortest;
use crate::walk::last_stay;
use crate::walk::lemma_last_stay;
use crate::walk::lemma_walk_push;
use crate::walk::score_at;
use crate::walk::solves;

verus! {

/// Why a search gave no path.
#[derive(Debug, Clone, Copy, PartialEq, Eq, Structural)]
pub enum SolveError {
    /// No sequence of moves leads to a solved board.
    NoSolution,
}

impl SolveError {
    pub fn message(&self) -> (text: String)
        ensures
            text@ == "There is no solution"@,
    {
        "There is no solution".to_string()
    }
}

/// What one traversal under a bound found.
pub enum IterationResult {
    /// The boards from the start to a solved board.
    Solved(Vec<PuzzleState>),
    /// No solved board within the bound; the least score seen beyond it, or
    /// `u64::MAX` if no score went beyond it.
    MinEvaluated(u64),
}

/// The walk has no more moves than a node can count.
pub open spec fn in_range(q: Seq<Grid>) -> bool {
    q.len() - 1 <= u32::MAX
}

/// What a search from `start` owes its caller. A path is a solution of
/// `start`, and where `start` is a permutation no solution is shorter. A
/// failure means that no solution exists with as few moves as a node can
/// count.
pub open spec fn search_outcome(start: Grid, result: Result<Vec<PuzzleState>, SolveError>) -> bool {
    match result {
        Ok(steps) => {
            &&& solves(views(steps@), start)
            &&& start.is_permutation() ==> is_shortest(views(steps@), start)
        },
        Err(_) => forall|q: Seq<Grid>| #![trigger solves(q, start)] solves(q, start) ==> !in_range(q),
    }
}

/// Two searches from one permutation that has a solution both find a path,
/// and their paths are equally long.
pub proof fn lemma_searches_agree(
    start: Grid,
    one: Result<Vec<PuzzleState>, SolveError>,
    other: Result<Vec<PuzzleState>, SolveError>,
    q: Seq<Grid>,
)
    requires
        start.is_permutation(),
        solves(q, start),
        in_range(q),
        search_outcome(start, one),
        search_outcome(start, other),
    ensures
        one is Ok,
        other is Ok,
        one->Ok_0@.len() == other->Ok_0@.len(),
{
    let a = views(one->Ok_0@);
    let b = views(other->Ok_0@);
    assert(solves(a, start) && solves(b, start));
    assert(a.len() <= b.len());
    assert(b.len() <= a.len());
}

/// A search from a board without a solution fails, each time it is made.
pub proof fn lemma_unsolvable_fails(start: Grid, result: Result<Vec<PuzzleState>, SolveError>)
    requires
        forall|q: Seq<Grid>| !solves(q, start),
        search_outcome(start, result),
    ensures
        result is Err,
        result->Err_0 == SolveError::NoSolution,
{
    match result {
        Ok(steps) => {
            assert(solves(views(steps@), start));
        },
        Err(e) => {
            assert(e is NoSolution);
        },
    }
}

/// Some board of the walk has a score of at least `least`.
#[verifier::opaque]
pub open spec fn reaches_score(q: Seq<Grid>, least: int) -> bool {
    exists|j: int| 0 <= j < q.len() && least <= #[trigger] score_at(q, j)
}

/// A traversal under the bound `max_f` that has come to board `j` of the
/// walk `w` puts it on the stack: its score is within the bound and it is
/// not the board before it once more. The start goes on the stack whatever
/// its score.
pub open spec fn admits(w: Seq<Grid>, j: int, max_f: int) -> bool {
    j == 0 || (score_at(w, j) <= max_f && w[j] != w[j - 1])
}

/// The traversal goes on from board `j` of the walk `w`: the board is
/// admitted and not solved, and one more move can still be counted.
pub open spec fn expands(w: Seq<Grid>, j: int, max_f: int) -> bool {
    &&& admits(w, j, max_f)
    &&& !w[j].is_goal()
    &&& j < u32::MAX
}

/// The traversal from `start` under the bound `max_f` comes to the last
/// board of the walk `w`: it goes on from every board before it.
pub open spec fn followed(w: Seq<Grid>, start: Grid, max_f: int) -> bool {
    &&& w.len() >= 1
    &&& w[0] == start
    &&& is_walk(w)
    &&& forall|j: int| 0 <= j < w.len() - 1 ==> #[trigger] expands(w, j, max_f)
}

/// The traversal finds a solved board at the end of `w`.
pub open spec fn found(w: Seq<Grid>, start: Grid, max_f: int) -> bool {
    &&& followed(w, start, max_f)
    &&& admits(w, w.len() - 1, max_f)
    &&& w.last().is_goal()
}

/// The score of the last board of a walk.
pub open spec fn tip_score(w: Seq<Grid>) -> int {
    score_at(w, w.len() - 1)
}

/// The traversal stops at the end of `w` because the score there is beyond
/// the bound.
pub open spec fn fringe(w: Seq<Grid>, start: Grid, max_f: int) -> bool {
    &&& followed(w, start, max_f)
    &&& w.len() >= 2
    &&& tip_score(w) > max_f
}

/// `least` is the least score at which the traversal stops beyond the
/// bound, or `u64::MAX` where it stops nowhere.
pub open spec fn least_beyond(least: u64, start: Grid, max_f: int) -> bool {
    if least == u64::MAX {
        forall|w: Seq<Grid>| !fringe(w, start, max_f)
    } else {
        &&& forall|w: Seq<Grid>| fringe(w, start, max_f) ==> least <= tip_score(w)
        &&& exists|w: Seq<Grid>| fringe(w, start, max_f) && tip_score(w) == least
    }
}

/// The walk `w` begins with the boards of `p`.
pub open spec fn starts_with(w: Seq<Grid>, p: Seq<Grid>) -> bool {
    p.len() <= w.len() && w.take(p.len() as int) == p
}

/// The path of some node of the stack is a beginning of `w`.
#[verifier::opaque]
pub open spec fn above(stack: Seq<Arc<Node>>, w: Seq<Grid>) -> bool {
    exists|i: int| 0 <= i < stack.len() && starts_with(w, (#[trigger] stack[i]).path())
}

/// `w` goes on after `p` with one of the boards of `succ` from `done` on.
#[verifier::opaque]
pub open spec fn waiting(w: Seq<Grid>, p: Seq<Grid>, succ: Seq<Grid>, done: int) -> bool {
    &&& p.len() < w.len()
    &&& starts_with(w, p)
    &&& exists|t: int| done <= t < succ.len() && #[trigger] succ[t] == w[p.len() as int]
}

/// The traversal has yet to come to the end of `w`: it would find a solved
/// board there, or a score beyond the bound and below `least`.
pub open spec fn open_end(w: Seq<Grid>, least: u64, start: Grid, max_f: int) -> bool {
    found(w, start, max_f) || (fringe(w, start, max_f) && !(least < u64::MAX && least
        <= tip_score(w)))
}

/// Some walk stops beyond the bound at the score `least`, unless `least` is
/// `u64::MAX`.
#[verifier::opaque]
pub open spec fn attained(least: u64, start: Grid, max_f: int) -> bool {
    least == u64::MAX || exists|w: Seq<Grid>| fringe(w, start, max_f) && tip_score(w) == least
}

/// The size of the tree that may still hang below a node with `budget`
/// moves left: every node has at most four children.
pub open spec fn weight(budget: int) -> nat
    decreases budget,
{
    if budget <= 0 {
        1
    } else {
        5 * weight(budget - 1)
    }
}

/// The work that a stack stands for under the bound `bound`.
pub open spec fn work(stack: Seq<Arc<Node>>, bound: int) -> nat
    decreases stack.len(),
{
    if stack.len() == 0 {
        0
    } else {
        work(stack.drop_last(), bound) + weight(bound - stack.last().cost)
    }
}

proof fn lemma_work_push(stack: Seq<Arc<Node>>, node: Arc<Node>, bound: int)
    ensures
        work(stack.push(node), bound) == work(stack, bound) + weight(bound - node.cost),
{
    assert(stack.push(node).drop_last() =~= stack);
}

proof fn lemma_weight_positive(budget: int)
    ensures
        weight(budget) >= 1,
    decreases budget,
{
    if budget > 0 {
        lemma_weight_positive(budget - 1);
    }
}

/// What holds of a node on the stack of a traversal from `start` under the
/// bound `max_f`: the traversal has come to it along its path.
pub open spec fn node_sound(node: Node, start: Grid, max_f: int) -> bool {
    &&& node.path().len() == node.cost + 1
    &&& followed(node.path(), start, max_f)
    &&& admits(node.path(), node.cost as int, max_f)
    &&& node.cost <= max_f
}

pub open spec fn stack_sound(stack: Seq<Arc<Node>>, start: Grid, max_f: int) -> bool {
    forall|i: int| 0 <= i < stack.len() ==> node_sound(*#[trigger] stack[i], start, max_f)
}

/// A walk that the traversal goes on from grows by any move.
proof fn lemma_followed_push(p: Seq<Grid>, next: Grid, start: Grid, max_f: int)
    requires
        followed(p, start, max_f),
        expands(p, p.len() - 1, max_f),
        is_move(p.last(), next),
    ensures
        followed(p.push(next), start, max_f),
        admits(p.push(next), p.len() as int, max_f) <==> p.len() + next.manhattan() <= max_f
            && next != p.last(),
{
    let w = p.push(next);
    lemma_walk_push(p, next);
    assert forall|j: int| 0 <= j < w.len() - 1 implies #[trigger] expands(w, j, max_f) by {
        assert(w[j] == p[j]);
        if j > 0 {
            assert(w[j - 1] == p[j - 1]);
        }
        if j < p.len() - 1 {
            assert(expands(p, j, max_f));
        }
    }
}

/// Every walk from the start begins with the path of the root.
proof fn lemma_root_above(w: Seq<Grid>, stack: Seq<Arc<Node>>, start: Grid, max_f: int)
    requires
        stack.len() == 1,
        stack[0].path() == seq![start],
        followed(w, start, max_f),
    ensures
        above(stack, w),
{
    reveal(above);
    assert(w.take(1) =~= seq![start]);
    assert(starts_with(w, stack[0].path()));
}

/// Nothing begins with a path of an empty stack, and nothing waits once
/// every move was tried.
proof fn lemma_nothing_left(w: Seq<Grid>, stack: Seq<Arc<Node>>, p: Seq<Grid>, succ: Seq<Grid>)
    ensures
        stack.len() == 0 ==> !above(stack, w),
        !waiting(w, p, succ, succ.len() as int),
{
    reveal(above);
    reveal(waiting);
}

/// Taking an unsolved node off the stack leaves every walk that began with
/// its path waiting for one of its moves.
proof fn lemma_pop_waits(
    w: Seq<Grid>,
    before: Seq<Arc<Node>>,
    least: u64,
    start: Grid,
    max_f: int,
)
    requires
        before.len() > 0,
        stack_sound(before, start, max_f),
        open_end(w, least, start, max_f),
        above(before, w),
        !before.last().state@.is_goal(),
    ensures
        above(before.drop_last(), w) || (before.last().cost < u32::MAX && waiting(
            w,
            before.last().path(),
            before.last().state@.successors(),
            0,
        )),
{
    reveal(above);
    reveal(waiting);
    let base = before.drop_last();
    let node = before.last();
    let i = choose|i: int| 0 <= i < before.len() && starts_with(w, (#[trigger] before[i]).path());
    if i < base.len() {
        assert(base[i] == before[i]);
    } else {
        let p = node.path();
        assert(node_sound(*before[i], start, max_f));
        node.lemma_path_ends_here();
        let j = p.len() - 1;
        assert(w.take(p.len() as int)[j] == w[j]);
        if p.len() == w.len() {
            assert(w.take(p.len() as int) =~= w);
            if j > 0 {
                assert(w[j - 1] == p[j - 1]);
            }
        } else {
            assert(expands(w, j, max_f));
            assert(is_move(w[j], w[j + 1]));
            let succ = node.state@.successors();
            let t = succ.index_of(w[j + 1]);
            assert(succ[t] == w[p.len() as int]);
        }
    }
}

/// Trying one more move of a node keeps every walk that is yet to end
/// above the stack or waiting.
proof fn lemma_child_keeps(
    w: Seq<Grid>,
    p: Seq<Grid>,
    succ: Seq<Grid>,
    done: int,
    child: Arc<Node>,
    start: Grid,
    max_f: int,
    stack_before: Seq<Arc<Node>>,
    stack_after: Seq<Arc<Node>>,
    least_before: u64,
    least_after: u64,
)
    requires
        0 <= done < succ.len(),
        p.len() >= 1,
        child.path() == p.push(succ[done]),
        child.state@ == succ[done],
        child.cost == p.len(),
        child.score() < u64::MAX,
        open_end(w, least_after, start, max_f),
        open_end(w, least_before, start, max_f) ==> above(stack_before, w) || waiting(w, p, succ, done),
        least_after <= least_before,
        child.score() > max_f ==> least_after <= child.score() && stack_after == stack_before,
        child.score() <= max_f && child.state@ == p.last() ==> stack_after == stack_before,
        child.score() <= max_f && child.state@ != p.last() ==> stack_after == stack_before.push(
            child,
        ),
    ensures
        above(stack_after, w) || waiting(w, p, succ, done + 1),
{
    reveal(above);
    reveal(waiting);
    assert(open_end(w, least_before, start, max_f));
    if above(stack_before, w) {
        let i = choose|i: int|
            0 <= i < stack_before.len() && starts_with(w, (#[trigger] stack_before[i]).path());
        assert(stack_after[i] == stack_before[i]);
    } else {
        let j = p.len() as int;
        let t = choose|t: int| done <= t < succ.len() && #[trigger] succ[t] == w[j];
        if w[j] == succ[done] {
            assert(w.take(j)[j - 1] == w[j - 1]);
            assert(w.take(j + 1) =~= p.push(succ[done]));
            assert(score_at(w, j) == child.score());
            if j < w.len() - 1 {
                assert(expands(w, j, max_f));
            }
            let last = stack_after.len() - 1;
            assert(starts_with(w, stack_after[last].path()));
        } else {
            assert(succ[t] == w[p.len() as int]);
        }
    }
}

/// Tries every move of `node`: a child whose score is beyond `max_f` only
/// lowers `min_evaluated`; any other child goes onto the stack, unless it
/// repeats the board of `node`.
fn expand(
    node: &Arc<Node>,
    frontier: &mut Vec<Arc<Node>>,
    min_evaluated: &mut u64,
    max_f: u64,
    Ghost(start): Ghost<Grid>,
)
    requires
        node_sound(**node, start, max_f as int),
        !node.state@.is_goal(),
        node.cost < u32::MAX,
        stack_sound(old(frontier)@, start, max_f as int),
        *old(min_evaluated) >= max_f,
        *old(min_evaluated) < u64::MAX ==> *old(min_evaluated) > max_f,
        attained(*old(min_evaluated), start, max_f as int),
    ensures
        stack_sound(final(frontier)@, start, max_f as int),
        *final(min_evaluated) >= max_f,
        *final(min_evaluated) < u64::MAX ==> *final(min_evaluated) > max_f,
        attained(*final(min_evaluated), start, max_f as int),
        work(final(frontier)@, max_f as int) < work(old(frontier)@, max_f as int) + weight(
            max_f - node.cost,
        ),
        forall|w: Seq<Grid>|
            #![trigger followed(w, start, max_f as int)]
            open_end(w, *final(min_evaluated), start, max_f as int) && (open_end(
                w,
                *old(min_evaluated),
                start,
                max_f as int,
            ) ==> above(old(frontier)@, w) || waiting(
                w,
                node.path(),
                node.state@.successors(),
                0,
            )) ==> above(final(frontier)@, w),
{
    let ghost base = frontier@;
    let ghost least_base = *min_evaluated;
    let ghost here = node.state@;
    let ghost p = node.path();
    let ghost cost = node.cost as int;
    let ghost succ = here.successors();
    let ghost child_weight = weight(max_f - cost - 1);
    let ghost mut done: int = 0;
    let ghost mut pushed: int = 0;
    proof {
        lemma_successors_few(here);
        node.lemma_path_ends_here();
    }
    let mut actions = node.state.get_actions();
    while actions.len() > 0
        invariant
            0 <= pushed <= done <= succ.len() <= 4,
            actions@.len() == succ.len() - done,
            forall|i: int| 0 <= i < actions@.len() ==> (#[trigger] actions@[i])@ == succ[done + i],
            succ == here.successors(),
            here == node.state@,
            p == node.path(),
            cost == node.cost,
            cost < u32::MAX,
            node_sound(**node, start, max_f as int),
            !here.is_goal(),
            p.last() == here,
            child_weight == weight(max_f - cost - 1),
            stack_sound(frontier@, start, max_f as int),
            work(frontier@, max_f as int) == work(base, max_f as int) + pushed * child_weight,
            pushed > 0 ==> cost + 1 <= max_f,
            *min_evaluated >= max_f,
            *min_evaluated < u64::MAX ==> *min_evaluated > max_f,
            *min_evaluated <= least_base,
            attained(*min_evaluated, start, max_f as int),
            forall|w: Seq<Grid>|
                #![trigger followed(w, start, max_f as int)]
                open_end(w, *min_evaluated, start, max_f as int) && (open_end(
                    w,
                    least_base,
                    start,
                    max_f as int,
                ) ==> above(base, w) || waiting(w, p, succ, 0)) ==> above(frontier@, w) || waiting(
                    w,
                    p,
                    succ,
                    done,
                ),
        decreases actions@.len(),
    {
        let ghost stack_before = frontier@;
        let ghost least_before = *min_evaluated;
        let ghost actions_before = actions@;
        let action = actions.remove(0);
        proof {
            assert(action@ == actions_before[0]@);
            assert forall|i: int| 0 <= i < actions@.len() implies (#[trigger] actions@[i])@
                == succ[done + 1 + i] by {
                assert(actions@[i] == actions_before[i + 1]);
            }
            assert(is_move(here, succ[done]));
        }
        let child = Arc::new(Node::new(action, Some(node.clone()), node.cost + 1));
        proof {
            assert(child.path() =~= p.push(child.state@));
            lemma_followed_push(p, child.state@, start, max_f as int);
        }
        let score = child.f();
        if score > max_f {
            if score < *min_evaluated {
                *min_evaluated = score;
                proof {
                    reveal(attained);
                    assert(fringe(child.path(), start, max_f as int));
                    assert(tip_score(child.path()) == score);
                }
            }
        } else if !child.has_self_in_path() {
            frontier.push(child);
            proof {
                lemma_work_push(stack_before, child, max_f as int);
                pushed = pushed + 1;
                assert((pushed - 1) * child_weight + child_weight == pushed * child_weight)
                    by (nonlinear_arith);
                assert forall|i: int| 0 <= i < stack_before.len() implies frontier@[i]
                    == stack_before[i] by {}
            }
        }
        proof {
            assert forall|w: Seq<Grid>|
                #![trigger followed(w, start, max_f as int)]
                open_end(w, *min_evaluated, start, max_f as int) && (open_end(
                    w,
                    least_base,
                    start,
                    max_f as int,
                ) ==> above(base, w) || waiting(w, p, succ, 0)) implies above(frontier@, w)
                || waiting(w, p, succ, done + 1) by {
                lemma_child_keeps(
                    w,
                    p,
                    succ,
                    done,
                    child,
                    start,
                    max_f as int,
                    stack_before,
                    frontier@,
                    least_before,
                    *min_evaluated,
                );
            }
            done = done + 1;
        }
    }
    proof {
        assert forall|w: Seq<Grid>|
            #![trigger followed(w, start, max_f as int)]
            open_end(w, *min_evaluated, start, max_f as int) && (open_end(
                w,
                least_base,
                start,
                max_f as int,
            ) ==> above(base, w) || waiting(w, p, succ, 0)) implies above(frontier@, w) by {
            lemma_nothing_left(w, frontier@, p, succ);
        }
        lemma_weight_positive(max_f - cost);
        lemma_weight_positive(max_f - cost - 1);
        assert(pushed * child_weight <= 4 * child_weight) by (nonlinear_arith)
            requires
                0 <= pushed <= 4,
                child_weight >= 0,
        ;
    }
}

/// One depth-first traversal from `state` that expands no node with a score
/// above `max_f`. It ends at the first solved board it comes to; where it
/// comes to none, it reports the least score beyond the bound at which it
/// stopped.
pub fn solver_iteration(state: PuzzleState, max_f: u64) -> (result: IterationResult)
    ensures
        match result {
            IterationResult::Solved(steps) => {
                &&& found(views(steps@), state@, max_f as int)
                &&& steps@.len() - 1 <= u32::MAX
            },
            IterationResult::MinEvaluated(least) => {
                &&& forall|w: Seq<Grid>| !found(w, state@, max_f as int)
                &&& least_beyond(least, state@, max_f as int)
                &&& least >= max_f
            },
        },
{
    let ghost start = state@;
    let mut min_evaluated: u64 = u64::MAX;
    let mut frontier: Vec<Arc<Node>> = Vec::new();
    let first_node = Arc::new(Node::new(state, None, 0));
    frontier.push(first_node);
    proof {
        reveal(attained);
        assert(first_node.path() =~= seq![start]);
        assert(crate::walk::is_walk(first_node.path()));
        assert forall|w: Seq<Grid>|
            #![trigger followed(w, start, max_f as int)]
            open_end(w, min_evaluated, start, max_f as int) implies above(frontier@, w) by {
            lemma_root_above(w, frontier@, start, max_f as int);
        }
    }
    while frontier.len() > 0
        invariant
            start == state@,
            stack_sound(frontier@, start, max_f as int),
            min_evaluated >= max_f,
            min_evaluated < u64::MAX ==> min_evaluated > max_f,
            attained(min_evaluated, start, max_f as int),
            forall|w: Seq<Grid>|
                #![trigger followed(w, start, max_f as int)]
                open_end(w, min_evaluated, start, max_f as int) ==> above(frontier@, w),
        decreases work(frontier@, max_f as int),
    {
        let ghost before = frontier@;
        let node = frontier.pop().unwrap();
        proof {
            assert(frontier@ =~= before.drop_last());
            assert(node == before.last());
            assert(node_sound(*before[before.len() - 1], start, max_f as int));
            node.lemma_path_ends_here();
            assert forall|i: int| 0 <= i < frontier@.len() implies frontier@[i] == before[i] by {}
            assert(work(before, max_f as int) == work(frontier@, max_f as int) + weight(
                max_f - node.cost,
            ));
            lemma_weight_positive(max_f - node.cost);
        }
        if node.state.is_goal() {
            let steps = node.get_steps();
            proof {
                assert(views(steps@).len() == steps@.len());
            }
            return IterationResult::Solved(steps);
        }
        proof {
            assert forall|w: Seq<Grid>|
                #![trigger followed(w, start, max_f as int)]
                open_end(w, min_evaluated, start, max_f as int) implies above(frontier@, w) || (
            node.cost < u32::MAX && waiting(w, node.path(), node.state@.successors(), 0)) by {
                lemma_pop_waits(w, before, min_evaluated, start, max_f as int);
            }
        }
        if node.cost < u32::MAX {
            expand(&node, &mut frontier, &mut min_evaluated, max_f, Ghost(start));
        }
    }
    proof {
        reveal(attained);
        assert forall|w: Seq<Grid>| !found(w, start, max_f as int) by {
            lemma_nothing_left(w, frontier@, w, w);
            if found(w, start, max_f as int) {
                assert(open_end(w, min_evaluated, start, max_f as int));
            }
        }
        assert forall|w: Seq<Grid>| fringe(w, start, max_f as int) implies min_evaluated < u64::MAX
            && min_evaluated <= tip_score(w) by {
            lemma_nothing_left(w, frontier@, w, w);
            if !(min_evaluated < u64::MAX && min_evaluated <= tip_score(w)) {
                assert(open_end(w, min_evaluated, start, max_f as int));
            }
        }
    }
    IterationResult::MinEvaluated(min_evaluated)
}

/// A solution that is short enough to be counted leads the traversal to a
/// solved board, or beyond the bound at a score that the solution reaches
/// as well.
proof fn lemma_trace(q: Seq<Grid>, start: Grid, max_f: int, w: Seq<Grid>, j: int) -> (end: (
    Seq<Grid>,
    int,
))
    requires
        solves(q, start),
        in_range(q),
        followed(w, start, max_f),
        admits(w, w.len() - 1, max_f),
        0 <= j < q.len(),
        w.last() == q[j],
        w.len() - 1 <= j,
    ensures
        found(end.0, start, max_f) || fringe(end.0, start, max_f),
        0 <= end.1 < q.len(),
        end.0.len() >= 1,
        end.0.last() == q[end.1],
        end.0.len() - 1 <= end.1,
    decreases q.len() - j,
{
    if w.last().is_goal() {
        (w, j)
    } else {
        lemma_last_stay(q, j);
        let k = last_stay(q, j);
        assert(k + 1 < q.len());
        assert(is_move(q[k], q[k + 1]));
        let next = w.push(q[k + 1]);
        lemma_followed_push(w, q[k + 1], start, max_f);
        if tip_score(next) > max_f {
            (next, k + 1)
        } else {
            lemma_trace(q, start, max_f, next, k + 1)
        }
    }
}

/// Where a traversal found no solved board, every solution that is short
/// enough to be counted reaches the least score beyond the bound.
pub proof fn lemma_iteration_bounds_solutions(q: Seq<Grid>, start: Grid, max_f: int, least: u64)
    requires
        solves(q, start),
        in_range(q),
        forall|w: Seq<Grid>| !found(w, start, max_f),
        least_beyond(least, start, max_f),
    ensures
        least < u64::MAX,
        reaches_score(q, least as int),
{
    reveal(reaches_score);
    let root = seq![start];
    assert(is_walk(root));
    let end = lemma_trace(q, start, max_f, root, 0);
    let w = end.0;
    assert(fringe(w, start, max_f));
    assert(tip_score(w) <= score_at(q, end.1));
}

/// The first board of a solution scores its Manhattan estimate.
proof fn lemma_start_score(q: Seq<Grid>, start: Grid)
    requires
        solves(q, start),
    ensures
        reaches_score(q, start.manhattan() as int),
{
    reveal(reaches_score);
    assert(start.manhattan() <= score_at(q, 0));
}

/// A score that a solution of a permutation reaches is no more than the
/// number of its moves.
proof fn lemma_bounded_by_length(q: Seq<Grid>, start: Grid, least: int)
    requires
        start.is_permutation(),
        solves(q, start),
        reaches_score(q, least),
    ensures
        least <= q.len() - 1,
{
    reveal(reaches_score);
    let j = choose|j: int| 0 <= j < q.len() && least <= #[trigger] score_at(q, j);
    lemma_estimate_admissible(q, start, j);
}

/// Searches for a shortest solution of `state` by iterative deepening: a
/// depth-first traversal bounded by a score, repeated with the bound raised
/// to the least score that went beyond it.
pub fn solver(state: PuzzleState) -> (result: Result<Vec<PuzzleState>, SolveError>)
    ensures
        search_outcome(state@, result),
{
    let mut max_f: u64 = state.heuristic() as u64;
    proof {
        assert forall|q: Seq<Grid>| #![trigger solves(q, state@)] solves(q, state@) implies reaches_score(
            q,
            max_f as int,
        ) by {
            lemma_start_score(q, state@);
        }
    }
    loop
        invariant
            forall|q: Seq<Grid>|
                #![trigger solves(q, state@)]
                solves(q, state@) && in_range(q) ==> reaches_score(q, max_f as int),
        decreases u64::MAX - max_f,
    {
        match solver_iteration(state.clone(), max_f) {
            IterationResult::Solved(solution) => {
                proof {
                    if state@.is_permutation() {
                        assert forall|q: Seq<Grid>|
                            #![trigger solves(q, state@)]
                            solves(q, state@) implies views(solution@).len() <= q.len() by {
                            if in_range(q) {
                                lemma_bounded_by_length(q, state@, max_f as int);
                            }
                        }
                    }
                }
                return Ok(solution);
            },
            IterationResult::MinEvaluated(min_evaluated) => {
                proof {
                    assert forall|q: Seq<Grid>|
                        #![trigger solves(q, state@)]
                        solves(q, state@) && in_range(q) implies min_evaluated < u64::MAX
                        && reaches_score(q, min_evaluated as int) by {
                        lemma_iteration_bounds_solutions(q, state@, max_f as int, min_evaluated);
                    }
                }
                if min_evaluated <= max_f {
                    return Err(SolveError::NoSolution);
                }
                max_f = min_evaluated;
            },
        }
    }
}

} // verus!
