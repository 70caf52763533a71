//! Best-first search: an ordered frontier, and a table of the best node
//! reached for each board.
use vstd::prelude::*;
use std::cmp::Reverse;
use std::sync::Arc;
use priority_queue::PriorityQueue;
use crate::frontier::queue_entries;
use crate::frontier::queue_new;
use crate::frontier::queue_pop;
use crate::frontier::queue_push;
use crate::frontier::queue_remove;
use crate::grid::Grid;
use crate::grid::lemma_successors_few;
use crate::laws::lemma_estimate_admissible;
use crate::node::Node;
use crate::puzzle_state::PuzzleState;
use crate::puzzle_state::views;
use crate::reached::Reached;
use crate::solver::in_range;
use crate::solver::search_outcome;
use crate::solver::SolveError;
use crate::walk::is_move;
use crate::walk::lemma_walk_push;
use crate::walk::solves;

verus! {

/// Some slot holds the board `g` with a cost of at most `c`.
#[verifier::opaque]
pub open spec fn reached_within(nodes: Seq<Arc<Node>>, g: Grid, c: int) -> bool {
    exists|i: int| 0 <= i < nodes.len() && (#[trigger] nodes[i]).state@ == g && nodes[i].cost <= c
}

/// The first `done` moves of the board in slot `i` lead to boards that were
/// reached with at most one move more.
pub open spec fn settled_upto(nodes: Seq<Arc<Node>>, i: int, done: int) -> bool {
    let succ = nodes[i].state@.successors();
    forall|t: int|
        0 <= t < done && t < succ.len() ==> reached_within(nodes, #[trigger] succ[t], nodes[i].cost + 1)
}

/// What holds of a slot that is not on the frontier: its board is not
/// solved, and its moves were tried, as far as its cost can be counted on.
pub open spec fn closed_ok(nodes: Seq<Arc<Node>>, i: int, done: int) -> bool {
    &&& !nodes[i].state@.is_goal()
    &&& nodes[i].cost < u32::MAX ==> settled_upto(nodes, i, done)
}

/// The state of a search from `start`, while the first `done` moves of slot
/// `cur` have been tried (`cur` is -1 between two expansions).
pub open spec fn tidy(
    nodes: Seq<Arc<Node>>,
    entries: Map<usize, u64>,
    start: Grid,
    cur: int,
    done: int,
) -> bool {
    &&& reached_within(nodes, start, 0)
    &&& forall|i: int|
        0 <= i < nodes.len() ==> (#[trigger] nodes[i]).well_formed() && nodes[i].path()[0] == start
    &&& forall|k: usize| #[trigger]
        entries.contains_key(k) ==> k < nodes.len() && entries[k] == nodes[k as int].score()
    &&& forall|k: usize|
        k < nodes.len() && !(#[trigger] entries.contains_key(k)) ==> closed_ok(
            nodes,
            k as int,
            if k == cur {
                done
            } else {
                4
            },
        )
}

/// The table `after` holds every board of `before` in its slot, at no
/// greater cost.
pub open spec fn improves(before: Seq<Arc<Node>>, after: Seq<Arc<Node>>) -> bool {
    &&& before.len() <= after.len()
    &&& forall|i: int|
        0 <= i < before.len() ==> (#[trigger] after[i]).state@ == before[i].state@ && after[i].cost
            <= before[i].cost
}

proof fn lemma_reached_monotone(before: Seq<Arc<Node>>, after: Seq<Arc<Node>>, g: Grid, c: int)
    requires
        improves(before, after),
        reached_within(before, g, c),
    ensures
        reached_within(after, g, c),
{
    reveal(reached_within);
    let i = choose|i: int|
        0 <= i < before.len() && (#[trigger] before[i]).state@ == g && before[i].cost <= c;
    assert(after[i].state@ == g);
}

proof fn lemma_reached_here(nodes: Seq<Arc<Node>>, i: int, c: int)
    requires
        0 <= i < nodes.len(),
        nodes[i].cost <= c,
    ensures
        reached_within(nodes, nodes[i].state@, c),
{
    reveal(reached_within);
}

proof fn lemma_closed_kept(before: Seq<Arc<Node>>, after: Seq<Arc<Node>>, i: int, done: int)
    requires
        improves(before, after),
        0 <= i < before.len(),
        after[i].cost == before[i].cost,
        closed_ok(before, i, done),
    ensures
        closed_ok(after, i, done),
{
    let succ = before[i].state@.successors();
    if before[i].cost < u32::MAX {
        assert forall|t: int| 0 <= t < done && t < succ.len() implies reached_within(
            after,
            #[trigger] succ[t],
            after[i].cost + 1,
        ) by {
            lemma_reached_monotone(before, after, succ[t], before[i].cost + 1);
        }
    }
}

/// The sum of the costs of all slots.
pub open spec fn total_cost(nodes: Seq<Arc<Node>>) -> nat
    decreases nodes.len(),
{
    if nodes.len() == 0 {
        0
    } else {
        total_cost(nodes.drop_last()) + nodes.last().cost as nat
    }
}

proof fn lemma_total_update(nodes: Seq<Arc<Node>>, s: int, node: Arc<Node>)
    requires
        0 <= s < nodes.len(),
    ensures
        total_cost(nodes.update(s, node)) == total_cost(nodes) - nodes[s].cost + node.cost,
    decreases nodes.len(),
{
    let after = nodes.update(s, node);
    if s == nodes.len() - 1 {
        assert(after.drop_last() =~= nodes.drop_last());
    } else {
        assert(after.drop_last() =~= nodes.drop_last().update(s, node));
        lemma_total_update(nodes.drop_last(), s, node);
    }
}

/// One more move of slot `cur` was tried and its board put into slot `s`,
/// new or in the place of a costlier node.
proof fn lemma_step_improve(
    nodes: Seq<Arc<Node>>,
    entries: Map<usize, u64>,
    after: Seq<Arc<Node>>,
    start: Grid,
    cur: usize,
    done: int,
    s: usize,
    child: Arc<Node>,
    score: u64,
)
    requires
        tidy(nodes, entries, start, cur as int, done),
        score == child.score(),
        cur < nodes.len(),
        !entries.contains_key(cur),
        0 <= done < nodes[cur as int].state@.successors().len(),
        child.state@ == nodes[cur as int].state@.successors()[done],
        child.cost == nodes[cur as int].cost + 1,
        child.well_formed(),
        child.path()[0] == start,
        s <= nodes.len(),
        s == nodes.len() ==> after == nodes.push(child),
        s < nodes.len() ==> after == nodes.update(s as int, child) && nodes[s as int].state@
            == child.state@ && child.cost < nodes[s as int].cost,
    ensures
        improves(nodes, after),
        tidy(after, entries.insert(s, score), start, cur as int, done + 1),
{
    let entries2 = entries.insert(s, score);
    assert(s != cur);
    assert(improves(nodes, after));
    lemma_reached_monotone(nodes, after, start, 0);
    lemma_successors_few(nodes[cur as int].state@);
    assert forall|k: usize|
        k < after.len() && !(#[trigger] entries2.contains_key(k)) implies closed_ok(
        after,
        k as int,
        if k == cur {
            done + 1
        } else {
            4
        },
    ) by {
        assert(!entries.contains_key(k));
        assert(k != s);
        lemma_closed_kept(
            nodes,
            after,
            k as int,
            if k == cur {
                done
            } else {
                4
            },
        );
        if k == cur && after[k as int].cost < u32::MAX {
            let succ = after[k as int].state@.successors();
            lemma_reached_here(after, s as int, child.cost as int);
            assert forall|t: int| 0 <= t < done + 1 && t < succ.len() implies reached_within(
                after,
                #[trigger] succ[t],
                after[k as int].cost + 1,
            ) by {}
        }
    }
}

/// One more move of slot `cur` was tried; its board was known at no greater
/// cost, in slot `s`.
proof fn lemma_step_discard(
    nodes: Seq<Arc<Node>>,
    entries: Map<usize, u64>,
    start: Grid,
    cur: usize,
    done: int,
    s: usize,
)
    requires
        tidy(nodes, entries, start, cur as int, done),
        cur < nodes.len(),
        0 <= done < nodes[cur as int].state@.successors().len(),
        s < nodes.len(),
        nodes[s as int].state@ == nodes[cur as int].state@.successors()[done],
        nodes[s as int].cost <= nodes[cur as int].cost + 1,
    ensures
        tidy(nodes, entries, start, cur as int, done + 1),
{
    assert forall|k: usize|
        k < nodes.len() && !(#[trigger] entries.contains_key(k)) implies closed_ok(
        nodes,
        k as int,
        if k == cur {
            done + 1
        } else {
            4
        },
    ) by {
        if k == cur && nodes[k as int].cost < u32::MAX {
            let succ = nodes[k as int].state@.successors();
            lemma_reached_here(nodes, s as int, nodes[cur as int].cost + 1);
            assert forall|t: int| 0 <= t < done + 1 && t < succ.len() implies reached_within(
                nodes,
                #[trigger] succ[t],
                nodes[k as int].cost + 1,
            ) by {}
        }
    }
}

/// Between two expansions every solution short enough to be counted meets a
/// slot on the frontier, from its board `j` on, at a cost the solution has
/// not exceeded there.
proof fn lemma_open_witness(
    q: Seq<Grid>,
    start: Grid,
    nodes: Seq<Arc<Node>>,
    entries: Map<usize, u64>,
    j: int,
    i: usize,
) -> (w: (usize, int))
    requires
        tidy(nodes, entries, start, -1, 0),
        nodes.len() <= usize::MAX,
        solves(q, start),
        in_range(q),
        0 <= j < q.len(),
        i < nodes.len(),
        nodes[i as int].state@ == q[j],
        nodes[i as int].cost <= j,
    ensures
        entries.contains_key(w.0),
        w.0 < nodes.len(),
        0 <= w.1 < q.len(),
        nodes[w.0 as int].state@ == q[w.1],
        nodes[w.0 as int].cost <= w.1,
    decreases q.len() - j,
{
    if entries.contains_key(i) {
        (i, j)
    } else {
        assert(closed_ok(nodes, i as int, 4));
        assert(j + 1 < q.len());
        assert(is_move(q[j], q[j + 1]));
        let succ = q[j].successors();
        lemma_successors_few(q[j]);
        let t = succ.index_of(q[j + 1]);
        assert(reached_within(nodes, succ[t], nodes[i as int].cost + 1));
        reveal(reached_within);
        let i2 = choose|i2: int|
            0 <= i2 < nodes.len() && (#[trigger] nodes[i2]).state@ == q[j + 1] && nodes[i2].cost
                <= nodes[i as int].cost + 1;
        lemma_open_witness(q, start, nodes, entries, j + 1, i2 as usize)
    }
}

/// Between two expansions the frontier holds a slot on every solution that
/// is short enough to be counted.
proof fn lemma_frontier_meets(
    q: Seq<Grid>,
    start: Grid,
    nodes: Seq<Arc<Node>>,
    entries: Map<usize, u64>,
) -> (w: (usize, int))
    requires
        tidy(nodes, entries, start, -1, 0),
        nodes.len() <= usize::MAX,
        solves(q, start),
        in_range(q),
    ensures
        entries.contains_key(w.0),
        w.0 < nodes.len(),
        0 <= w.1 < q.len(),
        nodes[w.0 as int].state@ == q[w.1],
        nodes[w.0 as int].cost <= w.1,
{
    reveal(reached_within);
    let i = choose|i: int|
        0 <= i < nodes.len() && (#[trigger] nodes[i]).state@ == start && nodes[i].cost <= 0;
    lemma_open_witness(q, start, nodes, entries, 0, i as usize)
}

/// The search has moved on: the table has grown, or its costs have fallen,
/// or at least neither it nor the frontier has changed.
pub open spec fn progress(
    nodes: Seq<Arc<Node>>,
    entries: Map<usize, u64>,
    after: Seq<Arc<Node>>,
    entries_after: Map<usize, u64>,
) -> bool {
    &&& nodes.len() <= after.len()
    &&& nodes.len() == after.len() ==> total_cost(after) <= total_cost(nodes)
    &&& nodes.len() == after.len() && total_cost(after) == total_cost(nodes) ==> entries_after
        == entries
}

/// Tries every move of the node in slot `cur`: a board not reached before
/// gets a slot and goes onto the frontier; a board reached at a greater
/// cost leaves the frontier, takes the new node, and goes onto the frontier
/// again; any other is dropped.
fn expand(
    cur: usize,
    node: &Arc<Node>,
    table: &mut Reached,
    frontier: &mut PriorityQueue<usize, Reverse<u64>>,
    Ghost(start): Ghost<Grid>,
)
    requires
        old(table).wf(),
        cur < old(table).nodes().len(),
        old(table).nodes()[cur as int] == *node,
        node.cost < u32::MAX,
        !queue_entries(*old(frontier)).contains_key(cur),
        queue_entries(*old(frontier)).dom().finite(),
        tidy(old(table).nodes(), queue_entries(*old(frontier)), start, cur as int, 0),
    ensures
        final(table).wf(),
        queue_entries(*final(frontier)).dom().finite(),
        tidy(final(table).nodes(), queue_entries(*final(frontier)), start, -1, 0),
        progress(
            old(table).nodes(),
            queue_entries(*old(frontier)),
            final(table).nodes(),
            queue_entries(*final(frontier)),
        ),
{
    let ghost nodes0 = table.nodes();
    let ghost entries0 = queue_entries(*frontier);
    let ghost here = node.state@;
    let ghost succ = here.successors();
    let ghost mut done: int = 0;
    proof {
        lemma_successors_few(here);
        node.lemma_path_ends_here();
    }
    let mut actions = node.state.get_actions();
    while actions.len() > 0
        invariant
            0 <= done <= succ.len() <= 4,
            actions@.len() == succ.len() - done,
            forall|i: int| 0 <= i < actions@.len() ==> (#[trigger] actions@[i])@ == succ[done + i],
            succ == here.successors(),
            here == node.state@,
            node.cost < u32::MAX,
            node.well_formed(),
            node.path()[0] == start,
            node.path().len() > 0,
            node.path().last() == here,
            table.wf(),
            cur < table.nodes().len(),
            table.nodes()[cur as int].state@ == here,
            table.nodes()[cur as int].cost == node.cost,
            !queue_entries(*frontier).contains_key(cur),
            queue_entries(*frontier).dom().finite(),
            tidy(table.nodes(), queue_entries(*frontier), start, cur as int, done),
            progress(nodes0, entries0, table.nodes(), queue_entries(*frontier)),
        decreases actions@.len(),
    {
        let ghost nodes = table.nodes();
        let ghost entries = queue_entries(*frontier);
        let ghost actions_before = actions@;
        let action = actions.remove(0);
        proof {
            assert(action@ == actions_before[0]@);
            assert forall|i: int| 0 <= i < actions@.len() implies (#[trigger] actions@[i])@
                == succ[done + 1 + i] by {
                assert(actions@[i] == actions_before[i + 1]);
            }
            assert(is_move(here, succ[done]));
            assert(nodes[cur as int].well_formed());
        }
        let child = Arc::new(Node::new(action, Some(node.clone()), node.cost + 1));
        proof {
            assert(child.path() =~= node.path().push(child.state@));
            lemma_walk_push(node.path(), child.state@);
        }
        let score = child.f();
        match table.find(&child.state) {
            None => {
                let slot = table.insert(child);
                queue_push(frontier, slot, score);
                proof {
                    lemma_step_improve(
                        nodes,
                        entries,
                        table.nodes(),
                        start,
                        cur,
                        done,
                        slot,
                        child,
                        score,
                    );
                }
            },
            Some(slot) => {
                let known = table.node(slot);
                if child.cost < known.cost {
                    queue_remove(frontier, slot);
                    table.replace(slot, child);
                    queue_push(frontier, slot, score);
                    proof {
                        assert(queue_entries(*frontier) =~= entries.insert(slot, score));
                        lemma_total_update(nodes, slot as int, child);
                        lemma_step_improve(
                        nodes,
                        entries,
                        table.nodes(),
                        start,
                        cur,
                        done,
                        slot,
                        child,
                        score,
                    );
                    }
                } else {
                    proof {
                        lemma_step_discard(nodes, entries, start, cur, done, slot);
                    }
                }
            },
        }
        proof {
            done = done + 1;
        }
    }
}

/// Searches for a shortest solution of `start` best first: the node of the
/// least score is expanded next, and of two ways to a board only the
/// cheaper is kept.
pub fn solve_best_first(start: PuzzleState) -> (result: Result<Vec<PuzzleState>, SolveError>)
    ensures
        search_outcome(start@, result),
{
    let ghost origin = start@;
    let mut table = Reached::new();
    let mut frontier = queue_new();
    let root = Arc::new(Node::new(start, None, 0));
    let root_score = root.f();
    proof {
        assert(root.path() =~= seq![origin]);
        assert(table.lacks(root.state@));
    }
    let root_slot = table.insert(root);
    queue_push(&mut frontier, root_slot, root_score);
    proof {
        lemma_reached_here(table.nodes(), 0, 0);
        assert(queue_entries(frontier).dom() =~= set![root_slot]);
    }
    loop
        invariant
            origin == start@,
            table.wf(),
            queue_entries(frontier).dom().finite(),
            tidy(table.nodes(), queue_entries(frontier), origin, -1, 0),
        decreases
                usize::MAX - table.nodes().len(),
                total_cost(table.nodes()),
                queue_entries(frontier).dom().len(),
    {
        let ghost nodes = table.nodes();
        let ghost entries = queue_entries(frontier);
        match queue_pop(&mut frontier) {
            None => {
                proof {
                    assert forall|q: Seq<Grid>|
                        #![trigger solves(q, origin)]
                        solves(q, origin) implies !in_range(q) by {
                        if in_range(q) {
                            let w = lemma_frontier_meets(q, origin, nodes, entries);
                        }
                    }
                }
                return Err(SolveError::NoSolution);
            },
            Some((slot, score)) => {
                let node = table.node(slot);
                if node.state.is_goal() {
                    let steps = node.get_steps();
                    proof {
                        node.lemma_path_ends_here();
                        assert(nodes[slot as int].well_formed());
                        assert(views(steps@).len() == steps@.len());
                        if origin.is_permutation() {
                            assert forall|q: Seq<Grid>|
                                #![trigger solves(q, origin)]
                                solves(q, origin) implies views(steps@).len() <= q.len() by {
                                if in_range(q) {
                                    let w = lemma_frontier_meets(q, origin, nodes, entries);
                                    lemma_estimate_admissible(q, origin, w.1);
                                    assert(score <= entries[w.0]);
                                }
                            }
                        }
                    }
                    return Ok(steps);
                }
                proof {
                    assert(queue_entries(frontier).dom() =~= entries.dom().remove(slot));
                    assert(queue_entries(frontier).dom().len() == entries.dom().len() - 1);
                    assert forall|k: usize|
                        k < nodes.len() && !(#[trigger] queue_entries(frontier).contains_key(k))
                        implies closed_ok(
                        nodes,
                        k as int,
                        if k == slot {
                            0
                        } else {
                            4
                        },
                    ) by {
                        if k != slot {
                            assert(!entries.contains_key(k));
                        }
                    }
                }
                if node.cost < u32::MAX {
                    expand(slot, &node, &mut table, &mut frontier, Ghost(origin));
                } else {
                    proof {
                        assert forall|k: usize|
                            k < nodes.len() && !(#[trigger] queue_entries(frontier).contains_key(k))
                            implies closed_ok(nodes, k as int, 4) by {
                            if k != slot {
                                assert(!entries.contains_key(k));
                            }
                        }
                    }
                }
            },
        }
    }
}

} // verus!
