//! The table of the boards that a best-first search has reached, each with
//! the best node found for it so far.
use vstd::prelude::*;
use std::collections::HashMap;
use std::sync::Arc;
use crate::grid::fingerprint;
use crate::node::Node;
use crate::puzzle_state::PuzzleState;

verus! {

broadcast use vstd::std_specs::hash::group_hash_axioms;

/// One board of the table: its best node, and the slot that was first for
/// its fingerprint before this one.
pub struct Slot {
    pub node: Arc<Node>,
    pub next: Option<usize>,
}

/// The boards reached, numbered in the order in which they were reached.
/// Boards are found by fingerprint: `heads` leads to the newest slot of a
/// fingerprint, and `next` from there to the older ones.
pub struct Reached {
    pub heads: HashMap<u64, usize>,
    pub slots: Vec<Slot>,
}

/// The fingerprint of the board in slot `i`.
pub open spec fn key_of(slots: Seq<Slot>, i: int) -> u64 {
    fingerprint(slots[i].node.state@.cells) as u64
}

/// Slot `i` is met on the way that starts at `from` and follows `next`.
pub open spec fn in_chain(slots: Seq<Slot>, from: Option<usize>, i: int) -> bool
    decreases
            (match from {
                Some(j) => j + 1,
                None => 0,
            }),
{
    match from {
        None => false,
        Some(j) => j < slots.len() && (j == i || match slots[j as int].next {
            Some(k) => k < j && in_chain(slots, Some(k), i),
            None => false,
        }),
    }
}

/// The way from `from` is the same in two tables that agree on every `next`
/// up to there.
pub proof fn lemma_chain_frame(a: Seq<Slot>, b: Seq<Slot>, from: Option<usize>, i: int)
    requires
        from matches Some(j) ==> j < a.len() <= b.len() && forall|k: int|
            0 <= k <= j ==> (#[trigger] a[k]).next == b[k].next,
    ensures
        in_chain(a, from, i) == in_chain(b, from, i),
    decreases
            (match from {
                Some(j) => j + 1,
                None => 0,
            }),
{
    match from {
        None => {},
        Some(j) => {
            assert(a[j as int].next == b[j as int].next);
            match a[j as int].next {
                Some(k) => {
                    if k < j {
                        lemma_chain_frame(a, b, Some(k), i);
                    }
                },
                None => {},
            }
        },
    }
}

impl Reached {
    /// The best node of each slot.
    pub open spec fn nodes(&self) -> Seq<Arc<Node>> {
        Seq::new(self.slots@.len(), |i: int| self.slots@[i].node)
    }

    /// No board has two slots, and every slot is found from its fingerprint.
    pub open spec fn wf(&self) -> bool {
        let slots = self.slots@;
        &&& slots.len() <= usize::MAX
        &&& forall|j: int|
            0 <= j < slots.len() ==> ((#[trigger] slots[j]).next matches Some(k) ==> k < j
                && key_of(slots, k as int) == key_of(slots, j))
        &&& forall|key: u64| #[trigger]
            self.heads@.contains_key(key) ==> self.heads@[key] < slots.len() && key_of(
                slots,
                self.heads@[key] as int,
            ) == key
        &&& forall|i: int|
            0 <= i < slots.len() ==> self.heads@.contains_key(#[trigger] key_of(slots, i))
                && in_chain(slots, Some(self.heads@[key_of(slots, i)]), i)
        &&& forall|i: int, j: int|
            0 <= i < j < slots.len() ==> (#[trigger] slots[i]).node.state@ != (
            #[trigger] slots[j]).node.state@
    }

    /// No slot holds the board `g`.
    pub open spec fn lacks(&self, g: crate::grid::Grid) -> bool {
        forall|i: int| 0 <= i < self.slots@.len() ==> (#[trigger] self.slots@[i]).node.state@ != g
    }

    pub fn new() -> (table: Reached)
        ensures
            table.wf(),
            table.nodes().len() == 0,
    {
        Reached { heads: HashMap::new(), slots: Vec::new() }
    }

    /// The number of boards reached.
    pub fn len(&self) -> (n: usize)
        ensures
            n == self.nodes().len(),
    {
        self.slots.len()
    }

    /// The best node of slot `slot`.
    pub fn node(&self, slot: usize) -> (node: Arc<Node>)
        requires
            slot < self.nodes().len(),
        ensures
            node == self.nodes()[slot as int],
    {
        self.slots[slot].node.clone()
    }

    /// The slot of the board `state`, if it was reached.
    pub fn find(&self, state: &PuzzleState) -> (found: Option<usize>)
        requires
            self.wf(),
        ensures
            match found {
                Some(slot) => slot < self.nodes().len() && self.nodes()[slot as int].state@
                    == state@,
                None => self.lacks(state@),
            },
    {
        let key = state.fingerprint();
        let mut from: Option<usize> = match self.heads.get(&key) {
            Some(head) => Some(*head),
            None => None,
        };
        proof {
            assert forall|i: int|
                0 <= i < self.slots@.len() && (#[trigger] self.slots@[i]).node.state@ == state@ implies in_chain(
                self.slots@,
                from,
                i,
            ) by {
                assert(key_of(self.slots@, i) == key);
            }
        }
        loop
            invariant
                self.wf(),
                from matches Some(j) ==> j < self.slots@.len(),
                forall|i: int|
                    0 <= i < self.slots@.len() && (#[trigger] self.slots@[i]).node.state@ == state@
                        ==> in_chain(self.slots@, from, i),
            decreases
                    (match from {
                        Some(j) => j + 1,
                        None => 0,
                    }),
        {
            match from {
                None => {
                    return None;
                },
                Some(j) => {
                    if self.slots[j].node.state == *state {
                        return Some(j);
                    }
                    proof {
                        let s = self.slots@[j as int];
                        assert(s.next matches Some(k) ==> k < j);
                        assert forall|i: int|
                            0 <= i < self.slots@.len() && (#[trigger] self.slots@[i]).node.state@
                                == state@ implies in_chain(self.slots@, s.next, i) by {
                            assert(in_chain(self.slots@, Some(j), i));
                            assert(i != j);
                        }
                    }
                    from = self.slots[j].next;
                },
            }
        }
    }

    /// Gives the board of `node`, which was not reached before, the next
    /// free slot.
    pub fn insert(&mut self, node: Arc<Node>) -> (slot: usize)
        requires
            old(self).wf(),
            old(self).lacks(node.state@),
        ensures
            final(self).wf(),
            slot == old(self).nodes().len(),
            final(self).nodes() == old(self).nodes().push(node),
    {
        let key = node.state.fingerprint();
        let slot = self.slots.len();
        let next: Option<usize> = match self.heads.get(&key) {
            Some(head) => Some(*head),
            None => None,
        };
        let ghost before = self.slots@;
        let ghost heads_before = self.heads@;
        self.slots.push(Slot { node, next });
        self.heads.insert(key, slot);
        let count = self.slots.len();
        proof {
            let after = self.slots@;
            assert(self.nodes() =~= old(self).nodes().push(node));
            assert forall|i: int| 0 <= i < before.len() implies key_of(after, i) == key_of(
                before,
                i,
            ) && after[i] == before[i] by {}
            assert(key_of(after, slot as int) == key);
            assert forall|i: int| 0 <= i < after.len() implies self.heads@.contains_key(
                #[trigger] key_of(after, i),
            ) && in_chain(after, Some(self.heads@[key_of(after, i)]), i) by {
                if i < before.len() {
                    let k = key_of(before, i);
                    assert(heads_before.contains_key(k));
                    lemma_chain_frame(before, after, Some(heads_before[k]), i);
                    if k == key {
                        assert(next == Some(heads_before[k]));
                    }
                }
            }
            assert forall|i: int, j: int| 0 <= i < j < after.len() implies (
            #[trigger] after[i]).node.state@ != (#[trigger] after[j]).node.state@ by {
                if j < before.len() {
                    assert(before[i].node.state@ != before[j].node.state@);
                } else {
                    assert(before[i].node.state@ != node.state@);
                }
            }
        }
        slot
    }

    /// Puts `node` in the place of the node of slot `slot`, which holds the
    /// same board.
    pub fn replace(&mut self, slot: usize, node: Arc<Node>)
        requires
            old(self).wf(),
            slot < old(self).nodes().len(),
            old(self).nodes()[slot as int].state@ == node.state@,
        ensures
            final(self).wf(),
            final(self).nodes() == old(self).nodes().update(slot as int, node),
    {
        let ghost before = self.slots@;
        let next = self.slots[slot].next;
        self.slots.set(slot, Slot { node, next });
        proof {
            let after = self.slots@;
            assert(self.nodes() =~= old(self).nodes().update(slot as int, node));
            assert(old(self).nodes()[slot as int] == before[slot as int].node);
            assert forall|i: int| 0 <= i < before.len() implies key_of(after, i) == key_of(
                before,
                i,
            ) && (#[trigger] after[i]).next == before[i].next && after[i].node.state@
                == before[i].node.state@ by {}
            assert forall|i: int| 0 <= i < after.len() implies self.heads@.contains_key(
                #[trigger] key_of(after, i),
            ) && in_chain(after, Some(self.heads@[key_of(after, i)]), i) by {
                let k = key_of(before, i);
                assert(self.heads@.contains_key(k));
                lemma_chain_frame(before, after, Some(self.heads@[k]), i);
            }
            assert forall|i: int, j: int| 0 <= i < j < after.len() implies (
            #[trigger] after[i]).node.state@ != (#[trigger] after[j]).node.state@ by {
                assert(before[i].node.state@ != before[j].node.state@);
            }
        }
    }
}

} // verus!
