//! The nodes that wait for expansion, kept by score.

use vstd::prelude::*;
use std::collections::BTreeMap;

verus! {

/// The waiting nodes as a value: for each score that has any, the stack of
/// its slots from the oldest to the newest. A slot holds a node, or nothing
/// once its node was superseded.
pub type FrontierView = Map<u128, Seq<Option<usize>>>;

/// Whether `score` is the lowest score that has a stack.
pub open spec fn is_lowest(frontier: FrontierView, score: u128) -> bool {
    &&& frontier.contains_key(score)
    &&& forall|other: u128| frontier.contains_key(other) ==> score <= other
}

/// The stack of `score`, empty where the score has none.
pub open spec fn stack_at(frontier: FrontierView, score: u128) -> Seq<Option<usize>> {
    if frontier.contains_key(score) {
        frontier[score]
    } else {
        Seq::empty()
    }
}

/// The frontier after `node` was put on top of the stack of `score`.
pub open spec fn pushed(frontier: FrontierView, score: u128, node: usize) -> FrontierView {
    frontier.insert(score, stack_at(frontier, score).push(Some(node)))
}

/// The frontier after the top slot of the stack of `score` was taken. A
/// stack that would be left empty leaves the frontier.
pub open spec fn popped(frontier: FrontierView, score: u128) -> FrontierView {
    if stack_at(frontier, score).len() <= 1 {
        frontier.remove(score)
    } else {
        frontier.insert(score, frontier[score].drop_last())
    }
}

/// What the slot at `position` of the stack of `score` holds: a node, or
/// nothing where there is no such slot or its node was superseded.
pub open spec fn slot_holds(frontier: FrontierView, score: u128, position: usize) -> Option<usize> {
    if position < stack_at(frontier, score).len() {
        frontier[score][position as int]
    } else {
        None
    }
}

/// The frontier after the slot at `position` of the stack of `score` lost
/// its node. A slot that holds none changes nothing.
pub open spec fn retired(frontier: FrontierView, score: u128, position: usize) -> FrontierView {
    if slot_holds(frontier, score, position) is Some {
        frontier.insert(score, frontier[score].update(position as int, None))
    } else {
        frontier
    }
}

/// A push fills one new slot and leaves every other slot as it was.
pub proof fn lemma_pushed_slots(frontier: FrontierView, score: u128, node: usize, s: u128, p: usize)
    ensures
        slot_holds(pushed(frontier, score, node), s, p) == if s == score && p == stack_at(
            frontier,
            score,
        ).len() {
            Some(node)
        } else {
            slot_holds(frontier, s, p)
        },
{
}

/// Retiring a slot empties it and leaves every other slot as it was.
pub proof fn lemma_retired_slots(
    frontier: FrontierView,
    score: u128,
    position: usize,
    s: u128,
    p: usize,
)
    ensures
        slot_holds(retired(frontier, score, position), s, p) == if s == score && p == position {
            None
        } else {
            slot_holds(frontier, s, p)
        },
        stack_at(retired(frontier, score, position), s).len() == stack_at(frontier, s).len(),
{
}

/// Taking the top slot of a stack removes it and leaves every other slot as
/// it was.
pub proof fn lemma_popped_slots(frontier: FrontierView, score: u128, s: u128, p: usize)
    requires
        stack_at(frontier, score).len() > 0,
    ensures
        slot_holds(popped(frontier, score), s, p) == if s == score && p == stack_at(
            frontier,
            score,
        ).len() - 1 {
            None
        } else {
            slot_holds(frontier, s, p)
        },
{
}

/// The least key of a map, by `BTreeMap::first_key_value`: the standard
/// library documents that the pair it returns is the one with the minimum
/// key, and that it returns nothing for an empty map.
#[verifier::external_body]
fn lowest_key(buckets: &BTreeMap<u128, Vec<Option<usize>>>) -> (key: Option<u128>)
    ensures
        match key {
            Some(score) => buckets@.contains_key(score) && forall|other: u128|
                buckets@.contains_key(other) ==> score <= other,
            None => buckets@ == Map::<u128, Vec<Option<usize>>>::empty(),
        },
{
    match buckets.first_key_value() {
        Some((score, _)) => Some(*score),
        None => None,
    }
}

/// The nodes that wait for expansion. The node that leaves first is the
/// one put last on the stack of the lowest score.
pub struct Frontier {
    buckets: BTreeMap<u128, Vec<Option<usize>>>,
}

impl View for Frontier {
    type V = FrontierView;

    /// The stacks of the scores that have any.
    closed spec fn view(&self) -> FrontierView {
        self.buckets@.map_values(|stack: Vec<Option<usize>>| stack@)
    }
}

impl Frontier {
    /// No score keeps an empty stack.
    pub closed spec fn wf(&self) -> bool {
        forall|score: u128| #[trigger] self@.contains_key(score) ==> self@[score].len() > 0
    }

    /// A stack holds no more slots than a machine can count.
    pub proof fn lemma_stack_fits(&self, score: u128)
        ensures
            stack_at(self@, score).len() <= usize::MAX,
    {
        if self@.contains_key(score) {
            assert(self.buckets@[score].len() == self.buckets@[score]@.len());
        }
    }

    /// A frontier in which nothing waits.
    pub fn new() -> (frontier: Frontier)
        ensures
            frontier.wf(),
            frontier@ == Map::<u128, Seq<Option<usize>>>::empty(),
    {
        let frontier = Frontier { buckets: BTreeMap::new() };
        assert(frontier@ =~= Map::<u128, Seq<Option<usize>>>::empty());
        frontier
    }

    /// Puts `node` on top of the stack of `score` and says at which position
    /// of that stack it stands.
    pub fn push(&mut self, score: u128, node: usize) -> (position: usize)
        requires
            old(self).wf(),
        ensures
            final(self).wf(),
            final(self)@ == pushed(old(self)@, score, node),
            position == stack_at(old(self)@, score).len(),
    {
        let mut stack: Vec<Option<usize>> = match self.buckets.remove(&score) {
            Some(stack) => stack,
            None => Vec::new(),
        };
        let position: usize = stack.len();
        stack.push(Some(node));
        self.buckets.insert(score, stack);
        assert(self@ =~= pushed(old(self)@, score, node));
        position
    }

    /// Takes the top slot from the stack of the lowest score, with that
    /// score, or reports that nothing waits.
    pub fn pop(&mut self) -> (taken: Option<(u128, Option<usize>)>)
        requires
            old(self).wf(),
        ensures
            final(self).wf(),
            match taken {
                Some((score, entry)) => is_lowest(old(self)@, score) && old(self)@[score].len() > 0
                    && entry == old(self)@[score].last() && final(self)@ == popped(
                    old(self)@,
                    score,
                ),
                None => old(self)@ == Map::<u128, Seq<Option<usize>>>::empty() && final(self)@
                    == old(self)@,
            },
    {
        let score: u128 = match lowest_key(&self.buckets) {
            Some(score) => score,
            None => {
                assert(self@ =~= Map::<u128, Seq<Option<usize>>>::empty());
                return None;
            },
        };
        assert(self@.contains_key(score));
        let mut stack: Vec<Option<usize>> = match self.buckets.remove(&score) {
            Some(stack) => stack,
            None => Vec::new(),
        };
        assert(stack@ == old(self)@[score]);
        let entry: Option<usize> = match stack.pop() {
            Some(entry) => entry,
            None => None,
        };
        if stack.len() > 0 {
            self.buckets.insert(score, stack);
        }
        assert(self@ =~= popped(old(self)@, score));
        Some((score, entry))
    }

    /// Takes the node out of the slot at `position` of the stack of `score`
    /// and leaves the slot in place. Reports the node, or `None` where the
    /// slot does not exist or held no node.
    pub fn retire(&mut self, score: u128, position: usize) -> (node: Option<usize>)
        requires
            old(self).wf(),
        ensures
            final(self).wf(),
            node == slot_holds(old(self)@, score, position),
            final(self)@ == retired(old(self)@, score, position),
    {
        let mut stack: Vec<Option<usize>> = match self.buckets.remove(&score) {
            Some(stack) => stack,
            None => {
                assert(self@ =~= old(self)@);
                return None;
            },
        };
        let node: Option<usize> = if position < stack.len() {
            stack[position]
        } else {
            None
        };
        if node.is_some() {
            stack.set(position, None);
        }
        self.buckets.insert(score, stack);
        assert(self@ =~= retired(old(self)@, score, position));
        node
    }
}

} // verus!
