//! The planner's frontier: the cells that wait to be expanded, each with the
//! cost estimate it was entered with. The cheapest entry leaves first.

use crate::grid::Coordinate;
use vstd::prelude::*;

verus! {

/// An entry of the frontier: a cell and the estimated total cost of a route
/// through it, as known when the entry was made.
#[derive(Clone, Copy, Debug, PartialEq, Eq)]
pub struct State {
    pub cost: usize,
    pub position: Coordinate,
}

/// `i` is the index of the first entry of `entries` that no other entry
/// undercuts.
pub open spec fn is_first_cheapest(entries: Seq<State>, i: int) -> bool {
    &&& 0 <= i < entries.len()
    &&& forall|j: int| 0 <= j < entries.len() ==> entries[i].cost <= (#[trigger] entries[j]).cost
    &&& forall|j: int| 0 <= j < i ==> entries[i].cost < (#[trigger] entries[j]).cost
}

/// A priority queue of search states, ordered by ascending cost. Among
/// entries of equal cost the one entered first leaves first.
pub struct Frontier {
    entries: Vec<State>,
}

impl View for Frontier {
    type V = Seq<State>;

    closed spec fn view(&self) -> Seq<State> {
        self.entries@
    }
}

impl Frontier {
    /// An empty frontier.
    pub fn new() -> (frontier: Frontier)
        ensures
            frontier@ == Seq::<State>::empty(),
    {
        Frontier { entries: Vec::new() }
    }

    /// The number of entries that wait.
    pub fn len(&self) -> (n: usize)
        ensures
            n == self@.len(),
    {
        self.entries.len()
    }

    /// Whether no entry waits.
    pub fn is_empty(&self) -> (empty: bool)
        ensures
            empty == (self@.len() == 0),
    {
        self.entries.len() == 0
    }

    /// Enters `state` behind the entries that already wait.
    pub fn push(&mut self, state: State)
        ensures
            final(self)@ == old(self)@.push(state),
    {
        self.entries.push(state);
    }

    /// Takes out the cheapest entry, the earliest of them where several tie.
    /// An empty frontier gives `None` and stays as it is.
    pub fn pop(&mut self) -> (popped: Option<State>)
        ensures
            old(self)@.len() == 0 ==> popped.is_none() && final(self)@ == old(self)@,
            old(self)@.len() > 0 ==> exists|i: int|
                {
                    &&& is_first_cheapest(old(self)@, i)
                    &&& popped == Some(old(self)@[i])
                    &&& final(self)@ == old(self)@.remove(i)
                },
    {
        let n: usize = self.entries.len();
        if n == 0 {
            return None;
        }
        let mut best: usize = 0;
        let mut i: usize = 1;
        while i < n
            invariant
                n == self.entries.len(),
                self.entries@ == old(self).entries@,
                best < i <= n,
                forall|j: int| 0 <= j < i ==> self.entries[best as int].cost <= (#[trigger] self.entries[j]).cost,
                forall|j: int| 0 <= j < best ==> self.entries[best as int].cost < (#[trigger] self.entries[j]).cost,
            decreases n - i,
        {
            if self.entries[i].cost < self.entries[best].cost {
                best = i;
            }
            i += 1;
        }
        assert(is_first_cheapest(self.entries@, best as int));
        let state: State = self.entries.remove(best);
        Some(state)
    }
}

} // verus!
