//! The frontier queue: a min-priority queue of coordinates keyed by an
//! estimated total cost. Entries are never updated in place; a coordinate
//! may sit in the queue several times under different priorities.

use vstd::prelude::*;

use crate::grid::Coord;

verus! {

/// One queue entry: a coordinate and the estimated total cost under which
/// it was inserted.
#[derive(Clone, Copy, PartialEq, Eq, Structural, Debug)]
pub struct Node {
    pub priority: u64,
    pub cell: Coord,
}

/// A min-priority queue of search nodes. Ties between equal priorities are
/// broken by insertion order: the earliest inserted minimum leaves first.
pub struct Frontier {
    entries: Vec<Node>,
}

impl View for Frontier {
    type V = Seq<Node>;

    closed spec fn view(&self) -> Seq<Node> {
        self.entries@
    }
}

impl Frontier {
    /// Creates an empty queue.
    pub fn new() -> (q: Frontier)
        ensures
            q@ =~= Seq::<Node>::empty(),
    {
        Frontier { entries: Vec::new() }
    }

    /// Number of entries waiting in the queue.
    pub fn len(&self) -> (n: usize)
        ensures
            n == self@.len(),
    {
        self.entries.len()
    }

    /// Inserts a coordinate under the given priority.
    pub fn push(&mut self, priority: u64, cell: Coord)
        ensures
            final(self)@ == old(self)@.push(Node { priority, cell }),
    {
        self.entries.push(Node { priority, cell });
    }

    /// Removes and returns an entry of minimal priority, or `None` when the
    /// queue is empty.
    pub fn pop_min(&mut self) -> (r: Option<Node>)
        ensures
            old(self)@.len() == 0 ==> r is None && final(self)@ == old(self)@,
            old(self)@.len() > 0 ==> (r matches Some(n) && exists|k: int|
                0 <= k < old(self)@.len() && old(self)@[k] == n && final(self)@ == old(
                    self,
                )@.remove(k) && (forall|j: int|
                    0 <= j < old(self)@.len() ==> n.priority <= (#[trigger] old(
                        self,
                    )@[j]).priority)),
    {
        if self.entries.len() == 0 {
            return None;
        }
        let mut best: usize = 0;
        let mut i: usize = 1;
        while i < self.entries.len()
            invariant
                1 <= i <= self@.len(),
                best < i,
                forall|j: int| 0 <= j < i ==> self@[best as int].priority <= (#[trigger] self@[j]).priority,
            decreases self@.len() - i,
        {
            if self.entries[i].priority < self.entries[best].priority {
                best = i;
            }
            i = i + 1;
        }
        Some(self.entries.remove(best))
    }
}

} // verus!
