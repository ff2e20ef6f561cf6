use vstd::prelude::*;
use vstd::pervasive::VecAdditionalExecFns;

verus! {

/// A reference-counted lock per node: a node is usable only while its
/// counter is zero.  Overlapping constraints (a vehicle's presence plus a
/// light's phase) compose additively.
#[derive(Clone)]
pub struct Occupancy {
    pub occupancy: Vec<usize>,
}

impl Occupancy {
    /// The lock counters, node by node.
    pub open spec fn counters(self) -> Seq<usize> {
        self.occupancy@
    }

    pub open spec fn len(self) -> nat {
        self.counters().len()
    }

    /// Whether node `index` carries no lock.
    pub open spec fn unlocked(self, index: int) -> bool {
        self.counters()[index] == 0
    }

    pub fn new(node_count: usize) -> (r: Occupancy)
        ensures
            r.len() == node_count,
            forall|i: int| 0 <= i < node_count ==> #[trigger] r.counters()[i] == 0,
    {
        let mut occupancy: Vec<usize> = Vec::new();
        let mut i: usize = 0;
        while i < node_count
            invariant
                i <= node_count,
                occupancy@.len() == i,
                forall|j: int| 0 <= j < i ==> #[trigger] occupancy@[j] == 0,
            decreases node_count - i,
        {
            occupancy.push(0);
            i = i + 1;
        }
        Occupancy { occupancy }
    }

    pub fn is_unlocked(&self, index: usize) -> (r: bool)
        requires
            index < self.len(),
        ensures
            r == self.unlocked(index as int),
    {
        self.occupancy[index] == 0
    }

    /// Zeroes the counter, whatever it held.
    pub fn remove_all_locks(&mut self, index: usize)
        requires
            index < old(self).len(),
        ensures
            final (self).counters() == old(self).counters().update(index as int, 0usize),
    {
        self.occupancy.set(index, 0);
    }

    /// Releases one lock.  Calling this on an unlocked node is a programming
    /// error, so a positive counter is demanded of the caller.
    pub fn unlock(&mut self, index: usize)
        requires
            index < old(self).len(),
            old(self).counters()[index as int] > 0,
        ensures
            final (self).counters() == old(self).counters().update(
                index as int,
                (old(self).counters()[index as int] - 1) as usize,
            ),
    {
        let current = self.occupancy[index];
        self.occupancy.set(index, current - 1);
    }

    /// Takes one more lock on the node.
    pub fn lock(&mut self, index: usize)
        requires
            index < old(self).len(),
            old(self).counters()[index as int] < usize::MAX,
        ensures
            final (self).counters() == old(self).counters().update(
                index as int,
                (old(self).counters()[index as int] + 1) as usize,
            ),
    {
        let current = self.occupancy[index];
        self.occupancy.set(index, current + 1);
    }
}

} // verus!
