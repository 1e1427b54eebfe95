//! The stack as a mathematical value, and what push and draw do to it.

use vstd::prelude::*;
use vstd::arithmetic::power2::is_pow2;
use crate::error::Error;
use crate::iterator::IndexGenerator;
use crate::fixed_list::layout::Slot;

verus! {

/// A stack: its capacity, the modulus that new entries get, and the live
/// entries from the bottom to the top. `end_index` is their number.
pub struct ListModel {
    pub capacity: usize,
    pub nb_of_queues: usize,
    pub entries: Seq<Slot>,
}

/// An entry after one draw: the generator steps and the counter goes down by
/// one, wrapping below zero.
pub open spec fn drawn(slot: Slot) -> Slot {
    let counter = if slot.counter == 0 {
        usize::MAX
    } else {
        (slot.counter - 1) as usize
    };
    Slot { index: slot.index.advanced(), counter }
}

impl ListModel {
    /// The number of entries, which is also the slot that the next push
    /// writes.
    pub open spec fn end_index(self) -> nat {
        self.entries.len()
    }

    /// What every operation needs: the capacity is a power of two and bounds
    /// the number of entries, the modulus is positive, and the generator of
    /// each entry is well formed.
    pub open spec fn wf(self) -> bool {
        &&& is_pow2(self.capacity as int)
        &&& self.nb_of_queues >= 1
        &&& self.entries.len() <= self.capacity
        &&& forall|i: int| 0 <= i < self.entries.len() ==> (#[trigger] self.entries[i]).index.wf()
    }

    /// The entry that a push writes.
    pub open spec fn fresh_slot(self, total_tasks: usize) -> Slot {
        Slot {
            index: IndexGenerator { nb_of_queues: self.nb_of_queues, current_index: 0 },
            counter: total_tasks,
        }
    }

    /// Whether the stack holds as many entries as it has slots.
    pub open spec fn is_full(self) -> bool {
        self.entries.len() >= self.capacity
    }

    /// The stack after `add(total_tasks)`.
    pub open spec fn add(self, total_tasks: usize) -> ListModel {
        if self.is_full() {
            self
        } else {
            ListModel {
                capacity: self.capacity,
                nb_of_queues: self.nb_of_queues,
                entries: self.entries.push(self.fresh_slot(total_tasks)),
            }
        }
    }

    /// What `add(_)` returns.
    pub open spec fn add_result(self) -> Result<(), Error> {
        if self.is_full() {
            Err(Error::ListFull)
        } else {
            Ok(())
        }
    }

    /// The stack after `next()`: the top entry is drawn from, and leaves the
    /// stack when that brings its counter to zero.
    pub open spec fn next(self) -> ListModel {
        if self.entries.len() == 0 {
            self
        } else {
            let top = drawn(self.entries.last());
            ListModel {
                capacity: self.capacity,
                nb_of_queues: self.nb_of_queues,
                entries: if top.counter == 0 {
                    self.entries.drop_last()
                } else {
                    self.entries.update(self.entries.len() - 1, top)
                },
            }
        }
    }

    /// What `next()` returns.
    pub open spec fn next_result(self) -> Result<usize, Error> {
        if self.entries.len() == 0 {
            Err(Error::ListEmpty)
        } else {
            Ok(self.entries.last().index.current_index)
        }
    }

    /// Push and draw keep `wf`, the capacity and the modulus.
    pub proof fn lemma_wf_kept(self, total_tasks: usize)
        requires
            self.wf(),
        ensures
            self.add(total_tasks).wf(),
            self.next().wf(),
            self.add(total_tasks).capacity == self.capacity,
            self.next().capacity == self.capacity,
            self.add(total_tasks).nb_of_queues == self.nb_of_queues,
            self.next().nb_of_queues == self.nb_of_queues,
    {
        if self.entries.len() > 0 {
            self.entries.last().index.lemma_advanced_wf();
        }
    }
}

} // verus!
