//! The table as a mathematical value, and what insertion and draw do to it.

use vstd::prelude::*;
use vstd::arithmetic::power2::is_pow2;
use vstd::arithmetic::div_mod::{lemma_add_mod_noop_right, lemma_mod_bound, lemma_small_mod};
use crate::error::Error;
use crate::iterator::IndexGenerator;
use crate::fixed_dict::layout::Slot;

verus! {

/// A table: the modulus that new bindings get, and the slots in the order of
/// the buffer. The capacity is the number of slots.
pub struct DictModel {
    pub nb_of_queues: usize,
    pub slots: Seq<Slot>,
}

/// A slot after one draw: the generator steps, the counter goes down by one,
/// wrapping below zero, and the slot is free once the counter is zero.
pub open spec fn drawn(slot: Slot) -> Slot {
    let counter = if slot.counter == 0 {
        usize::MAX
    } else {
        (slot.counter - 1) as usize
    };
    Slot { key: slot.key, index: slot.index.advanced(), counter, occupied: counter != 0 }
}

impl DictModel {
    /// The number of slots.
    pub open spec fn capacity(self) -> nat {
        self.slots.len()
    }

    /// What every operation needs: the capacity is a power of two, the
    /// modulus is positive, and the generator of each occupied slot is
    /// well formed.
    pub open spec fn wf(self) -> bool {
        &&& is_pow2(self.capacity() as int)
        &&& self.nb_of_queues >= 1
        &&& forall|i: int|
            0 <= i < self.slots.len() && (#[trigger] self.slots[i]).occupied
                ==> self.slots[i].index.wf()
    }

    /// The slot that the probe sequence of `key` visits at step `j`.
    pub open spec fn probe(self, key: usize, j: int) -> int {
        (key + j) % (self.capacity() as int)
    }

    /// Whether slot `i` is occupied and bound to `key`.
    pub open spec fn holds(self, i: int, key: usize) -> bool {
        self.slots[i].occupied && self.slots[i].key == key
    }

    /// Whether step `j` is the first at which the probe sequence of `key`
    /// meets a free slot.
    pub open spec fn is_first_free(self, key: usize, j: int) -> bool {
        &&& 0 <= j < self.capacity()
        &&& !self.slots[self.probe(key, j)].occupied
        &&& forall|k: int| 0 <= k < j ==> self.slots[#[trigger] self.probe(key, k)].occupied
    }

    /// Whether step `j` is the first at which the probe sequence of `key`
    /// meets a slot bound to `key`.
    pub open spec fn is_first_match(self, key: usize, j: int) -> bool {
        &&& 0 <= j < self.capacity()
        &&& self.holds(self.probe(key, j), key)
        &&& forall|k: int| 0 <= k < j ==> !self.holds(#[trigger] self.probe(key, k), key)
    }

    /// The slot that an insertion of `key` fills: the first free one in
    /// probe order, if any of the `capacity` probes meets one.
    pub open spec fn first_free(self, key: usize) -> Option<int> {
        if exists|j: int| self.is_first_free(key, j) {
            Some(self.probe(key, choose|j: int| self.is_first_free(key, j)))
        } else {
            None
        }
    }

    /// The slot that a draw for `key` reaches: the first in probe order that
    /// is bound to `key`, if any of the `capacity` probes meets one.
    pub open spec fn find(self, key: usize) -> Option<int> {
        if exists|j: int| self.is_first_match(key, j) {
            Some(self.probe(key, choose|j: int| self.is_first_match(key, j)))
        } else {
            None
        }
    }

    /// The slot that an insertion writes.
    pub open spec fn fresh_slot(self, key: usize, total_tasks: usize) -> Slot {
        Slot {
            key,
            index: IndexGenerator { nb_of_queues: self.nb_of_queues, current_index: 0 },
            counter: total_tasks,
            occupied: true,
        }
    }

    /// The table after `set(key, total_tasks)`.
    pub open spec fn set(self, key: usize, total_tasks: usize) -> DictModel {
        match self.first_free(key) {
            Some(i) => DictModel {
                nb_of_queues: self.nb_of_queues,
                slots: self.slots.update(i, self.fresh_slot(key, total_tasks)),
            },
            None => self,
        }
    }

    /// What `set(key, _)` returns.
    pub open spec fn set_result(self, key: usize) -> Result<(), Error> {
        match self.first_free(key) {
            Some(_) => Ok(()),
            None => Err(Error::NoFreeSlot),
        }
    }

    /// The table after `get(key)`.
    pub open spec fn get(self, key: usize) -> DictModel {
        match self.find(key) {
            Some(i) => DictModel {
                nb_of_queues: self.nb_of_queues,
                slots: self.slots.update(i, drawn(self.slots[i])),
            },
            None => self,
        }
    }

    /// What `get(key)` returns.
    pub open spec fn get_result(self, key: usize) -> Result<usize, Error> {
        match self.find(key) {
            Some(i) => Ok(self.slots[i].index.current_index),
            None => Err(Error::KeyNotFound),
        }
    }

    /// A table of a power-of-two capacity has a slot, and every probe lands
    /// on one.
    pub proof fn lemma_probe_in_range(self, key: usize, j: int)
        requires
            is_pow2(self.capacity() as int),
        ensures
            self.capacity() >= 1,
            0 <= self.probe(key, j) < self.capacity(),
    {
        reveal(is_pow2);
        lemma_mod_bound(key + j, self.capacity() as int);
    }

    /// The probe sequence starts at `key mod capacity` and moves one slot
    /// forward per step, wrapping at the capacity.
    pub proof fn lemma_probe_step(self, key: usize, j: int)
        requires
            is_pow2(self.capacity() as int),
        ensures
            self.probe(key, 0) == (key as int) % (self.capacity() as int),
            self.probe(key, j + 1) == (self.probe(key, j) + 1) % (self.capacity() as int),
    {
        reveal(is_pow2);
        lemma_add_mod_noop_right(1, key + j, self.capacity() as int);
    }

    /// The first `capacity` probes visit every slot, wherever they start:
    /// returns a step at which the probe sequence of `key` meets slot `i`.
    pub proof fn lemma_probe_covers(self, key: usize, i: int) -> (j: int)
        requires
            is_pow2(self.capacity() as int),
            0 <= i < self.capacity(),
        ensures
            0 <= j < self.capacity(),
            self.probe(key, j) == i,
    {
        reveal(is_pow2);
        let c = self.capacity() as int;
        let j = (i - key) % c;
        lemma_mod_bound(i - key, c);
        lemma_add_mod_noop_right(key as int, i - key, c);
        lemma_small_mod(i as nat, c as nat);
        j
    }

    /// At most one step is the first to meet a free slot.
    pub proof fn lemma_first_free_unique(self, key: usize, j1: int, j2: int)
        requires
            self.is_first_free(key, j1),
            self.is_first_free(key, j2),
        ensures
            j1 == j2,
    {
        if j1 < j2 {
            assert(self.slots[self.probe(key, j1)].occupied);
        } else if j2 < j1 {
            assert(self.slots[self.probe(key, j2)].occupied);
        }
    }

    /// At most one step is the first to meet a slot bound to `key`.
    pub proof fn lemma_first_match_unique(self, key: usize, j1: int, j2: int)
        requires
            self.is_first_match(key, j1),
            self.is_first_match(key, j2),
        ensures
            j1 == j2,
    {
        if j1 < j2 {
            assert(!self.holds(self.probe(key, j1), key));
        } else if j2 < j1 {
            assert(!self.holds(self.probe(key, j2), key));
        }
    }

    /// A step that is the first to meet a free slot names the slot that an
    /// insertion fills.
    pub proof fn lemma_first_free_at(self, key: usize, j: int)
        requires
            self.is_first_free(key, j),
        ensures
            self.first_free(key) == Some(self.probe(key, j)),
    {
        let w = choose|w: int| self.is_first_free(key, w);
        self.lemma_first_free_unique(key, j, w);
    }

    /// A step that is the first to meet a slot bound to `key` names the slot
    /// that a draw reaches.
    pub proof fn lemma_find_at(self, key: usize, j: int)
        requires
            self.is_first_match(key, j),
        ensures
            self.find(key) == Some(self.probe(key, j)),
    {
        let w = choose|w: int| self.is_first_match(key, w);
        self.lemma_first_match_unique(key, j, w);
    }

    /// The slot that an insertion fills is a free slot of the table.
    pub proof fn lemma_first_free_is_free(self, key: usize)
        requires
            is_pow2(self.capacity() as int),
            self.first_free(key) is Some,
        ensures
            0 <= self.first_free(key).unwrap() < self.capacity(),
            !self.slots[self.first_free(key).unwrap()].occupied,
    {
        let w = choose|w: int| self.is_first_free(key, w);
        self.lemma_probe_in_range(key, w);
    }

    /// The slot that a draw reaches is a slot of the table bound to `key`.
    pub proof fn lemma_find_holds(self, key: usize)
        requires
            is_pow2(self.capacity() as int),
            self.find(key) is Some,
        ensures
            0 <= self.find(key).unwrap() < self.capacity(),
            self.holds(self.find(key).unwrap(), key),
    {
        let w = choose|w: int| self.is_first_match(key, w);
        self.lemma_probe_in_range(key, w);
    }

    /// Insertion and draw keep `wf`.
    pub proof fn lemma_wf_kept(self, key: usize, total_tasks: usize)
        requires
            self.wf(),
        ensures
            self.set(key, total_tasks).wf(),
            self.get(key).wf(),
            self.set(key, total_tasks).capacity() == self.capacity(),
            self.get(key).capacity() == self.capacity(),
    {
        if self.first_free(key) is Some {
            self.lemma_first_free_is_free(key);
        }
        if self.find(key) is Some {
            self.lemma_find_holds(key);
            let i = self.find(key).unwrap();
            assert(self.slots[i].index.wf());
            self.slots[i].index.lemma_advanced_wf();
        }
    }
}

} // verus!
