//! A fixed-capacity table from integer keys to round-robin draws.
//!
//! A key is inserted with a number of tasks; each draw for the key returns
//! the next queue index of the key's own cyclic generator, and the draw that
//! uses the last task frees the slot. Collisions are resolved by linear
//! probing from `key mod capacity`.

pub mod buffer;
pub mod laws;
pub mod layout;
pub mod model;

use vstd::prelude::*;
use crate::config::{check_config, config_error};
use crate::error::Error;
use crate::iterator::IndexGenerator;
use crate::mask::{is_power_of_two, lemma_mask_is_mod};
use crate::word::{WORD, word_at, store_word, read_word, write_word, lemma_store_word_len};
use crate::fixed_dict::layout::{HEADER_SIZE, SLOT_SIZE, Slot, slot_offset, slot_at, store_slot,
    lemma_slot_offset, slot_occupied, slot_key, read_slot, write_slot};
use crate::fixed_dict::model::{DictModel, drawn};

verus! {

/// A handle on a table. The table itself lies in the buffer that each
/// operation is given; the handle only remembers the address that the buffer
/// was announced under.
///
/// An operation borrows the buffer for as long as it runs, and that borrow is
/// all the mutual exclusion there is: a buffer that several threads or
/// processes reach has to be handed to one operation at a time.
#[derive(Debug)]
pub struct FixedDict {
    ptr: usize,
}

impl FixedDict {
    /// The address that the handle was made with.
    pub closed spec fn address(self) -> usize {
        self.ptr
    }

    /// The table that the bytes of `mem` spell.
    pub open spec fn model(mem: Seq<u8>) -> DictModel {
        DictModel {
            nb_of_queues: word_at(mem, WORD as int),
            slots: Seq::new(word_at(mem, 0) as nat, |i: int| slot_at(mem, i)),
        }
    }

    /// Whether the generator of each occupied slot among the first
    /// `capacity` is well formed.
    pub open spec fn slots_wf(mem: Seq<u8>, capacity: int) -> bool {
        forall|i: int|
            0 <= i < capacity && (#[trigger] slot_at(mem, i)).occupied ==> slot_at(
                mem,
                i,
            ).index.wf()
    }

    /// Whether `mem` holds a table: the header and all the slots that it
    /// announces lie inside `mem`, and the table is well formed.
    pub open spec fn valid(mem: Seq<u8>) -> bool {
        &&& slot_offset(word_at(mem, 0) as int) <= mem.len()
        &&& Self::model(mem).wf()
    }

    /// The bytes after an accepted `new`: the two words of the header are
    /// overwritten, and nothing else changes.
    pub open spec fn after_new(mem: Seq<u8>, capacity: usize, nb_of_queues: usize) -> Seq<u8> {
        store_word(store_word(mem, 0, capacity), WORD as int, nb_of_queues)
    }

    /// The bytes after `set(key, total_tasks)`: the first free slot in probe
    /// order is overwritten, and nothing else changes.
    pub open spec fn after_set(mem: Seq<u8>, key: usize, total_tasks: usize) -> Seq<u8> {
        match Self::model(mem).first_free(key) {
            Some(i) => store_slot(mem, i, Self::model(mem).fresh_slot(key, total_tasks)),
            None => mem,
        }
    }

    /// The bytes after `get(key)`: the first slot in probe order that is
    /// bound to `key` is overwritten with its state after the draw, and
    /// nothing else changes.
    pub open spec fn after_get(mem: Seq<u8>, key: usize) -> Seq<u8> {
        match Self::model(mem).find(key) {
            Some(i) => store_slot(mem, i, drawn(slot_at(mem, i))),
            None => mem,
        }
    }

    /// Makes a handle for a table of `capacity` slots in `buf`, announced at
    /// address `ptr`, and writes the table's header. The slots are left as
    /// they are, so a table that `buf` already holds keeps its bindings, and
    /// a buffer of zeros holds the empty table.
    ///
    /// Whenever the arguments are accepted, `buf` must have room for the
    /// table.
    pub fn new(buf: &mut [u8], ptr: usize, capacity: usize, nb_of_queues: usize) -> (r: Result<
        Self,
        Error,
    >)
        requires
            config_error(ptr, capacity) is None ==> slot_offset(capacity as int) <= old(
                buf,
            )@.len(),
        ensures
            config_error(ptr, capacity) matches Some(e) ==> r == Err::<Self, Error>(e),
            config_error(ptr, capacity) is Some ==> final(buf)@ == old(buf)@,
            config_error(ptr, capacity) is None ==> (r matches Ok(dict) && dict.address() == ptr),
            config_error(ptr, capacity) is None ==> final(buf)@ == Self::after_new(
                old(buf)@,
                capacity,
                nb_of_queues,
            ),
            config_error(ptr, capacity) is None ==> Self::model(final(buf)@) == (DictModel {
                nb_of_queues,
                slots: Seq::new(capacity as nat, |i: int| slot_at(old(buf)@, i)),
            }),
            config_error(ptr, capacity) is None ==> (Self::valid(final(buf)@) <==> nb_of_queues
                >= 1 && Self::slots_wf(old(buf)@, capacity as int)),
    {
        match check_config(ptr, capacity) {
            Err(e) => {
                return Err(e);
            },
            Ok(()) => {},
        }
        proof {
            lemma_slot_offset(capacity as int);
            lemma_store_word_len(buf@, 0, capacity);
            Self::lemma_after_new(buf@, capacity, nb_of_queues);
        }
        write_word(buf, 0, capacity);
        write_word(buf, WORD, nb_of_queues);
        Ok(FixedDict { ptr })
    }

    /// Binds `key` to a fresh generator and `total_tasks` draws, in the first
    /// free slot that the probe sequence of `key` meets. Fails, and changes
    /// nothing, when every slot is occupied.
    ///
    /// A binding that `key` already has is not looked for: a second one is
    /// made, and draws reach whichever comes first in probe order. A binding
    /// made with no task at all is not freed by its first draw.
    pub fn set(&self, buf: &mut [u8], key: usize, total_tasks: usize) -> (r: Result<(), Error>)
        requires
            Self::valid(old(buf)@),
        ensures
            r == Self::model(old(buf)@).set_result(key),
            final(buf)@ == Self::after_set(old(buf)@, key, total_tasks),
            Self::model(final(buf)@) == Self::model(old(buf)@).set(key, total_tasks),
            Self::valid(final(buf)@),
    {
        let ghost before = buf@;
        let ghost m = Self::model(before);
        proof {
            lemma_slot_offset(0);
            lemma_slot_offset(m.capacity() as int);
            m.lemma_probe_in_range(key, 0);
            m.lemma_probe_step(key, 0);
        }
        assert(slot_offset(m.capacity() as int) <= buf.len());
        let capacity = read_word(buf, 0);
        let nb_of_queues = read_word(buf, WORD);
        let mask = capacity - 1;
        proof {
            lemma_mask_is_mod(key, capacity);
        }
        let mut idx = key & mask;
        let index = IndexGenerator::new(nb_of_queues);
        let mut probes: usize = 0;
        while probes < capacity
            invariant
                buf@ == before,
                before == old(buf)@,
                m == Self::model(before),
                Self::valid(before),
                capacity == m.capacity(),
                mask == capacity - 1,
                probes <= capacity,
                idx == m.probe(key, probes as int),
                0 <= idx < capacity,
                forall|k: int| 0 <= k < probes ==> m.slots[#[trigger] m.probe(key, k)].occupied,
                index == m.fresh_slot(key, total_tasks).index,
            decreases capacity - probes,
        {
            proof {
                lemma_slot_offset(idx as int + 1);
                lemma_slot_offset(capacity as int);
            }
            if !slot_occupied(buf, idx) {
                proof {
                    m.lemma_first_free_at(key, probes as int);
                    Self::lemma_after_set(before, key, total_tasks);
                }
                write_slot(buf, idx, Slot { key, index, counter: total_tasks, occupied: true });
                return Ok(());
            }
            proof {
                m.lemma_probe_step(key, probes as int);
                m.lemma_probe_in_range(key, probes + 1);
                lemma_mask_is_mod((idx + 1) as usize, capacity);
            }
            idx = (idx + 1) & mask;
            probes = probes + 1;
        }
        Err(Error::NoFreeSlot)
    }

    /// Draws the next queue index for `key` from the first slot bound to it
    /// that the probe sequence of `key` meets, and uses up one of the slot's
    /// tasks; the draw that brings the counter to zero frees the slot. Fails,
    /// and changes nothing, when no probe meets such a slot.
    ///
    /// The counter goes down by wrapping subtraction, so a counter found at
    /// zero becomes `usize::MAX` and the slot stays occupied.
    pub fn get(&mut self, buf: &mut [u8], key: usize) -> (r: Result<usize, Error>)
        requires
            Self::valid(old(buf)@),
        ensures
            r == Self::model(old(buf)@).get_result(key),
            final(buf)@ == Self::after_get(old(buf)@, key),
            Self::model(final(buf)@) == Self::model(old(buf)@).get(key),
            Self::valid(final(buf)@),
            final(self).address() == old(self).address(),
    {
        let ghost before = buf@;
        let ghost m = Self::model(before);
        proof {
            lemma_slot_offset(0);
            lemma_slot_offset(m.capacity() as int);
            m.lemma_probe_in_range(key, 0);
            m.lemma_probe_step(key, 0);
        }
        assert(slot_offset(m.capacity() as int) <= buf.len());
        let capacity = read_word(buf, 0);
        let mask = capacity - 1;
        proof {
            lemma_mask_is_mod(key, capacity);
        }
        let mut idx = key & mask;
        let mut probes: usize = 0;
        while probes < capacity
            invariant
                buf@ == before,
                before == old(buf)@,
                m == Self::model(before),
                Self::valid(before),
                capacity == m.capacity(),
                mask == capacity - 1,
                probes <= capacity,
                idx == m.probe(key, probes as int),
                0 <= idx < capacity,
                forall|k: int| 0 <= k < probes ==> !m.holds(#[trigger] m.probe(key, k), key),
            decreases capacity - probes,
        {
            proof {
                lemma_slot_offset(idx as int + 1);
                lemma_slot_offset(capacity as int);
            }
            if slot_occupied(buf, idx) && slot_key(buf, idx) == key {
                proof {
                    m.lemma_find_at(key, probes as int);
                    assert(m.slots[idx as int].index.wf());
                    Self::lemma_after_get(before, key);
                }
                let mut slot = read_slot(buf, idx);
                let index = slot.index.next().unwrap();
                slot.counter = slot.counter.wrapping_sub(1);
                if slot.counter == 0 {
                    slot.occupied = false;
                }
                write_slot(buf, idx, slot);
                return Ok(index);
            }
            proof {
                m.lemma_probe_step(key, probes as int);
                m.lemma_probe_in_range(key, probes + 1);
                lemma_mask_is_mod((idx + 1) as usize, capacity);
            }
            idx = (idx + 1) & mask;
            probes = probes + 1;
        }
        Err(Error::KeyNotFound)
    }

    /// The address that the handle was made with.
    pub fn base_address(&self) -> (ptr: usize)
        ensures
            ptr == self.address(),
    {
        self.ptr
    }

    /// Bytes that a table of `capacity` slots takes: the header and the
    /// slots, with nothing between or behind them.
    pub fn total_size(capacity: usize) -> (bytes: usize)
        requires
            HEADER_SIZE + capacity * SLOT_SIZE <= usize::MAX,
        ensures
            bytes == HEADER_SIZE + capacity * SLOT_SIZE,
    {
        proof {
            lemma_slot_offset(capacity as int);
        }
        HEADER_SIZE + capacity * SLOT_SIZE
    }

    /// `total_size(capacity)` where that fits in a `usize`, and `None` where
    /// it does not.
    pub fn checked_total_size(capacity: usize) -> (bytes: Option<usize>)
        ensures
            HEADER_SIZE + capacity * SLOT_SIZE <= usize::MAX ==> bytes == Some(
                (HEADER_SIZE + capacity * SLOT_SIZE) as usize,
            ),
            HEADER_SIZE + capacity * SLOT_SIZE > usize::MAX ==> bytes is None,
    {
        match capacity.checked_mul(SLOT_SIZE) {
            Some(slots) => slots.checked_add(HEADER_SIZE),
            None => None,
        }
    }

    /// The capacity that the header of `buf` announces.
    pub fn capacity(buf: &[u8]) -> (capacity: usize)
        requires
            HEADER_SIZE <= buf@.len(),
        ensures
            capacity == Self::model(buf@).capacity(),
    {
        read_word(buf, 0)
    }

    /// The modulus that the header of `buf` announces.
    pub fn nb_of_queues(buf: &[u8]) -> (nb_of_queues: usize)
        requires
            HEADER_SIZE <= buf@.len(),
        ensures
            nb_of_queues == Self::model(buf@).nb_of_queues,
    {
        read_word(buf, WORD)
    }

    /// Whether `buf` holds a table, by a look at the header and at every
    /// slot.
    pub fn is_valid(buf: &[u8]) -> (r: bool)
        ensures
            r == Self::valid(buf@),
    {
        proof {
            lemma_slot_offset(0);
            lemma_slot_offset(word_at(buf@, 0) as int);
            Self::lemma_wf_of_bytes(buf@);
        }
        if buf.len() < HEADER_SIZE {
            return false;
        }
        let capacity = read_word(buf, 0);
        let nb_of_queues = read_word(buf, WORD);
        if !is_power_of_two(capacity) || nb_of_queues == 0 {
            return false;
        }
        match Self::checked_total_size(capacity) {
            Some(bytes) => {
                if bytes > buf.len() {
                    return false;
                }
            },
            None => {
                return false;
            },
        }
        let mut i: usize = 0;
        while i < capacity
            invariant
                i <= capacity,
                capacity == word_at(buf@, 0),
                slot_offset(capacity as int) <= buf@.len(),
                Self::slots_wf(buf@, i as int),
            decreases capacity - i,
        {
            proof {
                lemma_slot_offset(i + 1);
                lemma_slot_offset(capacity as int);
            }
            let slot = read_slot(buf, i);
            if slot.occupied && slot.index.current_index >= slot.index.nb_of_queues {
                proof {
                    Self::lemma_wf_of_bytes(buf@);
                    assert(slot_at(buf@, i as int).occupied);
                }
                return false;
            }
            i = i + 1;
        }
        proof {
            Self::lemma_wf_of_bytes(buf@);
        }
        true
    }
}

} // verus!
