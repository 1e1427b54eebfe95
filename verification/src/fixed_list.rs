//! A fixed-capacity stack of round-robin draws.
//!
//! An entry is pushed with a number of tasks; each draw returns the next
//! queue index of the top entry's own cyclic generator, and the draw that
//! uses the entry's last task pops it.

pub mod buffer;
pub mod laws;
pub mod layout;
pub mod model;

use vstd::prelude::*;
use crate::config::{check_config, config_error};
use crate::error::Error;
use crate::iterator::IndexGenerator;
use crate::mask::is_power_of_two;
use crate::word::{WORD, word_at, store_word, read_word, write_word, lemma_store_word_len};
use crate::fixed_list::layout::{HEADER_SIZE, SLOT_SIZE, Slot, slot_offset, slot_at, store_slot,
    lemma_slot_offset, read_slot, write_slot};
use crate::fixed_list::model::{ListModel, drawn};

verus! {

/// A handle on a stack. The stack itself lies in the buffer that each
/// operation is given; the handle only remembers the address that the buffer
/// was announced under.
///
/// An operation borrows the buffer for as long as it runs, and that borrow is
/// all the mutual exclusion there is: a buffer that several threads or
/// processes reach has to be handed to one operation at a time.
#[derive(Debug)]
pub struct FixedList {
    ptr: usize,
}

impl FixedList {
    /// The address that the handle was made with.
    pub closed spec fn address(self) -> usize {
        self.ptr
    }

    /// The stack that the bytes of `mem` spell. Slots from `end_index` on
    /// are no part of it, whatever their bytes hold.
    pub open spec fn model(mem: Seq<u8>) -> ListModel {
        ListModel {
            capacity: word_at(mem, 0),
            nb_of_queues: word_at(mem, WORD as int),
            entries: Seq::new(word_at(mem, 2 * WORD) as nat, |i: int| slot_at(mem, i)),
        }
    }

    /// Whether `mem` holds a stack: the header and all the slots that it
    /// announces lie inside `mem`, and the stack is well formed.
    pub open spec fn valid(mem: Seq<u8>) -> bool {
        &&& slot_offset(word_at(mem, 0) as int) <= mem.len()
        &&& Self::model(mem).wf()
    }

    /// The bytes after an accepted `new`: the three words of the header are
    /// overwritten, `end_index` with zero, and nothing else changes.
    pub open spec fn after_new(mem: Seq<u8>, capacity: usize, nb_of_queues: usize) -> Seq<u8> {
        store_word(
            store_word(store_word(mem, 0, capacity), WORD as int, nb_of_queues),
            2 * WORD,
            0,
        )
    }

    /// The bytes after `add(total_tasks)`: the slot at `end_index` is
    /// overwritten and `end_index` goes up by one, unless the stack is full.
    pub open spec fn after_add(mem: Seq<u8>, total_tasks: usize) -> Seq<u8> {
        let m = Self::model(mem);
        if m.is_full() {
            mem
        } else {
            store_word(
                store_slot(mem, m.end_index() as int, m.fresh_slot(total_tasks)),
                2 * WORD,
                (m.end_index() + 1) as usize,
            )
        }
    }

    /// The bytes after `next()`: the top slot is overwritten with its state
    /// after the draw, and `end_index` goes down by one if that brought the
    /// slot's counter to zero; nothing changes when the stack is empty.
    pub open spec fn after_next(mem: Seq<u8>) -> Seq<u8> {
        let m = Self::model(mem);
        if m.end_index() == 0 {
            mem
        } else {
            let top = drawn(slot_at(mem, m.end_index() - 1));
            let stored = store_slot(mem, m.end_index() - 1, top);
            if top.counter == 0 {
                store_word(stored, 2 * WORD, (m.end_index() - 1) as usize)
            } else {
                stored
            }
        }
    }

    /// Makes a handle for a stack of `capacity` slots in `buf`, announced at
    /// address `ptr`, and writes the header of the empty stack. Whatever
    /// `buf` held before is no part of the new stack.
    ///
    /// Whenever the arguments are accepted, `buf` must have room for the
    /// stack.
    pub fn new(buf: &mut [u8], ptr: usize, capacity: usize, nb_of_queues: usize) -> (r: Result<
        Self,
        Error,
    >)
        requires
            config_error(ptr, capacity) is None ==> slot_offset(capacity as int) <= old(
                buf,
            )@.len(),
        ensures
            config_error(ptr, capacity) matches Some(e) ==> r == Err::<Self, Error>(e),
            config_error(ptr, capacity) is Some ==> final(buf)@ == old(buf)@,
            config_error(ptr, capacity) is None ==> (r matches Ok(list) && list.address() == ptr),
            config_error(ptr, capacity) is None ==> final(buf)@ == Self::after_new(
                old(buf)@,
                capacity,
                nb_of_queues,
            ),
            config_error(ptr, capacity) is None ==> Self::model(final(buf)@) == (ListModel {
                capacity,
                nb_of_queues,
                entries: Seq::empty(),
            }),
            config_error(ptr, capacity) is None ==> (Self::valid(final(buf)@) <==> nb_of_queues
                >= 1),
    {
        match check_config(ptr, capacity) {
            Err(e) => {
                return Err(e);
            },
            Ok(()) => {},
        }
        proof {
            lemma_slot_offset(capacity as int);
            lemma_store_word_len(buf@, 0, capacity);
            lemma_store_word_len(store_word(buf@, 0, capacity), WORD as int, nb_of_queues);
            Self::lemma_after_new(buf@, capacity, nb_of_queues);
        }
        write_word(buf, 0, capacity);
        write_word(buf, WORD, nb_of_queues);
        write_word(buf, 2 * WORD, 0);
        Ok(FixedList { ptr })
    }

    /// Pushes an entry with a fresh generator and `total_tasks` draws.
    /// Fails, and changes nothing, when the stack holds `capacity` entries.
    /// An entry pushed with no task at all is not popped by its first draw.
    pub fn add(&mut self, buf: &mut [u8], total_tasks: usize) -> (r: Result<(), Error>)
        requires
            Self::valid(old(buf)@),
        ensures
            r == Self::model(old(buf)@).add_result(),
            final(buf)@ == Self::after_add(old(buf)@, total_tasks),
            Self::model(final(buf)@) == Self::model(old(buf)@).add(total_tasks),
            Self::valid(final(buf)@),
            final(self).address() == old(self).address(),
    {
        proof {
            lemma_slot_offset(0);
            lemma_slot_offset(word_at(buf@, 0) as int);
            Self::lemma_after_add(buf@, total_tasks);
        }
        assert(slot_offset(word_at(buf@, 0) as int) <= buf.len());
        let capacity = read_word(buf, 0);
        let nb_of_queues = read_word(buf, WORD);
        let end_index = read_word(buf, 2 * WORD);
        if end_index >= capacity {
            return Err(Error::ListFull);
        }
        let index = IndexGenerator::new(nb_of_queues);
        proof {
            lemma_slot_offset(end_index + 1);
            Self::lemma_store_slot_effect(
                buf@,
                end_index as int,
                Slot { index, counter: total_tasks },
            );
        }
        write_slot(buf, end_index, Slot { index, counter: total_tasks });
        write_word(buf, 2 * WORD, end_index + 1);
        Ok(())
    }

    /// Draws the next queue index from the top entry and uses up one of its
    /// tasks; the draw that brings the counter to zero pops the entry.
    /// Fails, and changes nothing, when the stack is empty.
    ///
    /// The counter goes down by wrapping subtraction, so a counter found at
    /// zero becomes `usize::MAX` and the entry stays.
    pub fn next(&mut self, buf: &mut [u8]) -> (r: Result<usize, Error>)
        requires
            Self::valid(old(buf)@),
        ensures
            r == Self::model(old(buf)@).next_result(),
            final(buf)@ == Self::after_next(old(buf)@),
            Self::model(final(buf)@) == Self::model(old(buf)@).next(),
            Self::valid(final(buf)@),
            final(self).address() == old(self).address(),
    {
        proof {
            lemma_slot_offset(0);
            lemma_slot_offset(word_at(buf@, 0) as int);
            Self::lemma_after_next(buf@);
        }
        assert(slot_offset(word_at(buf@, 0) as int) <= buf.len());
        let end_index = read_word(buf, 2 * WORD);
        if end_index == 0 {
            return Err(Error::ListEmpty);
        }
        proof {
            lemma_slot_offset(end_index as int);
            assert(Self::model(buf@).entries[end_index - 1].index.wf());
        }
        let mut slot = read_slot(buf, end_index - 1);
        let index = slot.index.next().unwrap();
        slot.counter = slot.counter.wrapping_sub(1);
        proof {
            Self::lemma_store_slot_effect(buf@, end_index - 1, slot);
        }
        write_slot(buf, end_index - 1, slot);
        if slot.counter == 0 {
            write_word(buf, 2 * WORD, end_index - 1);
        }
        Ok(index)
    }

    /// The address that the handle was made with.
    pub fn base_address(&self) -> (ptr: usize)
        ensures
            ptr == self.address(),
    {
        self.ptr
    }

    /// Bytes that a stack of `capacity` slots takes: the header and the
    /// slots, with nothing between or behind them.
    pub fn total_size(capacity: usize) -> (bytes: usize)
        requires
            HEADER_SIZE + capacity * SLOT_SIZE <= usize::MAX,
        ensures
            bytes == HEADER_SIZE + capacity * SLOT_SIZE,
    {
        proof {
            lemma_slot_offset(capacity as int);
        }
        HEADER_SIZE + capacity * SLOT_SIZE
    }

    /// `total_size(capacity)` where that fits in a `usize`, and `None` where
    /// it does not.
    pub fn checked_total_size(capacity: usize) -> (bytes: Option<usize>)
        ensures
            HEADER_SIZE + capacity * SLOT_SIZE <= usize::MAX ==> bytes == Some(
                (HEADER_SIZE + capacity * SLOT_SIZE) as usize,
            ),
            HEADER_SIZE + capacity * SLOT_SIZE > usize::MAX ==> bytes is None,
    {
        match capacity.checked_mul(SLOT_SIZE) {
            Some(slots) => slots.checked_add(HEADER_SIZE),
            None => None,
        }
    }

    /// The capacity that the header of `buf` announces.
    pub fn capacity(buf: &[u8]) -> (capacity: usize)
        requires
            HEADER_SIZE <= buf@.len(),
        ensures
            capacity == Self::model(buf@).capacity,
    {
        read_word(buf, 0)
    }

    /// The modulus that the header of `buf` announces.
    pub fn nb_of_queues(buf: &[u8]) -> (nb_of_queues: usize)
        requires
            HEADER_SIZE <= buf@.len(),
        ensures
            nb_of_queues == Self::model(buf@).nb_of_queues,
    {
        read_word(buf, WORD)
    }

    /// The number of entries that the header of `buf` announces.
    pub fn end_index(buf: &[u8]) -> (end_index: usize)
        requires
            HEADER_SIZE <= buf@.len(),
        ensures
            end_index == Self::model(buf@).end_index(),
    {
        read_word(buf, 2 * WORD)
    }

    /// Whether `buf` holds a stack, by a look at the header and at every
    /// live slot.
    pub fn is_valid(buf: &[u8]) -> (r: bool)
        ensures
            r == Self::valid(buf@),
    {
        proof {
            lemma_slot_offset(0);
            lemma_slot_offset(word_at(buf@, 0) as int);
        }
        if buf.len() < HEADER_SIZE {
            return false;
        }
        let capacity = read_word(buf, 0);
        let nb_of_queues = read_word(buf, WORD);
        let end_index = read_word(buf, 2 * WORD);
        if !is_power_of_two(capacity) || nb_of_queues == 0 || end_index > capacity {
            return false;
        }
        match Self::checked_total_size(capacity) {
            Some(bytes) => {
                if bytes > buf.len() {
                    return false;
                }
            },
            None => {
                return false;
            },
        }
        let mut i: usize = 0;
        while i < end_index
            invariant
                i <= end_index <= capacity,
                capacity == word_at(buf@, 0),
                end_index == word_at(buf@, 2 * WORD),
                slot_offset(capacity as int) <= buf@.len(),
                forall|j: int| 0 <= j < i ==> (#[trigger] slot_at(buf@, j)).index.wf(),
            decreases end_index - i,
        {
            proof {
                lemma_slot_offset(i + 1);
                lemma_slot_offset(capacity as int);
            }
            let slot = read_slot(buf, i);
            if slot.index.current_index >= slot.index.nb_of_queues {
                assert(!Self::model(buf@).entries[i as int].index.wf());
                return false;
            }
            i = i + 1;
        }
        assert forall|j: int| 0 <= j < Self::model(buf@).entries.len() implies (
        #[trigger] Self::model(buf@).entries[j]).index.wf() by {
            assert(slot_at(buf@, j).index.wf());
        }
        true
    }
}

} // verus!
