//! The stack in its buffer: what writes to the bytes do to the stack that
//! the bytes spell.

use vstd::prelude::*;
use vstd::arithmetic::power2::is_pow2;
use crate::word::{WORD, word_at, store_word, lemma_store_word_len, lemma_store_then_read,
    lemma_store_keeps_bytes, lemma_store_keeps_word};
use crate::fixed_list::FixedList;
use crate::fixed_list::layout::{HEADER_SIZE, Slot, slot_offset, slot_at, store_slot, lemma_slot_offset,
    lemma_store_slot_frame, lemma_store_slot_keeps_word, lemma_store_then_read_slot,
    lemma_store_keeps_slot};
use crate::fixed_list::model::{ListModel, drawn};

verus! {

impl FixedList {
    /// Overwriting a slot below the capacity leaves the header and the other
    /// slots alone.
    pub proof fn lemma_store_slot_effect(mem: Seq<u8>, i: int, slot: Slot)
        requires
            slot_offset(word_at(mem, 0) as int) <= mem.len(),
            0 <= i < word_at(mem, 0),
        ensures
            ({
                let after = store_slot(mem, i, slot);
                &&& after.len() == mem.len()
                &&& word_at(after, 0) == word_at(mem, 0)
                &&& word_at(after, WORD as int) == word_at(mem, WORD as int)
                &&& word_at(after, 2 * WORD) == word_at(mem, 2 * WORD)
                &&& slot_at(after, i) == slot
                &&& forall|j: int|
                    0 <= j < word_at(mem, 0) && j != i ==> #[trigger] slot_at(after, j) == slot_at(
                        mem,
                        j,
                    )
            }),
    {
        let capacity = word_at(mem, 0) as int;
        let after = store_slot(mem, i, slot);
        lemma_slot_offset(i);
        lemma_slot_offset(i + 1);
        lemma_slot_offset(capacity);
        lemma_store_slot_frame(mem, i, slot);
        lemma_store_slot_keeps_word(mem, i, slot, 0);
        lemma_store_slot_keeps_word(mem, i, slot, WORD as int);
        lemma_store_slot_keeps_word(mem, i, slot, 2 * WORD);
        lemma_store_then_read_slot(mem, i, slot);
        assert forall|j: int| 0 <= j < capacity && j != i implies #[trigger] slot_at(after, j)
            == slot_at(mem, j) by {
            lemma_slot_offset(j + 1);
            lemma_store_keeps_slot(mem, i, slot, j);
        }
    }

    /// Overwriting `end_index` leaves the rest of the header and the slots
    /// alone.
    pub proof fn lemma_store_end_effect(mem: Seq<u8>, end: usize)
        requires
            slot_offset(word_at(mem, 0) as int) <= mem.len(),
        ensures
            ({
                let after = store_word(mem, 2 * WORD, end);
                &&& after.len() == mem.len()
                &&& word_at(after, 0) == word_at(mem, 0)
                &&& word_at(after, WORD as int) == word_at(mem, WORD as int)
                &&& word_at(after, 2 * WORD) == end
                &&& forall|j: int|
                    0 <= j < word_at(mem, 0) ==> #[trigger] slot_at(after, j) == slot_at(mem, j)
            }),
    {
        let capacity = word_at(mem, 0) as int;
        let after = store_word(mem, 2 * WORD, end);
        lemma_slot_offset(capacity);
        lemma_store_word_len(mem, 2 * WORD, end);
        lemma_store_then_read(mem, 2 * WORD, end);
        lemma_store_keeps_word(mem, 2 * WORD, end, 0);
        lemma_store_keeps_word(mem, 2 * WORD, end, WORD as int);
        assert forall|j: int| 0 <= j < capacity implies #[trigger] slot_at(after, j) == slot_at(
            mem,
            j,
        ) by {
            lemma_slot_offset(j);
            lemma_slot_offset(j + 1);
            let base = slot_offset(j);
            lemma_store_keeps_word(mem, 2 * WORD, end, base);
            lemma_store_keeps_word(mem, 2 * WORD, end, base + WORD);
            lemma_store_keeps_word(mem, 2 * WORD, end, base + 2 * WORD);
        }
    }

    /// The bytes after a push spell the stack after the push.
    pub proof fn lemma_after_add(mem: Seq<u8>, total_tasks: usize)
        requires
            Self::valid(mem),
        ensures
            Self::after_add(mem, total_tasks).len() == mem.len(),
            Self::model(Self::after_add(mem, total_tasks)) == Self::model(mem).add(total_tasks),
            Self::valid(Self::after_add(mem, total_tasks)),
    {
        let m = Self::model(mem);
        m.lemma_wf_kept(total_tasks);
        if !m.is_full() {
            let end = m.end_index() as int;
            let stored = store_slot(mem, end, m.fresh_slot(total_tasks));
            Self::lemma_store_slot_effect(mem, end, m.fresh_slot(total_tasks));
            Self::lemma_store_end_effect(stored, (end + 1) as usize);
            assert(Self::model(Self::after_add(mem, total_tasks)).entries =~= m.entries.push(
                m.fresh_slot(total_tasks),
            ));
        }
    }

    /// The bytes after a draw spell the stack after the draw.
    pub proof fn lemma_after_next(mem: Seq<u8>)
        requires
            Self::valid(mem),
        ensures
            Self::after_next(mem).len() == mem.len(),
            Self::model(Self::after_next(mem)) == Self::model(mem).next(),
            Self::valid(Self::after_next(mem)),
    {
        let m = Self::model(mem);
        m.lemma_wf_kept(0);
        if m.end_index() > 0 {
            let last = m.end_index() - 1;
            let top = drawn(slot_at(mem, last));
            let stored = store_slot(mem, last, top);
            Self::lemma_store_slot_effect(mem, last, top);
            if top.counter == 0 {
                Self::lemma_store_end_effect(stored, last as usize);
                assert(Self::model(Self::after_next(mem)).entries =~= m.entries.drop_last());
            } else {
                assert(Self::model(Self::after_next(mem)).entries =~= m.entries.update(last, top));
            }
        }
    }

    /// Writing the header of the empty stack leaves every byte behind the
    /// header as it was; what comes out is a stack exactly when the capacity
    /// is a power of two and the modulus is positive.
    pub proof fn lemma_after_new(mem: Seq<u8>, capacity: usize, nb_of_queues: usize)
        requires
            slot_offset(capacity as int) <= mem.len(),
        ensures
            Self::after_new(mem, capacity, nb_of_queues).len() == mem.len(),
            forall|k: int|
                HEADER_SIZE <= k < mem.len() ==> Self::after_new(mem, capacity, nb_of_queues)[k]
                    == mem[k],
            Self::model(Self::after_new(mem, capacity, nb_of_queues)) == (ListModel {
                capacity,
                nb_of_queues,
                entries: Seq::empty(),
            }),
            Self::valid(Self::after_new(mem, capacity, nb_of_queues)) <==> is_pow2(capacity as int)
                && nb_of_queues >= 1,
    {
        let m1 = store_word(mem, 0, capacity);
        let m2 = store_word(m1, WORD as int, nb_of_queues);
        let after = Self::after_new(mem, capacity, nb_of_queues);
        lemma_slot_offset(capacity as int);
        lemma_store_word_len(mem, 0, capacity);
        lemma_store_word_len(m1, WORD as int, nb_of_queues);
        lemma_store_word_len(m2, 2 * WORD, 0);
        lemma_store_then_read(mem, 0, capacity);
        lemma_store_then_read(m1, WORD as int, nb_of_queues);
        lemma_store_then_read(m2, 2 * WORD, 0);
        lemma_store_keeps_word(m1, WORD as int, nb_of_queues, 0);
        lemma_store_keeps_word(m2, 2 * WORD, 0, 0);
        lemma_store_keeps_word(m2, 2 * WORD, 0, WORD as int);
        assert forall|k: int| HEADER_SIZE <= k < mem.len() implies after[k] == mem[k] by {
            lemma_store_keeps_bytes(mem, 0, capacity, k);
            lemma_store_keeps_bytes(m1, WORD as int, nb_of_queues, k);
            lemma_store_keeps_bytes(m2, 2 * WORD, 0, k);
        }
        assert(Self::model(after).entries =~= Seq::<Slot>::empty());
    }
}

} // verus!
