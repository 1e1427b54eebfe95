//! The table in its buffer: what writes to the bytes do to the table that
//! the bytes spell.

use vstd::prelude::*;
use vstd::arithmetic::power2::is_pow2;
use crate::word::{WORD, word_at, store_word, lemma_store_word_len, lemma_store_then_read,
    lemma_store_keeps_bytes, lemma_store_keeps_word};
use crate::fixed_dict::FixedDict;
use crate::fixed_dict::layout::{HEADER_SIZE, Slot, slot_offset, flag_offset, slot_at, store_slot,
    lemma_slot_offset, lemma_store_slot_frame, lemma_store_slot_keeps_word,
    lemma_store_then_read_slot, lemma_store_keeps_slot};
use crate::fixed_dict::laws::lemma_occupied_count_zero;
use crate::fixed_dict::model::{DictModel, drawn};

verus! {

impl FixedDict {
    /// Overwriting a slot of the buffer overwrites that slot of the table
    /// and leaves the header and the other slots alone.
    pub proof fn lemma_model_after_store(mem: Seq<u8>, i: int, slot: Slot)
        requires
            slot_offset(word_at(mem, 0) as int) <= mem.len(),
            0 <= i < word_at(mem, 0),
        ensures
            store_slot(mem, i, slot).len() == mem.len(),
            word_at(store_slot(mem, i, slot), 0) == word_at(mem, 0),
            Self::model(store_slot(mem, i, slot)) == (DictModel {
                nb_of_queues: Self::model(mem).nb_of_queues,
                slots: Self::model(mem).slots.update(i, slot),
            }),
    {
        let capacity = word_at(mem, 0) as int;
        let after = store_slot(mem, i, slot);
        lemma_slot_offset(i);
        lemma_slot_offset(i + 1);
        lemma_slot_offset(capacity);
        lemma_store_slot_frame(mem, i, slot);
        lemma_store_slot_keeps_word(mem, i, slot, 0);
        lemma_store_slot_keeps_word(mem, i, slot, WORD as int);
        lemma_store_then_read_slot(mem, i, slot);
        assert forall|j: int| 0 <= j < capacity && j != i implies slot_at(after, j) == slot_at(
            mem,
            j,
        ) by {
            lemma_slot_offset(j + 1);
            lemma_store_keeps_slot(mem, i, slot, j);
        }
        assert(Self::model(after).slots =~= Self::model(mem).slots.update(i, slot));
    }

    /// The bytes after an insertion spell the table after the insertion.
    pub proof fn lemma_after_set(mem: Seq<u8>, key: usize, total_tasks: usize)
        requires
            Self::valid(mem),
        ensures
            Self::after_set(mem, key, total_tasks).len() == mem.len(),
            Self::model(Self::after_set(mem, key, total_tasks)) == Self::model(mem).set(
                key,
                total_tasks,
            ),
            Self::valid(Self::after_set(mem, key, total_tasks)),
    {
        let m = Self::model(mem);
        m.lemma_wf_kept(key, total_tasks);
        if m.first_free(key) is Some {
            m.lemma_first_free_is_free(key);
            Self::lemma_model_after_store(
                mem,
                m.first_free(key).unwrap(),
                m.fresh_slot(key, total_tasks),
            );
        }
    }

    /// The bytes after a draw spell the table after the draw.
    pub proof fn lemma_after_get(mem: Seq<u8>, key: usize)
        requires
            Self::valid(mem),
        ensures
            Self::after_get(mem, key).len() == mem.len(),
            Self::model(Self::after_get(mem, key)) == Self::model(mem).get(key),
            Self::valid(Self::after_get(mem, key)),
    {
        let m = Self::model(mem);
        m.lemma_wf_kept(key, 0);
        if m.find(key) is Some {
            m.lemma_find_holds(key);
            let i = m.find(key).unwrap();
            Self::lemma_model_after_store(mem, i, drawn(slot_at(mem, i)));
        }
    }

    /// Well-formedness of the table, said of the bytes.
    pub proof fn lemma_wf_of_bytes(mem: Seq<u8>)
        ensures
            Self::model(mem).wf() <==> is_pow2(word_at(mem, 0) as int) && word_at(mem, WORD as int)
                >= 1 && Self::slots_wf(mem, word_at(mem, 0) as int),
    {
        let m = Self::model(mem);
        let capacity = word_at(mem, 0) as int;
        if m.wf() {
            assert forall|i: int|
                0 <= i < capacity && (#[trigger] slot_at(mem, i)).occupied implies slot_at(
                mem,
                i,
            ).index.wf() by {
                assert(m.slots[i].occupied);
            }
        }
        if Self::slots_wf(mem, capacity) {
            assert forall|i: int|
                0 <= i < m.slots.len() && (#[trigger] m.slots[i]).occupied implies m.slots[i].index.wf() by {
                assert(slot_at(mem, i).occupied);
            }
        }
    }

    /// Writing the header leaves every byte behind it, and so every slot, as
    /// it was; what comes out is a table exactly when the capacity is a
    /// power of two, the modulus is positive and the slots found are well
    /// formed.
    pub proof fn lemma_after_new(mem: Seq<u8>, capacity: usize, nb_of_queues: usize)
        requires
            slot_offset(capacity as int) <= mem.len(),
        ensures
            Self::after_new(mem, capacity, nb_of_queues).len() == mem.len(),
            forall|k: int|
                HEADER_SIZE <= k < mem.len() ==> Self::after_new(mem, capacity, nb_of_queues)[k]
                    == mem[k],
            forall|i: int|
                0 <= i < capacity ==> #[trigger] slot_at(
                    Self::after_new(mem, capacity, nb_of_queues),
                    i,
                ) == slot_at(mem, i),
            Self::model(Self::after_new(mem, capacity, nb_of_queues)) == (DictModel {
                nb_of_queues,
                slots: Seq::new(capacity as nat, |i: int| slot_at(mem, i)),
            }),
            Self::valid(Self::after_new(mem, capacity, nb_of_queues)) <==> is_pow2(capacity as int)
                && nb_of_queues >= 1 && Self::slots_wf(mem, capacity as int),
    {
        let m1 = store_word(mem, 0, capacity);
        let after = Self::after_new(mem, capacity, nb_of_queues);
        lemma_slot_offset(capacity as int);
        lemma_store_word_len(mem, 0, capacity);
        lemma_store_word_len(m1, WORD as int, nb_of_queues);
        lemma_store_then_read(mem, 0, capacity);
        lemma_store_then_read(m1, WORD as int, nb_of_queues);
        lemma_store_keeps_word(m1, WORD as int, nb_of_queues, 0);
        assert forall|k: int| HEADER_SIZE <= k < mem.len() implies after[k] == mem[k] by {
            lemma_store_keeps_bytes(mem, 0, capacity, k);
            lemma_store_keeps_bytes(m1, WORD as int, nb_of_queues, k);
        }
        assert forall|i: int| 0 <= i < capacity implies #[trigger] slot_at(after, i) == slot_at(
            mem,
            i,
        ) by {
            lemma_slot_offset(i);
            lemma_slot_offset(i + 1);
            let base = slot_offset(i);
            assert(after.subrange(base, base + WORD) =~= mem.subrange(base, base + WORD));
            assert(after.subrange(base + WORD, base + 2 * WORD) =~= mem.subrange(
                base + WORD,
                base + 2 * WORD,
            ));
            assert(after.subrange(base + 2 * WORD, base + 3 * WORD) =~= mem.subrange(
                base + 2 * WORD,
                base + 3 * WORD,
            ));
            assert(after.subrange(base + 3 * WORD, base + 4 * WORD) =~= mem.subrange(
                base + 3 * WORD,
                base + 4 * WORD,
            ));
        }
        assert(Self::model(after).slots =~= Seq::new(capacity as nat, |i: int| slot_at(mem, i)));
        assert forall|i: int| 0 <= i < capacity implies #[trigger] slot_at(mem, i) == slot_at(
            after,
            i,
        ) by {}
        Self::lemma_wf_of_bytes(after);
    }

    /// A table made in a buffer whose slot flags are zero, as they are in a
    /// buffer of zeros, is valid and has no binding.
    pub proof fn lemma_new_in_zeros(mem: Seq<u8>, capacity: usize, nb_of_queues: usize)
        requires
            is_pow2(capacity as int),
            nb_of_queues >= 1,
            slot_offset(capacity as int) <= mem.len(),
            forall|i: int| 0 <= i < capacity ==> mem[#[trigger] flag_offset(i)] == 0,
        ensures
            Self::valid(Self::after_new(mem, capacity, nb_of_queues)),
            Self::model(Self::after_new(mem, capacity, nb_of_queues)).occupied() == 0,
    {
        let m = Self::model(Self::after_new(mem, capacity, nb_of_queues));
        Self::lemma_after_new(mem, capacity, nb_of_queues);
        assert forall|i: int| 0 <= i < capacity implies !(#[trigger] slot_at(mem, i)).occupied by {
            assert(mem[flag_offset(i)] == 0);
        }
        assert forall|i: int| 0 <= i < m.slots.len() implies !(#[trigger] m.slots[i]).occupied by {
            assert(!slot_at(mem, i).occupied);
        }
        lemma_occupied_count_zero(m.slots);
    }
}

} // verus!
