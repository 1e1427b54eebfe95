//! How a table lies in its buffer: a header of two words, then the slots.
//!
//! Header: `capacity`, `nb_of_queues`. Slot: `key`, the generator's
//! `nb_of_queues` and `current_index`, `counter`, then one byte that is
//! nonzero while the slot is occupied, padded to a full word.

use vstd::prelude::*;
use crate::iterator::IndexGenerator;
use crate::word::{WORD, word_at, store_word, read_word, write_word, lemma_word_range,
    lemma_store_word_len, lemma_store_then_read, lemma_store_keeps_bytes, lemma_store_keeps_word};

verus! {

/// Bytes in the header.
pub const HEADER_SIZE: usize = 2 * WORD;

/// Bytes in a slot.
pub const SLOT_SIZE: usize = 5 * WORD;

/// One slot of the table, decoded.
#[derive(Copy, Clone)]
pub struct Slot {
    pub key: usize,
    pub index: IndexGenerator,
    pub counter: usize,
    pub occupied: bool,
}

impl Default for Slot {
    /// A slot that was never used.
    fn default() -> (s: Self)
        ensures
            s == (Slot {
                key: usize::MAX,
                index: IndexGenerator { nb_of_queues: 1, current_index: 0 },
                counter: 0,
                occupied: false,
            }),
    {
        Slot { key: usize::MAX, index: IndexGenerator::new(1), counter: usize::MIN, occupied: false }
    }
}

/// The byte at which slot `i` starts; for `i` the capacity, the byte after
/// the last slot.
pub open spec fn slot_offset(i: int) -> int {
    HEADER_SIZE + i * SLOT_SIZE
}

/// The byte that tells whether slot `i` is occupied.
pub open spec fn flag_offset(i: int) -> int {
    slot_offset(i) + 4 * WORD
}

/// The flag byte that is written for a slot.
pub open spec fn flag_byte(occupied: bool) -> u8 {
    if occupied {
        1
    } else {
        0
    }
}

/// Slot `i` as the bytes of `mem` spell it.
pub open spec fn slot_at(mem: Seq<u8>, i: int) -> Slot {
    let base = slot_offset(i);
    Slot {
        key: word_at(mem, base),
        index: IndexGenerator {
            nb_of_queues: word_at(mem, base + WORD),
            current_index: word_at(mem, base + 2 * WORD),
        },
        counter: word_at(mem, base + 3 * WORD),
        occupied: mem[flag_offset(i)] != 0,
    }
}

/// `mem` with slot `i` replaced by `slot`. The padding behind the flag byte
/// stays as it is.
pub open spec fn store_slot(mem: Seq<u8>, i: int, slot: Slot) -> Seq<u8> {
    let base = slot_offset(i);
    let m1 = store_word(mem, base, slot.key);
    let m2 = store_word(m1, base + WORD, slot.index.nb_of_queues);
    let m3 = store_word(m2, base + 2 * WORD, slot.index.current_index);
    let m4 = store_word(m3, base + 3 * WORD, slot.counter);
    m4.update(flag_offset(i), flag_byte(slot.occupied))
}

/// The offsets written out for either word size.
pub proof fn lemma_slot_offset(i: int)
    ensures
        WORD == 4 || WORD == 8,
        WORD == 4 ==> slot_offset(i) == 8 + 20 * i,
        WORD == 8 ==> slot_offset(i) == 16 + 40 * i,
{
    lemma_word_range();
    if WORD == 4 {
        assert(i * SLOT_SIZE == 20 * i) by (nonlinear_arith)
            requires
                SLOT_SIZE == 20,
        ;
    } else {
        assert(i * SLOT_SIZE == 40 * i) by (nonlinear_arith)
            requires
                SLOT_SIZE == 40,
        ;
    }
}

/// Storing a slot keeps the length and every byte outside the slot.
pub proof fn lemma_store_slot_frame(mem: Seq<u8>, i: int, slot: Slot)
    requires
        0 <= i,
        slot_offset(i + 1) <= mem.len(),
    ensures
        store_slot(mem, i, slot).len() == mem.len(),
        forall|k: int|
            0 <= k < mem.len() && !(slot_offset(i) <= k < slot_offset(i + 1)) ==> store_slot(
                mem,
                i,
                slot,
            )[k] == mem[k],
{
    lemma_slot_offset(i);
    lemma_slot_offset(i + 1);
    let base = slot_offset(i);
    let m1 = store_word(mem, base, slot.key);
    let m2 = store_word(m1, base + WORD, slot.index.nb_of_queues);
    let m3 = store_word(m2, base + 2 * WORD, slot.index.current_index);
    let m4 = store_word(m3, base + 3 * WORD, slot.counter);
    lemma_store_word_len(mem, base, slot.key);
    lemma_store_word_len(m1, base + WORD, slot.index.nb_of_queues);
    lemma_store_word_len(m2, base + 2 * WORD, slot.index.current_index);
    lemma_store_word_len(m3, base + 3 * WORD, slot.counter);
    assert forall|k: int|
        0 <= k < mem.len() && !(slot_offset(i) <= k < slot_offset(i + 1)) implies store_slot(
        mem,
        i,
        slot,
    )[k] == mem[k] by {
        lemma_store_keeps_bytes(mem, base, slot.key, k);
        lemma_store_keeps_bytes(m1, base + WORD, slot.index.nb_of_queues, k);
        lemma_store_keeps_bytes(m2, base + 2 * WORD, slot.index.current_index, k);
        lemma_store_keeps_bytes(m3, base + 3 * WORD, slot.counter, k);
    }
}

/// Storing a slot keeps every word that lies outside the slot.
pub proof fn lemma_store_slot_keeps_word(mem: Seq<u8>, i: int, slot: Slot, off: int)
    requires
        0 <= i,
        slot_offset(i + 1) <= mem.len(),
        0 <= off,
        off + WORD <= mem.len(),
        off + WORD <= slot_offset(i) || slot_offset(i + 1) <= off,
    ensures
        word_at(store_slot(mem, i, slot), off) == word_at(mem, off),
{
    lemma_store_slot_frame(mem, i, slot);
    assert(store_slot(mem, i, slot).subrange(off, off + WORD) =~= mem.subrange(off, off + WORD));
}

/// A stored slot is read back unchanged.
pub proof fn lemma_store_then_read_slot(mem: Seq<u8>, i: int, slot: Slot)
    requires
        0 <= i,
        slot_offset(i + 1) <= mem.len(),
    ensures
        slot_at(store_slot(mem, i, slot), i) == slot,
{
    lemma_slot_offset(i);
    lemma_slot_offset(i + 1);
    let base = slot_offset(i);
    let m1 = store_word(mem, base, slot.key);
    let m2 = store_word(m1, base + WORD, slot.index.nb_of_queues);
    let m3 = store_word(m2, base + 2 * WORD, slot.index.current_index);
    let m4 = store_word(m3, base + 3 * WORD, slot.counter);
    let m5 = store_slot(mem, i, slot);
    lemma_store_word_len(mem, base, slot.key);
    lemma_store_word_len(m1, base + WORD, slot.index.nb_of_queues);
    lemma_store_word_len(m2, base + 2 * WORD, slot.index.current_index);
    lemma_store_word_len(m3, base + 3 * WORD, slot.counter);
    lemma_store_then_read(mem, base, slot.key);
    lemma_store_then_read(m1, base + WORD, slot.index.nb_of_queues);
    lemma_store_then_read(m2, base + 2 * WORD, slot.index.current_index);
    lemma_store_then_read(m3, base + 3 * WORD, slot.counter);
    lemma_store_keeps_word(m1, base + WORD, slot.index.nb_of_queues, base);
    lemma_store_keeps_word(m2, base + 2 * WORD, slot.index.current_index, base);
    lemma_store_keeps_word(m2, base + 2 * WORD, slot.index.current_index, base + WORD);
    lemma_store_keeps_word(m3, base + 3 * WORD, slot.counter, base);
    lemma_store_keeps_word(m3, base + 3 * WORD, slot.counter, base + WORD);
    lemma_store_keeps_word(m3, base + 3 * WORD, slot.counter, base + 2 * WORD);
    assert(m5.subrange(base, base + WORD) =~= m4.subrange(base, base + WORD));
    assert(m5.subrange(base + WORD, base + 2 * WORD) =~= m4.subrange(base + WORD, base + 2 * WORD));
    assert(m5.subrange(base + 2 * WORD, base + 3 * WORD) =~= m4.subrange(
        base + 2 * WORD,
        base + 3 * WORD,
    ));
    assert(m5.subrange(base + 3 * WORD, base + 4 * WORD) =~= m4.subrange(
        base + 3 * WORD,
        base + 4 * WORD,
    ));
}

/// Storing a slot keeps every other slot.
pub proof fn lemma_store_keeps_slot(mem: Seq<u8>, i: int, slot: Slot, j: int)
    requires
        0 <= i,
        slot_offset(i + 1) <= mem.len(),
        0 <= j,
        slot_offset(j + 1) <= mem.len(),
        i != j,
    ensures
        slot_at(store_slot(mem, i, slot), j) == slot_at(mem, j),
{
    lemma_slot_offset(i);
    lemma_slot_offset(i + 1);
    lemma_slot_offset(j);
    lemma_slot_offset(j + 1);
    let base = slot_offset(j);
    lemma_store_slot_frame(mem, i, slot);
    lemma_store_slot_keeps_word(mem, i, slot, base);
    lemma_store_slot_keeps_word(mem, i, slot, base + WORD);
    lemma_store_slot_keeps_word(mem, i, slot, base + 2 * WORD);
    lemma_store_slot_keeps_word(mem, i, slot, base + 3 * WORD);
}

/// The byte at which slot `idx` starts.
pub fn slot_start(idx: usize) -> (off: usize)
    requires
        slot_offset(idx + 1) <= usize::MAX,
    ensures
        off == slot_offset(idx as int),
{
    proof {
        lemma_slot_offset(idx as int);
        lemma_slot_offset(idx + 1);
    }
    HEADER_SIZE + idx * SLOT_SIZE
}

/// Whether slot `idx` is occupied.
pub fn slot_occupied(buf: &[u8], idx: usize) -> (r: bool)
    requires
        slot_offset(idx + 1) <= buf@.len(),
    ensures
        r == slot_at(buf@, idx as int).occupied,
{
    assert(slot_offset(idx + 1) <= buf.len());
    proof {
        lemma_slot_offset(idx as int);
        lemma_slot_offset(idx + 1);
    }
    let base = slot_start(idx);
    buf[base + 4 * WORD] != 0
}

/// The key that slot `idx` holds.
pub fn slot_key(buf: &[u8], idx: usize) -> (key: usize)
    requires
        slot_offset(idx + 1) <= buf@.len(),
    ensures
        key == slot_at(buf@, idx as int).key,
{
    assert(slot_offset(idx + 1) <= buf.len());
    proof {
        lemma_slot_offset(idx as int);
        lemma_slot_offset(idx + 1);
    }
    read_word(buf, slot_start(idx))
}

/// Decodes slot `idx`.
pub fn read_slot(buf: &[u8], idx: usize) -> (slot: Slot)
    requires
        slot_offset(idx + 1) <= buf@.len(),
    ensures
        slot == slot_at(buf@, idx as int),
{
    assert(slot_offset(idx + 1) <= buf.len());
    proof {
        lemma_slot_offset(idx as int);
        lemma_slot_offset(idx + 1);
    }
    let base = slot_start(idx);
    Slot {
        key: read_word(buf, base),
        index: IndexGenerator {
            nb_of_queues: read_word(buf, base + WORD),
            current_index: read_word(buf, base + 2 * WORD),
        },
        counter: read_word(buf, base + 3 * WORD),
        occupied: buf[base + 4 * WORD] != 0,
    }
}

/// Encodes `slot` as slot `idx`.
pub fn write_slot(buf: &mut [u8], idx: usize, slot: Slot)
    requires
        slot_offset(idx + 1) <= old(buf)@.len(),
    ensures
        final(buf)@ == store_slot(old(buf)@, idx as int, slot),
{
    assert(slot_offset(idx + 1) <= buf.len());
    proof {
        lemma_slot_offset(idx as int);
        lemma_slot_offset(idx + 1);
        let base = slot_offset(idx as int);
        let m1 = store_word(buf@, base, slot.key);
        let m2 = store_word(m1, base + WORD, slot.index.nb_of_queues);
        let m3 = store_word(m2, base + 2 * WORD, slot.index.current_index);
        lemma_store_word_len(buf@, base, slot.key);
        lemma_store_word_len(m1, base + WORD, slot.index.nb_of_queues);
        lemma_store_word_len(m2, base + 2 * WORD, slot.index.current_index);
        lemma_store_word_len(m3, base + 3 * WORD, slot.counter);
    }
    let base = slot_start(idx);
    write_word(buf, base, slot.key);
    write_word(buf, base + WORD, slot.index.nb_of_queues);
    write_word(buf, base + 2 * WORD, slot.index.current_index);
    write_word(buf, base + 3 * WORD, slot.counter);
    buf[base + 4 * WORD] = if slot.occupied {
        1
    } else {
        0
    };
}

} // verus!
