//! Machine words held in a byte buffer, least significant byte first.
//!
//! Every number that the structures keep in their buffers is a `usize`,
//! stored in as many bytes as the platform gives a `usize`. Words may start
//! at any byte; nothing is asked of their alignment.

use vstd::prelude::*;

verus! {

/// Bytes in a machine word: four or eight, with the platform.
pub const WORD: usize = (usize::BITS / 8) as usize;

/// 256 to the power `n`.
pub open spec fn radix_pow(n: nat) -> nat
    decreases n,
{
    if n == 0 {
        1
    } else {
        256 * radix_pow((n - 1) as nat)
    }
}

/// The number that `bytes` spell, least significant byte first.
pub open spec fn le_value(bytes: Seq<u8>) -> nat
    decreases bytes.len(),
{
    if bytes.len() == 0 {
        0
    } else {
        bytes[0] as nat + 256 * le_value(bytes.skip(1))
    }
}

/// The `n` low bytes of `v`, least significant byte first.
pub open spec fn le_bytes(v: nat, n: nat) -> Seq<u8>
    decreases n,
{
    if n == 0 {
        Seq::empty()
    } else {
        seq![(v % 256) as u8] + le_bytes(v / 256, (n - 1) as nat)
    }
}

/// The word that starts at byte `off` of `mem`.
pub open spec fn word_at(mem: Seq<u8>, off: int) -> usize {
    le_value(mem.subrange(off, off + WORD)) as usize
}

/// `mem` with the word at byte `off` replaced by `v`.
pub open spec fn store_word(mem: Seq<u8>, off: int, v: usize) -> Seq<u8> {
    mem.subrange(0, off) + le_bytes(v as nat, WORD as nat) + mem.subrange(
        off + WORD,
        mem.len() as int,
    )
}

/// A number is spelled with as many bytes as are asked for.
pub proof fn lemma_le_bytes_len(v: nat, n: nat)
    ensures
        le_bytes(v, n).len() == n,
    decreases n,
{
    if n > 0 {
        lemma_le_bytes_len(v / 256, (n - 1) as nat);
    }
}

/// A number spelled with `n` bytes lies below `256^n`.
pub proof fn lemma_le_value_bound(bytes: Seq<u8>)
    ensures
        le_value(bytes) < radix_pow(bytes.len()),
    decreases bytes.len(),
{
    if bytes.len() > 0 {
        lemma_le_value_bound(bytes.skip(1));
    }
}

/// Spelling a number below `256^n` with `n` bytes and reading it back gives
/// the number.
pub proof fn lemma_le_round_trip(v: nat, n: nat)
    requires
        v < radix_pow(n),
    ensures
        le_value(le_bytes(v, n)) == v,
    decreases n,
{
    if n > 0 {
        let rest = le_bytes(v / 256, (n - 1) as nat);
        lemma_le_round_trip(v / 256, (n - 1) as nat);
        assert(le_bytes(v, n).skip(1) =~= rest);
    }
}

/// A word holds exactly the numbers that a `usize` holds.
pub proof fn lemma_word_range()
    ensures
        WORD == 4 || WORD == 8,
        radix_pow(WORD as nat) == usize::MAX + 1,
{
    reveal_with_fuel(radix_pow, 9);
}

/// Storing a word keeps the length.
pub proof fn lemma_store_word_len(mem: Seq<u8>, off: int, v: usize)
    requires
        0 <= off,
        off + WORD <= mem.len(),
    ensures
        store_word(mem, off, v).len() == mem.len(),
{
    lemma_le_bytes_len(v as nat, WORD as nat);
}

/// A stored word is read back unchanged.
pub proof fn lemma_store_then_read(mem: Seq<u8>, off: int, v: usize)
    requires
        0 <= off,
        off + WORD <= mem.len(),
    ensures
        word_at(store_word(mem, off, v), off) == v,
{
    lemma_le_bytes_len(v as nat, WORD as nat);
    lemma_word_range();
    lemma_le_round_trip(v as nat, WORD as nat);
    assert(store_word(mem, off, v).subrange(off, off + WORD) =~= le_bytes(v as nat, WORD as nat));
}

/// Storing a word leaves every byte outside it as it was.
pub proof fn lemma_store_keeps_bytes(mem: Seq<u8>, off: int, v: usize, i: int)
    requires
        0 <= off,
        off + WORD <= mem.len(),
        0 <= i < mem.len(),
        i < off || off + WORD <= i,
    ensures
        store_word(mem, off, v)[i] == mem[i],
{
    lemma_le_bytes_len(v as nat, WORD as nat);
}

/// Storing a word leaves every word that does not overlap it as it was.
pub proof fn lemma_store_keeps_word(mem: Seq<u8>, off: int, v: usize, other: int)
    requires
        0 <= off,
        off + WORD <= mem.len(),
        0 <= other,
        other + WORD <= mem.len(),
        other + WORD <= off || off + WORD <= other,
    ensures
        word_at(store_word(mem, off, v), other) == word_at(mem, other),
{
    lemma_le_bytes_len(v as nat, WORD as nat);
    assert(store_word(mem, off, v).subrange(other, other + WORD) =~= mem.subrange(
        other,
        other + WORD,
    ));
}

/// Reads the word that starts at byte `off`.
pub fn read_word(buf: &[u8], off: usize) -> (v: usize)
    requires
        off + WORD <= buf@.len(),
    ensures
        v == word_at(buf@, off as int),
{
    let ghost word = buf@.subrange(off as int, off + WORD);
    let mut acc: usize = 0;
    let mut i: usize = WORD;
    assert(off + WORD <= buf.len());
    while i > 0
        invariant
            i <= WORD,
            off + WORD <= buf@.len(),
            off + WORD <= usize::MAX,
            word == buf@.subrange(off as int, off + WORD),
            acc == le_value(word.skip(i as int)),
        decreases i,
    {
        proof {
            // The bytes from `i - 1` on spell a number that a word holds.
            let tail = word.skip(i - 1);
            assert(tail.skip(1) =~= word.skip(i as int));
            lemma_le_value_bound(tail);
            lemma_word_range();
            reveal_with_fuel(radix_pow, 9);
        }
        i = i - 1;
        acc = acc * 256 + buf[off + i] as usize;
    }
    assert(word.skip(0) =~= word);
    acc
}

/// Writes `v` as the word that starts at byte `off`.
pub fn write_word(buf: &mut [u8], off: usize, v: usize)
    requires
        off + WORD <= old(buf)@.len(),
    ensures
        final(buf)@ == store_word(old(buf)@, off as int, v),
{
    let ghost before = buf@;
    let mut rest: usize = v;
    let mut i: usize = 0;
    assert(off + WORD <= buf.len());
    while i < WORD
        invariant
            i <= WORD,
            off + WORD <= before.len(),
            off + WORD <= usize::MAX,
            buf@.len() == before.len(),
            forall|k: int| 0 <= k < off || off + WORD <= k < before.len() ==> buf@[k] == before[k],
            le_bytes(v as nat, WORD as nat) =~= buf@.subrange(off as int, off + i) + le_bytes(
                rest as nat,
                (WORD - i) as nat,
            ),
        decreases WORD - i,
    {
        let ghost prev = buf@;
        buf[off + i] = (rest % 256) as u8;
        proof {
            lemma_le_bytes_len(rest as nat, (WORD - i) as nat);
            lemma_le_bytes_len((rest / 256) as nat, (WORD - i - 1) as nat);
            assert(buf@.subrange(off as int, off + i + 1) =~= prev.subrange(off as int, off + i)
                + seq![(rest % 256) as u8]);
        }
        rest = rest / 256;
        i = i + 1;
    }
    proof {
        lemma_le_bytes_len(v as nat, WORD as nat);
        assert(buf@ =~= store_word(before, off as int, v));
    }
}

} // verus!
