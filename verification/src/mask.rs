//! Powers of two and the index masks they give.

use vstd::prelude::*;
use vstd::arithmetic::div_mod::lemma_mod_breakdown;
use vstd::arithmetic::power2::is_pow2;

verus! {

/// A number above one has a single bit set exactly when it is even and its
/// half has a single bit set.
proof fn lemma_single_bit_halves(c: usize)
    by (bit_vector)
    requires
        c >= 2,
    ensures
        (c & ((c - 1) as usize) == 0) <==> (c % 2 == 0 && (c / 2) & ((c / 2 - 1) as usize) == 0),
{
}

/// A bitwise and is the and of the low bits beside the and of the rest.
proof fn lemma_and_splits_low_bit(x: usize, m: usize)
    by (bit_vector)
    ensures
        x & m == 2 * ((x / 2) & (m / 2)) + ((x % 2) & (m % 2)),
        (x % 2) & 1 == x % 2,
        x & 0 == 0,
{
}

/// The bit test `c & (c - 1) == 0` on a positive `c` holds exactly of the
/// powers of two.
pub proof fn lemma_bit_test_is_pow2(c: usize)
    requires
        c >= 1,
    ensures
        (c & ((c - 1) as usize) == 0) <==> is_pow2(c as int),
    decreases c,
{
    reveal(is_pow2);
    if c == 1 {
        lemma_and_splits_low_bit(1, 0);
    } else {
        lemma_single_bit_halves(c);
        lemma_bit_test_is_pow2(c / 2);
    }
}

/// Masking with a power of two less one is the remainder by that power.
pub proof fn lemma_mask_is_mod(x: usize, c: usize)
    requires
        is_pow2(c as int),
    ensures
        x & ((c - 1) as usize) == x % c,
    decreases c,
{
    reveal(is_pow2);
    if c == 1 {
        lemma_and_splits_low_bit(x, 0);
    } else {
        let d: usize = c / 2;
        let m: usize = (c - 1) as usize;
        lemma_mask_is_mod(x / 2, d);
        lemma_and_splits_low_bit(x, m);
        lemma_mod_breakdown(x as int, 2, d as int);
    }
}

/// Whether `c` is a power of two, by the bit test.
pub fn is_power_of_two(c: usize) -> (r: bool)
    ensures
        r <==> is_pow2(c as int),
{
    if c == 0 {
        proof {
            reveal(is_pow2);
        }
        false
    } else {
        proof {
            lemma_bit_test_is_pow2(c);
        }
        c & (c - 1) == 0
    }
}

} // verus!
