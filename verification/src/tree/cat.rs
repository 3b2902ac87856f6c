//! Sets of categories as bit sets.

use vstd::prelude::*;

use crate::bits::{bit, lemma_set_bit, lemma_zero_bits};

verus! {

/// Category `c` is in the set.
pub open spec fn holds_category(bits: Seq<u32>, c: int) -> bool {
    0 <= c < 32 * bits.len() && bit(bits[c / 32], c % 32)
}

/// The words a set over `n` categories takes.
pub fn storage_size(n: usize) -> (words: usize)
    ensures
        words == (n + 31) / 32,
{
    if n % 32 == 0 {
        n / 32
    } else {
        n / 32 + 1
    }
}

/// An empty set over `n` categories.
pub fn empty_set(n: usize) -> (bits: Vec<u32>)
    ensures
        bits.len() == (n + 31) / 32,
        forall|c: int| !#[trigger] holds_category(bits@, c),
{
    let bits: Vec<u32> = vec![0u32; storage_size(n)];
    proof {
        assert forall|c: int| !#[trigger] holds_category(bits@, c) by {
            if 0 <= c < 32 * bits.len() {
                lemma_zero_bits(c % 32);
            }
        }
    }
    bits
}

/// Put category `c` into the set.
pub fn set_bit(bits: &mut Vec<u32>, c: u32)
    requires
        c < 32 * old(bits).len(),
    ensures
        final(bits).len() == old(bits).len(),
        forall|d: int| #[trigger] holds_category(final(bits)@, d) == (d == c || holds_category(old(bits)@, d)),
{
    let ghost was = bits@;
    let word: usize = (c / 32) as usize;
    let at: u32 = c % 32;
    let v: u32 = bits[word] | (1u32 << at);
    bits.set(word, v);
    proof {
        assert forall|d: int| #[trigger] holds_category(bits@, d) == (d == c || holds_category(was, d)) by {
            if 0 <= d < 32 * bits.len() && d / 32 == word {
                lemma_set_bit(was[word as int], at, d % 32);
            }
        }
    }
}

/// Whether category `c` is in the set.
pub fn check_bit(bits: &[u32], c: u32) -> (yes: bool)
    ensures
        yes == holds_category(bits@, c as int),
{
    let word: usize = (c / 32) as usize;
    if word >= bits.len() {
        return false;
    }
    (bits[word] >> (c % 32)) & 1 == 1
}

} // verus!
