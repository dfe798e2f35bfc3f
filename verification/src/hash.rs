//! The hash that names a decoded level.
//!
//! The hash runs over the bytes of a name with a counter that starts at 1.
//! Each byte adds itself and itself shifted left by the low five bits of the
//! counter; at the end the counter is added. All of it is arithmetic on 32
//! bits: sums wrap and shifts drop what leaves the word.

use vstd::arithmetic::div_mod::lemma_mod_mod;
use vstd::prelude::*;
use vstd::string::StringSliceAdditionalSpecFns;
use crate::words::{lemma_low_word_of_sum, lemma_wrapping_sum, low_word};

verus! {

/// The shift that the byte at index `k` gets: the low five bits of the
/// counter, which is `k + 1`.
pub open spec fn shift_at(k: int) -> u32
    recommends
        0 <= k,
{
    ((k + 1) % 32) as u32
}

/// What the byte `byte` at index `k` adds to the hash, before wrapping.
pub open spec fn hash_term(byte: u8, k: int) -> int
    recommends
        0 <= k,
{
    byte + ((byte as u32) << shift_at(k))
}

/// The sum of what the first `n` bytes add to the hash, before wrapping.
pub open spec fn hash_sum(bytes: Seq<u8>, n: int) -> int
    recommends
        0 <= n <= bytes.len(),
    decreases n,
{
    if n <= 0 {
        0
    } else {
        hash_sum(bytes, n - 1) + hash_term(bytes[n - 1], n - 1)
    }
}

/// The hash of `bytes`: the sum of all terms and of the final counter,
/// wrapped to 32 bits.
pub open spec fn block_hash(bytes: Seq<u8>) -> u32 {
    low_word(hash_sum(bytes, bytes.len() as int) + bytes.len() + 1)
}

/// Hashes a byte sequence.
pub fn hash_bytes(bytes: &[u8]) -> (hash: u32)
    ensures
        hash == block_hash(bytes@),
        bytes@.len() == 0 ==> hash == 1,
{
    let mut hash: u32 = 0;
    let mut index: u32 = 1;
    let mut i: usize = 0;
    while i < bytes.len()
        invariant
            i <= bytes@.len(),
            hash == low_word(hash_sum(bytes@, i as int)),
            index == low_word(i + 1),
        decreases bytes@.len() - i,
    {
        let byte: u32 = bytes[i] as u32;
        let shift: u32 = index & 0x1f;
        proof {
            assert(shift == index % 32) by (bit_vector)
                requires
                    shift == index & 0x1f,
            ;
            lemma_mod_mod(i + 1, 32, 0x800_0000);
            assert(shift == shift_at(i as int));
        }
        let shifted: u32 = byte << shift;
        let term: u32 = byte.wrapping_add(shifted);
        proof {
            let sum = hash_sum(bytes@, i as int);
            let exact = hash_term(bytes@[i as int], i as int);
            lemma_wrapping_sum(byte, shifted);
            assert(term == low_word(exact));
            lemma_wrapping_sum(hash, term);
            lemma_low_word_of_sum(sum, exact);
            assert(hash.wrapping_add(term) == low_word(sum + exact));
            lemma_wrapping_sum(index, 1);
            lemma_low_word_of_sum(i + 1, 1);
            assert(index.wrapping_add(1) == low_word(i + 2));
        }
        hash = hash.wrapping_add(term);
        index = index.wrapping_add(1);
        i = i + 1;
    }
    proof {
        lemma_wrapping_sum(hash, index);
        lemma_low_word_of_sum(hash_sum(bytes@, i as int), i + 1);
    }
    hash.wrapping_add(index)
}

/// Hashes the bytes of a name.
pub fn get_level_hash(input: &str) -> (hash: u32)
    ensures
        hash == block_hash(input.spec_bytes()),
        input.spec_bytes().len() == 0 ==> hash == 1,
{
    hash_bytes(input.as_bytes())
}

} // verus!
