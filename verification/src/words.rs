//! Little-endian 32-bit words inside byte sequences.
//!
//! The model is arithmetic: a word is the sum of its four bytes, each
//! weighted by its place. The code works with shifts and masks; the lemmas
//! here say that both describe the same numbers.

use vstd::arithmetic::div_mod::lemma_add_mod_noop;
use vstd::prelude::*;

verus! {

/// The value of four bytes read as one little-endian word.
pub open spec fn le_word(b0: u8, b1: u8, b2: u8, b3: u8) -> u32 {
    (b0 + 256 * b1 + 65536 * b2 + 16777216 * b3) as u32
}

/// The little-endian word that starts at index `at` of `bytes`.
pub open spec fn word_at(bytes: Seq<u8>, at: int) -> u32
    recommends
        0 <= at,
        at + 4 <= bytes.len(),
{
    le_word(bytes[at], bytes[at + 1], bytes[at + 2], bytes[at + 3])
}

/// Byte `k` of `word`, where byte 0 is the lowest.
pub open spec fn word_byte(word: u32, k: int) -> u8
    recommends
        0 <= k < 4,
{
    if k == 0 {
        (word % 256) as u8
    } else if k == 1 {
        (word / 256 % 256) as u8
    } else if k == 2 {
        (word / 65536 % 256) as u8
    } else {
        (word / 16777216) as u8
    }
}

/// The four bytes of `word`, lowest first.
pub open spec fn word_bytes(word: u32) -> Seq<u8> {
    seq![word_byte(word, 0), word_byte(word, 1), word_byte(word, 2), word_byte(word, 3)]
}

/// Putting four bytes at their places with shifts gives their word.
pub proof fn lemma_word_from_shifts(b0: u8, b1: u8, b2: u8, b3: u8)
    ensures
        (b0 as u32) | ((b1 as u32) << 8) | ((b2 as u32) << 16) | ((b3 as u32) << 24) == le_word(
            b0,
            b1,
            b2,
            b3,
        ),
{
    assert(((b0 as u32) | ((b1 as u32) << 8) | ((b2 as u32) << 16) | ((b3 as u32) << 24)) == (
    b0 as u32) + 256 * (b1 as u32) + 65536 * (b2 as u32) + 16777216 * (b3 as u32))
        by (bit_vector);
}

/// Taking a byte out of a word with a shift and a mask gives that byte.
pub proof fn lemma_bytes_from_shifts(word: u32)
    ensures
        (word & 0xff) as u8 == word_byte(word, 0),
        ((word >> 8) & 0xff) as u8 == word_byte(word, 1),
        ((word >> 16) & 0xff) as u8 == word_byte(word, 2),
        ((word >> 24) & 0xff) as u8 == word_byte(word, 3),
{
    assert((word & 0xff) == word % 256) by (bit_vector);
    assert(((word >> 8) & 0xff) == word / 256 % 256) by (bit_vector);
    assert(((word >> 16) & 0xff) == word / 65536 % 256) by (bit_vector);
    assert(((word >> 24) & 0xff) == word / 16777216) by (bit_vector);
}

/// Splitting a word into its bytes and reading them back gives the word.
pub proof fn lemma_word_round_trip(word: u32)
    ensures
        word_bytes(word).len() == 4,
        word_at(word_bytes(word), 0) == word,
{
}

/// The low 32 bits of a number.
pub open spec fn low_word(n: int) -> u32 {
    (n % 0x1_0000_0000) as u32
}

/// A sum may be wrapped before it is complete: wrapping the parts and then
/// their sum gives what wrapping the whole sum gives.
pub proof fn lemma_low_word_of_sum(a: int, b: int)
    ensures
        low_word(low_word(a) + low_word(b)) == low_word(a + b),
{
    lemma_add_mod_noop(a, b, 0x1_0000_0000);
}

/// A wrapping sum of two words is the low word of their sum, and a word is
/// its own low word.
pub proof fn lemma_wrapping_sum(x: u32, y: u32)
    ensures
        x.wrapping_add(y) == low_word(x + y),
        low_word(x as int) == x,
{
    if x + y > u32::MAX {
        assert((x + y) % 0x1_0000_0000 == x + y - 0x1_0000_0000);
    }
}

/// The low 32 bits of a length.
pub fn low_word_of(n: u64) -> (word: u32)
    ensures
        word == low_word(n as int),
{
    let word: u32 = (n & 0xffff_ffff) as u32;
    assert(word == n % 0x1_0000_0000) by (bit_vector)
        requires
            word == (n & 0xffff_ffff) as u32,
    ;
    word
}

/// Reads the little-endian word that starts at index `at`.
pub fn read_word(bytes: &[u8], at: usize) -> (word: u32)
    requires
        at + 4 <= bytes@.len(),
    ensures
        word == word_at(bytes@, at as int),
{
    let b0: u8 = bytes[at];
    let b1: u8 = bytes[at + 1];
    let b2: u8 = bytes[at + 2];
    let b3: u8 = bytes[at + 3];
    proof {
        lemma_word_from_shifts(b0, b1, b2, b3);
    }
    (b0 as u32) | ((b1 as u32) << 8) | ((b2 as u32) << 16) | ((b3 as u32) << 24)
}

/// Appends the four bytes of `word`, lowest first.
pub fn push_word(sink: &mut Vec<u8>, word: u32)
    ensures
        final(sink)@ == old(sink)@ + word_bytes(word),
{
    proof {
        lemma_bytes_from_shifts(word);
    }
    sink.push((word & 0xff) as u8);
    sink.push(((word >> 8) & 0xff) as u8);
    sink.push(((word >> 16) & 0xff) as u8);
    sink.push(((word >> 24) & 0xff) as u8);
    assert(sink@ =~= old(sink)@ + word_bytes(word));
}

} // verus!
