//! The block transform of a level file.
//!
//! A block is 32 bytes, read as eight little-endian words. Each word is
//! combined with the constant of its position by exclusive or. On bytes this
//! is an exclusive or with a key stream that repeats every 32 bytes, which is
//! how the model below states it.

use vstd::prelude::*;
use crate::words::{
    le_word, lemma_bytes_from_shifts, lemma_word_from_shifts, word_byte, word_bytes,
};

verus! {

/// Bytes in one cipher block.
pub const BLOCK_SIZE: usize = 32;

/// Words in one cipher block.
pub const BLOCK_WORDS: usize = 8;

/// The constant of each word position of a block.
pub const CONSTANTS: [u32; 8] = [
    0xa37b9c37,
    0x93553df1,
    0x13719703,
    0x71fc9e6d,
    0x6311cc55,
    0x55ee56be,
    0xf7b9d5c3,
    0xe9a09c77,
];

/// The key stream byte at index `j` of a block-aligned byte sequence.
pub open spec fn key_byte(j: int) -> u8
    recommends
        0 <= j,
{
    word_byte(CONSTANTS[(j / 4) % 8], j % 4)
}

/// A byte sequence after the block transform: every byte combined with the
/// key stream byte of its index.
pub open spec fn transformed(bytes: Seq<u8>) -> Seq<u8> {
    Seq::new(bytes.len(), |j: int| bytes[j] ^ key_byte(j))
}

/// Combining a word with a constant combines each of its bytes with the byte
/// of the constant at the same place.
pub proof fn lemma_xor_by_bytes(b0: u8, b1: u8, b2: u8, b3: u8, c: u32)
    ensures
        word_bytes(le_word(b0, b1, b2, b3) ^ c) == seq![
            b0 ^ word_byte(c, 0),
            b1 ^ word_byte(c, 1),
            b2 ^ word_byte(c, 2),
            b3 ^ word_byte(c, 3),
        ],
{
    let w = le_word(b0, b1, b2, b3);
    lemma_word_from_shifts(b0, b1, b2, b3);
    lemma_bytes_from_shifts(w ^ c);
    lemma_bytes_from_shifts(c);
    assert(w == (b0 as u32) | ((b1 as u32) << 8) | ((b2 as u32) << 16) | ((b3 as u32) << 24) ==> {
        &&& ((w ^ c) & 0xff) as u8 == b0 ^ ((c & 0xff) as u8)
        &&& (((w ^ c) >> 8) & 0xff) as u8 == b1 ^ (((c >> 8) & 0xff) as u8)
        &&& (((w ^ c) >> 16) & 0xff) as u8 == b2 ^ (((c >> 16) & 0xff) as u8)
        &&& (((w ^ c) >> 24) & 0xff) as u8 == b3 ^ (((c >> 24) & 0xff) as u8)
    }) by (bit_vector);
    assert(word_bytes(w ^ c) =~= seq![
        b0 ^ word_byte(c, 0),
        b1 ^ word_byte(c, 1),
        b2 ^ word_byte(c, 2),
        b3 ^ word_byte(c, 3),
    ]);
}

/// The transform undoes itself: applied twice it gives the bytes back.
pub proof fn lemma_transform_twice(bytes: Seq<u8>)
    ensures
        transformed(transformed(bytes)) == bytes,
{
    assert forall|j: int| 0 <= j < bytes.len() implies transformed(transformed(bytes))[j]
        == bytes[j] by {
        let b = bytes[j];
        let k = key_byte(j);
        assert((b ^ k) ^ k == b) by (bit_vector);
    }
    assert(transformed(transformed(bytes)) =~= bytes);
}

/// The transform works block by block: after a whole number of blocks the
/// key stream starts over.
pub proof fn lemma_transform_concat(head: Seq<u8>, rest: Seq<u8>)
    requires
        head.len() % 32 == 0,
    ensures
        transformed(head + rest) == transformed(head) + transformed(rest),
{
    let whole = head + rest;
    assert forall|j: int| 0 <= j < whole.len() implies transformed(whole)[j] == (transformed(head)
        + transformed(rest))[j] by {
        if j >= head.len() {
            let r = j - head.len();
            assert((j / 4) % 8 == (r / 4) % 8 && j % 4 == r % 4) by (nonlinear_arith)
                requires
                    head.len() % 32 == 0,
                    r == j - head.len(),
                    0 <= r,
            ;
        }
    }
    assert(transformed(whole) =~= transformed(head) + transformed(rest));
}

} // verus!
