//! The two running checksums of a level file.
//!
//! Every word of the body is folded, before the block transform, into one of
//! two accumulators by exclusive or. Which one depends on the word's position
//! in its block: positions 0, 1, 3, 4, 6 and 7 go to `odd_acc`, positions 2
//! and 5 to `even_acc`.

use vstd::prelude::*;
use crate::words::{low_word, low_word_of, word_at};

verus! {

/// Whether the word at position `i` of a block is folded into `odd_acc`.
pub open spec fn feeds_odd(i: int) -> bool {
    i % 3 == 0 || i % 3 == 1
}

/// The pair of running checksums. It is a value: each step takes one and
/// returns the next.
#[derive(Clone, Copy, Debug, PartialEq, Eq, Structural)]
pub struct ChecksumAccumulator {
    pub even_acc: u32,
    pub odd_acc: u32,
}

impl ChecksumAccumulator {
    /// The accumulator before any word.
    pub open spec fn zero() -> ChecksumAccumulator {
        ChecksumAccumulator { even_acc: 0, odd_acc: 0 }
    }

    /// The accumulator after one more word, which stood at position `i` of
    /// its block.
    pub open spec fn absorb(self, i: int, word: u32) -> ChecksumAccumulator {
        if feeds_odd(i) {
            ChecksumAccumulator { even_acc: self.even_acc, odd_acc: self.odd_acc ^ word }
        } else {
            ChecksumAccumulator { even_acc: self.even_acc ^ word, odd_acc: self.odd_acc }
        }
    }

    /// The accumulator after the first `n` words of `bytes`, where `bytes`
    /// starts at a block boundary.
    pub open spec fn absorb_words(self, bytes: Seq<u8>, n: nat) -> ChecksumAccumulator
        recommends
            4 * n <= bytes.len(),
        decreases n,
    {
        if n == 0 {
            self
        } else {
            let k = (n - 1) as nat;
            self.absorb_words(bytes, k).absorb(k as int % 8, word_at(bytes, 4 * (k as int)))
        }
    }

    /// The accumulator after one whole block.
    pub open spec fn absorb_block(self, block: Seq<u8>) -> ChecksumAccumulator
        recommends
            block.len() == 32,
    {
        self.absorb_words(block, 8)
    }

    /// The accumulator after all whole blocks of `bytes`.
    pub open spec fn over(bytes: Seq<u8>) -> ChecksumAccumulator {
        Self::zero().absorb_words(bytes, (8 * (bytes.len() / 32)) as nat)
    }

    /// The checksum that a footer is compared with: the low 32 bits of the
    /// body size, combined with both accumulators.
    pub open spec fn checksum(self, body_size: int) -> u32 {
        low_word(body_size) ^ self.odd_acc ^ self.even_acc
    }

    /// Starts with both accumulators at zero.
    pub fn new() -> (acc: ChecksumAccumulator)
        ensures
            acc == Self::zero(),
    {
        ChecksumAccumulator { even_acc: 0, odd_acc: 0 }
    }

    /// Folds in the word at position `i` of a block.
    pub fn update(self, i: usize, word: u32) -> (acc: ChecksumAccumulator)
        ensures
            acc == self.absorb(i as int, word),
    {
        if i % 3 == 0 || i % 3 == 1 {
            ChecksumAccumulator { even_acc: self.even_acc, odd_acc: self.odd_acc ^ word }
        } else {
            ChecksumAccumulator { even_acc: self.even_acc ^ word, odd_acc: self.odd_acc }
        }
    }

    /// The checksum of a body of `body_size` bytes whose words were all
    /// folded in.
    pub fn finish(self, body_size: u64) -> (sum: u32)
        ensures
            sum == self.checksum(body_size as int),
    {
        low_word_of(body_size) ^ self.odd_acc ^ self.even_acc
    }
}

/// The words of a block continue the fold over the bytes before it: folding
/// `blocks` whole blocks and then the first `i` words of the next is folding
/// the first `8 * blocks + i` words.
pub proof fn lemma_absorb_next_block(
    start: ChecksumAccumulator,
    bytes: Seq<u8>,
    blocks: int,
    i: int,
)
    requires
        0 <= blocks,
        0 <= i <= 8,
        32 * blocks + 32 <= bytes.len(),
    ensures
        start.absorb_words(bytes, (8 * blocks + i) as nat) == start.absorb_words(
            bytes,
            (8 * blocks) as nat,
        ).absorb_words(bytes.subrange(32 * blocks, 32 * blocks + 32), i as nat),
    decreases i,
{
    if i > 0 {
        let k = i - 1;
        lemma_absorb_next_block(start, bytes, blocks, k);
        let block = bytes.subrange(32 * blocks, 32 * blocks + 32);
        assert(word_at(bytes, 4 * (8 * blocks + k)) == word_at(block, 4 * k));
        assert((8 * blocks + k) % 8 == k % 8);
    }
}

/// The checksums of the first `n` words depend on those words alone.
pub proof fn lemma_absorb_prefix_only(
    start: ChecksumAccumulator,
    bytes: Seq<u8>,
    prefix: Seq<u8>,
    n: nat,
)
    requires
        4 * n <= prefix.len() <= bytes.len(),
        prefix == bytes.take(prefix.len() as int),
    ensures
        start.absorb_words(bytes, n) == start.absorb_words(prefix, n),
    decreases n,
{
    if n > 0 {
        lemma_absorb_prefix_only(start, bytes, prefix, (n - 1) as nat);
        assert(word_at(bytes, 4 * (n - 1)) == word_at(prefix, 4 * (n - 1)));
    }
}

/// The exclusive or of the first `n` words of `bytes`.
pub open spec fn xor_of_words(bytes: Seq<u8>, n: nat) -> u32
    recommends
        4 * n <= bytes.len(),
    decreases n,
{
    if n == 0 {
        0
    } else {
        xor_of_words(bytes, (n - 1) as nat) ^ word_at(bytes, 4 * (n - 1))
    }
}

/// Both accumulators together hold the exclusive or of every word: which
/// accumulator a word went to does not change the checksum.
pub proof fn lemma_accumulators_cover_all_words(bytes: Seq<u8>, n: nat)
    ensures
        ({
            let acc = ChecksumAccumulator::zero().absorb_words(bytes, n);
            acc.odd_acc ^ acc.even_acc == xor_of_words(bytes, n)
        }),
    decreases n,
{
    if n == 0 {
        assert(0u32 ^ 0u32 == 0u32) by (bit_vector);
    } else {
        let k = (n - 1) as nat;
        lemma_accumulators_cover_all_words(bytes, k);
        let before = ChecksumAccumulator::zero().absorb_words(bytes, k);
        let w = word_at(bytes, 4 * (k as int));
        let o = before.odd_acc;
        let e = before.even_acc;
        assert((o ^ w) ^ e == (o ^ e) ^ w) by (bit_vector);
        assert(o ^ (e ^ w) == (o ^ e) ^ w) by (bit_vector);
    }
}

/// The checksum of a body is its size combined with every word of its whole
/// blocks.
pub proof fn lemma_checksum_is_xor_of_all_words(bytes: Seq<u8>, body_size: int)
    ensures
        ChecksumAccumulator::over(bytes).checksum(body_size) == low_word(body_size) ^ xor_of_words(
            bytes,
            (8 * (bytes.len() / 32)) as nat,
        ),
{
    let n = (8 * (bytes.len() / 32)) as nat;
    lemma_accumulators_cover_all_words(bytes, n);
    let acc = ChecksumAccumulator::over(bytes);
    let size = low_word(body_size);
    let o = acc.odd_acc;
    let e = acc.even_acc;
    assert(size ^ o ^ e == size ^ (o ^ e)) by (bit_vector);
}

} // verus!
