//! Decoding one level file.
//!
//! A level file is a body of cipher blocks followed by a 16-byte footer. It
//! is read in chunks of up to 32 bytes. A chunk of 32 bytes is a block: its
//! words go into the checksums and its transform goes to the output. A chunk
//! of 16 bytes is the footer: it is checked and passed through unchanged,
//! and decoding ends. Any other chunk ends decoding early; what was written
//! stays written.

use vstd::prelude::*;
use vstd::slice::slice_subrange;
use crate::checksum::{
    lemma_absorb_next_block, lemma_absorb_prefix_only, ChecksumAccumulator,
};
use crate::cipher::{
    key_byte, lemma_transform_concat, lemma_transform_twice, lemma_xor_by_bytes, transformed,
    BLOCK_SIZE, BLOCK_WORDS, CONSTANTS,
};
use crate::error::FormatError;
use crate::footer::{
    check_footer, footer_check, signed, FooterCheck, FooterRecord, FOOTER_SIZE,
};
use crate::words::{low_word, push_word, read_word, word_at, word_byte};

verus! {

/// Decodes one block: folds its eight words into `acc` and appends the
/// transformed block to `sink`.
pub fn decode_block(
    block: &[u8],
    acc: ChecksumAccumulator,
    sink: &mut Vec<u8>,
) -> (next: ChecksumAccumulator)
    requires
        block@.len() == 32,
    ensures
        next == acc.absorb_block(block@),
        final(sink)@ == old(sink)@ + transformed(block@),
{
    let ghost before = sink@;
    let mut next = acc;
    let mut i: usize = 0;
    while i < BLOCK_WORDS
        invariant
            i <= 8,
            block@.len() == 32,
            next == acc.absorb_words(block@, i as nat),
            sink@ == before + transformed(block@).take(4 * i),
        decreases BLOCK_WORDS - i,
    {
        let word: u32 = read_word(block, 4 * i);
        next = next.update(i, word);
        proof {
            let at = 4 * i as int;
            lemma_xor_by_bytes(block@[at], block@[at + 1], block@[at + 2], block@[at + 3],
                CONSTANTS[i as int]);
            assert(key_byte(at) == word_byte(CONSTANTS[i as int], 0));
            assert(key_byte(at + 1) == word_byte(CONSTANTS[i as int], 1));
            assert(key_byte(at + 2) == word_byte(CONSTANTS[i as int], 2));
            assert(key_byte(at + 3) == word_byte(CONSTANTS[i as int], 3));
        }
        push_word(sink, word ^ CONSTANTS[i]);
        assert(sink@ =~= before + transformed(block@).take(4 * (i + 1)));
        i = i + 1;
    }
    assert(transformed(block@).take(32) =~= transformed(block@));
    next
}

/// The state of a decode between two chunks: the total length of the file
/// and the checksums of the blocks seen so far.
#[derive(Debug)]
pub struct LevelDecoder {
    total_len: u64,
    acc: ChecksumAccumulator,
}

/// What one chunk led to.
#[derive(Debug)]
pub enum Step {
    /// The chunk was a block. Decoding goes on with the state given.
    Continue(LevelDecoder),
    /// The chunk was the footer. Decoding is complete.
    Footer(FooterCheck),
    /// The chunk was neither a block nor a footer. Decoding stops.
    UnexpectedEndOfStream,
}

impl LevelDecoder {
    /// The total length of the file, footer included.
    pub closed spec fn total_len(&self) -> u64 {
        self.total_len
    }

    /// The checksums of the blocks decoded so far.
    pub closed spec fn checksums(&self) -> ChecksumAccumulator {
        self.acc
    }

    #[verifier::type_invariant]
    spec fn holds_a_footer(&self) -> bool {
        self.total_len >= 16
    }

    /// Starts decoding a file of `total_len` bytes. A file shorter than a
    /// footer is refused.
    pub fn new(total_len: u64) -> (start: Result<LevelDecoder, FormatError>)
        ensures
            total_len < 16 ==> start == Err::<LevelDecoder, FormatError>(
                FormatError::MalformedInput,
            ),
            total_len >= 16 ==> start is Ok && start->Ok_0.total_len() == total_len
                && start->Ok_0.checksums() == ChecksumAccumulator::zero(),
    {
        if total_len < FOOTER_SIZE as u64 {
            Err(FormatError::MalformedInput)
        } else {
            Ok(LevelDecoder { total_len, acc: ChecksumAccumulator::new() })
        }
    }

    /// Whether the body is not a whole number of blocks.
    pub fn size_not_block_aligned(&self) -> (flag: bool)
        ensures
            self.total_len() >= 16,
            flag == ((self.total_len() - 16) % 32 != 0),
    {
        proof {
            use_type_invariant(self);
        }
        (self.total_len - 16) % 32 != 0
    }

    /// Takes the next chunk that was read, of up to 32 bytes, and appends to
    /// `sink` what it decodes to.
    pub fn feed(self, chunk: &[u8], sink: &mut Vec<u8>) -> (step: Step)
        ensures
            match step {
                Step::Continue(next) => {
                    &&& chunk@.len() == 32
                    &&& next.total_len() == self.total_len()
                    &&& next.checksums() == self.checksums().absorb_block(chunk@)
                    &&& final(sink)@ == old(sink)@ + transformed(chunk@)
                },
                Step::Footer(check) => {
                    &&& chunk@.len() == 16
                    &&& check == footer_check(chunk@, self.total_len() as int, self.checksums())
                    &&& final(sink)@ == old(sink)@ + chunk@
                },
                Step::UnexpectedEndOfStream => {
                    &&& chunk@.len() != 32
                    &&& chunk@.len() != 16
                    &&& final(sink)@ == old(sink)@
                },
            },
    {
        proof {
            use_type_invariant(&self);
        }
        if chunk.len() == BLOCK_SIZE {
            let acc = decode_block(chunk, self.acc, sink);
            Step::Continue(LevelDecoder { total_len: self.total_len, acc })
        } else if chunk.len() == FOOTER_SIZE {
            let check = check_footer(chunk, self.total_len, self.acc);
            sink.extend_from_slice(chunk);
            assert(sink@ =~= old(sink)@ + chunk@);
            Step::Footer(check)
        } else {
            Step::UnexpectedEndOfStream
        }
    }
}

/// What a decode found. None of it is a failure: the output was written as
/// far as the input allowed.
#[derive(Clone, Copy, Debug, PartialEq, Eq, Structural)]
pub struct DecodeReport {
    /// The body is not a whole number of blocks.
    pub size_not_block_aligned: bool,
    /// The input ended with a chunk that is neither a block nor a footer.
    pub unexpected_end_of_stream: bool,
    /// The footer check, where the footer was reached.
    pub footer: Option<FooterCheck>,
}

impl DecodeReport {
    /// Whether the file disagrees with itself: a body that is not a whole
    /// number of blocks, or a footer whose checksum or size does not match.
    pub open spec fn has_integrity_mismatch(self) -> bool {
        self.size_not_block_aligned || match self.footer {
            Some(check) => check.checksum_mismatch || check.size_mismatch,
            None => false,
        }
    }

    /// Whether the file disagrees with itself.
    pub fn integrity_mismatch(&self) -> (flag: bool)
        ensures
            flag == self.has_integrity_mismatch(),
    {
        self.size_not_block_aligned || match self.footer {
            Some(check) => check.checksum_mismatch || check.size_mismatch,
            None => false,
        }
    }
}

/// A body is a whole number of blocks exactly where a footer, and nothing
/// else, is left after the whole blocks of the file.
pub proof fn lemma_footer_after_whole_blocks(len: int)
    requires
        len >= 16,
    ensures
        ((len - 16) % 32 == 0) == ends_in_footer(len),
{
    let q = len / 32;
    let r = len % 32;
    assert(len == 32 * q + r && 0 <= r < 32);
    if r >= 16 {
        assert(len - 16 == 32 * q + (r - 16));
        assert((32 * q + (r - 16)) % 32 == r - 16) by (nonlinear_arith)
            requires
                0 <= r - 16 < 32,
        ;
    } else {
        assert(len - 16 == 32 * (q - 1) + (r + 16));
        assert((32 * (q - 1) + (r + 16)) % 32 == r + 16) by (nonlinear_arith)
            requires
                0 <= r + 16 < 32,
        ;
    }
}

/// The length of the whole blocks at the start of `len` bytes.
pub open spec fn blocks_len(len: int) -> int {
    32 * (len / 32)
}

/// Whether `len` bytes end in a footer after their whole blocks.
pub open spec fn ends_in_footer(len: int) -> bool {
    len % 32 == 16
}

/// What decoding `data` writes: the transform of its whole blocks, and after
/// them the footer unchanged if exactly a footer is left.
pub open spec fn decoded_output(data: Seq<u8>) -> Seq<u8> {
    let cut = blocks_len(data.len() as int);
    if ends_in_footer(data.len() as int) {
        transformed(data.take(cut)) + data.skip(cut)
    } else {
        transformed(data.take(cut))
    }
}

/// What decoding `data` reports.
pub open spec fn decode_report(data: Seq<u8>) -> DecodeReport
    recommends
        data.len() >= 16,
{
    let cut = blocks_len(data.len() as int);
    DecodeReport {
        size_not_block_aligned: (data.len() - 16) % 32 != 0,
        unexpected_end_of_stream: !ends_in_footer(data.len() as int),
        footer: if ends_in_footer(data.len() as int) {
            Some(
                footer_check(
                    data.skip(cut),
                    data.len() as int,
                    ChecksumAccumulator::over(data.take(cut)),
                ),
            )
        } else {
            None
        },
    }
}

/// Decodes the level file `data` and appends the decoded image to `sink`.
///
/// A file shorter than its footer is refused and nothing is written. Every
/// other file decodes: the report says what was found.
pub fn decode_level_file(
    data: &[u8],
    sink: &mut Vec<u8>,
) -> (result: Result<DecodeReport, FormatError>)
    ensures
        data@.len() < 16 ==> result == Err::<DecodeReport, FormatError>(
            FormatError::MalformedInput,
        ) && final(sink)@ == old(sink)@,
        data@.len() >= 16 ==> result == Ok::<DecodeReport, FormatError>(decode_report(data@))
            && final(sink)@ == old(sink)@ + decoded_output(data@),
{
    let ghost before = sink@;
    let total: u64 = data.len() as u64;
    let mut decoder = match LevelDecoder::new(total) {
        Ok(decoder) => decoder,
        Err(e) => {
            return Err(e);
        },
    };
    let size_not_block_aligned = decoder.size_not_block_aligned();
    let mut pos: usize = 0;
    assert(data@.take(0) =~= Seq::<u8>::empty());
    assert(before + transformed(Seq::<u8>::empty()) =~= before);
    loop
        invariant
            data@.len() >= 16,
            total == data@.len(),
            pos <= data@.len(),
            pos % 32 == 0,
            decoder.total_len() == total,
            decoder.checksums() == ChecksumAccumulator::zero().absorb_words(
                data@,
                (8 * (pos / 32)) as nat,
            ),
            before == old(sink)@,
            sink@ == before + transformed(data@.take(pos as int)),
            size_not_block_aligned == ((data@.len() - 16) % 32 != 0),
        decreases data@.len() - pos,
    {
        let left: usize = data.len() - pos;
        let n: usize = if left < BLOCK_SIZE {
            left
        } else {
            BLOCK_SIZE
        };
        let chunk = slice_subrange(data, pos, pos + n);
        match decoder.feed(chunk, sink) {
            Step::Continue(next) => {
                proof {
                    let blocks = pos as int / 32;
                    lemma_absorb_next_block(ChecksumAccumulator::zero(), data@, blocks, 8);
                    lemma_transform_concat(data@.take(pos as int), chunk@);
                    assert(data@.take(pos as int) + chunk@ =~= data@.take(pos + 32));
                    assert((pos + 32) / 32 == blocks + 1);
                    lemma_absorb_prefix_only(
                        ChecksumAccumulator::zero(),
                        data@,
                        data@.take(pos + 32),
                        (8 * blocks + 8) as nat,
                    );
                }
                decoder = next;
                pos = pos + BLOCK_SIZE;
            },
            Step::Footer(check) => {
                proof {
                    let cut = blocks_len(data@.len() as int);
                    assert(data@.len() == pos + 16);
                    assert(ends_in_footer(data@.len() as int));
                    assert(cut == pos);
                    assert(chunk@ =~= data@.skip(cut));
                    lemma_absorb_prefix_only(
                        ChecksumAccumulator::zero(),
                        data@,
                        data@.take(cut),
                        (8 * (cut / 32)) as nat,
                    );
                    assert(data@.take(cut).len() / 32 == cut / 32);
                    assert(sink@ =~= before + decoded_output(data@));
                }
                return Ok(
                    DecodeReport {
                        size_not_block_aligned,
                        unexpected_end_of_stream: false,
                        footer: Some(check),
                    },
                );
            },
            Step::UnexpectedEndOfStream => {
                proof {
                    assert(data@.len() - pos < 32);
                    assert(data@.len() % 32 == data@.len() - pos);
                    assert(!ends_in_footer(data@.len() as int));
                    assert(blocks_len(data@.len() as int) == pos);
                    assert(sink@ =~= before + decoded_output(data@));
                }
                return Ok(
                    DecodeReport {
                        size_not_block_aligned,
                        unexpected_end_of_stream: true,
                        footer: None,
                    },
                );
            },
        }
    }
}

/// Decoding undoes encoding: a body of whole blocks that went through the
/// block transform, followed by any footer, decodes to the body followed by
/// that footer.
pub proof fn lemma_decode_round_trip(body: Seq<u8>, footer: Seq<u8>)
    requires
        body.len() % 32 == 0,
        footer.len() == 16,
    ensures
        decoded_output(transformed(body) + footer) == body + footer,
{
    let data = transformed(body) + footer;
    let cut = blocks_len(data.len() as int);
    assert(cut == body.len());
    assert(data.take(cut) =~= transformed(body));
    assert(data.skip(cut) =~= footer);
    lemma_transform_twice(body);
}

/// In a file that is held whole, the input is cut short exactly where the
/// body is not a whole number of blocks, and the footer is checked exactly
/// where it is.
pub proof fn lemma_cut_short_iff_misaligned(data: Seq<u8>)
    requires
        data.len() >= 16,
    ensures
        decode_report(data).unexpected_end_of_stream == decode_report(data).size_not_block_aligned,
        decode_report(data).footer is Some == !decode_report(data).size_not_block_aligned,
{
    lemma_footer_after_whole_blocks(data.len() as int);
}

/// A footer that was written for its file passes: where the body is a whole
/// number of blocks and the footer holds `-1 - checksum` and `-1 - size` for
/// the checksum of that body and the size of the file, decoding reports no
/// integrity mismatch.
pub proof fn lemma_written_footer_passes(data: Seq<u8>)
    requires
        data.len() >= 16,
        data.len() % 32 == 16,
        ({
            let cut = blocks_len(data.len() as int);
            let record = FooterRecord::of(data.skip(cut));
            let sum = ChecksumAccumulator::over(data.take(cut)).checksum(data.len() - 16);
            &&& record.encoded_checksum == -1 - signed(sum)
            &&& record.encoded_size == -1 - signed(low_word(data.len() as int))
        }),
    ensures
        !decode_report(data).has_integrity_mismatch(),
{
    lemma_footer_after_whole_blocks(data.len() as int);
}

} // verus!
