//! The footer of a level file: its last 16 bytes.
//!
//! The footer holds three signed little-endian numbers and four reserved
//! bytes. The second number is `-1 - checksum` and the third is
//! `-1 - total size`, so a reader recovers what the writer saw and compares
//! it with what it computed itself.

use vstd::prelude::*;
use crate::checksum::ChecksumAccumulator;
use crate::words::{low_word, low_word_of, read_word, word_at};

verus! {

/// Bytes in a footer.
pub const FOOTER_SIZE: usize = 16;

/// A word read as a signed number in two's complement.
pub open spec fn signed(word: u32) -> i32 {
    if word < 0x8000_0000 {
        word as i32
    } else {
        (word - 0x1_0000_0000) as i32
    }
}

/// Reads a word as a signed number in two's complement.
pub fn to_signed(word: u32) -> (n: i32)
    ensures
        n == signed(word),
{
    if word < 0x8000_0000 {
        word as i32
    } else {
        let low: i32 = (word - 0x8000_0000) as i32;
        low + i32::MIN
    }
}

/// The three numbers of a footer, as they stand in the file.
#[derive(Clone, Copy, Debug, PartialEq, Eq, Structural)]
pub struct FooterRecord {
    pub flag: i32,
    pub encoded_checksum: i32,
    pub encoded_size: i32,
}

impl FooterRecord {
    /// The record that 16 footer bytes hold.
    pub open spec fn of(footer: Seq<u8>) -> FooterRecord
        recommends
            footer.len() == 16,
    {
        FooterRecord {
            flag: signed(word_at(footer, 0)),
            encoded_checksum: signed(word_at(footer, 4)),
            encoded_size: signed(word_at(footer, 8)),
        }
    }

    /// The checksum that the writer saw.
    pub open spec fn expected_checksum(self) -> i32 {
        (-1 - self.encoded_checksum) as i32
    }

    /// The total size that the writer saw.
    pub open spec fn expected_size(self) -> i32 {
        (-1 - self.encoded_size) as i32
    }

    /// Reads the record out of the 16 footer bytes.
    pub fn parse(footer: &[u8]) -> (record: FooterRecord)
        requires
            footer@.len() == FOOTER_SIZE,
        ensures
            record == FooterRecord::of(footer@),
    {
        FooterRecord {
            flag: to_signed(read_word(footer, 0)),
            encoded_checksum: to_signed(read_word(footer, 4)),
            encoded_size: to_signed(read_word(footer, 8)),
        }
    }
}

/// What comparing a footer with the decoded body found. A mismatch is a
/// finding, not a failure.
#[derive(Clone, Copy, Debug, PartialEq, Eq, Structural)]
pub struct FooterCheck {
    /// The footer's first number. It is conventionally -2; nothing depends
    /// on it.
    pub flag: i32,
    /// The checksum that the footer declares.
    pub expected_checksum: i32,
    /// The checksum computed from the body.
    pub actual_checksum: u32,
    /// Whether the two checksums differ, compared as signed numbers.
    pub checksum_mismatch: bool,
    /// The total size that the footer declares.
    pub expected_size: i32,
    /// Whether the declared size differs from the low 32 bits of the real
    /// total size, read as a signed number.
    pub size_mismatch: bool,
}

/// The check of `footer` against a file of `total_len` bytes whose body
/// words gave `acc`.
pub open spec fn footer_check(
    footer: Seq<u8>,
    total_len: int,
    acc: ChecksumAccumulator,
) -> FooterCheck
    recommends
        footer.len() == 16,
        total_len >= 16,
{
    let record = FooterRecord::of(footer);
    let actual = acc.checksum(total_len - 16);
    FooterCheck {
        flag: record.flag,
        expected_checksum: record.expected_checksum(),
        actual_checksum: actual,
        checksum_mismatch: record.expected_checksum() != signed(actual),
        expected_size: record.expected_size(),
        size_mismatch: record.expected_size() != signed(low_word(total_len)),
    }
}

/// Compares a footer with the total length of its file and the checksums of
/// its body.
pub fn check_footer(footer: &[u8], total_len: u64, acc: ChecksumAccumulator) -> (check: FooterCheck)
    requires
        footer@.len() == FOOTER_SIZE,
        total_len >= FOOTER_SIZE,
    ensures
        check == footer_check(footer@, total_len as int, acc),
{
    let record = FooterRecord::parse(footer);
    let expected_checksum: i32 = -1 - record.encoded_checksum;
    let actual: u32 = acc.finish(total_len - 16);
    let expected_size: i32 = -1 - record.encoded_size;
    FooterCheck {
        flag: record.flag,
        expected_checksum,
        actual_checksum: actual,
        checksum_mismatch: expected_checksum != to_signed(actual),
        expected_size,
        size_mismatch: expected_size != to_signed(low_word_of(total_len)),
    }
}

} // verus!
