//! The pointer table in the header of an archive.
//!
//! The header is the first 48 KiB of the archive. It is a run of zero bytes
//! and pointer records. A zero byte is padding. Any other byte starts a
//! record: twelve bytes that hold three little-endian words, then twelve
//! bytes that mean nothing. A record may begin in the header's last bytes and
//! reach past its end.

use vstd::prelude::*;
use crate::error::FormatError;
use crate::words::{lemma_word_round_trip, read_word, word_at, word_bytes};

verus! {

/// Bytes in the header of an archive.
pub const HEADER_SIZE: usize = 48 * 1024;

/// Bytes of a pointer record that carry its three words.
pub const RECORD_SIZE: usize = 12;

/// Bytes from the start of one record to where the scan goes on.
pub const RECORD_STRIDE: usize = 24;

/// Where one level file lies in the archive.
#[derive(Clone, Copy, Debug, PartialEq, Eq, Structural)]
pub struct Pointer {
    /// A word whose meaning is not known.
    pub unknown: u32,
    /// The index of the level file's first byte in the archive.
    pub offset: u32,
    /// The length of the level file in bytes.
    pub size: u32,
}

/// The record whose twelve bytes start at index `at` of `data`.
pub open spec fn record_at(data: Seq<u8>, at: int) -> Pointer
    recommends
        0 <= at,
        at + 12 <= data.len(),
{
    Pointer {
        unknown: word_at(data, at),
        offset: word_at(data, at + 4),
        size: word_at(data, at + 8),
    }
}

/// Where the scan ends: at the end of the header, or at the end of the data
/// if that comes first.
pub open spec fn scan_limit(data: Seq<u8>) -> int {
    if data.len() < HEADER_SIZE {
        data.len() as int
    } else {
        HEADER_SIZE as int
    }
}

/// How far the scan still has to go from `pos`.
pub open spec fn scan_left(data: Seq<u8>, pos: int) -> nat {
    if pos < scan_limit(data) {
        (scan_limit(data) - pos) as nat
    } else {
        0
    }
}

/// A result with `records` put in front of what it holds.
pub open spec fn preceded_by(
    records: Seq<Pointer>,
    rest: Result<Seq<Pointer>, FormatError>,
) -> Result<Seq<Pointer>, FormatError> {
    match rest {
        Ok(found) => Ok(records + found),
        Err(e) => Err(e),
    }
}

/// The records that a scan finds from index `pos` on, in the order in which
/// they lie, or the error it ends with: a record that the data end inside of.
pub open spec fn scan_from(data: Seq<u8>, pos: int) -> Result<Seq<Pointer>, FormatError>
    recommends
        0 <= pos,
    decreases scan_left(data, pos),
{
    if pos >= scan_limit(data) {
        Ok(Seq::empty())
    } else if data[pos] == 0 {
        scan_from(data, pos + 1)
    } else if pos + 12 > data.len() {
        Err(FormatError::MalformedInput)
    } else {
        preceded_by(seq![record_at(data, pos)], scan_from(data, pos + 24))
    }
}

/// The pointer table of an archive that starts with `data`.
pub open spec fn scan_header(data: Seq<u8>) -> Result<Seq<Pointer>, FormatError> {
    scan_from(data, 0)
}

/// Reads the pointer table out of `data`, the bytes of an archive from its
/// start.
///
/// Data that end before the header does are scanned as far as they go. Data
/// that end inside a record are refused.
pub fn process_header(data: &[u8]) -> (result: Result<Vec<Pointer>, FormatError>)
    ensures
        match scan_header(data@) {
            Ok(records) => result is Ok && result->Ok_0@ == records,
            Err(e) => result == Err::<Vec<Pointer>, FormatError>(e),
        },
{
    let limit: usize = if data.len() < HEADER_SIZE {
        data.len()
    } else {
        HEADER_SIZE
    };
    let mut pointers: Vec<Pointer> = Vec::new();
    let mut pos: usize = 0;
    assert(scan_header(data@) == preceded_by(pointers@, scan_from(data@, 0))) by {
        if let Ok(found) = scan_from(data@, 0) {
            assert(pointers@ + found =~= found);
        }
    }
    while pos < limit
        invariant
            limit == scan_limit(data@),
            pos < limit + 24,
            scan_header(data@) == preceded_by(pointers@, scan_from(data@, pos as int)),
        decreases scan_left(data@, pos as int),
    {
        if data[pos] == 0 {
            pos = pos + 1;
        } else {
            if data.len() - pos < RECORD_SIZE {
                return Err(FormatError::MalformedInput);
            }
            let pointer = Pointer {
                unknown: read_word(data, pos),
                offset: read_word(data, pos + 4),
                size: read_word(data, pos + 8),
            };
            proof {
                let rest = scan_from(data@, pos + 24);
                assert(scan_from(data@, pos as int) == preceded_by(seq![pointer], rest));
                if let Ok(found) = rest {
                    assert(pointers@ + (seq![pointer] + found) =~= pointers@.push(pointer)
                        + found);
                }
            }
            pointers.push(pointer);
            pos = pos + RECORD_STRIDE;
        }
    }
    assert(pointers@ + Seq::<Pointer>::empty() =~= pointers@);
    Ok(pointers)
}

/// Padding is skipped: where every byte from `pos` up to `to` is zero, the
/// scan from `pos` finds what the scan from `to` finds.
pub proof fn lemma_scan_skips_padding(data: Seq<u8>, pos: int, to: int)
    requires
        0 <= pos <= to <= scan_limit(data),
        forall|i: int| pos <= i < to ==> data[i] == 0,
    ensures
        scan_from(data, pos) == scan_from(data, to),
    decreases to - pos,
{
    if pos < to {
        lemma_scan_skips_padding(data, pos + 1, to);
    }
}

/// A header that is all padding holds no record: where every byte from
/// `pos` to the end of the scan is zero, the scan from `pos` finds nothing.
pub proof fn lemma_blank_header_is_empty(data: Seq<u8>, pos: int)
    requires
        0 <= pos,
        forall|i: int| pos <= i < scan_limit(data) ==> data[i] == 0,
    ensures
        scan_from(data, pos) == Ok::<Seq<Pointer>, FormatError>(Seq::empty()),
{
    if pos < scan_limit(data) {
        lemma_scan_skips_padding(data, pos, scan_limit(data));
    }
}

/// The twelve bytes that hold `pointer` in a header.
pub open spec fn record_bytes(pointer: Pointer) -> Seq<u8> {
    word_bytes(pointer.unknown) + word_bytes(pointer.offset) + word_bytes(pointer.size)
}

/// A record is read back as it was written: where the twelve bytes at `at`
/// are those of `pointer`, the record at `at` is `pointer`.
pub proof fn lemma_record_round_trip(data: Seq<u8>, at: int, pointer: Pointer)
    requires
        0 <= at,
        at + 12 <= data.len(),
        data.subrange(at, at + 12) == record_bytes(pointer),
    ensures
        record_at(data, at) == pointer,
{
    let bytes = record_bytes(pointer);
    assert forall|i: int| 0 <= i < 12 implies data[at + i] == bytes[i] by {
        assert(data.subrange(at, at + 12)[i] == data[at + i]);
    }
    lemma_word_round_trip(pointer.unknown);
    lemma_word_round_trip(pointer.offset);
    lemma_word_round_trip(pointer.size);
    assert(word_at(data, at) == word_at(word_bytes(pointer.unknown), 0)) by {
        assert(data[at + 0] == bytes[0] && data[at + 1] == bytes[1] && data[at + 2] == bytes[2]
            && data[at + 3] == bytes[3]);
    }
    assert(word_at(data, at + 4) == word_at(word_bytes(pointer.offset), 0)) by {
        assert(data[at + 4] == bytes[4] && data[at + 5] == bytes[5] && data[at + 6] == bytes[6]
            && data[at + 7] == bytes[7]);
    }
    assert(word_at(data, at + 8) == word_at(word_bytes(pointer.size), 0)) by {
        assert(data[at + 8] == bytes[8] && data[at + 9] == bytes[9] && data[at + 10]
            == bytes[10] && data[at + 11] == bytes[11]);
    }
}

/// A header with one record holds exactly that record: where the bytes of
/// `pointer` start at `at` with a byte that is not zero, and every byte of
/// the header before them and from the end of the record's 24 bytes on is
/// zero, the scan finds `pointer` and nothing else.
pub proof fn lemma_single_record(data: Seq<u8>, at: int, pointer: Pointer)
    requires
        0 <= at < scan_limit(data),
        at + 12 <= data.len(),
        data.subrange(at, at + 12) == record_bytes(pointer),
        pointer.unknown % 256 != 0,
        forall|i: int| 0 <= i < at ==> data[i] == 0,
        forall|i: int| at + 24 <= i < scan_limit(data) ==> data[i] == 0,
    ensures
        scan_header(data) == Ok::<Seq<Pointer>, FormatError>(seq![pointer]),
{
    lemma_record_round_trip(data, at, pointer);
    assert(data[at] == data.subrange(at, at + 12)[0]);
    lemma_scan_skips_padding(data, 0, at);
    lemma_blank_header_is_empty(data, at + 24);
    assert(seq![pointer] + Seq::<Pointer>::empty() =~= seq![pointer]);
}

/// Records do not overlap: each one takes 24 bytes of what the scan has
/// left, but for the last, which may reach past the end of the header.
pub proof fn lemma_scan_count(data: Seq<u8>, pos: int)
    requires
        0 <= pos,
    ensures
        match scan_from(data, pos) {
            Ok(records) => 24 * records.len() <= scan_left(data, pos) + 23,
            Err(_) => true,
        },
    decreases scan_left(data, pos),
{
    if pos >= scan_limit(data) {
    } else if data[pos] == 0 {
        lemma_scan_count(data, pos + 1);
    } else if pos + 12 > data.len() {
    } else {
        lemma_scan_count(data, pos + 24);
    }
}

/// A pointer table holds at most 2048 records.
pub proof fn lemma_header_capacity(data: Seq<u8>)
    ensures
        match scan_header(data) {
            Ok(records) => records.len() <= 2048,
            Err(_) => true,
        },
{
    lemma_scan_count(data, 0);
}

} // verus!
