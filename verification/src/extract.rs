//! Cutting the level files out of an archive.
//!
//! Each pointer record gives the offset and size of one level file. The
//! files are cut out in the order of the records, one file per record:
//! records that name the same bytes give the same bytes twice.

use vstd::prelude::*;
use vstd::slice::{slice_subrange, slice_to_vec};
use crate::archive::Pointer;
use crate::error::FormatError;

verus! {

/// One level file as it lies in the archive, still encoded.
#[derive(Clone, Debug, PartialEq, Eq)]
pub struct LevelFile {
    /// The index of its first byte in the archive. It names the file.
    pub offset: u32,
    /// Its bytes.
    pub bytes: Vec<u8>,
}

/// A level file as a value: its offset and its bytes.
pub struct LevelFileModel {
    pub offset: u32,
    pub bytes: Seq<u8>,
}

impl View for LevelFile {
    type V = LevelFileModel;

    open spec fn view(&self) -> LevelFileModel {
        LevelFileModel { offset: self.offset, bytes: self.bytes@ }
    }
}

/// The values of a sequence of level files.
pub open spec fn models(files: Seq<LevelFile>) -> Seq<LevelFileModel> {
    Seq::new(files.len(), |i: int| files[i]@)
}

/// Whether the bytes that `pointer` describes lie inside an archive of
/// `archive_len` bytes.
pub open spec fn in_bounds(pointer: Pointer, archive_len: int) -> bool {
    pointer.offset + pointer.size <= archive_len
}

/// The level file that `pointer` describes in `archive`.
pub open spec fn level_file_at(archive: Seq<u8>, pointer: Pointer) -> LevelFileModel
    recommends
        in_bounds(pointer, archive.len() as int),
{
    LevelFileModel {
        offset: pointer.offset,
        bytes: archive.subrange(pointer.offset as int, pointer.offset + pointer.size),
    }
}

/// The level files of the first `n` of `pointers`, in their order.
pub open spec fn level_files(archive: Seq<u8>, pointers: Seq<Pointer>, n: int) -> Seq<
    LevelFileModel,
>
    recommends
        0 <= n <= pointers.len(),
{
    Seq::new(n as nat, |i: int| level_file_at(archive, pointers[i]))
}

/// What an extraction does: `after` is the sink that held `before`, and
/// `result` is what the extraction returned.
///
/// The sink gains the files of the records before the first one that
/// reaches beyond the archive, or of all records if there is none. The
/// extraction succeeds if there is none and fails on that record otherwise.
pub open spec fn extraction(
    archive: Seq<u8>,
    pointers: Seq<Pointer>,
    before: Seq<LevelFileModel>,
    after: Seq<LevelFileModel>,
    result: Result<(), FormatError>,
) -> bool {
    let n = after.len() - before.len();
    &&& 0 <= n <= pointers.len()
    &&& after == before + level_files(archive, pointers, n)
    &&& forall|i: int| 0 <= i < n ==> in_bounds(#[trigger] pointers[i], archive.len() as int)
    &&& n == pointers.len() ==> result == Ok::<(), FormatError>(())
    &&& n < pointers.len() ==> result == Err::<(), FormatError>(FormatError::OutOfBounds)
        && !in_bounds(pointers[n], archive.len() as int)
}

/// Cuts the level file that `pointer` describes out of `archive`.
pub fn read_level_file(archive: &[u8], pointer: Pointer) -> (result: Result<LevelFile, FormatError>)
    ensures
        in_bounds(pointer, archive@.len() as int) ==> result is Ok && result->Ok_0@
            == level_file_at(archive@, pointer),
        !in_bounds(pointer, archive@.len() as int) ==> result == Err::<LevelFile, FormatError>(
            FormatError::OutOfBounds,
        ),
{
    let end: u64 = pointer.offset as u64 + pointer.size as u64;
    if end > archive.len() as u64 {
        return Err(FormatError::OutOfBounds);
    }
    let piece = slice_subrange(archive, pointer.offset as usize, end as usize);
    Ok(LevelFile { offset: pointer.offset, bytes: slice_to_vec(piece) })
}

/// Cuts every level file that `pointers` describes out of `archive` and
/// appends them to `sink`, in the order of `pointers`.
///
/// The first record that reaches beyond the archive ends the extraction with
/// an error. The files of the records before it stay in the sink.
pub fn extract_level_file(
    archive: &[u8],
    pointers: Vec<Pointer>,
    sink: &mut Vec<LevelFile>,
) -> (result: Result<(), FormatError>)
    ensures
        extraction(archive@, pointers@, models(old(sink)@), models(final(sink)@), result),
{
    let ghost before = models(sink@);
    let mut i: usize = 0;
    assert(before + level_files(archive@, pointers@, 0) =~= before);
    while i < pointers.len()
        invariant
            i <= pointers@.len(),
            before == models(old(sink)@),
            models(sink@) == before + level_files(archive@, pointers@, i as int),
            forall|j: int| 0 <= j < i ==> in_bounds(#[trigger] pointers@[j], archive@.len() as int),
        decreases pointers@.len() - i,
    {
        match read_level_file(archive, pointers[i]) {
            Ok(file) => {
                let ghost held = sink@;
                let ghost added = file@;
                sink.push(file);
                proof {
                    assert(models(sink@) =~= models(held).push(added));
                    assert(level_files(archive@, pointers@, i + 1) =~= level_files(
                        archive@,
                        pointers@,
                        i as int,
                    ).push(added));
                    assert(models(sink@) =~= before + level_files(archive@, pointers@, i + 1));
                }
            },
            Err(e) => {
                return Err(e);
            },
        }
        i = i + 1;
    }
    Ok(())
}

/// Extraction is repeatable: two runs on the same archive and the same
/// records, into sinks that held the same files, leave the same files and
/// return the same result.
pub proof fn lemma_extraction_repeatable(
    archive: Seq<u8>,
    pointers: Seq<Pointer>,
    before: Seq<LevelFileModel>,
    first: Seq<LevelFileModel>,
    first_result: Result<(), FormatError>,
    second: Seq<LevelFileModel>,
    second_result: Result<(), FormatError>,
)
    requires
        extraction(archive, pointers, before, first, first_result),
        extraction(archive, pointers, before, second, second_result),
    ensures
        first == second,
        first_result == second_result,
{
    // Were one run to cut fewer files than the other, the record at which
    // it stopped would be out of bounds for it and in bounds for the other.
    let n = first.len() - before.len();
    let m = second.len() - before.len();
    if n < m {
        assert(in_bounds(pointers[n], archive.len() as int));
    } else if m < n {
        assert(in_bounds(pointers[m], archive.len() as int));
    }
}

} // verus!
