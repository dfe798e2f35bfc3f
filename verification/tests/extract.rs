use level_archive::archive::{process_header, Pointer};
use level_archive::error::FormatError;
use level_archive::extract::{extract_level_file, read_level_file, LevelFile};

/// An archive of `len` bytes whose byte at index `i` is `i` modulo 251.
fn archive(len: usize) -> Vec<u8> {
    (0..len).map(|i| (i % 251) as u8).collect()
}

fn pointer(offset: u32, size: u32) -> Pointer {
    Pointer { unknown: 0, offset, size }
}

#[test]
fn files_are_cut_out_in_record_order() {
    let data = archive(1000);
    let pointers = vec![pointer(500, 10), pointer(0, 3), pointer(990, 10)];
    let mut sink = Vec::new();
    assert_eq!(extract_level_file(&data, pointers, &mut sink), Ok(()));
    assert_eq!(
        sink,
        vec![
            LevelFile { offset: 500, bytes: data[500..510].to_vec() },
            LevelFile { offset: 0, bytes: vec![0, 1, 2] },
            LevelFile { offset: 990, bytes: data[990..1000].to_vec() },
        ]
    );
}

#[test]
fn same_region_twice_gives_two_files() {
    let data = archive(100);
    let pointers = vec![pointer(10, 20), pointer(10, 20), pointer(15, 5)];
    let mut sink = Vec::new();
    assert_eq!(extract_level_file(&data, pointers, &mut sink), Ok(()));
    assert_eq!(sink.len(), 3);
    assert_eq!(sink[0], sink[1]);
    assert_eq!(sink[2].bytes, data[15..20].to_vec());
}

#[test]
fn no_records_give_no_files() {
    let mut sink = vec![LevelFile { offset: 1, bytes: vec![1] }];
    assert_eq!(extract_level_file(&archive(10), vec![], &mut sink), Ok(()));
    assert_eq!(sink, vec![LevelFile { offset: 1, bytes: vec![1] }]);
}

#[test]
fn record_beyond_the_archive_is_out_of_bounds() {
    let data = archive(100);
    let pointers = vec![pointer(0, 50), pointer(90, 11), pointer(1, 1)];
    let mut sink = Vec::new();
    assert_eq!(
        extract_level_file(&data, pointers, &mut sink),
        Err(FormatError::OutOfBounds)
    );
    // The file before the failing record stays; nothing after it is cut.
    assert_eq!(sink, vec![LevelFile { offset: 0, bytes: data[..50].to_vec() }]);
}

#[test]
fn one_record_at_the_edge_of_the_archive() {
    let data = archive(100);
    assert_eq!(
        read_level_file(&data, pointer(90, 10)),
        Ok(LevelFile { offset: 90, bytes: data[90..].to_vec() })
    );
    assert_eq!(
        read_level_file(&data, pointer(100, 0)),
        Ok(LevelFile { offset: 100, bytes: vec![] })
    );
    assert_eq!(read_level_file(&data, pointer(90, 11)), Err(FormatError::OutOfBounds));
    assert_eq!(read_level_file(&data, pointer(101, 0)), Err(FormatError::OutOfBounds));
    assert_eq!(
        read_level_file(&data, pointer(u32::MAX, u32::MAX)),
        Err(FormatError::OutOfBounds)
    );
}

#[test]
fn extracting_twice_gives_the_same_files() {
    let data = archive(5000);
    let pointers = vec![pointer(4000, 1000), pointer(0, 1), pointer(77, 700)];
    let mut first = Vec::new();
    let mut second = Vec::new();
    assert_eq!(extract_level_file(&data, pointers.clone(), &mut first), Ok(()));
    assert_eq!(extract_level_file(&data, pointers, &mut second), Ok(()));
    assert_eq!(first, second);

    let failing = vec![pointer(10, 10), pointer(4999, 2)];
    let mut first = Vec::new();
    let mut second = Vec::new();
    let first_result = extract_level_file(&data, failing.clone(), &mut first);
    let second_result = extract_level_file(&data, failing, &mut second);
    assert_eq!(first_result, second_result);
    assert_eq!(first, second);
}

#[test]
fn header_scan_feeds_extraction() {
    let mut data = vec![0u8; 48 * 1024 + 256];
    for (i, byte) in data.iter_mut().enumerate().skip(48 * 1024) {
        *byte = (i % 256) as u8;
    }
    let at = 48 * 1024 + 16;
    data[8..12].copy_from_slice(&1u32.to_le_bytes());
    data[12..16].copy_from_slice(&(at as u32).to_le_bytes());
    data[16..20].copy_from_slice(&32u32.to_le_bytes());

    let pointers = process_header(&data).unwrap();
    assert_eq!(pointers, vec![Pointer { unknown: 1, offset: at as u32, size: 32 }]);

    let mut sink = Vec::new();
    assert_eq!(extract_level_file(&data, pointers, &mut sink), Ok(()));
    assert_eq!(sink, vec![LevelFile { offset: at as u32, bytes: data[at..at + 32].to_vec() }]);
}
