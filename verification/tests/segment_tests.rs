use segstore::entry::Entry;
use segstore::mem_table::{FixedOffsets, MemTable};
use segstore::segments::{
    encode_segment, Segment, SEGMENT_HEADER_SIZE, SEGMENT_STREAM_HEADER_SIZE,
};

fn map_bytes(bytes: &[u8]) -> Segment {
    let mut mm = memmap2::MmapOptions::new()
        .len(bytes.len())
        .map_anon()
        .unwrap();
    mm[..].copy_from_slice(bytes);
    let ro = mm.make_read_only().unwrap();
    Segment::new(String::from("test-segment"), ro)
}

#[test]
fn test_scenario_two_streams() {
    let mut table = MemTable::new();
    let resolver = FixedOffsets { offset: 0 };
    table
        .append_with_offsets(&Entry::new(1, 7, b"ab".to_vec()), &resolver)
        .unwrap();
    table
        .append_with_offsets(&Entry::new(2, 7, b"cd".to_vec()), &resolver)
        .unwrap();
    table
        .append_with_offsets(&Entry::new(3, 9, b"xyz".to_vec()), &resolver)
        .unwrap();
    assert_eq!(table.get_first_entry(), 1);
    assert_eq!(table.get_last_entry(), 3);
    assert_eq!(table.get_size(), 7);
    assert_eq!(table.get_stream_range(7), Some((0, 4)));
    assert_eq!(table.get_stream_range(9), Some((0, 3)));

    let segment = map_bytes(&encode_segment(&table));
    assert!(segment.is_well_formed());
    assert_eq!(segment.stream_data(7).unwrap(), b"abcd");
    assert_eq!(segment.stream_data(9).unwrap(), b"xyz");
}

#[test]
fn test_segment_round_trip() {
    let mut table = MemTable::new();
    table.append(&Entry::new(21, 4, vec![0, 255, 7])).unwrap();
    table.append(&Entry::new(22, 2, b"hello".to_vec())).unwrap();
    table.append(&Entry::new(23, 4, vec![42])).unwrap();
    let segment = map_bytes(&encode_segment(&table));
    assert!(segment.is_well_formed());
    assert_eq!(segment.entry_index(), (21, 23));
    assert_eq!(segment.file_name().as_str(), "test-segment");
    assert_eq!(segment.stream_data(2).unwrap(), b"hello");
    assert_eq!(segment.stream_data(4).unwrap(), &[0u8, 255, 7, 42][..]);
    // Absent ids: below the first, between the two, above the last.
    assert!(segment.stream_data(1).is_none());
    assert!(segment.stream_data(3).is_none());
    assert!(segment.stream_data(5).is_none());
    assert!(segment.find_stream_header(1).is_none());
    assert!(segment.get_stream_range(99).is_none());
}

#[test]
fn test_segment_layout() {
    let mut table = MemTable::new();
    let resolver = FixedOffsets { offset: 10 };
    table
        .append_with_offsets(&Entry::new(1, 8, b"aaa".to_vec()), &resolver)
        .unwrap();
    table
        .append_with_offsets(&Entry::new(2, 5, b"bb".to_vec()), &resolver)
        .unwrap();
    let segment = map_bytes(&encode_segment(&table));
    assert!(segment.is_well_formed());

    // Sorted by stream id: 5 before 8; payloads adjacent, no gaps.
    let first = segment.find_stream_header(5).unwrap();
    let second = segment.find_stream_header(8).unwrap();
    let data_start = SEGMENT_HEADER_SIZE + 2 * SEGMENT_STREAM_HEADER_SIZE;
    assert_eq!(first.offset, 10);
    assert_eq!(first.size, 2);
    assert_eq!(first.file_offset, data_start);
    assert_eq!(second.offset, 10);
    assert_eq!(second.size, 3);
    assert_eq!(second.file_offset, first.file_offset + first.size);
    assert_eq!(segment.get_stream_range(5), Some((data_start, data_start + 2)));
    assert_eq!(
        segment.get_stream_range(8),
        Some((data_start + 2, data_start + 5))
    );
    assert_eq!(segment.stream_data(5).unwrap(), b"bb");
    assert_eq!(segment.stream_data(8).unwrap(), b"aaa");
}

#[test]
fn test_encode_exact_bytes_empty() {
    let table = MemTable::new();
    let bytes = encode_segment(&table);
    let mut expected: Vec<u8> = Vec::new();
    expected.extend_from_slice(&1u64.to_le_bytes()); // version
    expected.extend_from_slice(&0u64.to_le_bytes()); // last entry
    expected.extend_from_slice(&0u64.to_le_bytes()); // first entry
    expected.extend_from_slice(&40u64.to_le_bytes()); // index offset
    expected.extend_from_slice(&0u64.to_le_bytes()); // stream count
    assert_eq!(bytes, expected);
}

#[test]
fn test_encode_exact_bytes_one_stream() {
    let mut table = MemTable::new();
    table.append(&Entry::new(6, 7, b"ab".to_vec())).unwrap();
    let bytes = encode_segment(&table);
    let mut expected: Vec<u8> = Vec::new();
    expected.extend_from_slice(&1u64.to_le_bytes()); // version
    expected.extend_from_slice(&6u64.to_le_bytes()); // last entry
    expected.extend_from_slice(&6u64.to_le_bytes()); // first entry
    expected.extend_from_slice(&40u64.to_le_bytes()); // index offset
    expected.extend_from_slice(&1u64.to_le_bytes()); // stream count
    expected.extend_from_slice(&1u64.to_le_bytes()); // record version
    expected.extend_from_slice(&7u64.to_le_bytes()); // stream id
    expected.extend_from_slice(&0u64.to_le_bytes()); // logical offset
    expected.extend_from_slice(&88u64.to_le_bytes()); // file offset
    expected.extend_from_slice(&2u64.to_le_bytes()); // size
    expected.extend_from_slice(&0u64.to_le_bytes()); // checksum
    expected.extend_from_slice(b"ab");
    assert_eq!(bytes, expected);
}

#[test]
fn test_well_formed_rejects_corruption() {
    // Too short for a header.
    let short = map_bytes(&[0u8; 16]);
    assert!(!short.is_well_formed());

    // A good image, then corrupted in various ways.
    let mut table = MemTable::new();
    table.append(&Entry::new(1, 3, b"xy".to_vec())).unwrap();
    table.append(&Entry::new(2, 4, b"z".to_vec())).unwrap();
    let good = encode_segment(&table);
    assert!(map_bytes(&good).is_well_formed());

    // Wrong header version.
    let mut bad = good.clone();
    bad[0] = 9;
    assert!(!map_bytes(&bad).is_well_formed());

    // Index array longer than the file.
    let mut bad = good.clone();
    bad[32..40].copy_from_slice(&1000u64.to_le_bytes());
    assert!(!map_bytes(&bad).is_well_formed());

    // A payload range beyond the end of the file.
    let mut bad = good.clone();
    let size_pos = 40 + 32;
    bad[size_pos..size_pos + 8].copy_from_slice(&10_000u64.to_le_bytes());
    assert!(!map_bytes(&bad).is_well_formed());

    // Index not sorted: swap the two stream ids.
    let mut bad = good.clone();
    bad[40 + 8..40 + 16].copy_from_slice(&4u64.to_le_bytes());
    bad[88 + 8..88 + 16].copy_from_slice(&3u64.to_le_bytes());
    assert!(!map_bytes(&bad).is_well_formed());
}

#[test]
fn test_segment_empty_buffer() {
    let table = MemTable::new();
    let segment = map_bytes(&encode_segment(&table));
    assert!(segment.is_well_formed());
    assert_eq!(segment.entry_index(), (0, 0));
    assert!(segment.stream_data(0).is_none());
    assert!(segment.find_stream_header(7).is_none());
}
