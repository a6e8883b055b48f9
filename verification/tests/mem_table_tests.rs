use segstore::entry::Entry;
use segstore::error::Error;
use segstore::mem_table::{assert_send_sync, FailingOffsets, FixedOffsets, MemTable};
use segstore::table::StreamTable;

#[test]
fn test_stream_data() {
    assert_send_sync::<MemTable>();
}

#[test]
fn test_append_accounting() {
    let mut table = MemTable::new();
    assert_eq!(table.get_first_entry(), 0);
    assert_eq!(table.get_last_entry(), 0);
    assert_eq!(table.get_size(), 0);

    table.append(&Entry::new(10, 1, vec![1, 2, 3])).unwrap();
    assert_eq!(table.get_first_entry(), 10);
    assert_eq!(table.get_last_entry(), 10);
    assert_eq!(table.get_size(), 3);

    table.append(&Entry::new(11, 2, vec![4])).unwrap();
    table.append(&Entry::new(12, 1, vec![5, 6])).unwrap();
    assert_eq!(table.get_first_entry(), 10);
    assert_eq!(table.get_last_entry(), 12);
    assert_eq!(table.get_size(), 6);
}

#[test]
fn test_stream_tables_sorted() {
    let mut table = MemTable::new();
    table.append(&Entry::new(1, 9, vec![b'x'])).unwrap();
    table.append(&Entry::new(2, 3, vec![b'y'])).unwrap();
    table.append(&Entry::new(3, 7, vec![b'z'])).unwrap();
    let ids: Vec<u64> = table.get_stream_tables().iter().map(|t| t.stream_id).collect();
    assert_eq!(ids, vec![3, 7, 9]);
}

#[test]
fn test_stream_read_round_trip() {
    let mut table = MemTable::new();
    table.append(&Entry::new(1, 5, b"ab".to_vec())).unwrap();
    table.append(&Entry::new(2, 5, b"cde".to_vec())).unwrap();
    table.append(&Entry::new(3, 5, b"f".to_vec())).unwrap();
    let data = table.read_stream_data(5, 0, 6).unwrap();
    assert_eq!(data, b"abcdef".to_vec());
    let mid = table.read_stream_data(5, 1, 4).unwrap();
    assert_eq!(mid, b"bcde".to_vec());
}

#[test]
fn test_stream_table_direct() {
    let mut t = StreamTable::new(4, 100);
    assert_eq!(t.get_stream_range(), None);
    t.append(b"hello").unwrap();
    t.append(b" world").unwrap();
    assert_eq!(t.get_stream_range(), Some((100, 111)));
    assert_eq!(t.read_stream_data(0, 11).unwrap(), b"hello world".to_vec());
    assert_eq!(t.read_stream_data(6, 5).unwrap(), b"world".to_vec());
    assert_eq!(t.read_stream_data(6, 6), Err(Error::OutOfRange));
}

#[test]
fn test_read_missing_stream() {
    let table = MemTable::new();
    assert_eq!(table.get_stream_range(42), None);
    assert_eq!(table.read_stream_data(42, 0, 1), Err(Error::StreamNotFound));
}

#[test]
fn test_read_out_of_range() {
    let mut table = MemTable::new();
    table.append(&Entry::new(1, 8, vec![1, 2])).unwrap();
    assert_eq!(table.read_stream_data(8, 0, 3), Err(Error::OutOfRange));
    assert_eq!(table.read_stream_data(8, 3, 0), Err(Error::OutOfRange));
}

#[test]
fn test_offset_resolver_used_once_per_stream() {
    let mut table = MemTable::new();
    let resolver = FixedOffsets { offset: 100 };
    table
        .append_with_offsets(&Entry::new(1, 6, vec![1, 2, 3]), &resolver)
        .unwrap();
    // The second append of the same stream keeps the offset resolved first.
    let other = FixedOffsets { offset: 999 };
    table
        .append_with_offsets(&Entry::new(2, 6, vec![4]), &other)
        .unwrap();
    assert_eq!(table.get_stream_range(6), Some((100, 104)));
}

#[test]
fn test_offset_resolution_failure_leaves_buffer_untouched() {
    let mut table = MemTable::new();
    table.append(&Entry::new(1, 2, vec![9])).unwrap();
    let failing = FailingOffsets {};
    let r = table.append_with_offsets(&Entry::new(2, 3, vec![8]), &failing);
    assert_eq!(r, Err(Error::OffsetResolution));
    assert_eq!(table.get_size(), 1);
    assert_eq!(table.get_last_entry(), 1);
    assert_eq!(table.get_stream_range(3), None);
    // A failing resolver is never consulted for a stream already present.
    table
        .append_with_offsets(&Entry::new(3, 2, vec![7]), &failing)
        .unwrap();
    assert_eq!(table.get_size(), 2);
}

#[test]
fn test_empty_payload_append() {
    let mut table = MemTable::new();
    table.append(&Entry::new(5, 1, Vec::new())).unwrap();
    assert_eq!(table.get_size(), 0);
    assert_eq!(table.get_first_entry(), 5);
    // A stream whose table holds no bytes reports no range.
    assert_eq!(table.get_stream_range(1), None);
    assert_eq!(table.read_stream_data(1, 0, 0).unwrap(), Vec::<u8>::new());
}
