use kvlog::{DecodeError, EntryType, LogEntry, Segment};

fn put(timestamp: u64, key: &str, value: &[u8]) -> LogEntry {
    LogEntry { entry_type: EntryType::Put, timestamp, key: key.to_string(), value: value.to_vec() }
}

fn tombstone(timestamp: u64, key: &str) -> LogEntry {
    LogEntry { entry_type: EntryType::Delete, timestamp, key: key.to_string(), value: Vec::new() }
}

fn read_all(data: &[u8]) -> Vec<Result<LogEntry, DecodeError>> {
    let segment = Segment::open(1, data.len() as u64);
    let mut iter = segment.iter_entries(data);
    let mut items = Vec::new();
    while let Some(item) = iter.next() {
        items.push(item);
        assert!(items.len() <= data.len(), "a read yields at most one item per byte");
    }
    assert!(iter.next().is_none(), "a read that is over stays over");
    items
}

#[test]
fn open_resumes_at_the_end_of_the_file() {
    let segment = Segment::open(3, 0);
    assert_eq!(segment.id, 3);
    assert_eq!(segment.write_offset, 0);
    let segment = Segment::open(7, 4096);
    assert_eq!(segment, Segment { id: 7, write_offset: 4096 });
}

#[test]
fn append_entry_returns_where_the_record_begins() {
    let mut segment = Segment::open(1, 0);
    let first = put(1, "a", b"1");
    let (offset, bytes) = segment.append_entry(&first);
    assert_eq!(offset, 0);
    assert_eq!(bytes, first.encode());
    assert_eq!(segment.write_offset, 23);
    assert_eq!(segment.id, 1);

    let second = tombstone(2, "abc");
    let (offset, bytes) = segment.append_entry(&second);
    assert_eq!(offset, 23);
    assert_eq!(bytes, second.encode());
    assert_eq!(segment.write_offset, 23 + 24);
}

#[test]
fn append_entry_goes_on_from_the_length_of_an_existing_file() {
    let mut segment = Segment::open(2, 1000);
    let (offset, bytes) = segment.append_entry(&put(0, "key", b"value"));
    assert_eq!(offset, 1000);
    assert_eq!(bytes.len(), 29);
    assert_eq!(segment.write_offset, 1029);
}

#[test]
fn an_empty_file_yields_nothing() {
    assert!(read_all(&[]).is_empty());
}

#[test]
fn reads_the_records_in_the_order_they_were_appended() {
    let mut data = Vec::new();
    data.extend_from_slice(&put(1, "a", b"1").encode());
    data.extend_from_slice(&tombstone(2, "a").encode());
    data.extend_from_slice(&put(3, "b", b"two").encode());
    let items = read_all(&data);
    assert_eq!(items.len(), 3);
    let first = items[0].as_ref().unwrap();
    assert_eq!((first.entry_type, first.timestamp, first.key.as_str()), (EntryType::Put, 1, "a"));
    assert_eq!(first.value, b"1");
    let second = items[1].as_ref().unwrap();
    assert_eq!((second.entry_type, second.timestamp, second.key.as_str()), (EntryType::Delete, 2, "a"));
    assert!(second.value.is_empty());
    let third = items[2].as_ref().unwrap();
    assert_eq!((third.entry_type, third.timestamp, third.key.as_str()), (EntryType::Put, 3, "b"));
    assert_eq!(third.value, b"two");
}

#[test]
fn each_read_starts_over_from_the_beginning() {
    let data = put(1, "a", b"1").encode();
    let segment = Segment::open(1, data.len() as u64);
    let mut first = segment.iter_entries(&data);
    assert!(first.next().unwrap().is_ok());
    assert!(first.next().is_none());
    let mut second = segment.iter_entries(&data);
    assert_eq!(second.next().unwrap().unwrap().key, "a");
    assert!(second.next().is_none());
}

#[test]
fn a_tail_shorter_than_a_header_ends_the_read_cleanly() {
    let whole = put(1, "a", b"1").encode();
    let cut = put(2, "b", b"2").encode();
    for keep in 0..21 {
        let mut data = whole.clone();
        data.extend_from_slice(&cut[..keep]);
        let items = read_all(&data);
        assert_eq!(items.len(), 1, "tail of {} bytes", keep);
        assert_eq!(items[0].as_ref().unwrap().key, "a");
    }
}

#[test]
fn a_record_cut_short_behind_its_header_is_one_error_and_then_the_end() {
    let whole = put(1, "a", b"1").encode();
    let cut = put(2, "longer key", b"longer value").encode();
    for keep in 21..cut.len() {
        let mut data = whole.clone();
        data.extend_from_slice(&cut[..keep]);
        let items = read_all(&data);
        assert_eq!(items.len(), 2, "tail of {} bytes", keep);
        assert_eq!(items[0].as_ref().unwrap().key, "a");
        assert!(matches!(items[1], Err(DecodeError::UnexpectedEOF)));
    }
}

#[test]
fn a_record_that_does_not_decode_is_passed_over() {
    let mut damaged = put(2, "b", b"2").encode();
    let last = damaged.len() - 1;
    damaged[last] ^= 0x40;
    let mut data = put(1, "a", b"1").encode();
    data.extend_from_slice(&damaged);
    data.extend_from_slice(&put(3, "c", b"3").encode());
    let items = read_all(&data);
    assert_eq!(items.len(), 3);
    assert_eq!(items[0].as_ref().unwrap().key, "a");
    assert!(matches!(items[1], Err(DecodeError::BadChecksum)));
    assert_eq!(items[2].as_ref().unwrap().key, "c");
}

#[test]
fn a_record_with_an_unknown_tag_is_passed_over() {
    let mut payload = vec![9u8];
    payload.extend_from_slice(&0u64.to_le_bytes());
    payload.extend_from_slice(&1u32.to_le_bytes());
    payload.extend_from_slice(&1u32.to_le_bytes());
    payload.extend_from_slice(b"kv");
    let mut data = crc32fast::hash(&payload).to_le_bytes().to_vec();
    data.extend_from_slice(&payload);
    data.extend_from_slice(&put(3, "c", b"3").encode());
    let items = read_all(&data);
    assert_eq!(items.len(), 2);
    match &items[0] {
        Err(DecodeError::InvalidFormat(text)) => assert_eq!(text, "Invalid entry type: 9"),
        other => panic!("expected an invalid format, got {:?}", other),
    }
    assert_eq!(items[1].as_ref().unwrap().key, "c");
}
