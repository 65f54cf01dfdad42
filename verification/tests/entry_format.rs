use kvlog::entry::HEADER_SIZE;
use kvlog::{DecodeError, EntryType, LogEntry};

fn put(timestamp: u64, key: &str, value: &[u8]) -> LogEntry {
    LogEntry { entry_type: EntryType::Put, timestamp, key: key.to_string(), value: value.to_vec() }
}

fn tombstone(timestamp: u64, key: &str) -> LogEntry {
    LogEntry { entry_type: EntryType::Delete, timestamp, key: key.to_string(), value: Vec::new() }
}

/// A record with an arbitrary tag and raw key bytes, under a right checksum.
fn raw_record(tag: u8, timestamp: u64, key_len: u32, value_len: u32, body: &[u8]) -> Vec<u8> {
    let mut payload = vec![tag];
    payload.extend_from_slice(&timestamp.to_le_bytes());
    payload.extend_from_slice(&key_len.to_le_bytes());
    payload.extend_from_slice(&value_len.to_le_bytes());
    payload.extend_from_slice(body);
    let mut record = crc32fast::hash(&payload).to_le_bytes().to_vec();
    record.extend_from_slice(&payload);
    record
}

#[test]
fn tag_bytes_name_the_two_kinds() {
    assert_eq!(EntryType::from_u8(0x01), Some(EntryType::Put));
    assert_eq!(EntryType::from_u8(0x02), Some(EntryType::Delete));
    assert_eq!(EntryType::from_u8(0x00), None);
    assert_eq!(EntryType::from_u8(0x03), None);
    assert_eq!(EntryType::from_u8(0xff), None);
    assert_eq!(EntryType::Put.to_u8(), 0x01);
    assert_eq!(EntryType::Delete.to_u8(), 0x02);
}

#[test]
fn encode_put_gives_the_exact_bytes() {
    let bytes = put(1_700_000_000_000, "a", b"1").encode();
    assert_eq!(
        bytes,
        vec![
            84, 75, 117, 79, 1, 0, 104, 229, 207, 139, 1, 0, 0, 1, 0, 0, 0, 1, 0, 0, 0, 97, 49
        ]
    );
}

#[test]
fn encode_delete_gives_the_exact_bytes() {
    let bytes = tombstone(5, "key").encode();
    assert_eq!(
        bytes,
        vec![1, 116, 162, 23, 2, 5, 0, 0, 0, 0, 0, 0, 0, 3, 0, 0, 0, 0, 0, 0, 0, 107, 101, 121]
    );
}

#[test]
fn encoded_length_is_header_plus_key_plus_value() {
    assert_eq!(HEADER_SIZE, 21);
    assert_eq!(put(0, "", b"").encode().len(), 21);
    assert_eq!(put(0, "abc", b"").encode().len(), 24);
    assert_eq!(put(0, "abc", b"hello").encode().len(), 29);
    // the key counts by its bytes, not by its characters
    assert_eq!(put(0, "\u{e9}\u{20ac}", b"xy").encode().len(), 21 + 5 + 2);
}

#[test]
fn checksum_covers_everything_after_itself() {
    let bytes = put(42, "name", b"value").encode();
    let stored = u32::from_le_bytes([bytes[0], bytes[1], bytes[2], bytes[3]]);
    assert_eq!(stored, crc32fast::hash(&bytes[4..]));
    assert_ne!(stored, crc32fast::hash(&bytes));
}

#[test]
fn decode_reproduces_the_entry() {
    let entries = vec![
        put(0, "", b""),
        put(1_700_000_000_000, "a", b"1"),
        put(u64::MAX, "k\u{e9}y \u{1f600}", &[0, 255, 128, 10, 13]),
        tombstone(7, "gone"),
        tombstone(0, ""),
    ];
    for entry in entries {
        let decoded = LogEntry::decode(&entry.encode()).expect("a record that was just encoded");
        assert_eq!(decoded.entry_type, entry.entry_type);
        assert_eq!(decoded.timestamp, entry.timestamp);
        assert_eq!(decoded.key, entry.key);
        assert_eq!(decoded.value, entry.value);
    }
}

#[test]
fn decode_is_the_same_on_the_same_bytes() {
    let bytes = put(9, "twice", b"same").encode();
    let first = LogEntry::decode(&bytes).unwrap();
    let second = LogEntry::decode(&bytes).unwrap();
    assert_eq!(first.key, second.key);
    assert_eq!(first.value, second.value);
    assert_eq!(first.timestamp, second.timestamp);
}

#[test]
fn decode_short_input_is_unexpected_eof() {
    let bytes = put(1, "a", b"1").encode();
    for len in 0..21 {
        assert!(matches!(LogEntry::decode(&bytes[..len]), Err(DecodeError::UnexpectedEOF)));
    }
}

#[test]
fn decode_truncated_body_is_a_checksum_error() {
    // the checksum is that of all bytes after it, so a body cut short no longer matches
    let bytes = put(1, "abc", b"hello").encode();
    assert!(matches!(LogEntry::decode(&bytes[..bytes.len() - 1]), Err(DecodeError::BadChecksum)));
}

#[test]
fn decode_declared_lengths_beyond_the_bytes_is_unexpected_eof() {
    let record = raw_record(0x01, 3, 4, 2, b"ab");
    assert!(matches!(LogEntry::decode(&record), Err(DecodeError::UnexpectedEOF)));
    let record = raw_record(0x02, 3, u32::MAX, u32::MAX, b"");
    assert!(matches!(LogEntry::decode(&record), Err(DecodeError::UnexpectedEOF)));
}

#[test]
fn decode_unknown_tag_is_invalid_format() {
    let record = raw_record(7, 0, 0, 0, b"");
    assert_eq!(record, vec![246, 141, 125, 233, 7, 0, 0, 0, 0, 0, 0, 0, 0, 0, 0, 0, 0, 0, 0, 0, 0]);
    match LogEntry::decode(&record) {
        Err(DecodeError::InvalidFormat(text)) => assert_eq!(text, "Invalid entry type: 7"),
        other => panic!("expected an invalid format, got {:?}", other),
    }
    match LogEntry::decode(&raw_record(0, 0, 0, 0, b"")) {
        Err(DecodeError::InvalidFormat(text)) => assert_eq!(text, "Invalid entry type: 0"),
        other => panic!("expected an invalid format, got {:?}", other),
    }
    match LogEntry::decode(&raw_record(255, 0, 0, 0, b"")) {
        Err(DecodeError::InvalidFormat(text)) => assert_eq!(text, "Invalid entry type: 255"),
        other => panic!("expected an invalid format, got {:?}", other),
    }
}

#[test]
fn decode_checks_the_tag_before_the_lengths() {
    let record = raw_record(9, 0, 100, 100, b"");
    assert!(matches!(LogEntry::decode(&record), Err(DecodeError::InvalidFormat(_))));
}

#[test]
fn decode_key_that_is_not_utf8_is_invalid_format() {
    let record = raw_record(0x01, 0, 1, 0, &[0xff]);
    assert_eq!(
        record,
        vec![98, 130, 48, 178, 1, 0, 0, 0, 0, 0, 0, 0, 0, 1, 0, 0, 0, 0, 0, 0, 0, 255]
    );
    match LogEntry::decode(&record) {
        Err(DecodeError::InvalidFormat(text)) => {
            assert_eq!(text, String::from_utf8(vec![0xff]).unwrap_err().to_string())
        }
        other => panic!("expected an invalid format, got {:?}", other),
    }
}

#[test]
fn decode_takes_any_bytes_as_value() {
    let record = raw_record(0x01, 0, 1, 3, &[b'k', 0xff, 0xfe, 0x00]);
    let entry = LogEntry::decode(&record).unwrap();
    assert_eq!(entry.key, "k");
    assert_eq!(entry.value, vec![0xff, 0xfe, 0x00]);
}

#[test]
fn decode_bad_checksum_when_the_stored_checksum_is_changed() {
    let mut bytes = put(1, "a", b"1").encode();
    bytes[0] ^= 0x01;
    assert!(matches!(LogEntry::decode(&bytes), Err(DecodeError::BadChecksum)));
}

#[test]
fn every_single_bit_flip_in_the_payload_is_a_checksum_error() {
    let bytes = put(1_700_000_000_000, "key", b"value").encode();
    for index in 4..bytes.len() {
        for bit in 0..8 {
            let mut damaged = bytes.clone();
            damaged[index] ^= 1 << bit;
            assert!(
                matches!(LogEntry::decode(&damaged), Err(DecodeError::BadChecksum)),
                "byte {} bit {}",
                index,
                bit
            );
        }
    }
}

#[test]
fn decode_trailing_bytes_fall_under_the_checksum() {
    let mut bytes = put(1, "a", b"1").encode();
    bytes.push(0);
    assert!(matches!(LogEntry::decode(&bytes), Err(DecodeError::BadChecksum)));
}

#[test]
fn value_as_string_is_the_text_of_valid_utf8() {
    assert_eq!(put(0, "k", b"hello").value_as_string(), Some("hello".to_string()));
    assert_eq!(put(0, "k", b"").value_as_string(), Some(String::new()));
    assert_eq!(
        put(0, "k", "gr\u{fc}n".as_bytes()).value_as_string(),
        Some("gr\u{fc}n".to_string())
    );
    assert_eq!(put(0, "k", &[0xff, 0xfe]).value_as_string(), None);
    assert_eq!(put(0, "k", &[b'a', 0x80]).value_as_string(), None);
}

#[test]
fn error_messages() {
    assert_eq!(DecodeError::UnexpectedEOF.message(), "Unexpected end of file");
    assert_eq!(DecodeError::BadChecksum.message(), "Bad checksum");
    assert_eq!(
        DecodeError::InvalidFormat("Invalid entry type: 9".to_string()).message(),
        "Invalid format: Invalid entry type: 9"
    );
    assert_eq!(DecodeError::InvalidFormat(String::new()).message(), "Invalid format: ");
}
