//! The binary record format of one logical mutation.
//!
//! ```text
//! [u32 checksum] [u8 kind] [u64 timestamp] [u32 key_len] [u32 value_len] [key] [value]
//! ```
//!
//! All integers are little-endian. The checksum covers every byte after itself.

use crate::text::{append_decimal, decimal_text};
use vstd::bytes::{
    lemma_auto_spec_u32_to_from_le_bytes, lemma_auto_spec_u64_to_from_le_bytes,
    spec_u32_from_le_bytes, spec_u32_to_le_bytes, spec_u64_from_le_bytes, spec_u64_to_le_bytes,
    u32_from_le_bytes, u32_to_le_bytes, u64_from_le_bytes, u64_to_le_bytes,
};
use vstd::prelude::*;
use vstd::slice::{slice_subrange, slice_to_vec};
use vstd::string::StringExecFns;
use vstd::utf8::{
    decode_utf8, encode_utf8, encode_utf8_decode_utf8, encode_utf8_valid_utf8, valid_utf8,
};

verus! {

/// The number of bytes before the key: checksum, kind, timestamp and the two lengths.
pub const HEADER_SIZE: usize = 21;

/// The CRC-32 (IEEE) checksum of a byte sequence, as `crc32fast` computes it.
pub uninterp spec fn crc32(bytes: Seq<u8>) -> u32;

/// `crc32fast::hash` feeds the whole slice to a fresh hasher and returns its
/// final state. The value depends on the bytes alone, whichever of the
/// crate's implementations the processor selects; it is known here only by
/// the name `crc32`.
pub assume_specification[ crc32fast::hash ](buf: &[u8]) -> (sum: u32)
    ensures
        sum == crc32(buf@),
;

/// What the standard library reports of a byte sequence that is not valid
/// UTF-8: the text of the error that `String::from_utf8` returns for it.
pub uninterp spec fn utf8_error_text(bytes: Seq<u8>) -> Seq<char>;

/// `String::from_utf8` takes the bytes as a string exactly when they are
/// valid UTF-8, and the string then holds the characters that they encode.
/// For other bytes the error's text is handed back; it depends on the bytes
/// alone and is known here only by the name `utf8_error_text`.
#[verifier::external_body]
pub(crate) fn string_from_utf8(bytes: Vec<u8>) -> (r: Result<String, String>)
    ensures
        valid_utf8(bytes@) ==> r is Ok && r->Ok_0@ == decode_utf8(bytes@),
        !valid_utf8(bytes@) ==> r is Err && r->Err_0@ == utf8_error_text(bytes@),
{
    match String::from_utf8(bytes) {
        Ok(text) => Ok(text),
        Err(e) => Err(e.to_string()),
    }
}

/// Why a byte sequence is not a record.
#[derive(Debug)]
pub enum DecodeError {
    /// The bytes break the format; the text says how.
    InvalidFormat(String),
    /// The bytes end before the record does.
    UnexpectedEOF,
    /// The stored checksum is not that of the bytes after it.
    BadChecksum,
}

/// The mathematical value of a [`DecodeError`].
pub enum DecodeErrorView {
    InvalidFormat(Seq<char>),
    UnexpectedEOF,
    BadChecksum,
}

impl View for DecodeError {
    type V = DecodeErrorView;

    open spec fn view(&self) -> DecodeErrorView {
        match self {
            DecodeError::InvalidFormat(text) => DecodeErrorView::InvalidFormat(text@),
            DecodeError::UnexpectedEOF => DecodeErrorView::UnexpectedEOF,
            DecodeError::BadChecksum => DecodeErrorView::BadChecksum,
        }
    }
}

impl DecodeErrorView {
    /// The error as one line of text.
    pub open spec fn message(self) -> Seq<char> {
        match self {
            DecodeErrorView::InvalidFormat(text) => "Invalid format: "@ + text,
            DecodeErrorView::UnexpectedEOF => "Unexpected end of file"@,
            DecodeErrorView::BadChecksum => "Bad checksum"@,
        }
    }
}

impl DecodeError {
    /// The error as one line of text, for a log or a reply.
    pub fn message(&self) -> (text: String)
        ensures
            text@ == self@.message(),
    {
        match self {
            DecodeError::InvalidFormat(detail) => {
                let mut text = String::from_str("Invalid format: ");
                text.append(detail.as_str());
                text
            },
            DecodeError::UnexpectedEOF => String::from_str("Unexpected end of file"),
            DecodeError::BadChecksum => String::from_str("Bad checksum"),
        }
    }
}

/// What is reported of a tag byte that names no kind.
pub open spec fn invalid_type_text(tag: u8) -> Seq<char> {
    "Invalid entry type: "@ + decimal_text(tag as nat)
}

/// The kind of a record: a write of a key, or a tombstone for it.
#[derive(Debug, Clone, Copy, PartialEq, Eq, Structural)]
pub enum EntryType {
    Put,
    Delete,
}

impl EntryType {
    /// The tag byte that stands for this kind on disk.
    pub open spec fn tag(self) -> u8 {
        match self {
            EntryType::Put => 0x01,
            EntryType::Delete => 0x02,
        }
    }

    /// The kind that a tag byte stands for, if any.
    pub open spec fn of_tag(n: u8) -> Option<EntryType> {
        if n == 0x01 {
            Some(EntryType::Put)
        } else if n == 0x02 {
            Some(EntryType::Delete)
        } else {
            None
        }
    }

    /// Reads a tag byte: `0x01` is a put, `0x02` a delete, nothing else a kind.
    pub fn from_u8(n: u8) -> (r: Option<EntryType>)
        ensures
            r == Self::of_tag(n),
    {
        match n {
            0x01 => Some(EntryType::Put),
            0x02 => Some(EntryType::Delete),
            _ => None,
        }
    }

    /// The tag byte of this kind; `from_u8` reads it back.
    pub fn to_u8(self) -> (n: u8)
        ensures
            n == self.tag(),
            Self::of_tag(n) == Some(self),
    {
        match self {
            EntryType::Put => 0x01,
            EntryType::Delete => 0x02,
        }
    }
}

/// What a record says: the mathematical value of a [`LogEntry`].
pub struct LogEntryView {
    pub entry_type: EntryType,
    pub timestamp: u64,
    pub key: Seq<char>,
    pub value: Seq<u8>,
}

/// One logical mutation: a write or a delete of a key.
#[derive(Debug)]
pub struct LogEntry {
    pub entry_type: EntryType,
    pub timestamp: u64,
    pub key: String,
    pub value: Vec<u8>,
}

impl View for LogEntry {
    type V = LogEntryView;

    open spec fn view(&self) -> LogEntryView {
        LogEntryView {
            entry_type: self.entry_type,
            timestamp: self.timestamp,
            key: self.key@,
            value: self.value@,
        }
    }
}

/// A length as the 32-bit field of the header holds it: its low 32 bits.
pub open spec fn length_field(len: nat) -> u32 {
    (len % 0x1_0000_0000) as u32
}

/// The length of the record that holds a key and a value: the header, the
/// key's bytes and the value's bytes.
pub open spec fn record_len(key: Seq<char>, value: Seq<u8>) -> nat {
    HEADER_SIZE as nat + encode_utf8(key).len() + value.len()
}

impl LogEntryView {
    /// The length of the entry's record.
    pub open spec fn encoded_len(self) -> nat {
        record_len(self.key, self.value)
    }

    /// The key as it is written: its UTF-8 encoding.
    pub open spec fn key_bytes(self) -> Seq<u8> {
        encode_utf8(self.key)
    }

    /// Both lengths fit their 32-bit fields, so the record can be read back.
    pub open spec fn fits(self) -> bool {
        self.key_bytes().len() <= u32::MAX && self.value.len() <= u32::MAX
    }

    /// Everything that the checksum covers: kind, timestamp, lengths, key, value.
    pub open spec fn payload(self) -> Seq<u8> {
        seq![self.entry_type.tag()] + spec_u64_to_le_bytes(self.timestamp) + spec_u32_to_le_bytes(
            length_field(self.key_bytes().len()),
        ) + spec_u32_to_le_bytes(length_field(self.value.len())) + self.key_bytes() + self.value
    }

    /// The record on disk: the checksum of the payload, then the payload.
    pub open spec fn encoding(self) -> Seq<u8> {
        spec_u32_to_le_bytes(crc32(self.payload())) + self.payload()
    }
}

/// The checksum that a record's first four bytes hold.
pub open spec fn stored_checksum(bytes: Seq<u8>) -> u32 {
    spec_u32_from_le_bytes(bytes.subrange(0, 4))
}

/// The tag byte of a record.
pub open spec fn stored_tag(bytes: Seq<u8>) -> u8 {
    bytes[4]
}

/// The timestamp that a record's header holds.
pub open spec fn stored_timestamp(bytes: Seq<u8>) -> u64 {
    spec_u64_from_le_bytes(bytes.subrange(5, 13))
}

/// The key's length in bytes, as a record's header declares it.
pub open spec fn stored_key_len(bytes: Seq<u8>) -> u32 {
    spec_u32_from_le_bytes(bytes.subrange(13, 17))
}

/// The value's length in bytes, as a record's header declares it.
pub open spec fn stored_value_len(bytes: Seq<u8>) -> u32 {
    spec_u32_from_le_bytes(bytes.subrange(17, 21))
}

/// The length of the whole record, as its header declares it.
pub open spec fn declared_len(bytes: Seq<u8>) -> int {
    HEADER_SIZE + stored_key_len(bytes) + stored_value_len(bytes)
}

/// The bytes that a record's header declares to be the key.
pub open spec fn stored_key_bytes(bytes: Seq<u8>) -> Seq<u8> {
    bytes.subrange(HEADER_SIZE as int, HEADER_SIZE + stored_key_len(bytes))
}

/// The bytes that a record's header declares to be the value.
pub open spec fn stored_value(bytes: Seq<u8>) -> Seq<u8> {
    bytes.subrange(HEADER_SIZE + stored_key_len(bytes), declared_len(bytes))
}

/// What a byte sequence decodes to. In this order: the header must be
/// whole, the checksum must be that of all bytes after it, the tag must name
/// a kind, the declared lengths must fit in the bytes, and the key must be
/// valid UTF-8. Only then is the record taken. Nothing is read from a field
/// before the checksum has been found right.
pub open spec fn decode_entry(bytes: Seq<u8>) -> Result<LogEntryView, DecodeErrorView> {
    if bytes.len() < HEADER_SIZE {
        Err(DecodeErrorView::UnexpectedEOF)
    } else if stored_checksum(bytes) != crc32(bytes.subrange(4, bytes.len() as int)) {
        Err(DecodeErrorView::BadChecksum)
    } else if EntryType::of_tag(stored_tag(bytes)) is None {
        Err(DecodeErrorView::InvalidFormat(invalid_type_text(stored_tag(bytes))))
    } else if bytes.len() < declared_len(bytes) {
        Err(DecodeErrorView::UnexpectedEOF)
    } else if !valid_utf8(stored_key_bytes(bytes)) {
        Err(DecodeErrorView::InvalidFormat(utf8_error_text(stored_key_bytes(bytes))))
    } else {
        Ok(
            LogEntryView {
                entry_type: EntryType::of_tag(stored_tag(bytes))->Some_0,
                timestamp: stored_timestamp(bytes),
                key: decode_utf8(stored_key_bytes(bytes)),
                value: stored_value(bytes),
            },
        )
    }
}

/// Whether a decoding result is the given mathematical one.
pub open spec fn decoded_as(
    r: Result<LogEntry, DecodeError>,
    expected: Result<LogEntryView, DecodeErrorView>,
) -> bool {
    match r {
        Ok(entry) => expected == Ok::<LogEntryView, DecodeErrorView>(entry@),
        Err(e) => expected == Err::<LogEntryView, DecodeErrorView>(e@),
    }
}

/// The low 32 bits of a length.
fn low_u32(len: usize) -> (r: u32)
    ensures
        r == length_field(len as nat),
{
    let wide: u64 = len as u64;
    (wide % 0x1_0000_0000u64) as u32
}

impl LogEntry {
    /// Serialises the entry. Always succeeds; the result has exactly
    /// `21 + key_len + value_len` bytes.
    pub fn encode(&self) -> (buffer: Vec<u8>)
        ensures
            buffer@ == self@.encoding(),
            buffer@.len() == self@.encoded_len(),
    {
        let key_bytes = self.key.as_str().as_bytes();
        let key_len: u32 = low_u32(key_bytes.len());
        let value_len: u32 = low_u32(self.value.len());

        let mut payload: Vec<u8> = Vec::new();
        payload.push(self.entry_type.to_u8());
        let mut field = u64_to_le_bytes(self.timestamp);
        payload.append(&mut field);
        let mut field = u32_to_le_bytes(key_len);
        payload.append(&mut field);
        let mut field = u32_to_le_bytes(value_len);
        payload.append(&mut field);
        payload.extend_from_slice(key_bytes);
        payload.extend_from_slice(self.value.as_slice());
        assert(payload@ =~= self@.payload());

        let crc: u32 = crc32fast::hash(payload.as_slice());
        let mut buffer = u32_to_le_bytes(crc);
        buffer.append(&mut payload);
        assert(buffer@ =~= self@.encoding());
        buffer
    }

    /// Reads one record from `bytes`. The checksum is held against all bytes
    /// after it before any field is interpreted.
    pub fn decode(bytes: &[u8]) -> (r: Result<LogEntry, DecodeError>)
        ensures
            decoded_as(r, decode_entry(bytes@)),
    {
        if bytes.len() < HEADER_SIZE {
            return Err(DecodeError::UnexpectedEOF);
        }
        let stored_crc: u32 = u32_from_le_bytes(slice_subrange(bytes, 0, 4));
        let actual_crc: u32 = crc32fast::hash(slice_subrange(bytes, 4, bytes.len()));
        if stored_crc != actual_crc {
            return Err(DecodeError::BadChecksum);
        }
        let tag: u8 = bytes[4];
        let entry_type = match EntryType::from_u8(tag) {
            Some(kind) => kind,
            None => {
                let mut text = String::from_str("Invalid entry type: ");
                append_decimal(&mut text, tag as u64);
                return Err(DecodeError::InvalidFormat(text));
            },
        };
        let timestamp: u64 = u64_from_le_bytes(slice_subrange(bytes, 5, 13));
        let key_len: u32 = u32_from_le_bytes(slice_subrange(bytes, 13, 17));
        let value_len: u32 = u32_from_le_bytes(slice_subrange(bytes, 17, 21));
        let total: u64 = HEADER_SIZE as u64 + key_len as u64 + value_len as u64;
        if (bytes.len() as u64) < total {
            return Err(DecodeError::UnexpectedEOF);
        }
        let key_end: usize = HEADER_SIZE + key_len as usize;
        let value_end: usize = key_end + value_len as usize;
        let key = match string_from_utf8(slice_to_vec(slice_subrange(bytes, HEADER_SIZE, key_end))) {
            Ok(key) => key,
            Err(text) => {
                return Err(DecodeError::InvalidFormat(text));
            },
        };
        let value = slice_to_vec(slice_subrange(bytes, key_end, value_end));
        Ok(LogEntry { entry_type, timestamp, key, value })
    }

    /// The value as text, where it is valid UTF-8.
    pub fn value_as_string(&self) -> (r: Option<String>)
        ensures
            r is Some <==> valid_utf8(self.value@),
            r is Some ==> r->Some_0@ == decode_utf8(self.value@),
    {
        match string_from_utf8(self.value.clone()) {
            Ok(text) => Some(text),
            Err(_) => None,
        }
    }
}

/// A record is as long as its header, its key and its value together,
/// whatever the lengths are.
pub proof fn lemma_encoding_len(e: LogEntryView)
    ensures
        e.encoding().len() == e.encoded_len(),
{
    lemma_auto_spec_u32_to_from_le_bytes();
    lemma_auto_spec_u64_to_from_le_bytes();
}

/// The header of an encoded entry holds what was written into it, and the key
/// and the value follow it.
pub proof fn lemma_encoding_fields(e: LogEntryView)
    requires
        e.fits(),
    ensures
        e.encoding().len() == HEADER_SIZE + e.key_bytes().len() + e.value.len(),
        e.encoding().subrange(4, e.encoding().len() as int) == e.payload(),
        stored_checksum(e.encoding()) == crc32(e.payload()),
        stored_tag(e.encoding()) == e.entry_type.tag(),
        stored_timestamp(e.encoding()) == e.timestamp,
        stored_key_len(e.encoding()) == e.key_bytes().len(),
        stored_value_len(e.encoding()) == e.value.len(),
        declared_len(e.encoding()) == e.encoding().len(),
        stored_key_bytes(e.encoding()) == e.key_bytes(),
        stored_value(e.encoding()) == e.value,
{
    lemma_auto_spec_u32_to_from_le_bytes();
    lemma_auto_spec_u64_to_from_le_bytes();
    let bytes = e.encoding();
    let crc = spec_u32_to_le_bytes(crc32(e.payload()));
    let stamp = spec_u64_to_le_bytes(e.timestamp);
    let key_len = spec_u32_to_le_bytes(length_field(e.key_bytes().len()));
    let value_len = spec_u32_to_le_bytes(length_field(e.value.len()));
    assert(length_field(e.key_bytes().len()) == e.key_bytes().len());
    assert(length_field(e.value.len()) == e.value.len());
    assert(bytes.subrange(0, 4) =~= crc);
    assert(bytes.subrange(4, bytes.len() as int) =~= e.payload());
    assert(bytes.subrange(5, 13) =~= stamp);
    assert(bytes.subrange(13, 17) =~= key_len);
    assert(bytes.subrange(17, 21) =~= value_len);
    assert(stored_key_len(bytes) == e.key_bytes().len());
    assert(stored_value_len(bytes) == e.value.len());
    assert(stored_key_bytes(bytes) =~= e.key_bytes());
    assert(stored_value(bytes) =~= e.value);
}

/// Round trip: an entry whose key and value fit their length fields is read
/// back from its encoding exactly as it was: kind, timestamp, key and value.
pub proof fn lemma_decode_encode(e: LogEntryView)
    requires
        e.fits(),
    ensures
        decode_entry(e.encoding()) == Ok::<LogEntryView, DecodeErrorView>(e),
{
    lemma_encoding_fields(e);
    encode_utf8_valid_utf8(e.key);
    encode_utf8_decode_utf8(e.key);
    let bytes = e.encoding();
    assert(EntryType::of_tag(e.entry_type.tag()) == Some(e.entry_type));
    let got = decode_entry(bytes)->Ok_0;
    assert(got.key =~= e.key);
    assert(got.value =~= e.value);
}

/// Damage is detected wherever the checksum tells the two payloads apart:
/// if the bytes after the stored checksum of a record are changed into bytes
/// with another checksum, a flipped bit for one, while the stored checksum
/// stays as it was written, then decoding fails with a checksum error
/// whatever else the bytes hold.
pub proof fn lemma_damage_detected(e: LogEntryView, damaged: Seq<u8>)
    requires
        damaged.len() >= HEADER_SIZE,
        damaged.subrange(0, 4) == e.encoding().subrange(0, 4),
        crc32(damaged.subrange(4, damaged.len() as int)) != crc32(e.payload()),
    ensures
        decode_entry(damaged) == Err::<LogEntryView, DecodeErrorView>(DecodeErrorView::BadChecksum),
{
    lemma_auto_spec_u32_to_from_le_bytes();
    assert(e.encoding().subrange(0, 4) =~= spec_u32_to_le_bytes(crc32(e.payload())));
}

/// Damage to the stored checksum itself is always detected: if the four
/// bytes of the checksum are changed in any way while the bytes after them
/// stay as they were written, decoding fails with a checksum error.
pub proof fn lemma_checksum_damage_detected(e: LogEntryView, damaged: Seq<u8>)
    requires
        damaged.len() == e.encoding().len(),
        damaged.subrange(0, 4) != e.encoding().subrange(0, 4),
        damaged.subrange(4, damaged.len() as int) == e.payload(),
    ensures
        decode_entry(damaged) == Err::<LogEntryView, DecodeErrorView>(DecodeErrorView::BadChecksum),
{
    lemma_auto_spec_u32_to_from_le_bytes();
    lemma_auto_spec_u64_to_from_le_bytes();
    let written = spec_u32_to_le_bytes(crc32(e.payload()));
    let found = damaged.subrange(0, 4);
    assert(e.encoding().subrange(0, 4) =~= written);
    assert(spec_u32_to_le_bytes(spec_u32_from_le_bytes(found)) == found);
}

} // verus!
