//! One append-only log file, seen as its bytes: where the next record goes,
//! and which records a sequential read of the file yields.

use crate::entry::{
    declared_len, decode_entry, decoded_as, DecodeError, DecodeErrorView, LogEntry, LogEntryView,
    HEADER_SIZE,
};
use crate::naming::{segment_file_name, segment_file_text};
use vstd::bytes::u32_from_le_bytes;
use vstd::prelude::*;
use vstd::slice::slice_subrange;

verus! {

/// One physical log file: its ordinal identifier, which names the file, and
/// the position at which the next record will be written.
#[derive(Debug, Clone, Copy, PartialEq, Eq, Structural)]
pub struct Segment {
    pub id: u64,
    pub write_offset: u64,
}

/// One step of a sequential read that stands at `offset` in `data`.
pub enum ScanStep {
    /// Fewer bytes than a header are left: the read is over.
    End,
    /// A header is there, but the file ends before the record that it
    /// declares: a record cut short. Nothing can follow it.
    Truncated,
    /// A whole record, by its declared length, ends at `next`; it may or may
    /// not decode.
    Record { item: Result<LogEntryView, DecodeErrorView>, next: int },
}

/// The step that a read of `data` takes at `offset`.
pub open spec fn scan_step(data: Seq<u8>, offset: int) -> ScanStep {
    let rest = data.subrange(offset, data.len() as int);
    if rest.len() < HEADER_SIZE {
        ScanStep::End
    } else if rest.len() < declared_len(rest) {
        ScanStep::Truncated
    } else {
        ScanStep::Record {
            item: decode_entry(rest.subrange(0, declared_len(rest))),
            next: offset + declared_len(rest),
        }
    }
}

/// Everything that a read of `data` yields from `offset` on, in order. A
/// record that does not decode is an error item, and the read goes on behind
/// it; a record cut short is one last error item.
pub open spec fn scan_from(data: Seq<u8>, offset: int) -> Seq<Result<LogEntryView, DecodeErrorView>>
    recommends
        0 <= offset <= data.len(),
    decreases data.len() - offset,
{
    if 0 <= offset <= data.len() {
        match scan_step(data, offset) {
            ScanStep::End => seq![],
            ScanStep::Truncated => seq![
                Err::<LogEntryView, DecodeErrorView>(DecodeErrorView::UnexpectedEOF),
            ],
            ScanStep::Record { item, next } => seq![item] + scan_from(data, next),
        }
    } else {
        seq![]
    }
}

/// Everything that a read of a whole file yields.
pub open spec fn scan(data: Seq<u8>) -> Seq<Result<LogEntryView, DecodeErrorView>> {
    scan_from(data, 0)
}

/// A restartable sequential read of one segment's bytes.
pub struct SegmentIterator<'a> {
    data: &'a [u8],
    offset: usize,
}

impl<'a> SegmentIterator<'a> {
    /// A read of `data` that stands at its beginning.
    pub fn new(data: &'a [u8]) -> (iter: SegmentIterator<'a>)
        ensures
            iter.wf(),
            iter.data() == data@,
            iter.offset() == 0,
            iter.remaining() == scan(data@),
    {
        SegmentIterator { data, offset: 0 }
    }

    /// The bytes that are read.
    pub closed spec fn data(&self) -> Seq<u8> {
        self.data@
    }

    /// The position of the next record.
    pub closed spec fn offset(&self) -> int {
        self.offset as int
    }

    /// The position lies within the bytes.
    pub open spec fn wf(&self) -> bool {
        0 <= self.offset() <= self.data().len()
    }

    /// What is still to come.
    pub open spec fn remaining(&self) -> Seq<Result<LogEntryView, DecodeErrorView>> {
        scan_from(self.data(), self.offset())
    }

    /// Yields the next item, or `None` when the read is over. Each item is
    /// the head of what was still to come, and the rest stays to come.
    pub fn next(&mut self) -> (r: Option<Result<LogEntry, DecodeError>>)
        requires
            old(self).wf(),
        ensures
            final(self).wf(),
            final(self).data() == old(self).data(),
            match r {
                None => old(self).remaining().len() == 0 && final(self).offset() == old(
                    self,
                ).offset(),
                Some(item) => {
                    &&& old(self).remaining().len() > 0
                    &&& decoded_as(item, old(self).remaining()[0])
                    &&& final(self).remaining() == old(self).remaining().skip(1)
                    &&& final(self).offset() > old(self).offset()
                },
            },
    {
        let len: usize = self.data.len();
        let ghost rest = self.data@.subrange(self.offset as int, len as int);
        if len - self.offset < HEADER_SIZE {
            return None;
        }
        let header = slice_subrange(self.data, self.offset, self.offset + HEADER_SIZE);
        let key_len: u32 = u32_from_le_bytes(slice_subrange(header, 13, 17));
        let value_len: u32 = u32_from_le_bytes(slice_subrange(header, 17, 21));
        assert(header@.subrange(13, 17) =~= rest.subrange(13, 17));
        assert(header@.subrange(17, 21) =~= rest.subrange(17, 21));
        let total: u64 = HEADER_SIZE as u64 + key_len as u64 + value_len as u64;
        if ((len - self.offset) as u64) < total {
            proof {
                assert(scan_from(self.data@, len as int) =~= seq![]);
                assert(old(self).remaining().skip(1) =~= seq![]);
            }
            self.offset = len;
            return Some(Err(DecodeError::UnexpectedEOF));
        }
        let end: usize = self.offset + total as usize;
        let record = slice_subrange(self.data, self.offset, end);
        assert(record@ =~= rest.subrange(0, declared_len(rest)));
        let item = LogEntry::decode(record);
        proof {
            assert(old(self).remaining().skip(1) =~= scan_from(self.data@, end as int));
        }
        self.offset = end;
        Some(item)
    }
}

impl Segment {
    /// A segment whose file holds `len` bytes: writing resumes at its end.
    pub fn open(id: u64, len: u64) -> (segment: Segment)
        ensures
            segment == (Segment { id, write_offset: len }),
    {
        Segment { id, write_offset: len }
    }

    /// The name of the file that holds the segment.
    pub fn file_name(&self) -> (name: String)
        ensures
            name@ == segment_file_text(self.id as nat),
    {
        segment_file_name(self.id)
    }

    /// Encodes the entry for the end of the file. The result is the offset at
    /// which the record begins and the bytes to write there; the write
    /// position moves past them.
    pub fn append_entry(&mut self, entry: &LogEntry) -> (r: (u64, Vec<u8>))
        requires
            old(self).write_offset + entry@.encoded_len() <= u64::MAX,
        ensures
            r.0 == old(self).write_offset,
            r.1@ == entry@.encoding(),
            final(self).id == old(self).id,
            final(self).write_offset == old(self).write_offset + entry@.encoded_len(),
    {
        let encoded = entry.encode();
        let offset: u64 = self.write_offset;
        self.write_offset = self.write_offset + encoded.len() as u64;
        (offset, encoded)
    }

    /// Starts a read of the segment's bytes from their beginning.
    pub fn iter_entries<'a>(&self, data: &'a [u8]) -> (iter: SegmentIterator<'a>)
        ensures
            iter.wf(),
            iter.data() == data@,
            iter.offset() == 0,
            iter.remaining() == scan(data@),
    {
        SegmentIterator::new(data)
    }
}

} // verus!
