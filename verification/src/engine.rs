//! The engine: an ordered run of sealed segments and one active segment, the
//! lookup that folds their records in append order, and the bookkeeping of
//! writes and rotation.
//!
//! The engine keeps no file open. A lookup is handed the bytes of the
//! segments, oldest first; a write hands back the bytes to append and says
//! which file takes them.

use crate::clock::current_timestamp;
use crate::entry::{
    record_len, DecodeError, DecodeErrorView, EntryType, LogEntry, LogEntryView, HEADER_SIZE,
};
use crate::naming::{
    lemma_segment_file_text_injective, parse_segment_name, segment_file_text,
};
use crate::segment::{scan, Segment, SegmentIterator};
use vstd::prelude::*;
use vstd::string::StringExecFns;

verus! {

/// The size from which on the active segment is sealed: 10 MiB.
pub const MAX_SEGMENT_SIZE: u64 = 10485760;

/// What one record does to the value that a key resolves to: a put of the
/// key sets it, a delete of the key clears it, a record of another key
/// leaves it.
pub open spec fn fold_entry(found: Option<Seq<u8>>, entry: LogEntryView, key: Seq<char>) -> Option<
    Seq<u8>,
> {
    if entry.key == key {
        match entry.entry_type {
            EntryType::Put => Some(entry.value),
            EntryType::Delete => None,
        }
    } else {
        found
    }
}

/// What the items of one read do, in order, to the value that a key resolves
/// to. The first error item ends the lookup.
pub open spec fn fold_items(
    items: Seq<Result<LogEntryView, DecodeErrorView>>,
    key: Seq<char>,
    found: Option<Seq<u8>>,
) -> Result<Option<Seq<u8>>, DecodeErrorView>
    decreases items.len(),
{
    if items.len() == 0 {
        Ok(found)
    } else {
        match items[0] {
            Err(e) => Err(e),
            Ok(entry) => fold_items(items.skip(1), key, fold_entry(found, entry, key)),
        }
    }
}

/// What the segments do, oldest first, to the value that a key resolves to.
pub open spec fn resolve_from(contents: Seq<Seq<u8>>, key: Seq<char>, found: Option<Seq<u8>>) -> Result<
    Option<Seq<u8>>,
    DecodeErrorView,
>
    decreases contents.len(),
{
    if contents.len() == 0 {
        Ok(found)
    } else {
        match fold_items(scan(contents[0]), key, found) {
            Err(e) => Err(e),
            Ok(next) => resolve_from(contents.skip(1), key, next),
        }
    }
}

/// The visible value of a key: the fold of every record of every segment,
/// in append order, starting from "absent".
pub open spec fn resolve(contents: Seq<Seq<u8>>, key: Seq<char>) -> Result<
    Option<Seq<u8>>,
    DecodeErrorView,
> {
    resolve_from(contents, key, None)
}

/// The bytes of the segments, each as a sequence.
pub open spec fn contents_view(contents: &Vec<Vec<u8>>) -> Seq<Seq<u8>> {
    Seq::new(contents@.len(), |i: int| contents@[i]@)
}

/// The mathematical value of what a lookup has found so far.
pub open spec fn found_view(found: Option<Vec<u8>>) -> Option<Seq<u8>> {
    match found {
        Some(value) => Some(value@),
        None => None,
    }
}

/// Whether the result of a lookup is the given mathematical one.
pub open spec fn resolved_as(
    r: Result<Option<Vec<u8>>, DecodeError>,
    expected: Result<Option<Seq<u8>>, DecodeErrorView>,
) -> bool {
    match r {
        Ok(found) => expected == Ok::<Option<Seq<u8>>, DecodeErrorView>(found_view(found)),
        Err(e) => expected == Err::<Option<Seq<u8>>, DecodeErrorView>(e@),
    }
}

/// Folds the records of one segment's bytes into what was found before.
pub fn scan_segment(data: &[u8], key: &String, before: Option<Vec<u8>>) -> (r: Result<
    Option<Vec<u8>>,
    DecodeError,
>)
    ensures
        resolved_as(r, fold_items(scan(data@), key@, found_view(before))),
{
    let mut iter = SegmentIterator::new(data);
    let ghost start = found_view(before);
    let mut found = before;
    loop
        invariant
            iter.wf(),
            iter.data() == data@,
            start == found_view(before),
            fold_items(scan(data@), key@, start) == fold_items(
                iter.remaining(),
                key@,
                found_view(found),
            ),
        decreases data@.len() - iter.offset(),
    {
        match iter.next() {
            None => {
                return Ok(found);
            },
            Some(Err(e)) => {
                return Err(e);
            },
            Some(Ok(entry)) => {
                if entry.key == *key {
                    match entry.entry_type {
                        EntryType::Put => {
                            found = Some(entry.value);
                        },
                        EntryType::Delete => {
                            found = None;
                        },
                    }
                }
            },
        }
    }
}

/// One file of the data directory, as a listing reports it.
#[derive(Debug)]
pub struct ListedFile {
    pub name: String,
    pub len: u64,
}

impl Clone for ListedFile {
    fn clone(&self) -> (copy: ListedFile)
        ensures
            copy == *self,
    {
        ListedFile { name: self.name.clone(), len: self.len }
    }
}

/// Whether a file is the one that holds the segment, at the segment's length.
pub open spec fn names_segment(file: ListedFile, segment: Segment) -> bool {
    file.name@ == segment_file_text(segment.id as nat) && file.len == segment.write_offset
}

/// Whether one of the first `n` files of a listing holds the segment.
pub open spec fn listed_before(listing: Seq<ListedFile>, n: int, segment: Segment) -> bool {
    exists|i: int| 0 <= i < n && i < listing.len() && names_segment(#[trigger] listing[i], segment)
}

/// Whether a listing holds the segment.
pub open spec fn listed(listing: Seq<ListedFile>, segment: Segment) -> bool {
    listed_before(listing, listing.len() as int, segment)
}

/// Whether a name is that of some segment's file.
pub open spec fn is_segment_name(name: Seq<char>) -> bool {
    exists|id: u64| name == segment_file_text(id as nat)
}

/// Whether the first `n` files of a listing can be those of one directory
/// that an engine can go on from: no segment's file comes twice, and the
/// last identifier that there is has not been used.
pub open spec fn usable_before(listing: Seq<ListedFile>, n: int) -> bool {
    &&& forall|i: int, j: int|
        #![trigger listing[i], listing[j]]
        0 <= i < j < n && j < listing.len() && is_segment_name(listing[i].name@)
            ==> listing[i].name@ != listing[j].name@
    &&& forall|i: int|
        0 <= i < n && i < listing.len() ==> (#[trigger] listing[i]).name@ != segment_file_text(
            u64::MAX as nat,
        )
}

/// Whether a listing can be that of one directory that an engine can go on from.
pub open spec fn usable(listing: Seq<ListedFile>) -> bool {
    usable_before(listing, listing.len() as int)
}

/// Whether the identifiers strictly ascend.
pub open spec fn ascending(segments: Seq<Segment>) -> bool {
    forall|i: int, j: int| 0 <= i < j < segments.len() ==> segments[i].id < segments[j].id
}

/// The mathematical value of an [`Engine`].
pub struct EngineView {
    pub sealed: Seq<Segment>,
    pub active: Segment,
    pub next_segment_id: u64,
}

impl EngineView {
    /// All segments in the order of a lookup: the sealed ones, oldest first,
    /// then the active one.
    pub open spec fn all(self) -> Seq<Segment> {
        self.sealed.push(self.active)
    }

    /// The identifiers strictly ascend through the sealed segments to the
    /// active one, and the next identifier is the one after the active
    /// segment's.
    pub open spec fn wf(self) -> bool {
        &&& ascending(self.all())
        &&& self.next_segment_id == self.active.id + 1
    }

    /// Whether a record of `len` bytes brings the active segment to the
    /// size at which it is sealed.
    pub open spec fn rotates(self, len: nat) -> bool {
        self.active.write_offset + len >= MAX_SEGMENT_SIZE
    }

    /// Whether the machine's numbers hold a record of `len` bytes more: the
    /// write position behind it, and the identifier after the next one where
    /// the record brings a rotation.
    pub open spec fn has_room(self, len: nat) -> bool {
        &&& self.active.write_offset + len <= u64::MAX
        &&& self.rotates(len) ==> self.next_segment_id < u64::MAX
    }

    /// The engine after `len` bytes have gone to the active segment.
    pub open spec fn grown(self, len: nat) -> EngineView {
        EngineView {
            active: Segment {
                id: self.active.id,
                write_offset: (self.active.write_offset + len) as u64,
            },
            ..self
        }
    }

    /// The engine after a rotation: the active segment is the newest sealed
    /// one, and a new, empty segment with the next identifier is active.
    pub open spec fn rotated(self) -> EngineView {
        EngineView {
            sealed: self.sealed.push(self.active),
            active: Segment { id: self.next_segment_id, write_offset: 0 },
            next_segment_id: (self.next_segment_id + 1) as u64,
        }
    }

    /// The engine after a record of `len` bytes was appended: the active
    /// segment has grown, and has been rotated out if that brought it to the
    /// threshold.
    pub open spec fn appended(self, len: nat) -> EngineView {
        if self.rotates(len) {
            self.grown(len).rotated()
        } else {
            self.grown(len)
        }
    }

    /// The engine of an empty directory: the first segment, empty and active.
    pub open spec fn fresh() -> EngineView {
        EngineView {
            sealed: Seq::empty(),
            active: Segment { id: 1, write_offset: 0 },
            next_segment_id: 2,
        }
    }
}

/// What a write asks of the caller: append `bytes` to the file of the
/// segment `segment_id`, where they begin at `offset`; then, where
/// `new_segment` names one, create that segment's empty file, which takes
/// the writes from then on.
#[derive(Debug)]
pub struct Append {
    pub segment_id: u64,
    pub offset: u64,
    pub bytes: Vec<u8>,
    pub new_segment: Option<u64>,
}

/// The bytes of the segments, oldest first, after `bytes` were appended to
/// the last of them and, where the write brought a rotation, a new empty
/// segment was started behind it.
pub open spec fn written(contents: Seq<Seq<u8>>, bytes: Seq<u8>, rotated: bool) -> Seq<Seq<u8>>
    recommends
        contents.len() > 0,
{
    let grown = contents.drop_last().push(contents.last() + bytes);
    if rotated {
        grown.push(Seq::empty())
    } else {
        grown
    }
}

impl Append {
    /// The bytes of the segments, oldest first, after the caller has done
    /// what this write asks for.
    pub open spec fn carried_out(self, contents: Seq<Seq<u8>>) -> Seq<Seq<u8>>
        recommends
            contents.len() > 0,
    {
        written(contents, self.bytes@, self.new_segment is Some)
    }

    /// Whether this is what appending `entry` to the engine `before` asks for.
    pub open spec fn is_append_of(self, before: EngineView, entry: LogEntryView) -> bool {
        &&& self.segment_id == before.active.id
        &&& self.offset == before.active.write_offset
        &&& self.bytes@ == entry.encoding()
        &&& self.new_segment == if before.rotates(entry.encoded_len()) {
            Some(before.next_segment_id)
        } else {
            None
        }
    }
}

/// A write keeps the engine in order: the identifiers still ascend strictly
/// through the sealed segments to the active one, the next identifier is
/// still the one after the active segment's, and the sealed segments of
/// before are still there, in their places and as they were.
pub proof fn lemma_appended_keeps_order(before: EngineView, len: nat)
    requires
        before.wf(),
        before.has_room(len),
    ensures
        before.appended(len).wf(),
        before.appended(len).sealed.len() >= before.sealed.len(),
        before.appended(len).sealed.take(before.sealed.len() as int) == before.sealed,
        before.appended(len).next_segment_id >= before.next_segment_id,
{
    let after = before.appended(len);
    let last = before.all().len() - 1;
    assert(before.all()[last].id == before.active.id);
    assert forall|i: int, j: int| 0 <= i < j < after.all().len() implies after.all()[i].id
        < after.all()[j].id by {
        if before.rotates(len) {
            if j == after.all().len() - 1 {
                if i < last {
                    assert(before.all()[i].id < before.all()[last].id);
                }
            } else {
                assert(before.all()[i].id < before.all()[j].id);
            }
        } else {
            assert(before.all()[i].id < before.all()[j].id);
        }
    }
    assert(after.sealed.take(before.sealed.len() as int) =~= before.sealed);
}

/// Whether an engine is the one that a listing gives: its segments are the
/// files that the listing names as segments, each at its length, in
/// ascending order, the last of them active; or the first segment alone,
/// empty and active, where the listing names none.
pub open spec fn opened_from(listing: Seq<ListedFile>, engine: EngineView) -> bool {
    &&& engine.wf()
    &&& if exists|s: Segment| listed(listing, s) {
        forall|s: Segment| engine.all().contains(s) <==> listed(listing, s)
    } else {
        engine == EngineView::fresh()
    }
}

/// The store's bookkeeping: which segments there are, which of them takes
/// the writes, and which identifier the next segment gets.
#[derive(Debug)]
pub struct Engine {
    segments: Vec<Segment>,
    active: Segment,
    next_segment_id: u64,
}

impl Clone for Engine {
    fn clone(&self) -> (copy: Engine)
        ensures
            copy@ == self@,
    {
        let segments = self.segments.clone();
        assert(segments@ =~= self.segments@);
        Engine { segments, active: self.active, next_segment_id: self.next_segment_id }
    }
}

impl View for Engine {
    type V = EngineView;

    closed spec fn view(&self) -> EngineView {
        EngineView {
            sealed: self.segments@,
            active: self.active,
            next_segment_id: self.next_segment_id,
        }
    }
}

/// Puts a segment into an ascending run at its place, unless the run holds
/// its identifier already.
fn insert_ascending(segments: &mut Vec<Segment>, segment: Segment) -> (inserted: bool)
    requires
        ascending(old(segments)@),
    ensures
        ascending(final(segments)@),
        inserted <==> forall|i: int|
            0 <= i < old(segments)@.len() ==> old(segments)@[i].id != segment.id,
        !inserted ==> final(segments)@ == old(segments)@,
        inserted ==> forall|s: Segment|
            final(segments)@.contains(s) <==> old(segments)@.contains(s) || s == segment,
{
    let mut pos: usize = 0;
    while pos < segments.len() && segments[pos].id < segment.id
        invariant
            segments@ == old(segments)@,
            ascending(segments@),
            0 <= pos <= segments.len(),
            forall|i: int| 0 <= i < pos ==> segments@[i].id < segment.id,
        decreases segments.len() - pos,
    {
        pos = pos + 1;
    }
    if pos < segments.len() && segments[pos].id == segment.id {
        return false;
    }
    segments.insert(pos, segment);
    proof {
        let before = old(segments)@;
        let after = segments@;
        assert(after == before.insert(pos as int, segment));
        assert forall|s: Segment| after.contains(s) <==> before.contains(s) || s == segment by {
            if after.contains(s) {
                let k = choose|k: int| 0 <= k < after.len() && after[k] == s;
                if k < pos {
                    assert(before[k] == s);
                } else if k > pos {
                    assert(before[k - 1] == s);
                }
            }
            if before.contains(s) {
                let k = choose|k: int| 0 <= k < before.len() && before[k] == s;
                if k < pos {
                    assert(after[k] == s);
                } else {
                    assert(after[k + 1] == s);
                }
            }
            if s == segment {
                assert(after[pos as int] == s);
            }
        }
    }
    true
}

impl Engine {
    /// The engine that a directory's listing gives: every file that is named
    /// as a segment is one, the one with the highest identifier is active,
    /// the others are sealed in ascending order. Where the listing names no
    /// segment, the first segment is active and empty. The caller creates the
    /// active segment's file where it is not there yet.
    ///
    /// `None` is returned exactly for a listing that is not usable: one that
    /// names a segment's file twice, or the segment with the last identifier.
    pub fn open(listing: &Vec<ListedFile>) -> (r: Option<Engine>)
        ensures
            r is Some <==> usable(listing@),
            r is Some ==> opened_from(listing@, r->Some_0@),
    {
        let mut segments: Vec<Segment> = Vec::new();
        let mut i: usize = 0;
        while i < listing.len()
            invariant
                0 <= i <= listing.len(),
                ascending(segments@),
                usable_before(listing@, i as int),
                forall|s: Segment| segments@.contains(s) <==> listed_before(listing@, i as int, s),
            decreases listing.len() - i,
        {
            let file = &listing[i];
            let ghost before = segments@;
            match parse_segment_name(file.name.as_str()) {
                None => {
                    proof {
                        assert forall|s: Segment|
                            listed_before(listing@, i + 1, s) implies listed_before(
                            listing@,
                            i as int,
                            s,
                        ) by {
                            let k = choose|k: int|
                                0 <= k < i + 1 && k < listing@.len() && names_segment(
                                    #[trigger] listing@[k],
                                    s,
                                );
                            assert(k != i);
                        }
                        assert(!is_segment_name(listing@[i as int].name@));
                        assert(listing@[i as int].name@ != segment_file_text(u64::MAX as nat));
                        assert(usable_before(listing@, i + 1));
                    }
                },
                Some(id) => {
                    if id == u64::MAX {
                        assert(!usable(listing@));
                        return None;
                    }
                    let segment = Segment::open(id, file.len);
                    assert(names_segment(listing@[i as int], segment));
                    let inserted = insert_ascending(&mut segments, segment);
                    if !inserted {
                        proof {
                            let p = choose|p: int| 0 <= p < before.len() && before[p].id == id;
                            assert(before.contains(before[p]));
                            let k = choose|k: int|
                                0 <= k < i && k < listing@.len() && names_segment(
                                    #[trigger] listing@[k],
                                    before[p],
                                );
                            assert(is_segment_name(listing@[k].name@));
                            assert(listing@[k].name@ == listing@[i as int].name@);
                            assert(!usable(listing@));
                        }
                        return None;
                    }
                    proof {
                        assert forall|s: Segment|
                            segments@.contains(s) <==> listed_before(listing@, i + 1, s) by {
                            if listed_before(listing@, i + 1, s) {
                                let k = choose|k: int|
                                    0 <= k < i + 1 && k < listing@.len() && names_segment(
                                        #[trigger] listing@[k],
                                        s,
                                    );
                                if k == i {
                                    lemma_segment_file_text_injective(s.id as nat, id as nat);
                                    assert(s == segment);
                                } else {
                                    assert(listed_before(listing@, i as int, s));
                                }
                            }
                            if before.contains(s) {
                                assert(listed_before(listing@, i as int, s));
                                let k = choose|k: int|
                                    0 <= k < i && k < listing@.len() && names_segment(
                                        #[trigger] listing@[k],
                                        s,
                                    );
                                assert(names_segment(listing@[k], s));
                            }
                        }
                        assert forall|a: int|
                            0 <= a < i && is_segment_name(
                                listing@[a].name@,
                            ) implies listing@[a].name@ != listing@[i as int].name@ by {
                            if listing@[a].name@ == listing@[i as int].name@ {
                                let twin = Segment { id, write_offset: listing@[a].len };
                                assert(names_segment(listing@[a], twin));
                                assert(listed_before(listing@, i as int, twin));
                                assert(before.contains(twin));
                                let p = choose|p: int| 0 <= p < before.len() && before[p] == twin;
                                assert(before[p].id == id);
                            }
                        }
                        if listing@[i as int].name@ == segment_file_text(u64::MAX as nat) {
                            lemma_segment_file_text_injective(id as nat, u64::MAX as nat);
                        }
                        assert(usable_before(listing@, i + 1));
                    }
                },
            }
            i = i + 1;
        }
        proof {
            assert(usable(listing@));
        }
        let ghost found = segments@;
        match segments.pop() {
            None => {
                proof {
                    assert forall|s: Segment| !listed(listing@, s) by {
                        if listed(listing@, s) {
                            assert(found.contains(s));
                        }
                    }
                }
                let engine = Engine { segments, active: Segment::open(1, 0), next_segment_id: 2 };
                proof {
                    assert(engine@.sealed =~= Seq::<Segment>::empty());
                    assert(engine@ == EngineView::fresh());
                    assert(engine@.all() =~= seq![engine@.active]);
                }
                Some(engine)
            },
            Some(active) => {
                proof {
                    assert(found =~= segments@.push(active));
                    assert(found.contains(active));
                    assert(listed(listing@, active));
                    let k = choose|k: int|
                        0 <= k < listing@.len() && names_segment(#[trigger] listing@[k], active);
                    assert(active.id != u64::MAX);
                }
                let engine = Engine { segments, active, next_segment_id: active.id + 1 };
                proof {
                    assert(engine@.all() =~= found);
                }
                Some(engine)
            },
        }
    }

    /// The visible value of a key, given the bytes of every segment in the
    /// order of a lookup, oldest first: the fold of all their records.
    /// `None` says that the key was never written or was deleted last. Any
    /// record that does not decode fails the whole lookup.
    pub fn get(&self, key: &str, contents: &Vec<Vec<u8>>) -> (r: Result<
        Option<Vec<u8>>,
        DecodeError,
    >)
        ensures
            resolved_as(r, resolve(contents_view(contents), key@)),
    {
        let wanted = String::from_str(key);
        let mut found: Option<Vec<u8>> = None;
        let mut i: usize = 0;
        assert(contents_view(contents).skip(0) =~= contents_view(contents));
        while i < contents.len()
            invariant
                0 <= i <= contents.len(),
                wanted@ == key@,
                resolve(contents_view(contents), key@) == resolve_from(
                    contents_view(contents).skip(i as int),
                    key@,
                    found_view(found),
                ),
            decreases contents.len() - i,
        {
            let ghost rest = contents_view(contents).skip(i as int);
            assert(rest[0] == contents@[i as int]@);
            assert(rest.skip(1) =~= contents_view(contents).skip(i + 1));
            match scan_segment(contents[i].as_slice(), &wanted, found) {
                Err(e) => {
                    return Err(e);
                },
                Ok(next) => {
                    found = next;
                },
            }
            i = i + 1;
        }
        Ok(found)
    }

    /// Takes the active segment out of service and starts the next one.
    fn rotate_segment(&mut self) -> (id: u64)
        requires
            old(self).next_segment_id < u64::MAX,
        ensures
            final(self)@ == old(self)@.rotated(),
            id == old(self)@.next_segment_id,
    {
        let id: u64 = self.next_segment_id;
        self.segments.push(self.active);
        self.active = Segment::open(id, 0);
        self.next_segment_id = id + 1;
        id
    }

    /// Appends one record: it goes to the end of the active segment, which
    /// is sealed afterwards if that brought it to the threshold.
    pub fn append(&mut self, entry: &LogEntry) -> (a: Append)
        requires
            old(self)@.wf(),
            old(self)@.has_room(entry@.encoded_len()),
        ensures
            final(self)@.wf(),
            final(self)@ == old(self)@.appended(entry@.encoded_len()),
            a.is_append_of(old(self)@, entry@),
    {
        let segment_id: u64 = self.active.id;
        let (offset, bytes) = self.active.append_entry(entry);
        let new_segment = if self.active.write_offset >= MAX_SEGMENT_SIZE {
            Some(self.rotate_segment())
        } else {
            None
        };
        proof {
            lemma_appended_keeps_order(old(self)@, entry@.encoded_len());
        }
        Append { segment_id, offset, bytes, new_segment }
    }

    /// Writes a value for a key under the given timestamp. Without a
    /// timestamp nothing is written and the engine stays as it is.
    pub fn put_at(&mut self, key: &str, value: Vec<u8>, timestamp: Option<u64>) -> (a: Option<
        Append,
    >)
        requires
            old(self)@.wf(),
            old(self)@.has_room(record_len(key@, value@)),
        ensures
            final(self)@.wf(),
            match timestamp {
                Some(at) => {
                    &&& a is Some
                    &&& a->Some_0.is_append_of(old(self)@, Self::put_entry(key@, value@, at))
                    &&& final(self)@ == old(self)@.appended(record_len(key@, value@))
                },
                None => a is None && final(self)@ == old(self)@,
            },
    {
        match timestamp {
            Some(at) => {
                let entry = LogEntry {
                    entry_type: EntryType::Put,
                    timestamp: at,
                    key: String::from_str(key),
                    value,
                };
                assert(entry@ == Self::put_entry(key@, value@, at));
                Some(self.append(&entry))
            },
            None => None,
        }
    }

    /// Deletes a key under the given timestamp: a tombstone with an empty
    /// value. Without a timestamp nothing is written and the engine stays as
    /// it is.
    pub fn delete_at(&mut self, key: &str, timestamp: Option<u64>) -> (a: Option<Append>)
        requires
            old(self)@.wf(),
            old(self)@.has_room(record_len(key@, Seq::empty())),
        ensures
            final(self)@.wf(),
            match timestamp {
                Some(at) => {
                    &&& a is Some
                    &&& a->Some_0.is_append_of(old(self)@, Self::delete_entry(key@, at))
                    &&& final(self)@ == old(self)@.appended(record_len(key@, Seq::empty()))
                },
                None => a is None && final(self)@ == old(self)@,
            },
    {
        match timestamp {
            Some(at) => {
                let entry = LogEntry {
                    entry_type: EntryType::Delete,
                    timestamp: at,
                    key: String::from_str(key),
                    value: Vec::new(),
                };
                assert(entry@.value =~= Seq::<u8>::empty());
                assert(entry@ == Self::delete_entry(key@, at));
                Some(self.append(&entry))
            },
            None => None,
        }
    }

    /// Writes a value for a key, stamped with the time of the call. `None`
    /// says that the clock stands before the UNIX epoch and gives no
    /// timestamp: nothing was written then.
    pub fn put(&mut self, key: &str, value: Vec<u8>) -> (a: Option<Append>)
        requires
            old(self)@.wf(),
            old(self)@.has_room(record_len(key@, value@)),
        ensures
            final(self)@.wf(),
            match a {
                Some(write) => {
                    &&& exists|timestamp: u64|
                        write.is_append_of(
                            old(self)@,
                            #[trigger] Self::put_entry(key@, value@, timestamp),
                        )
                    &&& final(self)@ == old(self)@.appended(record_len(key@, value@))
                },
                None => final(self)@ == old(self)@,
            },
    {
        self.put_at(key, value, current_timestamp())
    }

    /// Deletes a key: a tombstone with an empty value, stamped with the time
    /// of the call. `None` says that the clock stands before the UNIX epoch
    /// and gives no timestamp: nothing was written then.
    pub fn delete(&mut self, key: &str) -> (a: Option<Append>)
        requires
            old(self)@.wf(),
            old(self)@.has_room(record_len(key@, Seq::empty())),
        ensures
            final(self)@.wf(),
            match a {
                Some(write) => {
                    &&& exists|timestamp: u64|
                        write.is_append_of(
                            old(self)@,
                            #[trigger] Self::delete_entry(key@, timestamp),
                        )
                    &&& final(self)@ == old(self)@.appended(record_len(key@, Seq::empty()))
                },
                None => final(self)@ == old(self)@,
            },
    {
        self.delete_at(key, current_timestamp())
    }

    /// The identifiers of all segments in the order of a lookup: the sealed
    /// ones, oldest first, then the active one.
    pub fn segment_ids(&self) -> (ids: Vec<u64>)
        ensures
            ids@.len() == self@.all().len(),
            forall|i: int| 0 <= i < ids@.len() ==> ids@[i] == self@.all()[i].id,
    {
        let mut ids: Vec<u64> = Vec::new();
        let mut i: usize = 0;
        while i < self.segments.len()
            invariant
                0 <= i <= self.segments.len(),
                ids@.len() == i,
                forall|k: int| 0 <= k < i ==> ids@[k] == self.segments@[k].id,
            decreases self.segments.len() - i,
        {
            ids.push(self.segments[i].id);
            i = i + 1;
        }
        ids.push(self.active.id);
        ids
    }

    /// The sealed segments, oldest first.
    pub fn sealed_segments(&self) -> (sealed: &Vec<Segment>)
        ensures
            sealed@ == self@.sealed,
    {
        &self.segments
    }

    /// The segment that takes the writes.
    pub fn active_segment(&self) -> (active: Segment)
        ensures
            active == self@.active,
    {
        self.active
    }

    /// The identifier that the next segment gets.
    pub fn next_segment_id(&self) -> (id: u64)
        ensures
            id == self@.next_segment_id,
    {
        self.next_segment_id
    }

    /// Whether the machine's numbers hold one more record with this key
    /// and value: what `put` and `delete` ask for.
    pub fn has_room(&self, key: &str, value: &[u8]) -> (r: bool)
        ensures
            r == self@.has_room(record_len(key@, value@)),
    {
        let key_len: u128 = key.as_bytes().len() as u128;
        let value_len: u128 = value.len() as u128;
        let end: u128 = self.active.write_offset as u128 + HEADER_SIZE as u128 + key_len
            + value_len;
        if end > u64::MAX as u128 {
            false
        } else if end >= MAX_SEGMENT_SIZE as u128 {
            self.next_segment_id < u64::MAX
        } else {
            true
        }
    }

    /// The record of a put.
    pub open spec fn put_entry(key: Seq<char>, value: Seq<u8>, timestamp: u64) -> LogEntryView {
        LogEntryView { entry_type: EntryType::Put, timestamp, key, value }
    }

    /// The record of a delete.
    pub open spec fn delete_entry(key: Seq<char>, timestamp: u64) -> LogEntryView {
        LogEntryView { entry_type: EntryType::Delete, timestamp, key, value: Seq::empty() }
    }
}

} // verus!
