//! What holds of the store as a whole: how a read of a file goes on when the
//! file grows, what a write does to the value that a key resolves to, and
//! that the engine's state is found again in the listing of its files.

use crate::engine::{
    ascending, fold_entry, fold_items, listed, names_segment, opened_from, resolve, resolve_from,
    usable, written, Append, EngineView, ListedFile,
};
use crate::entry::{
    declared_len, lemma_decode_encode, lemma_encoding_fields, lemma_encoding_len,
    DecodeErrorView, EntryType, LogEntryView, HEADER_SIZE,
};
use crate::naming::segment_file_text;
use crate::segment::{scan, scan_from, scan_step, ScanStep, Segment};
use vstd::prelude::*;

verus! {

/// Whether a read of `data` from `offset` on comes to the end of the bytes
/// exactly at the end of a record: no byte is left over and no record is
/// cut short. Records that do not decode do not matter here.
pub open spec fn ends_whole_from(data: Seq<u8>, offset: int) -> bool
    decreases data.len() - offset,
{
    if 0 <= offset <= data.len() {
        match scan_step(data, offset) {
            ScanStep::End => offset == data.len(),
            ScanStep::Truncated => false,
            ScanStep::Record { item, next } => ends_whole_from(data, next),
        }
    } else {
        false
    }
}

/// Whether a file is a run of whole records and nothing else.
pub open spec fn ends_whole(data: Seq<u8>) -> bool {
    ends_whole_from(data, 0)
}

/// Behind the end of `data`, a read of `data + more` is a read of `more`.
pub proof fn lemma_scan_shift(data: Seq<u8>, more: Seq<u8>, offset: int)
    requires
        0 <= offset <= more.len(),
    ensures
        scan_from(data + more, data.len() + offset) == scan_from(more, offset),
        ends_whole_from(data + more, data.len() + offset) == ends_whole_from(more, offset),
    decreases more.len() - offset,
{
    let joined = data + more;
    let rest = more.subrange(offset, more.len() as int);
    assert(joined.subrange(data.len() + offset, joined.len() as int) =~= rest);
    match scan_step(more, offset) {
        ScanStep::Record { item, next } => {
            lemma_scan_shift(data, more, next);
        },
        _ => {},
    }
}

/// A file of whole records, with more bytes written behind it, reads as the
/// file and then as those bytes.
pub proof fn lemma_scan_concat(data: Seq<u8>, more: Seq<u8>, offset: int)
    requires
        ends_whole_from(data, offset),
    ensures
        scan_from(data + more, offset) == scan_from(data, offset) + scan(more),
        ends_whole_from(data + more, offset) == ends_whole(more),
    decreases data.len() - offset,
{
    let joined = data + more;
    let rest = data.subrange(offset, data.len() as int);
    let joined_rest = joined.subrange(offset, joined.len() as int);
    assert(joined_rest =~= rest + more);
    match scan_step(data, offset) {
        ScanStep::End => {
            assert(offset == data.len());
            lemma_scan_shift(data, more, 0);
            assert(scan_from(data, offset) =~= Seq::empty());
            assert(scan_from(data, offset) + scan(more) =~= scan(more));
        },
        ScanStep::Truncated => {},
        ScanStep::Record { item, next } => {
            assert(joined_rest.subrange(13, 17) =~= rest.subrange(13, 17));
            assert(joined_rest.subrange(17, 21) =~= rest.subrange(17, 21));
            assert(declared_len(joined_rest) == declared_len(rest));
            assert(joined_rest.subrange(0, declared_len(rest)) =~= rest.subrange(
                0,
                declared_len(rest),
            ));
            assert(scan_step(joined, offset) == scan_step(data, offset));
            lemma_scan_concat(data, more, next);
            assert(scan_from(joined, offset) =~= scan_from(data, offset) + scan(more));
        },
    }
}

/// The encoding of an entry that fits reads as that entry and nothing else.
pub proof fn lemma_scan_encoding(e: LogEntryView)
    requires
        e.fits(),
    ensures
        scan(e.encoding()) == seq![Ok::<LogEntryView, DecodeErrorView>(e)],
        ends_whole(e.encoding()),
{
    let bytes = e.encoding();
    lemma_encoding_fields(e);
    lemma_decode_encode(e);
    assert(bytes.subrange(0, bytes.len() as int) =~= bytes);
    assert(bytes.subrange(0, bytes.len() as int).subrange(0, declared_len(bytes)) =~= bytes);
    assert(scan_step(bytes, 0) == ScanStep::Record {
        item: Ok::<LogEntryView, DecodeErrorView>(e),
        next: bytes.len() as int,
    });
    assert(bytes.subrange(bytes.len() as int, bytes.len() as int).len() == 0);
    assert(scan_step(bytes, bytes.len() as int) == ScanStep::End);
    assert(scan_from(bytes, bytes.len() as int) =~= Seq::empty());
    assert(scan(bytes) =~= seq![Ok::<LogEntryView, DecodeErrorView>(e)]);
    assert(ends_whole_from(bytes, bytes.len() as int));
    assert(ends_whole_from(bytes, 0));
}

/// Appending a record to a file of whole records adds that record to what a
/// read yields, and leaves a file of whole records.
pub proof fn lemma_scan_appended(data: Seq<u8>, e: LogEntryView)
    requires
        ends_whole(data),
        e.fits(),
    ensures
        scan(data + e.encoding()) == scan(data).push(Ok::<LogEntryView, DecodeErrorView>(e)),
        ends_whole(data + e.encoding()),
{
    lemma_scan_concat(data, e.encoding(), 0);
    lemma_scan_encoding(e);
    assert(scan(data) + seq![Ok::<LogEntryView, DecodeErrorView>(e)] =~= scan(data).push(
        Ok::<LogEntryView, DecodeErrorView>(e),
    ));
}

/// A record cut short within its header is dropped: behind a file of whole
/// records, fewer bytes than a header change nothing of what a read yields.
pub proof fn lemma_short_tail_dropped(data: Seq<u8>, tail: Seq<u8>)
    requires
        ends_whole(data),
        tail.len() < HEADER_SIZE,
    ensures
        scan(data + tail) == scan(data),
{
    lemma_scan_concat(data, tail, 0);
    assert(tail.subrange(0, tail.len() as int) =~= tail);
    assert(scan(tail) =~= Seq::empty());
    assert(scan(data) + scan(tail) =~= scan(data));
}

/// A record cut short behind its header is reported once, after everything
/// that was written whole before it.
pub proof fn lemma_cut_record_reported(data: Seq<u8>, tail: Seq<u8>)
    requires
        ends_whole(data),
        tail.len() >= HEADER_SIZE,
        tail.len() < declared_len(tail),
    ensures
        scan(data + tail) == scan(data).push(
            Err::<LogEntryView, DecodeErrorView>(DecodeErrorView::UnexpectedEOF),
        ),
{
    lemma_scan_concat(data, tail, 0);
    assert(tail.subrange(0, tail.len() as int) =~= tail);
    assert(scan(tail) =~= seq![
        Err::<LogEntryView, DecodeErrorView>(DecodeErrorView::UnexpectedEOF),
    ]);
    assert(scan(data) + scan(tail) =~= scan(data).push(
        Err::<LogEntryView, DecodeErrorView>(DecodeErrorView::UnexpectedEOF),
    ));
}

/// What one more item at the end does to a fold: an error before it stays
/// the result; else an error item is the result, and a record is folded in.
pub open spec fn fold_last(
    before: Result<Option<Seq<u8>>, DecodeErrorView>,
    last: Result<LogEntryView, DecodeErrorView>,
    key: Seq<char>,
) -> Result<Option<Seq<u8>>, DecodeErrorView> {
    match before {
        Err(e) => Err(e),
        Ok(found) => match last {
            Err(e) => Err(e),
            Ok(entry) => Ok(fold_entry(found, entry, key)),
        },
    }
}

/// Folding a run of items with one more at its end is folding the run and
/// then that item.
pub proof fn lemma_fold_items_push(
    items: Seq<Result<LogEntryView, DecodeErrorView>>,
    last: Result<LogEntryView, DecodeErrorView>,
    key: Seq<char>,
    found: Option<Seq<u8>>,
)
    ensures
        fold_items(items.push(last), key, found) == fold_last(
            fold_items(items, key, found),
            last,
            key,
        ),
    decreases items.len(),
{
    let longer = items.push(last);
    if items.len() == 0 {
        assert(longer.skip(1) =~= Seq::empty());
        match last {
            Ok(entry) => {
                assert(fold_items(longer.skip(1), key, fold_entry(found, entry, key)) == Ok::<
                    Option<Seq<u8>>,
                    DecodeErrorView,
                >(fold_entry(found, entry, key)));
            },
            Err(e) => {},
        }
    } else {
        assert(longer[0] == items[0]);
        assert(longer.skip(1) =~= items.skip(1).push(last));
        match items[0] {
            Ok(entry) => {
                lemma_fold_items_push(items.skip(1), last, key, fold_entry(found, entry, key));
            },
            Err(e) => {},
        }
    }
}

/// Resolving over the segments with one more at their end is resolving over
/// them and then folding that segment's records.
pub proof fn lemma_resolve_push(
    contents: Seq<Seq<u8>>,
    last: Seq<u8>,
    key: Seq<char>,
    found: Option<Seq<u8>>,
)
    ensures
        resolve_from(contents.push(last), key, found) == match resolve_from(contents, key, found) {
            Err(e) => Err(e),
            Ok(next) => fold_items(scan(last), key, next),
        },
    decreases contents.len(),
{
    let longer = contents.push(last);
    if contents.len() == 0 {
        assert(longer.skip(1) =~= Seq::empty());
        assert(longer[0] == last);
        match fold_items(scan(last), key, found) {
            Ok(next) => {
                assert(resolve_from(longer.skip(1), key, next) == Ok::<
                    Option<Seq<u8>>,
                    DecodeErrorView,
                >(next));
            },
            Err(e) => {},
        }
    } else {
        assert(longer[0] == contents[0]);
        assert(longer.skip(1) =~= contents.skip(1).push(last));
        match fold_items(scan(contents[0]), key, found) {
            Ok(next) => {
                lemma_resolve_push(contents.skip(1), last, key, next);
            },
            Err(e) => {},
        }
    }
}

/// What a write does to every key: where the last segment was a run of
/// whole records, appending the record of an entry that fits, with or
/// without a rotation, folds that one entry into what each key resolved to
/// before. A lookup that failed before fails as it did.
pub proof fn lemma_resolve_written(
    contents: Seq<Seq<u8>>,
    e: LogEntryView,
    rotated: bool,
    key: Seq<char>,
)
    requires
        contents.len() > 0,
        ends_whole(contents.last()),
        e.fits(),
    ensures
        resolve(written(contents, e.encoding(), rotated), key) == match resolve(contents, key) {
            Err(x) => Err(x),
            Ok(found) => Ok(fold_entry(found, e, key)),
        },
        written(contents, e.encoding(), rotated).len() > 0,
        ends_whole(written(contents, e.encoding(), rotated).last()),
{
    let older = contents.drop_last();
    let last = contents.last();
    let grown = older.push(last + e.encoding());
    assert(contents =~= older.push(last));
    lemma_resolve_push(older, last, key, None);
    lemma_resolve_push(older, last + e.encoding(), key, None);
    lemma_scan_appended(last, e);
    match resolve_from(older, key, None) {
        Ok(next) => {
            lemma_fold_items_push(scan(last), Ok(e), key, next);
        },
        Err(x) => {},
    }
    if rotated {
        let empty = Seq::<u8>::empty();
        lemma_resolve_push(grown, empty, key, None);
        assert(empty.subrange(0, 0) =~= empty);
        assert(scan(empty) =~= Seq::empty());
        assert(ends_whole(empty));
    }
}

/// Last write wins: after a put, the key resolves to the value that was
/// put, whatever it resolved to before and in whichever segment the earlier
/// records lie, provided that the history decodes.
pub proof fn lemma_put_wins(
    contents: Seq<Seq<u8>>,
    e: LogEntryView,
    rotated: bool,
)
    requires
        contents.len() > 0,
        ends_whole(contents.last()),
        e.fits(),
        e.entry_type == EntryType::Put,
        resolve(contents, e.key) is Ok,
    ensures
        resolve(written(contents, e.encoding(), rotated), e.key) == Ok::<
            Option<Seq<u8>>,
            DecodeErrorView,
        >(Some(e.value)),
{
    lemma_resolve_written(contents, e, rotated, e.key);
}

/// A tombstone suppresses history: after a delete, the key resolves to
/// nothing, though the records of its earlier values are still there.
pub proof fn lemma_delete_hides(
    contents: Seq<Seq<u8>>,
    e: LogEntryView,
    rotated: bool,
)
    requires
        contents.len() > 0,
        ends_whole(contents.last()),
        e.fits(),
        e.entry_type == EntryType::Delete,
        resolve(contents, e.key) is Ok,
    ensures
        resolve(written(contents, e.encoding(), rotated), e.key) == Ok::<
            Option<Seq<u8>>,
            DecodeErrorView,
        >(None),
{
    lemma_resolve_written(contents, e, rotated, e.key);
}

/// A write to one key leaves every other key as it was, across a rotation
/// too: a key that was written only before it is still found.
pub proof fn lemma_other_keys_kept(
    contents: Seq<Seq<u8>>,
    e: LogEntryView,
    rotated: bool,
    key: Seq<char>,
)
    requires
        contents.len() > 0,
        ends_whole(contents.last()),
        e.fits(),
        key != e.key,
    ensures
        resolve(written(contents, e.encoding(), rotated), key) == resolve(contents, key),
{
    lemma_resolve_written(contents, e, rotated, key);
}

/// The engine and its files stay in step. Let the files hold one run of
/// whole records per segment, the active segment's as long as the engine's
/// write position says. Once the caller has carried out what a write asks
/// for, the same holds of the engine after the write, and every key
/// resolves to what it resolved to before with the written entry folded in.
pub proof fn lemma_write_carried_out(
    before: EngineView,
    write: Append,
    entry: LogEntryView,
    contents: Seq<Seq<u8>>,
    key: Seq<char>,
)
    requires
        before.has_room(entry.encoded_len()),
        write.is_append_of(before, entry),
        entry.fits(),
        contents.len() == before.all().len(),
        contents.last().len() == before.active.write_offset,
        ends_whole(contents.last()),
    ensures
        write.carried_out(contents).len() == before.appended(entry.encoded_len()).all().len(),
        write.carried_out(contents).last().len() == before.appended(
            entry.encoded_len(),
        ).active.write_offset,
        ends_whole(write.carried_out(contents).last()),
        resolve(write.carried_out(contents), key) == match resolve(contents, key) {
            Err(x) => Err(x),
            Ok(found) => Ok(fold_entry(found, entry, key)),
        },
{
    lemma_encoding_len(entry);
    lemma_resolve_written(contents, entry, write.new_segment is Some, key);
}

/// Two ascending runs with the same segments are the same run.
pub proof fn lemma_ascending_unique(a: Seq<Segment>, b: Seq<Segment>)
    requires
        ascending(a),
        ascending(b),
        forall|s: Segment| a.contains(s) <==> b.contains(s),
    ensures
        a == b,
    decreases a.len(),
{
    if a.len() == 0 {
        if b.len() > 0 {
            assert(b.contains(b[0]));
        }
        assert(a =~= b);
    } else {
        let top = a.last();
        assert(a.contains(top));
        assert(b.contains(top));
        let k = choose|k: int| 0 <= k < b.len() && b[k] == top;
        if k < b.len() - 1 {
            assert(b.contains(b.last()));
            let m = choose|m: int| 0 <= m < a.len() && a[m] == b.last();
            assert(a[m].id <= top.id);
            assert(b[k].id < b.last().id);
        }
        assert(b.last() == top);
        let a0 = a.drop_last();
        let b0 = b.drop_last();
        assert forall|s: Segment| a0.contains(s) <==> b0.contains(s) by {
            if a0.contains(s) {
                let i = choose|i: int| 0 <= i < a0.len() && a0[i] == s;
                assert(a[i] == s);
                assert(a.contains(s));
                assert(s.id < top.id);
                let j = choose|j: int| 0 <= j < b.len() && b[j] == s;
                assert(j < b.len() - 1);
                assert(b0[j] == s);
            }
            if b0.contains(s) {
                let i = choose|i: int| 0 <= i < b0.len() && b0[i] == s;
                assert(b[i] == s);
                assert(b.contains(s));
                assert(s.id < top.id);
                let j = choose|j: int| 0 <= j < a.len() && a[j] == s;
                assert(j < a.len() - 1);
                assert(a0[j] == s);
            }
        }
        lemma_ascending_unique(a0, b0);
        assert(a =~= a0.push(top));
        assert(b =~= b0.push(top));
    }
}

/// The listing of an engine's segment files, in which no name comes twice,
/// is one that an engine can be opened from.
pub proof fn lemma_own_listing_usable(listing: Seq<ListedFile>, engine: EngineView)
    requires
        engine.wf(),
        forall|s: Segment| engine.all().contains(s) <==> listed(listing, s),
        forall|i: int, j: int|
            0 <= i < j < listing.len() ==> (#[trigger] listing[i]).name@ != (
            #[trigger] listing[j]).name@,
    ensures
        usable(listing),
{
    assert forall|i: int| 0 <= i < listing.len() implies (#[trigger] listing[i]).name@
        != segment_file_text(u64::MAX as nat) by {
        if listing[i].name@ == segment_file_text(u64::MAX as nat) {
            let s = Segment { id: u64::MAX, write_offset: listing[i].len };
            assert(names_segment(listing[i], s));
            assert(listed(listing, s));
            assert(engine.all().contains(s));
            let k = choose|k: int| 0 <= k < engine.all().len() && engine.all()[k] == s;
            assert(engine.all()[engine.all().len() - 1] == engine.active);
            if k < engine.all().len() - 1 {
                assert(engine.all()[k].id < engine.all()[engine.all().len() - 1].id);
            }
        }
    }
}

/// The state is found again: an engine that is opened on the listing of
/// another engine's segment files, each at the length up to which it was
/// written, is that engine: the same sealed segments in the same order, the
/// same active segment, the same next identifier. Other files in the
/// listing, and the order of the listing, do not matter. As every lookup
/// reads the files alone, every key resolves after the restart to what it
/// resolved to before.
pub proof fn lemma_reopened_same(listing: Seq<ListedFile>, engine: EngineView, reopened: EngineView)
    requires
        engine.wf(),
        forall|s: Segment| engine.all().contains(s) <==> listed(listing, s),
        opened_from(listing, reopened),
    ensures
        reopened == engine,
{
    assert(engine.all().contains(engine.active)) by {
        assert(engine.all()[engine.all().len() - 1] == engine.active);
    }
    assert(listed(listing, engine.active));
    assert forall|s: Segment| engine.all().contains(s) <==> reopened.all().contains(s) by {
        assert(engine.all().contains(s) <==> listed(listing, s));
        assert(reopened.all().contains(s) <==> listed(listing, s));
    }
    lemma_ascending_unique(engine.all(), reopened.all());
    assert(engine.all().last() == engine.active);
    assert(reopened.all().last() == reopened.active);
    assert(engine.all().drop_last() =~= engine.sealed);
    assert(reopened.all().drop_last() =~= reopened.sealed);
}

} // verus!
