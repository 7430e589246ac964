//! What the operations of the store preserve and what a reader observes,
//! proved of the store as a mathematical value.

use vstd::prelude::*;
use crate::index::ValuePointer;
use crate::log::{entries_of, latest, lemma_scan_append, lemma_scan_entries, live, scan, LogEntry};
use crate::model::{
    current_entries, is_current, perform_all, segment_from, segments_log, without_segment,
    SegmentModel, StoreModel,
};
use crate::record::{agree, lemma_parse_record_local, parse_record, RecordModel};
use crate::replay::{
    all_current, has_set, index_matches, lemma_latest_position, lemma_matches_is_pointers,
    live_value, same_values, sets_within, transparent, versions_increase,
};

verus! {

/// Is `text` the text of exactly one record?
pub open spec fn one_record(text: Seq<u8>) -> bool {
    parse_record(text, 0) is Some && parse_record(text, 0).unwrap().1 == text.len()
}

/// Do the two indexes hold the same keys with the same versions?
pub open spec fn same_versions(
    a: Map<Seq<char>, ValuePointer>,
    b: Map<Seq<char>, ValuePointer>,
) -> bool {
    forall|key: Seq<char>|
        #![trigger a.contains_key(key)]
        #![trigger b.contains_key(key)]
        a.contains_key(key) == b.contains_key(key) && (a.contains_key(key) ==> a[key].version
            == b[key].version)
}

/// The entries of two runs of segments are those of the first run and then
/// those of the second.
pub proof fn lemma_segments_log_concat(x: Seq<SegmentModel>, y: Seq<SegmentModel>)
    ensures
        segments_log(x + y) == segments_log(x) + segments_log(y),
    decreases y.len(),
{
    if y.len() == 0 {
        assert(x + y =~= x);
        assert(segments_log(x) + segments_log(y) =~= segments_log(x));
    } else {
        assert((x + y).drop_last() =~= x + y.drop_last());
        assert((x + y).last() == y.last());
        lemma_segments_log_concat(x, y.drop_last());
        assert(segments_log(x + y) =~= segments_log(x) + segments_log(y));
    }
}

/// The entries of one segment as a run.
pub proof fn lemma_segments_log_one(segment: SegmentModel)
    ensures
        segments_log(seq![segment]) == entries_of(segment.counter, segment.data),
{
    assert(seq![segment].drop_last() =~= Seq::<SegmentModel>::empty());
    assert(seq![segment].last() == segment);
    assert(segments_log(seq![segment].drop_last()) =~= Seq::<LogEntry>::empty());
    assert(segments_log(seq![segment]) =~= entries_of(segment.counter, segment.data));
}

/// Where an entry of a run of segments comes from: a segment of the run
/// holds it.
pub proof fn lemma_segments_log_origin(segments: Seq<SegmentModel>, i: int) -> (at: (int, int))
    requires
        0 <= i < segments_log(segments).len(),
    ensures
        0 <= at.0 < segments.len(),
        0 <= at.1 < entries_of(segments[at.0].counter, segments[at.0].data).len(),
        segments_log(segments)[i] == entries_of(segments[at.0].counter, segments[at.0].data)[at.1],
    decreases segments.len(),
{
    let before = segments_log(segments.drop_last());
    if i < before.len() {
        let at = lemma_segments_log_origin(segments.drop_last(), i);
        assert(segments.drop_last()[at.0] == segments[at.0]);
        at
    } else {
        (segments.len() - 1, i - before.len())
    }
}

/// In a run with ascending counters, a counter leads to its segment.
pub proof fn lemma_segment_found(segments: Seq<SegmentModel>, j: int, from: int)
    requires
        0 <= from <= j < segments.len(),
        forall|a: int, b: int|
            0 <= a < b < segments.len() ==> (#[trigger] segments[a]).counter < (
            #[trigger] segments[b]).counter,
    ensures
        segment_from(segments, segments[j].counter, from) == Some(segments[j].data),
    decreases j - from,
{
    if from < j {
        assert(segments[from].counter < segments[j].counter);
        lemma_segment_found(segments, j, from + 1);
    }
}

/// Rotation keeps the structure and the log.
pub proof fn lemma_rotate(s: StoreModel)
    requires
        s.well_structured(),
        s.immutable_counter + 2 <= u64::MAX,
    ensures
        s.rotate().well_structured(),
        s.rotate().log() == s.log(),
{
    let r = s.rotate();
    let segment = SegmentModel { counter: s.active_id(), data: s.active };
    assert(r.journal.drop_last() =~= s.journal);
    assert(perform_all(r.synced, r.journal) == r.disk());
    assert(r.immutables.drop_last() =~= s.immutables);
    assert(r.immutables.last() == segment);
    assert(scan(r.active_id(), Seq::<u8>::empty()) == Some(Seq::<LogEntry>::empty()));
    assert(r.log() =~= s.log());
    assert forall|i: int| 0 <= i < r.immutables.len() implies scan(
        (#[trigger] r.immutables[i]).counter,
        r.immutables[i].data,
    ) is Some by {
        if i < s.immutables.len() {
            assert(r.immutables[i] == s.immutables[i]);
        }
    }
    assert forall|i: int, j: int| 0 <= i < j < r.immutables.len() implies (
    #[trigger] r.immutables[i]).counter < (#[trigger] r.immutables[j]).counter by {
        assert(r.immutables[i] == s.immutables[i]);
        if j < s.immutables.len() {
            assert(r.immutables[j] == s.immutables[j]);
        }
    }
    assert forall|i: int| 0 <= i < r.immutables.len() implies (
    #[trigger] r.immutables[i]).counter <= r.immutable_counter by {
        if i < s.immutables.len() {
            assert(r.immutables[i] == s.immutables[i]);
        }
    }
}

/// Rotation where it is due keeps the structure and the log.
pub proof fn lemma_make_room(s: StoreModel)
    requires
        s.well_structured(),
    ensures
        s.make_room().well_structured(),
        s.make_room().log() == s.log(),
        s.make_room().index == s.index,
        s.make_room().immutables.len() >= s.immutables.len(),
        forall|i: int|
            0 <= i < s.immutables.len() ==> #[trigger] s.make_room().immutables[i]
                == s.immutables[i],
{
    if s.rotation_due() {
        lemma_rotate(s);
    }
}

/// The entry that a record makes once its text is written.
pub open spec fn written_entry(s: StoreModel, text: Seq<u8>) -> LogEntry {
    LogEntry {
        segment: s.active_id(),
        offset: s.active.len() as int,
        end: (s.active.len() + text.len()) as int,
        record: parse_record(text, 0).unwrap().0,
    }
}

/// Writing the text of one record keeps the structure and adds one entry
/// to the log.
pub proof fn lemma_write(s: StoreModel, text: Seq<u8>)
    requires
        s.well_structured(),
        one_record(text),
    ensures
        s.write(text).well_structured(),
        s.write(text).log() == s.log().push(written_entry(s, text)),
{
    lemma_scan_append(s.active_id(), s.active, 0, text);
    let w = s.write(text);
    assert(w.journal.drop_last() =~= s.journal);
    assert(perform_all(w.synced, w.journal) == w.disk());
    assert(w.log() =~= s.log().push(written_entry(s, text)));
}

/// The text of an entry of a segment is the text of exactly one record.
pub proof fn lemma_entry_text(data: Seq<u8>, e: LogEntry)
    requires
        0 <= e.offset < e.end <= data.len(),
        parse_record(data, e.offset) == Some((e.record, e.end)),
    ensures
        one_record(data.subrange(e.offset, e.end)),
        parse_record(data.subrange(e.offset, e.end), 0).unwrap().0 == e.record,
{
    let text = data.subrange(e.offset, e.end);
    assert(agree(data, text, -e.offset, e.offset, e.end)) by {
        assert forall|i: int| e.offset <= i < e.end implies text[i + (-e.offset)]
            == #[trigger] data[i] by {}
    }
    lemma_parse_record_local(data, text, -e.offset, e.offset);
}

/// Every entry of the log can be read back through its pointer.
pub proof fn lemma_log_readable(s: StoreModel, i: int)
    requires
        s.well_structured(),
        s.fits(),
        0 <= i < s.log().len(),
    ensures
        s.record_at(s.log()[i].pointer()) == Some(s.log()[i].record),
{
    let e = s.log()[i];
    let in_segments = segments_log(s.immutables);
    if i < in_segments.len() {
        let at = lemma_segments_log_origin(s.immutables, i);
        let segment = s.immutables[at.0];
        lemma_scan_entries(segment.counter, segment.data, 0);
        assert(e == entries_of(segment.counter, segment.data)[at.1]);
        assert(e.segment == segment.counter);
        lemma_segment_found(s.immutables, at.0, 0);
        assert(e.offset as u64 == e.offset);
    } else {
        lemma_scan_entries(s.active_id(), s.active, 0);
        assert(e == entries_of(s.active_id(), s.active)[i - in_segments.len()]);
        assert(e.offset as u64 == e.offset);
    }
}

/// `get` reads what replaying the log leads to: in a store that obeys its
/// invariant, `get` never fails, and it finds for each key the value that
/// the last record of the key gave it, or nothing where that record is a
/// `Remove` or there is none.
pub proof fn lemma_get_reads_contents(s: StoreModel, key: Seq<char>)
    requires
        s.wf(),
        s.fits(),
    ensures
        s.get(key) == (if s.contents().contains_key(key) {
            Ok::<Option<Seq<char>>, ()>(Some(s.contents()[key]))
        } else {
            Ok::<Option<Seq<char>>, ()>(None)
        }),
        s.contents().contains_key(key) == s.index.contains_key(key),
{
    if live(s.log(), key) is Some {
        let e = live(s.log(), key).unwrap();
        let at = lemma_latest_position(s.log(), key);
        lemma_log_readable(s, at);
        assert(s.index[key] == e.pointer());
    }
}

/// Whether an entry is current depends only on the keys and versions of
/// the index.
pub proof fn lemma_current_stable(
    a: Map<Seq<char>, ValuePointer>,
    b: Map<Seq<char>, ValuePointer>,
    entries: Seq<LogEntry>,
)
    requires
        same_versions(a, b),
    ensures
        forall|e: LogEntry| #[trigger] is_current(a, e) == is_current(b, e),
        all_current(a, entries) == all_current(b, entries),
        current_entries(a, entries) == current_entries(b, entries),
    decreases entries.len(),
{
    assert forall|e: LogEntry| #[trigger] is_current(a, e) == is_current(b, e) by {
        match e.record {
            RecordModel::Put { key, .. } => {
                assert(a.contains_key(key) == b.contains_key(key));
            },
            RecordModel::Remove { .. } => {},
        }
    }
    if entries.len() > 0 {
        lemma_current_stable(a, b, entries.drop_last());
    }
    if all_current(a, entries) {
        assert forall|i: int| 0 <= i < entries.len() implies is_current(
            b,
            #[trigger] entries[i],
        ) by {
            assert(is_current(a, entries[i]));
        }
    }
    if all_current(b, entries) {
        assert forall|i: int| 0 <= i < entries.len() implies is_current(
            a,
            #[trigger] entries[i],
        ) by {
            assert(is_current(b, entries[i]));
        }
    }
}

/// Are the thresholds and the segments at the first `n` positions the same?
pub open spec fn keeps_segments(s: StoreModel, t: StoreModel, n: int) -> bool {
    &&& t.rotation_threshold == s.rotation_threshold
    &&& t.compaction_threshold == s.compaction_threshold
    &&& t.immutable_counter >= s.immutable_counter
    &&& t.immutables.len() >= n
    &&& forall|i: int| 0 <= i < n ==> #[trigger] t.immutables[i] == s.immutables[i]
    &&& forall|i: int|
        n <= i < t.immutables.len() ==> (#[trigger] t.immutables[i]).counter > s.immutable_counter
}

/// Is `e` an entry of a segment with the bytes `data`?
pub open spec fn lies_in(data: Seq<u8>, e: LogEntry) -> bool {
    &&& 0 <= e.offset < e.end <= data.len()
    &&& parse_record(data, e.offset) == Some((e.record, e.end))
}

/// One retained record moves: the structure holds, the log grows by a copy
/// of the record, the index still matches the log, and it holds the same
/// keys with the same versions as before.
pub proof fn lemma_migrate(s: StoreModel, data: Seq<u8>, e: LogEntry, hole: Option<Seq<char>>)
    requires
        s.well_structured(),
        index_matches(s.index, s.log(), hole),
        is_current(s.index, e),
        lies_in(data, e),
    ensures
        s.migrate(data, e).well_structured(),
        s.migrate(data, e).log().len() == s.log().len() + 1,
        s.migrate(data, e).log().drop_last() == s.log(),
        s.migrate(data, e).log().last().record == e.record,
        index_matches(s.migrate(data, e).index, s.migrate(data, e).log(), hole),
        same_versions(s.migrate(data, e).index, s.index),
        keeps_segments(s, s.migrate(data, e), s.immutables.len() as int),
        sets_within(s.migrate(data, e).log(), s.log()),
{
    let text = data.subrange(e.offset, e.end);
    let r = s.make_room();
    lemma_make_room(s);
    lemma_entry_text(data, e);
    lemma_write(r, text);
    let w = r.write(text);
    let m = s.migrate(data, e);
    let entry = written_entry(r, text);
    let key = e.record.key();
    assert(w.log() == s.log().push(entry));
    assert(s.index.contains_key(key));
    assert(hole != Some(key));
    assert(m.index == s.index.insert(key, entry.pointer()));
    crate::replay::lemma_push_set_matches(s.index, s.log(), entry, hole);
    crate::replay::lemma_live_has_set(s.log(), key);
    crate::replay::lemma_push_sets_within(s.log(), entry);
    assert(m.log() == w.log());
    assert(m.log().drop_last() =~= s.log());
    assert forall|k: Seq<char>|
        #![trigger m.index.contains_key(k)]
        #![trigger s.index.contains_key(k)]
        m.index.contains_key(k) == s.index.contains_key(k) && (m.index.contains_key(k)
            ==> m.index[k].version == s.index[k].version) by {}
    assert forall|i: int| s.immutables.len() <= i < m.immutables.len() implies (
    #[trigger] m.immutables[i]).counter > s.immutable_counter by {
        if s.rotation_due() {
            assert(m.immutables[i] == s.rotate().immutables[i]);
        }
    }
}

/// The first `count` retained records move: the structure holds, the log
/// grows by copies of the records, in order, the index still matches the log
/// and holds the same keys with the same versions as before.
pub proof fn lemma_migrate_all(
    s: StoreModel,
    data: Seq<u8>,
    kept: Seq<LogEntry>,
    count: nat,
    hole: Option<Seq<char>>,
) -> (copies: Seq<LogEntry>)
    requires
        s.well_structured(),
        index_matches(s.index, s.log(), hole),
        count <= kept.len(),
        forall|m: int|
            0 <= m < kept.len() ==> is_current(s.index, #[trigger] kept[m]) && lies_in(
                data,
                kept[m],
            ),
    ensures
        s.migrate_all(data, kept, count).well_structured(),
        s.migrate_all(data, kept, count).log() == s.log() + copies,
        crate::replay::same_records(copies, kept.take(count as int)),
        index_matches(
            s.migrate_all(data, kept, count).index,
            s.migrate_all(data, kept, count).log(),
            hole,
        ),
        same_versions(s.migrate_all(data, kept, count).index, s.index),
        keeps_segments(s, s.migrate_all(data, kept, count), s.immutables.len() as int),
        sets_within(s.migrate_all(data, kept, count).log(), s.log()),
    decreases count,
{
    if count == 0 {
        let copies = Seq::<LogEntry>::empty();
        assert(s.log() + copies =~= s.log());
        copies
    } else {
        let before = lemma_migrate_all(s, data, kept, (count - 1) as nat, hole);
        let p = s.migrate_all(data, kept, (count - 1) as nat);
        let e = kept[count - 1];
        lemma_current_stable(p.index, s.index, Seq::empty());
        assert(is_current(s.index, e));
        lemma_migrate(p, data, e, hole);
        let m = p.migrate(data, e);
        let copies = before.push(m.log().last());
        assert forall|key: Seq<char>| #[trigger] has_set(m.log(), key) implies has_set(
            s.log(),
            key,
        ) by {
            assert(has_set(p.log(), key));
        }
        assert(m.log() =~= m.log().drop_last().push(m.log().last()));
        assert(m.log() =~= s.log() + copies);
        assert forall|k: int| 0 <= k < copies.len() implies (#[trigger] copies[k]).record
            == kept.take(count as int)[k].record by {
            if k < count - 1 {
                assert(copies[k] == before[k]);
                assert(before[k].record == kept.take(count - 1)[k].record);
            }
        }
        assert forall|key: Seq<char>|
            #![trigger m.index.contains_key(key)]
            #![trigger s.index.contains_key(key)]
            m.index.contains_key(key) == s.index.contains_key(key) && (m.index.contains_key(key)
                ==> m.index[key].version == s.index[key].version) by {
            assert(p.index.contains_key(key) == s.index.contains_key(key));
            assert(m.index.contains_key(key) == p.index.contains_key(key));
        }
        assert forall|i: int| 0 <= i < s.immutables.len() implies #[trigger] m.immutables[i]
            == s.immutables[i] by {
            assert(p.immutables[i] == s.immutables[i]);
            assert(m.immutables[i] == p.immutables[i]);
        }
        assert forall|i: int| s.immutables.len() <= i < m.immutables.len() implies (
        #[trigger] m.immutables[i]).counter > s.immutable_counter by {
            if i < p.immutables.len() {
                assert(m.immutables[i] == p.immutables[i]);
            }
        }
        copies
    }
}

/// The entries of the segments before position `i`.
pub open spec fn log_before(s: StoreModel, i: int) -> Seq<LogEntry> {
    segments_log(s.immutables.take(i))
}

/// The entries of the segment at position `i`.
pub open spec fn log_at(s: StoreModel, i: int) -> Seq<LogEntry> {
    entries_of(s.immutables[i].counter, s.immutables[i].data)
}

/// The entries behind the segment at position `i`: those of the later
/// immutable segments and of the active one.
pub open spec fn log_behind(s: StoreModel, i: int) -> Seq<LogEntry> {
    segments_log(s.immutables.skip(i + 1)) + entries_of(s.active_id(), s.active)
}

/// The log in three parts: before a segment, the segment, behind it.
pub proof fn lemma_split_log(s: StoreModel, i: int)
    requires
        0 <= i < s.immutables.len(),
    ensures
        s.log() == log_before(s, i) + log_at(s, i) + log_behind(s, i),
        segments_log(s.immutables.remove(i)) + entries_of(s.active_id(), s.active) == log_before(
            s,
            i,
        ) + log_behind(s, i),
        log_before(s, i + 1) == log_before(s, i) + log_at(s, i),
{
    let head = s.immutables.take(i);
    let one = seq![s.immutables[i]];
    let tail = s.immutables.skip(i + 1);
    assert(s.immutables =~= head + one + tail);
    assert(s.immutables.remove(i) =~= head + tail);
    assert(s.immutables.take(i + 1) =~= head + one);
    lemma_segments_log_concat(head + one, tail);
    lemma_segments_log_concat(head, one);
    lemma_segments_log_concat(head, tail);
    lemma_segments_log_one(s.immutables[i]);
    let active = entries_of(s.active_id(), s.active);
    assert(s.log() =~= log_before(s, i) + log_at(s, i) + log_behind(s, i));
    assert(segments_log(s.immutables.remove(i)) + active =~= log_before(s, i) + log_behind(s, i));
}

/// Two logs that start alike and are equal end alike.
pub proof fn lemma_same_tail(head: Seq<LogEntry>, x: Seq<LogEntry>, y: Seq<LogEntry>)
    requires
        head + x == head + y,
    ensures
        x == y,
{
    assert((head + x).len() == head.len() + x.len());
    assert((head + y).len() == head.len() + y.len());
    assert(x.len() == y.len());
    assert forall|i: int| 0 <= i < x.len() implies x[i] == y[i] by {
        assert((head + x)[head.len() + i] == x[i]);
        assert((head + y)[head.len() + i] == y[i]);
    }
    assert(x =~= y);
}

/// Among segments with ascending counters, those without the counter of
/// the segment at position `i` are those without that segment.
pub proof fn lemma_without_segment(immutables: Seq<SegmentModel>, i: int)
    requires
        0 <= i < immutables.len(),
        forall|a: int, b: int|
            0 <= a < b < immutables.len() ==> (#[trigger] immutables[a]).counter < (
            #[trigger] immutables[b]).counter,
    ensures
        without_segment(immutables, immutables[i].counter) == immutables.remove(i),
    decreases immutables.len(),
{
    let counter = immutables[i].counter;
    let shorter = immutables.drop_last();
    if i == immutables.len() - 1 {
        lemma_without_absent(shorter, counter);
        assert(immutables.remove(i) =~= shorter);
    } else {
        assert(immutables[i].counter < immutables[immutables.len() - 1].counter);
        assert(shorter[i] == immutables[i]);
        lemma_without_segment(shorter, i);
        assert(immutables.remove(i) =~= shorter.remove(i).push(immutables.last()));
    }
}

/// Segments that all carry a lower counter lose nothing.
proof fn lemma_without_absent(immutables: Seq<SegmentModel>, counter: u64)
    requires
        forall|a: int| 0 <= a < immutables.len() ==> (#[trigger] immutables[a]).counter != counter,
    ensures
        without_segment(immutables, counter) == immutables,
    decreases immutables.len(),
{
    if immutables.len() > 0 {
        let shorter = immutables.drop_last();
        assert forall|a: int| 0 <= a < shorter.len() implies (#[trigger] shorter[a]).counter
            != counter by {
            assert(shorter[a] == immutables[a]);
        }
        lemma_without_absent(shorter, counter);
        assert(immutables =~= shorter.push(immutables.last()));
    }
}

/// Taking the segment at position `i` out of the directory keeps the
/// structure.
pub proof fn lemma_segment_removed(s: StoreModel, i: int)
    requires
        s.well_structured(),
        0 <= i < s.immutables.len(),
    ensures
        s.drop_segment(i).well_structured(),
{
    let c = s.drop_segment(i);
    assert(c.journal.drop_last() =~= s.journal);
    lemma_without_segment(s.immutables, i);
    assert(perform_all(c.synced, c.journal) == c.disk());
    assert forall|a: int| 0 <= a < c.immutables.len() implies scan(
        (#[trigger] c.immutables[a]).counter,
        c.immutables[a].data,
    ) is Some && c.immutables[a].counter <= c.immutable_counter by {
        let a2 = if a < i { a } else { a + 1 };
        assert(c.immutables[a] == s.immutables[a2]);
    }
    assert forall|a: int, b: int| 0 <= a < b < c.immutables.len() implies (
    #[trigger] c.immutables[a]).counter < (#[trigger] c.immutables[b]).counter by {
        let a2 = if a < i { a } else { a + 1 };
        let b2 = if b < i { b } else { b + 1 };
        assert(c.immutables[a] == s.immutables[a2]);
        assert(c.immutables[b] == s.immutables[b2]);
    }
}

/// What a pass of compaction has reached when it stands at position `i`
/// with `remaining` segments to go: the segments before `i` hold nothing but
/// current records, the segments up to those to go are the ones that the
/// pass found, with counters up to `bound`, and the segments behind them
/// have been rotated in since, with counters above `bound`.
pub open spec fn pass_reached(s: StoreModel, i: int, remaining: nat, bound: u64) -> bool {
    &&& 0 <= i
    &&& i + remaining <= s.immutables.len()
    &&& bound <= s.immutable_counter
    &&& all_current(s.index, log_before(s, i))
    &&& forall|j: int| 0 <= j < i + remaining ==> (#[trigger] s.immutables[j]).counter <= bound
    &&& forall|j: int|
        i + remaining <= j < s.immutables.len() ==> (#[trigger] s.immutables[j]).counter > bound
}

/// One segment is compacted: the structure holds, the index still matches
/// the log and holds the same keys with the same versions, and the pass has
/// reached the next segment.
pub proof fn lemma_compact_segment(
    s: StoreModel,
    i: int,
    remaining: nat,
    bound: u64,
    hole: Option<Seq<char>>,
)
    requires
        s.well_structured(),
        index_matches(s.index, s.log(), hole),
        remaining > 0,
        pass_reached(s, i, remaining, bound),
    ensures
        s.compact_segment(i).well_structured(),
        index_matches(s.compact_segment(i).index, s.compact_segment(i).log(), hole),
        same_versions(s.compact_segment(i).index, s.index),
        s.compact_segment(i).rotation_threshold == s.rotation_threshold,
        s.compact_segment(i).compaction_threshold == s.compaction_threshold,
        pass_reached(
            s.compact_segment(i),
            if s.segment_is_clean(i) {
                i + 1
            } else {
                i
            },
            (remaining - 1) as nat,
            bound,
        ),
        sets_within(s.compact_segment(i).log(), s.log()),
        transparent(s.compact_segment(i).log(), s.log(), hole),
{
    let segment = s.immutables[i];
    let entries = log_at(s, i);
    let kept = current_entries(s.index, entries);
    lemma_split_log(s, i);
    crate::replay::lemma_current_entries_hold(s.index, entries);
    lemma_scan_entries(segment.counter, segment.data, 0);
    if s.segment_is_clean(i) {
        lemma_kept_all(s.index, entries);
        assert(all_current(s.index, log_before(s, i + 1))) by {
            let longer = log_before(s, i) + entries;
            assert forall|k: int| 0 <= k < longer.len() implies is_current(
                s.index,
                #[trigger] longer[k],
            ) by {
                if k < log_before(s, i).len() {
                    assert(longer[k] == log_before(s, i)[k]);
                } else {
                    assert(longer[k] == entries[k - log_before(s, i).len()]);
                }
            }
        }
    } else {
        assert forall|m: int| 0 <= m < kept.len() implies is_current(s.index, #[trigger] kept[m])
            && lies_in(segment.data, kept[m]) by {
            let k = choose|k: int| 0 <= k < entries.len() && entries[k] == kept[m];
            assert(lies_in(segment.data, entries[k]));
        }
        let copies = lemma_migrate_all(s, segment.data, kept, kept.len(), hole);
        let m = s.migrate_all(segment.data, kept, kept.len());
        let c = s.compact_segment(i);
        assert(c == m.drop_segment(i));
        assert(kept.take(kept.len() as int) =~= kept);
        assert(m.immutables[i] == segment);
        assert(m.immutables.take(i) =~= s.immutables.take(i));
        lemma_split_log(m, i);
        lemma_segment_removed(m, i);
        let a = log_before(s, i);
        let b = log_behind(s, i);
        let bm = log_behind(m, i);
        assert(log_before(m, i) == a);
        assert(log_at(m, i) == entries);
        assert(a + entries + bm == a + entries + (b + copies)) by {
            assert(a + entries + b + copies =~= a + entries + (b + copies));
        }
        lemma_same_tail(a + entries, bm, b + copies);
        lemma_current_stable(m.index, s.index, a);
        lemma_current_stable(m.index, s.index, entries);
        assert forall|k: int|
            0 <= k < entries.len() && is_current(m.index, #[trigger] entries[k]) implies latest(
            bm,
            entries[k].record.key(),
        ) is Some by {
            let key = entries[k].record.key();
            assert(is_current(s.index, entries[k]));
            assert(latest(kept, key) is Some);
            crate::replay::lemma_copies_mention(copies, kept, key);
            crate::replay::lemma_latest_concat(b, copies, key);
        }
        crate::replay::lemma_block_removed(a, entries, bm, m.index, hole);
        assert(c.log() == a + bm);
        assert(a + bm =~= a + b + copies);
        assert(a + entries + bm =~= a + entries + b + copies);
        crate::replay::lemma_block_sets_within(a, entries, bm);
        assert forall|key: Seq<char>| #[trigger] has_set(c.log(), key) implies has_set(
            s.log(),
            key,
        ) by {
            assert(has_set(m.log(), key));
        }
        if versions_increase(s.log()) {
            crate::replay::lemma_copies_keep_values(a, entries, b, copies, s.index, hole);
            crate::replay::lemma_compacted_versions(a, entries, b, copies, s.index, hole);
            assert forall|key: Seq<char>| hole != Some(key) implies #[trigger] live_value(
                c.log(),
                key,
            ) == live_value(s.log(), key) by {
                assert(live(a + bm, key) == live(a + entries + bm, key));
                assert(live_value(a + entries + b + copies, key) == live_value(
                    a + entries + b,
                    key,
                ));
            }
        }
        assert(log_before(c, i) == a) by {
            assert(c.immutables.take(i) =~= s.immutables.take(i));
        }
        assert forall|j: int| 0 <= j < i + (remaining - 1) implies (
        #[trigger] c.immutables[j]).counter <= bound by {
            if j < i {
                assert(c.immutables[j] == m.immutables[j]);
                assert(m.immutables[j] == s.immutables[j]);
            } else {
                assert(c.immutables[j] == m.immutables[j + 1]);
                assert(m.immutables[j + 1] == s.immutables[j + 1]);
            }
        }
        assert forall|j: int| i + (remaining - 1) <= j < c.immutables.len() implies (
        #[trigger] c.immutables[j]).counter > bound by {
            assert(c.immutables[j] == m.immutables[j + 1]);
            if j + 1 < s.immutables.len() {
                assert(m.immutables[j + 1] == s.immutables[j + 1]);
            }
        }
    }
}

/// Where the retained entries of a block are as many as its entries, every
/// entry of the block is current.
pub proof fn lemma_kept_all(index: Map<Seq<char>, ValuePointer>, entries: Seq<LogEntry>)
    requires
        current_entries(index, entries).len() == entries.len(),
    ensures
        all_current(index, entries),
    decreases entries.len(),
{
    if entries.len() > 0 {
        lemma_kept_at_most(index, entries.drop_last());
        lemma_kept_all(index, entries.drop_last());
        assert forall|i: int| 0 <= i < entries.len() implies is_current(
            index,
            #[trigger] entries[i],
        ) by {
            if i < entries.len() - 1 {
                assert(entries.drop_last()[i] == entries[i]);
            }
        }
    }
}

/// The retained entries of a block are at most as many as its entries.
pub proof fn lemma_kept_at_most(index: Map<Seq<char>, ValuePointer>, entries: Seq<LogEntry>)
    ensures
        current_entries(index, entries).len() <= entries.len(),
    decreases entries.len(),
{
    if entries.len() > 0 {
        lemma_kept_at_most(index, entries.drop_last());
    }
}

/// A pass of compaction: the structure holds, the index still matches the
/// log and holds the same keys with the same versions, and the pass ends
/// with no segment to go. Returns the position at which it ends.
pub proof fn lemma_compact_pass(
    s: StoreModel,
    i: int,
    remaining: nat,
    bound: u64,
    hole: Option<Seq<char>>,
) -> (end: int)
    requires
        s.well_structured(),
        index_matches(s.index, s.log(), hole),
        pass_reached(s, i, remaining, bound),
    ensures
        s.compact_pass(i, remaining).well_structured(),
        index_matches(s.compact_pass(i, remaining).index, s.compact_pass(i, remaining).log(), hole),
        same_versions(s.compact_pass(i, remaining).index, s.index),
        s.compact_pass(i, remaining).rotation_threshold == s.rotation_threshold,
        s.compact_pass(i, remaining).compaction_threshold == s.compaction_threshold,
        pass_reached(s.compact_pass(i, remaining), end, 0, bound),
        sets_within(s.compact_pass(i, remaining).log(), s.log()),
        transparent(s.compact_pass(i, remaining).log(), s.log(), hole),
    decreases remaining,
{
    if remaining == 0 {
        i
    } else {
        lemma_compact_segment(s, i, remaining, bound, hole);
        let c = s.compact_segment(i);
        let next = if s.segment_is_clean(i) {
            i + 1
        } else {
            i
        };
        let end = lemma_compact_pass(c, next, (remaining - 1) as nat, bound, hole);
        let done = c.compact_pass(next, (remaining - 1) as nat);
        assert(s.compact_pass(i, remaining) == done);
        assert forall|key: Seq<char>| #[trigger] has_set(done.log(), key) implies has_set(
            s.log(),
            key,
        ) by {
            assert(has_set(c.log(), key));
        }
        if versions_increase(s.log()) {
            assert forall|key: Seq<char>| hole != Some(key) implies #[trigger] live_value(
                done.log(),
                key,
            ) == live_value(s.log(), key) by {
                assert(live_value(c.log(), key) == live_value(s.log(), key));
            }
        }
        assert forall|key: Seq<char>|
            #![trigger done.index.contains_key(key)]
            #![trigger s.index.contains_key(key)]
            done.index.contains_key(key) == s.index.contains_key(key) && (done.index.contains_key(
                key,
            ) ==> done.index[key].version == s.index[key].version) by {
            assert(c.index.contains_key(key) == s.index.contains_key(key));
            assert(done.index.contains_key(key) == c.index.contains_key(key));
        }
        end
    }
}

/// Does every immutable segment with a counter up to `bound` hold nothing
/// but current records?
pub open spec fn reclaimed(s: StoreModel, bound: u64) -> bool {
    forall|j: int|
        0 <= j < s.immutables.len() && (#[trigger] s.immutables[j]).counter <= bound
            ==> all_current(s.index, entries_of(s.immutables[j].counter, s.immutables[j].data))
}

/// Where the entries of the segments before a position are current, so are
/// the entries of each of these segments.
pub proof fn lemma_current_segments(s: StoreModel, i: int, j: int)
    requires
        0 <= j < i <= s.immutables.len(),
        all_current(s.index, log_before(s, i)),
    ensures
        all_current(s.index, log_at(s, j)),
    decreases i,
{
    let head = s.immutables.take(i);
    assert(head.drop_last() =~= s.immutables.take(i - 1));
    assert(head.last() == s.immutables[i - 1]);
    let before = log_before(s, i - 1);
    let last = log_at(s, i - 1);
    assert(log_before(s, i) == before + last);
    if j == i - 1 {
        assert forall|k: int| 0 <= k < last.len() implies is_current(s.index, #[trigger] last[k]) by {
            assert((before + last)[before.len() + k] == last[k]);
        }
    } else {
        assert forall|k: int| 0 <= k < before.len() implies is_current(
            s.index,
            #[trigger] before[k],
        ) by {
            assert((before + last)[k] == before[k]);
        }
        lemma_current_segments(s, i - 1, j);
    }
}

/// Compaction keeps the structure, and the index still matches the log and
/// holds the same keys with the same versions. Behind it no immutable
/// segment that it found holds a record that is not current.
pub proof fn lemma_compact(s: StoreModel, hole: Option<Seq<char>>)
    requires
        s.well_structured(),
        index_matches(s.index, s.log(), hole),
    ensures
        s.compact().well_structured(),
        index_matches(s.compact().index, s.compact().log(), hole),
        same_versions(s.compact().index, s.index),
        s.compact().rotation_threshold == s.rotation_threshold,
        s.compact().compaction_threshold == s.compaction_threshold,
        s.compact().since_compaction == 0,
        reclaimed(s.compact(), s.immutable_counter),
        sets_within(s.compact().log(), s.log()),
        transparent(s.compact().log(), s.log(), hole),
{
    assert(s.immutables.take(0) =~= Seq::<SegmentModel>::empty());
    assert(log_before(s, 0) =~= Seq::<LogEntry>::empty());
    assert(pass_reached(s, 0, s.immutables.len(), s.immutable_counter));
    let end = lemma_compact_pass(s, 0, s.immutables.len(), s.immutable_counter, hole);
    let p = s.compact_pass(0, s.immutables.len());
    let c = s.compact();
    assert(c.log() == p.log());
    assert forall|j: int|
        0 <= j < c.immutables.len() && (#[trigger] c.immutables[j]).counter
            <= s.immutable_counter implies all_current(
        c.index,
        entries_of(c.immutables[j].counter, c.immutables[j].data),
    ) by {
        assert(c.immutables[j] == p.immutables[j]);
        assert(j < end);
        lemma_current_segments(p, end, j);
    }
}

/// Rotation and compaction where they are due keep the structure, and the
/// index still matches the log and holds the same keys with the same
/// versions.
pub proof fn lemma_prepare(s: StoreModel, hole: Option<Seq<char>>)
    requires
        s.well_structured(),
        index_matches(s.index, s.log(), hole),
    ensures
        s.prepare().well_structured(),
        index_matches(s.prepare().index, s.prepare().log(), hole),
        same_versions(s.prepare().index, s.index),
        s.prepare().rotation_threshold == s.rotation_threshold,
        s.prepare().compaction_threshold == s.compaction_threshold,
        sets_within(s.prepare().log(), s.log()),
        transparent(s.prepare().log(), s.log(), hole),
{
    lemma_make_room(s);
    let r = s.make_room();
    if r.should_compact() {
        lemma_compact(r, hole);
    }
}

/// In a store that obeys its invariant, the keys of the contents are the
/// keys of the index.
pub proof fn lemma_contents_keys(s: StoreModel)
    requires
        s.wf(),
    ensures
        s.contents().dom() == s.index.dom(),
{
    assert(s.contents().dom() =~= s.index.dom());
}

/// What a `Set` at the end of the log does to the contents.
pub proof fn lemma_push_set_contents(log: Seq<LogEntry>, e: LogEntry)
    requires
        e.record is Put,
    ensures
        crate::log::contents(log.push(e)) == crate::log::contents(log).insert(
            e.record.key(),
            e.value(),
        ),
{
    let longer = log.push(e);
    assert(longer.drop_last() =~= log);
    assert forall|key: Seq<char>|
        latest(longer, key) == (if e.record.key() == key {
            Some(e)
        } else {
            #[trigger] latest(log, key)
        }) by {}
    assert(crate::log::contents(longer) =~= crate::log::contents(log).insert(
        e.record.key(),
        e.value(),
    ));
}

/// What a `Remove` at the end of the log does to the contents.
pub proof fn lemma_push_remove_contents(log: Seq<LogEntry>, e: LogEntry)
    requires
        e.record is Remove,
    ensures
        crate::log::contents(log.push(e)) == crate::log::contents(log).remove(e.record.key()),
{
    let longer = log.push(e);
    assert(longer.drop_last() =~= log);
    assert forall|key: Seq<char>|
        latest(longer, key) == (if e.record.key() == key {
            Some(e)
        } else {
            #[trigger] latest(log, key)
        }) by {}
    assert(crate::log::contents(longer) =~= crate::log::contents(log).remove(e.record.key()));
}

/// Two logs that give every key the same value have the same contents.
pub proof fn lemma_same_values_contents(x: Seq<LogEntry>, y: Seq<LogEntry>)
    requires
        same_values(x, y, None),
    ensures
        crate::log::contents(x) == crate::log::contents(y),
{
    assert forall|key: Seq<char>|
        (#[trigger] live(x, key) is Some) == (live(y, key) is Some) && (live(x, key) is Some
            ==> live(x, key).unwrap().value() == live(y, key).unwrap().value()) by {
        assert(!(None::<Seq<char>> == Some(key)));
        assert(live_value(x, key) == live_value(y, key));
    }
    assert(crate::log::contents(x) =~= crate::log::contents(y));
}

/// Can `set(key, value)` be carried out? The version of the key can still
/// grow, and the record reads back as it is written.
pub open spec fn can_set(s: StoreModel, key: Seq<char>, value: Seq<char>) -> bool {
    s.next_version(key) <= u64::MAX && crate::record::round_trips(s.set_record(key, value))
}

/// Can `remove(key)` be carried out? The store holds the key, and the
/// record reads back as it is written.
pub open spec fn can_remove(s: StoreModel, key: Seq<char>) -> bool {
    s.index.contains_key(key) && crate::record::round_trips(RecordModel::Remove { key })
}

/// Is the key new to the log or held by the index? Then a `Set` of it
/// carries a version above that of every `Set` of the key in the log.
pub open spec fn version_is_new(s: StoreModel, key: Seq<char>) -> bool {
    s.index.contains_key(key) || !has_set(s.log(), key)
}

/// What `set` does. The invariant holds behind it, the store holds the key
/// with the value, and it holds the keys it held and this one. Where the
/// versions of each key grow along the log, every other key keeps its
/// value, whatever was rotated and compacted; and they still grow behind the
/// `set` where the key is held by the index or new to the log.
pub proof fn lemma_set(s: StoreModel, key: Seq<char>, value: Seq<char>)
    requires
        s.wf(),
        can_set(s, key, value),
    ensures
        s.set(key, value).wf(),
        s.set(key, value).contents().contains_key(key),
        s.set(key, value).contents()[key] == value,
        s.set(key, value).contents().dom() == s.contents().dom().insert(key),
        versions_increase(s.log()) ==> s.set(key, value).contents() == s.contents().insert(
            key,
            value,
        ),
        versions_increase(s.log()) && version_is_new(s, key) ==> versions_increase(
            s.set(key, value).log(),
        ),
{
    let record = s.set_record(key, value);
    let text = crate::record::record_text(record).unwrap();
    lemma_matches_is_pointers(s.index, s.log());
    lemma_prepare(s, None);
    let p = s.prepare();
    lemma_write(p, text);
    let w = p.write(text);
    let entry = written_entry(p, text);
    let after = s.set(key, value);
    assert(after.index == p.index.insert(key, entry.pointer()));
    crate::replay::lemma_push_set_matches(p.index, p.log(), entry, None);
    assert(after.log() == w.log());
    lemma_matches_is_pointers(after.index, after.log());
    lemma_matches_is_pointers(p.index, p.log());
    lemma_push_set_contents(p.log(), entry);
    assert(p.wf());
    lemma_contents_keys(p);
    lemma_contents_keys(s);
    assert(p.index.dom() =~= s.index.dom());
    assert(after.contents().dom() =~= s.contents().dom().insert(key));
    if versions_increase(s.log()) {
        lemma_same_values_contents(p.log(), s.log());
        if version_is_new(s, key) {
            assert forall|i: int|
                0 <= i < p.log().len() && (#[trigger] p.log()[i]).record is Put
                    && p.log()[i].record.key() == key implies p.log()[i].pointer().version
                < entry.pointer().version by {
                assert(has_set(p.log(), key));
                assert(has_set(s.log(), key));
                assert(s.index.contains_key(key));
                assert(p.index.contains_key(key));
                crate::replay::lemma_versions_below_index(p.log(), p.index, i);
            }
            crate::replay::lemma_push_keeps_versions(p.log(), entry);
        }
    }
}

/// What `remove` does. The invariant holds behind it, the store does not
/// hold the key, and it holds the other keys it held. Where the versions of
/// each key grow along the log, every other key keeps its value, whatever
/// was rotated and compacted, and the versions still grow.
pub proof fn lemma_remove(s: StoreModel, key: Seq<char>)
    requires
        s.wf(),
        can_remove(s, key),
    ensures
        s.remove(key).wf(),
        !s.remove(key).contents().contains_key(key),
        s.remove(key).contents().dom() == s.contents().dom().remove(key),
        versions_increase(s.log()) ==> s.remove(key).contents() == s.contents().remove(key),
        versions_increase(s.log()) ==> versions_increase(s.remove(key).log()),
{
    let text = crate::record::record_text(RecordModel::Remove { key }).unwrap();
    lemma_matches_is_pointers(s.index, s.log());
    crate::replay::lemma_erase_matches(s.index, s.log(), key);
    let erased = StoreModel { index: s.index.remove(key), ..s };
    assert(erased.log() == s.log());
    lemma_prepare(erased, Some(key));
    let p = erased.prepare();
    lemma_write(p, text);
    let entry = written_entry(p, text);
    let after = s.remove(key);
    assert(after.log() == p.log().push(entry));
    crate::replay::lemma_push_remove_matches(p.index, p.log(), entry);
    lemma_matches_is_pointers(after.index, after.log());
    assert(!p.index.contains_key(key));
    lemma_push_remove_contents(p.log(), entry);
    lemma_contents_keys(after);
    lemma_contents_keys(s);
    assert(after.index.dom() =~= s.index.dom().remove(key));
    if versions_increase(s.log()) {
        crate::replay::lemma_push_keeps_versions(p.log(), entry);
        assert forall|k: Seq<char>|
            (#[trigger] after.contents().contains_key(k)) == s.contents().remove(key).contains_key(
                k,
            ) && (after.contents().contains_key(k) ==> after.contents()[k] == s.contents().remove(
                key,
            )[k]) by {
            if k != key {
                assert(live_value(p.log(), k) == live_value(s.log(), k));
            }
        }
        assert(after.contents() =~= s.contents().remove(key));
    }
}

/// Two logs with the same records, in order, have the same contents.
pub proof fn lemma_same_records_contents(x: Seq<LogEntry>, y: Seq<LogEntry>)
    requires
        crate::replay::same_records(x, y),
    ensures
        crate::log::contents(x) == crate::log::contents(y),
{
    assert forall|key: Seq<char>|
        (#[trigger] live(x, key) is Some) == (live(y, key) is Some) && (live(x, key) is Some
            ==> live(x, key).unwrap().value() == live(y, key).unwrap().value()) by {
        crate::replay::lemma_copies_mention(x, y, key);
    }
    assert(crate::log::contents(x) =~= crate::log::contents(y));
}

/// The index points at `Set` records: for every key that the index holds,
/// the record at the place it points to is a `Set` of that key, with the
/// version that the index holds and the value that the store has for the
/// key, and it is the last record of the log that speaks of the key.
pub proof fn law_index_points_at_sets(s: StoreModel, key: Seq<char>)
    requires
        s.wf(),
        s.fits(),
        s.index.contains_key(key),
    ensures
        s.contents().contains_key(key),
        s.record_at(s.index[key]) == Some(
            RecordModel::Put { key, value: s.contents()[key], version: s.index[key].version },
        ),
        latest(s.log(), key) is Some,
        latest(s.log(), key).unwrap().pointer() == s.index[key],
{
    let e = live(s.log(), key).unwrap();
    let at = lemma_latest_position(s.log(), key);
    lemma_log_readable(s, at);
}

/// The versions of each key still grow along the log behind a `set`, where
/// the index holds the key or the log holds no `Set` of it.
pub proof fn law_versions_kept_by_set(s: StoreModel, key: Seq<char>, value: Seq<char>)
    requires
        s.wf(),
        can_set(s, key, value),
        versions_increase(s.log()),
        version_is_new(s, key),
    ensures
        versions_increase(s.set(key, value).log()),
{
    lemma_set(s, key, value);
}

/// The versions of each key still grow along the log behind a `remove`.
pub proof fn law_versions_kept_by_remove(s: StoreModel, key: Seq<char>)
    requires
        s.wf(),
        can_remove(s, key),
        versions_increase(s.log()),
    ensures
        versions_increase(s.remove(key).log()),
{
    lemma_remove(s, key);
}

/// The journal leads to the directory: done to the directory as it was
/// when the journal was last taken, the actions of the journal give the
/// directory as the store holds it.
pub proof fn law_journal_leads_to_directory(s: StoreModel)
    requires
        s.wf(),
    ensures
        perform_all(s.synced, s.journal) == s.disk(),
{
}

/// Read-your-writes: after `set(key, value)` has succeeded, `get(key)`
/// returns the value, whatever the store held before and whatever was
/// rotated and compacted on the way.
pub proof fn law_read_your_writes(s: StoreModel, key: Seq<char>, value: Seq<char>)
    requires
        s.wf(),
        can_set(s, key, value),
        s.set(key, value).fits(),
    ensures
        s.set(key, value).get(key) == Ok::<Option<Seq<char>>, ()>(Some(value)),
{
    lemma_set(s, key, value);
    lemma_get_reads_contents(s.set(key, value), key);
}

/// Remove erases: after `remove(key)` has succeeded, `get(key)` returns
/// nothing.
pub proof fn law_remove_erases(s: StoreModel, key: Seq<char>)
    requires
        s.wf(),
        can_remove(s, key),
        s.remove(key).fits(),
    ensures
        s.remove(key).get(key) == Ok::<Option<Seq<char>>, ()>(None),
{
    lemma_remove(s, key);
    lemma_get_reads_contents(s.remove(key), key);
}

/// A key that was removed is held again once it is set.
pub proof fn law_set_after_remove(s: StoreModel, key: Seq<char>, value: Seq<char>)
    requires
        s.wf(),
        can_remove(s, key),
        can_set(s.remove(key), key, value),
        s.remove(key).set(key, value).fits(),
    ensures
        s.remove(key).set(key, value).get(key) == Ok::<Option<Seq<char>>, ()>(Some(value)),
{
    lemma_remove(s, key);
    law_read_your_writes(s.remove(key), key, value);
}

/// Repeated `set`: a second `set` of the same key to the same value leaves
/// the store with the contents that the first one left it with, so that
/// every `get` returns what it returned before. This holds where the
/// versions of each key grow along the log that the first `set` leaves.
pub proof fn law_repeated_set(s: StoreModel, key: Seq<char>, value: Seq<char>)
    requires
        s.wf(),
        can_set(s, key, value),
        can_set(s.set(key, value), key, value),
        versions_increase(s.set(key, value).log()),
    ensures
        s.set(key, value).set(key, value).contents() == s.set(key, value).contents(),
        s.set(key, value).set(key, value).fits() && s.set(key, value).fits() ==> forall|
            k: Seq<char>,
        | #[trigger] s.set(key, value).set(key, value).get(k) == s.set(key, value).get(k),
{
    let once = s.set(key, value);
    let twice = once.set(key, value);
    lemma_set(s, key, value);
    lemma_set(once, key, value);
    assert(twice.contents() =~= once.contents());
    if twice.fits() && once.fits() {
        assert forall|k: Seq<char>| #[trigger] twice.get(k) == once.get(k) by {
            lemma_get_reads_contents(once, k);
            lemma_get_reads_contents(twice, k);
        }
    }
}

/// The directory that a store writes can be opened: its names obey the
/// rules and its segments are sequences of well-formed records.
pub proof fn law_directory_opens(s: StoreModel)
    requires
        s.wf(),
    ensures
        crate::directory::names_consistent(
            crate::directory::directory_image(s.immutables, s.active),
        ),
        crate::directory::readable(crate::directory::directory_image(s.immutables, s.active)),
{
    let dir = crate::directory::directory_image(s.immutables, s.active);
    crate::directory::lemma_image(s.immutables, s.active);
    crate::log::lemma_scan_any_segment(0, s.active_id(), s.active, 0);
    assert forall|i: int|
        0 <= i < dir.len() && crate::directory::is_segment(#[trigger] dir[i]) implies scan(
        0,
        dir[i].data,
    ) is Some by {
        assert(i < s.immutables.len());
        crate::log::lemma_scan_any_segment(0, s.immutables[i].counter, s.immutables[i].data, 0);
    }
}

/// Persistence: the store that `open` makes of the directory that a store
/// has written holds the same segments and has the same contents, so that
/// every `get` returns what it returned before the store was closed.
pub proof fn law_reopen(s: StoreModel, t: StoreModel)
    requires
        s.wf(),
        t.opened_from(
            crate::directory::directory_image(s.immutables, s.active),
            t.rotation_threshold,
            t.compaction_threshold,
        ),
    ensures
        t.immutables == s.immutables,
        t.active == s.active,
        t.contents() == s.contents(),
        s.fits() ==> t.fits() && forall|key: Seq<char>| #[trigger] t.get(key) == s.get(key),
{
    let dir = crate::directory::directory_image(s.immutables, s.active);
    crate::directory::lemma_image(s.immutables, s.active);
    assert forall|i: int| 0 <= i < t.immutables.len() implies crate::directory::lists_segment(
        s.immutables,
        #[trigger] t.immutables[i],
    ) by {
        assert(crate::directory::holds_segment(dir, 0, t.immutables[i]));
        let d = choose|d: int|
            0 <= d < dir.len() && crate::directory::is_segment(#[trigger] dir[d])
                && crate::directory::segment_of(dir[d]) == t.immutables[i];
        assert(d < s.immutables.len());
        assert(s.immutables[d] == t.immutables[i]);
    }
    assert forall|j: int| 0 <= j < s.immutables.len() implies crate::directory::lists_segment(
        t.immutables,
        #[trigger] s.immutables[j],
    ) by {
        assert(crate::directory::is_segment(dir[j]));
        assert(crate::directory::lists_segment(
            t.immutables,
            crate::directory::segment_of(dir[j]),
        ));
    }
    crate::directory::lemma_ascending_unique(t.immutables, s.immutables);
    let x = entries_of(t.active_id(), t.active);
    let y = entries_of(s.active_id(), s.active);
    crate::log::lemma_scan_any_segment(t.active_id(), s.active_id(), s.active, 0);
    let head = segments_log(s.immutables);
    assert(crate::replay::same_records(head + x, head + y)) by {
        assert forall|m: int| 0 <= m < (head + x).len() implies (#[trigger] (head + x)[m]).record
            == (head + y)[m].record by {
            if m >= head.len() {
                assert((head + x)[m] == x[m - head.len()]);
                assert((head + y)[m] == y[m - head.len()]);
            }
        }
    }
    lemma_same_records_contents(t.log(), s.log());
    if s.fits() {
        assert forall|key: Seq<char>| #[trigger] t.get(key) == s.get(key) by {
            lemma_get_reads_contents(s, key);
            lemma_get_reads_contents(t, key);
        }
    }
}

/// Rotation is not seen: it keeps the invariant and the contents of the
/// store, so that every `get` returns what it returned before.
pub proof fn law_rotation_unseen(s: StoreModel)
    requires
        s.wf(),
        s.immutable_counter + 2 <= u64::MAX,
    ensures
        s.rotate().wf(),
        s.rotate().contents() == s.contents(),
        s.fits() ==> forall|key: Seq<char>| #[trigger] s.rotate().get(key) == s.get(key),
{
    lemma_rotate(s);
    if s.fits() {
        assert(s.rotate().fits()) by {
            let r = s.rotate();
            assert forall|i: int| 0 <= i < r.immutables.len() implies (
            #[trigger] r.immutables[i]).data.len() <= u64::MAX by {
                if i < s.immutables.len() {
                    assert(r.immutables[i] == s.immutables[i]);
                }
            }
        }
        assert forall|key: Seq<char>| #[trigger] s.rotate().get(key) == s.get(key) by {
            lemma_get_reads_contents(s, key);
            lemma_get_reads_contents(s.rotate(), key);
        }
    }
}

/// Compaction is not seen where the versions of each key grow along the
/// log: it keeps the invariant and the contents of the store, so that every
/// `get` returns what it returned before, and the versions still grow.
pub proof fn law_compaction_unseen(s: StoreModel)
    requires
        s.wf(),
        versions_increase(s.log()),
    ensures
        s.compact().wf(),
        s.compact().contents() == s.contents(),
        versions_increase(s.compact().log()),
        s.fits() && s.compact().fits() ==> forall|key: Seq<char>| #[trigger]
            s.compact().get(key) == s.get(key),
{
    lemma_matches_is_pointers(s.index, s.log());
    lemma_compact(s, None);
    lemma_matches_is_pointers(s.compact().index, s.compact().log());
    lemma_same_values_contents(s.compact().log(), s.log());
    if s.fits() && s.compact().fits() {
        assert forall|key: Seq<char>| #[trigger] s.compact().get(key) == s.get(key) by {
            lemma_get_reads_contents(s, key);
            lemma_get_reads_contents(s.compact(), key);
        }
    }
}

/// Compaction keeps the invariant whatever the versions are, and behind it
/// every record of an immutable segment that it found is current: what is
/// overwritten or removed has left those segments.
pub proof fn law_compaction_reclaims(s: StoreModel)
    requires
        s.wf(),
    ensures
        s.compact().wf(),
        reclaimed(s.compact(), s.immutable_counter),
        s.compact().since_compaction == 0,
{
    lemma_matches_is_pointers(s.index, s.log());
    lemma_compact(s, None);
    lemma_matches_is_pointers(s.compact().index, s.compact().log());
}

/// The versions of each key grow along the log of a store that was opened
/// on an empty directory.
pub proof fn law_versions_start(s: StoreModel)
    requires
        s.opened_from(Seq::empty(), s.rotation_threshold, s.compaction_threshold),
    ensures
        versions_increase(s.log()),
        s.log().len() == 0,
{
    let dir = Seq::<crate::directory::DirEntryModel>::empty();
    if s.immutables.len() > 0 {
        assert(crate::directory::holds_segment(dir, 0, s.immutables[0]));
    }
    assert(s.active =~= Seq::<u8>::empty());
    assert(s.log() =~= Seq::<LogEntry>::empty());
}

} // verus!
