//! The log reader: the records of a segment, each with the offset at which
//! it starts, and the state that replaying records leads to.

use vstd::prelude::*;
use crate::error::KvError;
use crate::index::{Index, ValuePointer};
use crate::record::{
    agree, decode_record, lemma_parse_record_bounds, lemma_parse_record_local, parse_record,
    Record, RecordModel,
};

verus! {

/// One record of the log, with the segment that holds it and its extent there.
pub struct LogEntry {
    /// The counter of the segment.
    pub segment: u64,
    /// The offset of the record's first byte.
    pub offset: int,
    /// The offset of the byte after the record.
    pub end: int,
    /// The record.
    pub record: RecordModel,
}

impl LogEntry {
    /// The pointer that the index holds for this entry while it is live.
    pub open spec fn pointer(self) -> ValuePointer {
        ValuePointer {
            segment: self.segment,
            offset: self.offset as u64,
            version: match self.record {
                RecordModel::Put { version, .. } => version,
                RecordModel::Remove { .. } => 0,
            },
        }
    }

    /// The value that the entry gives its key.
    pub open spec fn value(self) -> Seq<char> {
        match self.record {
            RecordModel::Put { value, .. } => value,
            RecordModel::Remove { .. } => Seq::empty(),
        }
    }
}

/// The records of `data` from `pos` on, in order, or `None` where the bytes
/// from `pos` to the end are not a sequence of well-formed records.
pub open spec fn scan_from(segment: u64, data: Seq<u8>, pos: int) -> Option<Seq<LogEntry>>
    decreases data.len() - pos,
{
    if pos >= data.len() {
        Some(Seq::empty())
    } else {
        match parse_record(data, pos) {
            Some((record, end)) => if pos < end {
                match scan_from(segment, data, end) {
                    Some(rest) => Some(seq![LogEntry { segment, offset: pos, end, record }] + rest),
                    None => None,
                }
            } else {
                None
            },
            None => None,
        }
    }
}

/// The records of a whole segment.
pub open spec fn scan(segment: u64, data: Seq<u8>) -> Option<Seq<LogEntry>> {
    scan_from(segment, data, 0)
}

/// The records of a whole segment; empty where the segment is malformed.
pub open spec fn entries_of(segment: u64, data: Seq<u8>) -> Seq<LogEntry> {
    match scan(segment, data) {
        Some(entries) => entries,
        None => Seq::empty(),
    }
}

/// The last entry of `log` that speaks of `key`.
pub open spec fn latest(log: Seq<LogEntry>, key: Seq<char>) -> Option<LogEntry>
    decreases log.len(),
{
    if log.len() == 0 {
        None
    } else if log.last().record.key() == key {
        Some(log.last())
    } else {
        latest(log.drop_last(), key)
    }
}

/// The entry that makes `key` live after `log` is replayed: the last entry
/// that speaks of the key, where that is a `Set`.
pub open spec fn live(log: Seq<LogEntry>, key: Seq<char>) -> Option<LogEntry> {
    match latest(log, key) {
        Some(e) => if e.record is Put {
            Some(e)
        } else {
            None
        },
        None => None,
    }
}

/// The index that replaying `log` from an empty index leads to.
pub open spec fn pointers(log: Seq<LogEntry>) -> Map<Seq<char>, ValuePointer> {
    Map::new(|key: Seq<char>| live(log, key) is Some, |key: Seq<char>| live(log, key).unwrap().pointer())
}

/// The keys and values that replaying `log` leads to.
pub open spec fn contents(log: Seq<LogEntry>) -> Map<Seq<char>, Seq<char>> {
    Map::new(|key: Seq<char>| live(log, key) is Some, |key: Seq<char>| live(log, key).unwrap().value())
}

/// What the scan of a segment holds: every entry lies in the segment, names
/// it, and is the record that the decoder finds at the entry's offset.
pub proof fn lemma_scan_entries(segment: u64, data: Seq<u8>, pos: int)
    requires
        0 <= pos,
        scan_from(segment, data, pos) is Some,
    ensures
        scan_from(segment, data, pos).unwrap().len() <= data.len() - pos || pos >= data.len(),
        forall|i: int|
            0 <= i < scan_from(segment, data, pos).unwrap().len() ==> {
                let e = #[trigger] scan_from(segment, data, pos).unwrap()[i];
                &&& e.segment == segment
                &&& pos <= e.offset < e.end <= data.len()
                &&& parse_record(data, e.offset) == Some((e.record, e.end))
            },
    decreases data.len() - pos,
{
    if pos < data.len() {
        let (record, end) = parse_record(data, pos).unwrap();
        lemma_parse_record_bounds(data, pos);
        lemma_scan_entries(segment, data, end);
        let rest = scan_from(segment, data, end).unwrap();
        let first = LogEntry { segment, offset: pos, end, record };
        let all = scan_from(segment, data, pos).unwrap();
        assert(all == seq![first] + rest);
        assert forall|i: int| 0 <= i < all.len() implies ({
            let e = #[trigger] all[i];
            &&& e.segment == segment
            &&& pos <= e.offset < e.end <= data.len()
            &&& parse_record(data, e.offset) == Some((e.record, e.end))
        }) by {
            if i > 0 {
                assert(all[i] == rest[i - 1]);
            }
        }
    }
}

/// Appending the text of one record to a well-formed segment appends one
/// entry to its scan, at the old end of the segment.
pub proof fn lemma_scan_append(segment: u64, data: Seq<u8>, pos: int, text: Seq<u8>)
    requires
        0 <= pos <= data.len(),
        scan_from(segment, data, pos) is Some,
        parse_record(text, 0) is Some,
        parse_record(text, 0).unwrap().1 == text.len(),
    ensures
        scan_from(segment, data + text, pos) == Some(
            scan_from(segment, data, pos).unwrap().push(
                LogEntry {
                    segment,
                    offset: data.len() as int,
                    end: (data.len() + text.len()) as int,
                    record: parse_record(text, 0).unwrap().0,
                },
            ),
        ),
    decreases data.len() - pos,
{
    let whole = data + text;
    lemma_parse_record_bounds(text, 0);
    if pos == data.len() {
        assert(agree(text, whole, data.len() as int, 0, text.len() as int)) by {
            assert forall|i: int| 0 <= i < text.len() implies whole[i + data.len()]
                == #[trigger] text[i] by {}
        }
        lemma_parse_record_local(text, whole, data.len() as int, 0);
        assert(scan_from(segment, whole, whole.len() as int) == Some(Seq::<LogEntry>::empty()));
        let e = LogEntry {
            segment,
            offset: data.len() as int,
            end: (data.len() + text.len()) as int,
            record: parse_record(text, 0).unwrap().0,
        };
        assert(seq![e] + Seq::<LogEntry>::empty() =~= Seq::<LogEntry>::empty().push(e));
        assert(scan_from(segment, data, pos).unwrap() =~= Seq::<LogEntry>::empty());
    } else {
        let (record, end) = parse_record(data, pos).unwrap();
        lemma_parse_record_bounds(data, pos);
        assert(agree(data, whole, 0, pos, end)) by {
            assert forall|i: int| pos <= i < end implies whole[i + 0] == #[trigger] data[i] by {}
        }
        lemma_parse_record_local(data, whole, 0, pos);
        lemma_scan_append(segment, data, end, text);
        let first = LogEntry { segment, offset: pos, end, record };
        let rest = scan_from(segment, data, end).unwrap();
        let e = LogEntry {
            segment,
            offset: data.len() as int,
            end: (data.len() + text.len()) as int,
            record: parse_record(text, 0).unwrap().0,
        };
        assert(seq![first] + rest.push(e) =~= (seq![first] + rest).push(e));
    }
}

/// What one more entry does to the index that replaying leads to: a `Set`
/// points its key at the entry, a `Remove` takes its key out.
pub proof fn lemma_pointers_push(log: Seq<LogEntry>, e: LogEntry)
    ensures
        pointers(log.push(e)) == (match e.record {
            RecordModel::Put { key, .. } => pointers(log).insert(key, e.pointer()),
            RecordModel::Remove { key } => pointers(log).remove(key),
        }),
{
    let longer = log.push(e);
    assert(longer.drop_last() =~= log);
    assert(longer.last() == e);
    let expected = match e.record {
        RecordModel::Put { key, .. } => pointers(log).insert(key, e.pointer()),
        RecordModel::Remove { key } => pointers(log).remove(key),
    };
    assert forall|key: Seq<char>| #[trigger]
        pointers(longer).contains_key(key) == expected.contains_key(key) && (pointers(
            longer,
        ).contains_key(key) ==> pointers(longer)[key] == expected[key]) by {
        assert(latest(longer, key) == if e.record.key() == key {
            Some(e)
        } else {
            latest(log, key)
        });
    }
    assert(pointers(longer) =~= expected);
}

/// Replays one segment into the index: each `Set` points its key at the
/// record, each `Remove` takes its key out. Returns the number of records
/// read, or a `SerializationError` where the segment is not a sequence of
/// well-formed records; the index is then of no further use.
pub(crate) fn read_log(
    index: &mut Index,
    segment: u64,
    data: &[u8],
    Ghost(before): Ghost<Seq<LogEntry>>,
) -> (r: Result<usize, KvError>)
    requires
        old(index)@ == pointers(before),
    ensures
        match r {
            Ok(count) => {
                &&& scan(segment, data@) is Some
                &&& count == entries_of(segment, data@).len()
                &&& final(index)@ == pointers(before + entries_of(segment, data@))
            },
            Err(e) => scan(segment, data@) is None && e is SerializationError,
        },
{
    let mut pos: usize = 0;
    let mut count: usize = 0;
    let ghost mut done: Seq<LogEntry> = Seq::empty();
    assert(before + done =~= before);
    while pos < data.len()
        invariant
            pos <= data.len(),
            count == done.len(),
            count <= pos,
            index@ == pointers(before + done),
            scan(segment, data@) == (match scan_from(segment, data@, pos as int) {
                Some(rest) => Some(done + rest),
                None => None,
            }),
        decreases data.len() - pos,
    {
        match decode_record(data, pos) {
            Err(e) => {
                return Err(e);
            },
            Ok((record, end)) => {
                let ghost entry = LogEntry {
                    segment,
                    offset: pos as int,
                    end: end as int,
                    record: record@,
                };
                proof {
                    lemma_parse_record_bounds(data@, pos as int);
                    lemma_pointers_push(before + done, entry);
                    assert((before + done).push(entry) =~= before + done.push(entry));
                    match scan_from(segment, data@, end as int) {
                        Some(rest) => {
                            assert(done + (seq![entry] + rest) =~= done.push(entry) + rest);
                        },
                        None => {},
                    }
                }
                match record {
                    Record::Put { key, version, .. } => {
                        index.upsert(key, ValuePointer { segment, offset: pos as u64, version });
                    },
                    Record::Remove { key } => {
                        index.erase(key.as_str());
                    },
                }
                proof {
                    done = done.push(entry);
                }
                pos = end;
                count += 1;
            },
        }
    }
    proof {
        assert(done + Seq::<LogEntry>::empty() =~= done);
    }
    Ok(count)
}

/// Whether a segment is a sequence of well-formed records does not depend
/// on the counter under which it is read.
pub proof fn lemma_scan_any_segment(a: u64, b: u64, data: Seq<u8>, pos: int)
    ensures
        scan_from(a, data, pos) is Some == scan_from(b, data, pos) is Some,
        scan_from(a, data, pos) is Some ==> scan_from(a, data, pos).unwrap().len() == scan_from(
            b,
            data,
            pos,
        ).unwrap().len(),
        scan_from(a, data, pos) is Some ==> forall|i: int|
            0 <= i < scan_from(a, data, pos).unwrap().len() ==> (#[trigger] scan_from(
                a,
                data,
                pos,
            ).unwrap()[i]).record == scan_from(b, data, pos).unwrap()[i].record,
    decreases data.len() - pos,
{
    if pos < data.len() {
        match parse_record(data, pos) {
            Some((record, end)) => {
                if pos < end {
                    lemma_scan_any_segment(a, b, data, end);
                    if scan_from(a, data, pos) is Some {
                        let xs = scan_from(a, data, pos).unwrap();
                        let ys = scan_from(b, data, pos).unwrap();
                        let xr = scan_from(a, data, end).unwrap();
                        let yr = scan_from(b, data, end).unwrap();
                        assert forall|i: int| 0 <= i < xs.len() implies (#[trigger] xs[i]).record
                            == ys[i].record by {
                            if i > 0 {
                                assert(xs[i] == xr[i - 1]);
                                assert(ys[i] == yr[i - 1]);
                            }
                        }
                    }
                }
            },
            None => {},
        }
    }
}

} // verus!
