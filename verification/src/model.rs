//! The store as a mathematical value, and each of its operations as a
//! function on that value. The executable store is proved to compute these
//! functions; what the operations preserve and what a reader observes is
//! proved of the functions themselves.

use vstd::prelude::*;
use crate::directory::{active_image, lists_segments, DirEntryModel};
use crate::index::ValuePointer;
use crate::log::{contents, entries_of, pointers, scan, LogEntry};
use crate::record::{parse_record, record_text, RecordModel};

verus! {

/// An immutable segment: its counter and its bytes.
pub struct SegmentModel {
    pub counter: u64,
    pub data: Seq<u8>,
}

/// Something that the store has done to its directory and that is still
/// to be done to the directory on disk.
pub enum ActionModel {
    /// The bytes are appended to the active segment.
    Append(Seq<u8>),
    /// The active segment is renamed to the immutable segment with the
    /// counter, and a new, empty active segment is created.
    Rotate(u64),
    /// The immutable segment with the counter is deleted.
    Delete(u64),
}

/// The segments of a directory.
pub struct DiskModel {
    pub immutables: Seq<SegmentModel>,
    pub active: Seq<u8>,
}

/// The segments without those that carry the counter.
pub open spec fn without_segment(immutables: Seq<SegmentModel>, counter: u64) -> Seq<SegmentModel>
    decreases immutables.len(),
{
    if immutables.len() == 0 {
        Seq::empty()
    } else if immutables.last().counter == counter {
        without_segment(immutables.drop_last(), counter)
    } else {
        without_segment(immutables.drop_last(), counter).push(immutables.last())
    }
}

/// The directory once the action is done to it.
pub open spec fn perform(disk: DiskModel, action: ActionModel) -> DiskModel {
    match action {
        ActionModel::Append(bytes) => DiskModel { active: disk.active + bytes, ..disk },
        ActionModel::Rotate(counter) => DiskModel {
            immutables: disk.immutables.push(SegmentModel { counter, data: disk.active }),
            active: Seq::empty(),
        },
        ActionModel::Delete(counter) => DiskModel {
            immutables: without_segment(disk.immutables, counter),
            ..disk
        },
    }
}

/// The directory once the actions are done to it, one after the other.
pub open spec fn perform_all(disk: DiskModel, actions: Seq<ActionModel>) -> DiskModel
    decreases actions.len(),
{
    if actions.len() == 0 {
        disk
    } else {
        perform(perform_all(disk, actions.drop_last()), actions.last())
    }
}

/// The state of a store: the directory it owns, its index and its counters.
pub struct StoreModel {
    /// The number of records in the active segment at which it is rotated.
    pub rotation_threshold: nat,
    /// The number of rotations after which the immutable segments are compacted.
    pub compaction_threshold: nat,
    /// The immutable segments, by ascending counter.
    pub immutables: Seq<SegmentModel>,
    /// The bytes of the active segment.
    pub active: Seq<u8>,
    /// The number of records in the active segment.
    pub active_entries: nat,
    /// The highest counter given to an immutable segment so far.
    pub immutable_counter: u64,
    /// The number of rotations since the last compaction.
    pub since_compaction: nat,
    /// The index.
    pub index: Map<Seq<char>, ValuePointer>,
    /// What the store has done to its directory since the journal was last
    /// taken, in order.
    pub journal: Seq<ActionModel>,
    /// The directory as it was when the journal was last taken.
    pub synced: DiskModel,
}

/// Is `e` the record that the index holds as current for its key, going by
/// the version?
pub open spec fn is_current(index: Map<Seq<char>, ValuePointer>, e: LogEntry) -> bool {
    match e.record {
        RecordModel::Put { key, version, .. } => index.contains_key(key) && index[key].version
            == version,
        RecordModel::Remove { .. } => false,
    }
}

/// The entries among `entries` that compaction retains, in order.
pub open spec fn current_entries(
    index: Map<Seq<char>, ValuePointer>,
    entries: Seq<LogEntry>,
) -> Seq<LogEntry>
    decreases entries.len(),
{
    if entries.len() == 0 {
        Seq::empty()
    } else {
        let before = current_entries(index, entries.drop_last());
        if is_current(index, entries.last()) {
            before.push(entries.last())
        } else {
            before
        }
    }
}

/// The entries of a run of segments, in order.
pub open spec fn segments_log(segments: Seq<SegmentModel>) -> Seq<LogEntry>
    decreases segments.len(),
{
    if segments.len() == 0 {
        Seq::empty()
    } else {
        segments_log(segments.drop_last()) + entries_of(
            segments.last().counter,
            segments.last().data,
        )
    }
}

/// The bytes of the first segment from position `from` on whose counter is `id`.
pub open spec fn segment_from(segments: Seq<SegmentModel>, id: u64, from: int) -> Option<Seq<u8>>
    decreases segments.len() - from,
{
    if from < 0 || from >= segments.len() {
        None
    } else if segments[from].counter == id {
        Some(segments[from].data)
    } else {
        segment_from(segments, id, from + 1)
    }
}

impl StoreModel {
    /// The identifier under which the index refers to the active segment:
    /// the counter that the segment will carry once it is rotated.
    pub open spec fn active_id(self) -> u64 {
        (self.immutable_counter + 1) as u64
    }

    /// The segments of the store's directory.
    pub open spec fn disk(self) -> DiskModel {
        DiskModel { immutables: self.immutables, active: self.active }
    }

    /// Every record of the directory, in the order in which `open` replays
    /// them: the immutable segments by ascending counter, then the active one.
    pub open spec fn log(self) -> Seq<LogEntry> {
        segments_log(self.immutables) + entries_of(self.active_id(), self.active)
    }

    /// The bytes of the segment that the index calls `id`.
    pub open spec fn segment_data(self, id: u64) -> Option<Seq<u8>> {
        if id == self.active_id() {
            Some(self.active)
        } else {
            segment_from(self.immutables, id, 0)
        }
    }

    /// The record that a pointer leads to.
    pub open spec fn record_at(self, p: ValuePointer) -> Option<RecordModel> {
        match self.segment_data(p.segment) {
            Some(data) => match parse_record(data, p.offset as int) {
                Some((record, _)) => Some(record),
                None => None,
            },
            None => None,
        }
    }

    /// What `get` finds for `key`: `Ok(None)` where the index does not hold
    /// the key, the value of the record that the index points at where that
    /// is a `Set` of this key, and `Err` otherwise.
    pub open spec fn get(self, key: Seq<char>) -> Result<Option<Seq<char>>, ()> {
        if !self.index.contains_key(key) {
            Ok(None)
        } else {
            match self.record_at(self.index[key]) {
                Some(RecordModel::Put { key: k, value, .. }) => if k == key {
                    Ok(Some(value))
                } else {
                    Err(())
                },
                _ => Err(()),
            }
        }
    }

    /// The keys that the store holds, each with its value: what replaying
    /// the log leads to.
    pub open spec fn contents(self) -> Map<Seq<char>, Seq<char>> {
        contents(self.log())
    }

    /// Does every segment fit the offsets of 64 bits that the index keeps?
    pub open spec fn fits(self) -> bool {
        &&& forall|i: int|
            0 <= i < self.immutables.len() ==> (#[trigger] self.immutables[i]).data.len()
                <= u64::MAX
        &&& self.active.len() <= u64::MAX
    }

    /// Is the active segment to be rotated before the next record is
    /// written? It is once it holds as many records as the threshold says,
    /// as long as the counter can still grow.
    pub open spec fn rotation_due(self) -> bool {
        self.active_entries >= self.rotation_threshold && self.immutable_counter + 2 <= u64::MAX
    }

    /// The active segment becomes the immutable segment with the next
    /// counter, and a new, empty active segment takes its place.
    pub open spec fn rotate(self) -> StoreModel {
        StoreModel {
            immutables: self.immutables.push(
                SegmentModel { counter: self.active_id(), data: self.active },
            ),
            active: Seq::empty(),
            active_entries: 0,
            immutable_counter: self.active_id(),
            since_compaction: self.since_compaction + 1,
            journal: self.journal.push(ActionModel::Rotate(self.active_id())),
            ..self
        }
    }

    /// Rotates where rotation is due.
    pub open spec fn make_room(self) -> StoreModel {
        if self.rotation_due() {
            self.rotate()
        } else {
            self
        }
    }

    /// The text of one record is written at the end of the active segment.
    pub open spec fn write(self, text: Seq<u8>) -> StoreModel {
        StoreModel {
            active: self.active + text,
            active_entries: self.active_entries + 1,
            journal: self.journal.push(ActionModel::Append(text)),
            ..self
        }
    }

    /// Is compaction due before the next record is written?
    pub open spec fn should_compact(self) -> bool {
        self.since_compaction >= self.compaction_threshold
    }

    /// One retained record moves to the active segment: room is made, the
    /// text is written, and the index points the key at the copy.
    pub open spec fn migrate(self, data: Seq<u8>, e: LogEntry) -> StoreModel {
        let text = data.subrange(e.offset, e.end);
        let s = self.make_room().write(text);
        let pointer = ValuePointer {
            segment: s.active_id(),
            offset: (s.active.len() - text.len()) as u64,
            version: e.pointer().version,
        };
        StoreModel { index: s.index.insert(e.record.key(), pointer), ..s }
    }

    /// The first `count` entries of `kept`, which lie in `data`, move to the
    /// active segment one after the other.
    pub open spec fn migrate_all(self, data: Seq<u8>, kept: Seq<LogEntry>, count: nat) -> StoreModel
        decreases count,
    {
        if count == 0 {
            self
        } else {
            self.migrate_all(data, kept, (count - 1) as nat).migrate(data, kept[count - 1])
        }
    }

    /// The immutable segment at position `i` leaves the directory.
    pub open spec fn drop_segment(self, i: int) -> StoreModel {
        StoreModel {
            immutables: self.immutables.remove(i),
            journal: self.journal.push(ActionModel::Delete(self.immutables[i].counter)),
            ..self
        }
    }

    /// Does the immutable segment at position `i` hold nothing but current records?
    pub open spec fn segment_is_clean(self, i: int) -> bool {
        let entries = entries_of(self.immutables[i].counter, self.immutables[i].data);
        current_entries(self.index, entries).len() == entries.len()
    }

    /// The immutable segment at position `i` is compacted: where all its
    /// records are current it stays as it is; otherwise its current records
    /// move to the active segment and the segment leaves the directory.
    pub open spec fn compact_segment(self, i: int) -> StoreModel {
        let segment = self.immutables[i];
        let kept = current_entries(self.index, entries_of(segment.counter, segment.data));
        if self.segment_is_clean(i) {
            self
        } else {
            self.migrate_all(segment.data, kept, kept.len()).drop_segment(i)
        }
    }

    /// `remaining` immutable segments are compacted in order, starting with
    /// the one at position `i`. A segment that stays keeps its position, so
    /// the next one is behind it; a segment that leaves makes way for the
    /// next one.
    pub open spec fn compact_pass(self, i: int, remaining: nat) -> StoreModel
        decreases remaining,
    {
        if remaining == 0 || i < 0 || i >= self.immutables.len() {
            self
        } else if self.segment_is_clean(i) {
            self.compact_pass(i + 1, (remaining - 1) as nat)
        } else {
            self.compact_segment(i).compact_pass(i, (remaining - 1) as nat)
        }
    }

    /// Every immutable segment that the directory holds at this moment is
    /// compacted, by ascending counter, and the count of rotations starts anew.
    pub open spec fn compact(self) -> StoreModel {
        StoreModel { since_compaction: 0, ..self.compact_pass(0, self.immutables.len()) }
    }

    /// The state in which a new record is written: rotation and compaction
    /// have run where they were due.
    pub open spec fn prepare(self) -> StoreModel {
        let s = self.make_room();
        if s.should_compact() {
            s.compact()
        } else {
            s
        }
    }

    /// The store after the text of one record is appended: first rotation
    /// and, unless it is suppressed, compaction run where they are due.
    pub open spec fn append(self, text: Seq<u8>, no_compaction: bool) -> StoreModel {
        if no_compaction {
            self.make_room().write(text)
        } else {
            self.prepare().write(text)
        }
    }

    /// The version that the next `Set` of `key` carries.
    pub open spec fn next_version(self, key: Seq<char>) -> nat {
        if self.index.contains_key(key) {
            (self.index[key].version + 1) as nat
        } else {
            0
        }
    }

    /// The record that `set` writes.
    pub open spec fn set_record(self, key: Seq<char>, value: Seq<char>) -> RecordModel {
        RecordModel::Put { key, value, version: self.next_version(key) as u64 }
    }

    /// The store after `set(key, value)`.
    pub open spec fn set(self, key: Seq<char>, value: Seq<char>) -> StoreModel {
        let text = record_text(self.set_record(key, value)).unwrap();
        let s = self.append(text, false);
        let pointer = ValuePointer {
            segment: s.active_id(),
            offset: (s.active.len() - text.len()) as u64,
            version: self.next_version(key) as u64,
        };
        StoreModel { index: s.index.insert(key, pointer), ..s }
    }

    /// The store after `remove(key)` of a key that it holds.
    pub open spec fn remove(self, key: Seq<char>) -> StoreModel {
        let erased = StoreModel { index: self.index.remove(key), ..self };
        erased.append(record_text(RecordModel::Remove { key }).unwrap(), false)
    }

    /// The structural rules of the directory: every segment is a sequence of
    /// well-formed records, the counters of the immutable segments ascend
    /// and none exceeds the highest counter given out, the counts are those
    /// of the segments, and the journal leads from the directory as it was
    /// when the journal was last taken to the directory as it is.
    pub open spec fn well_structured(self) -> bool {
        &&& self.compaction_threshold >= 1
        &&& self.immutable_counter < u64::MAX
        &&& forall|i: int|
            0 <= i < self.immutables.len() ==> scan(
                (#[trigger] self.immutables[i]).counter,
                self.immutables[i].data,
            ) is Some
        &&& forall|i: int, j: int|
            0 <= i < j < self.immutables.len() ==> (#[trigger] self.immutables[i]).counter < (
            #[trigger] self.immutables[j]).counter
        &&& forall|i: int|
            0 <= i < self.immutables.len() ==> (#[trigger] self.immutables[i]).counter
                <= self.immutable_counter
        &&& scan(self.active_id(), self.active) is Some
        &&& self.active_entries == entries_of(self.active_id(), self.active).len()
        &&& self.since_compaction <= self.immutable_counter
        &&& perform_all(self.synced, self.journal) == self.disk()
    }

    /// Is this the store that `open` makes of the directory `dir` with the
    /// given thresholds? Its immutable segments are those of the directory,
    /// its active segment is the directory's, the highest counter is that of
    /// the last immutable segment, or 0 where there is none, the index is
    /// what replaying the log leads to, no rotation is counted yet, and the
    /// journal is empty.
    pub open spec fn opened_from(
        self,
        dir: Seq<DirEntryModel>,
        rotation_threshold: nat,
        compaction_threshold: nat,
    ) -> bool {
        &&& self.wf()
        &&& self.rotation_threshold == rotation_threshold
        &&& self.compaction_threshold == compaction_threshold
        &&& lists_segments(dir, 0, self.immutables)
        &&& self.active == active_image(dir)
        &&& self.immutable_counter == (if self.immutables.len() == 0 {
            0
        } else {
            self.immutables.last().counter
        })
        &&& self.since_compaction == 0
        &&& self.journal == Seq::<ActionModel>::empty()
        &&& self.synced == self.disk()
    }

    /// The invariant of the store: the directory is well structured, and the
    /// index is what replaying the log leads to.
    pub open spec fn wf(self) -> bool {
        self.well_structured() && self.index == pointers(self.log())
    }
}

} // verus!
