//! The store engine: the directory held as bytes, the index, and the
//! operations `open`, `set`, `get` and `remove` with rotation and compaction.

use vstd::prelude::*;
use vstd::slice::{slice_subrange, slice_to_vec};
use vstd::string::StringExecFns;
use crate::directory::{
    action_models, collect_segments, directory_image, entry_models, holds_segment, is_segment,
    lists_segment, names_consistent, readable, segment_models, segment_of, Config, DirEntry,
    DiskAction, Segment,
};
use crate::engine::KvsEngine;
use crate::error::KvError;
use crate::index::{Index, ValuePointer};
use crate::laws::{
    can_remove, can_set, lemma_contents_keys, lemma_get_reads_contents, lemma_remove, lemma_rotate,
    lemma_segment_removed, lemma_set, lemma_write, one_record, version_is_new,
};
use crate::log::{
    entries_of, lemma_scan_any_segment, lemma_scan_append, lemma_scan_entries, pointers, read_log,
    scan, scan_from, LogEntry,
};
use crate::model::{
    current_entries, is_current, perform_all, segment_from, segments_log, ActionModel, DiskModel,
    SegmentModel, StoreModel,
};
use crate::names::{decimal_chars, decimal_string, segment_file_name};
use crate::replay::versions_increase;
use crate::record::{decode_record, encode_record, parse_record, Record};

verus! {

/// A key-value store over a directory of segments.
pub struct KvStore {
    rotation_threshold: usize,
    compaction_threshold: usize,
    immutables: Vec<Segment>,
    active: Vec<u8>,
    active_entries: usize,
    immutable_counter: u64,
    immutables_since_last_compaction: u64,
    index: Index,
    journal: Vec<DiskAction>,
    synced: Ghost<DiskModel>,
}

impl View for KvStore {
    type V = StoreModel;

    closed spec fn view(&self) -> StoreModel {
        StoreModel {
            rotation_threshold: self.rotation_threshold as nat,
            compaction_threshold: self.compaction_threshold as nat,
            immutables: segment_models(self.immutables@),
            active: self.active@,
            active_entries: self.active_entries as nat,
            immutable_counter: self.immutable_counter,
            since_compaction: self.immutables_since_last_compaction as nat,
            index: self.index@,
            journal: action_models(self.journal@),
            synced: self.synced@,
        }
    }
}

/// Replays the immutable segments into the index, by ascending counter.
fn read_immutable_logs(index: &mut Index, segments: &Vec<Segment>) -> (r: Result<(), KvError>)
    requires
        old(index)@ == pointers(Seq::<LogEntry>::empty()),
    ensures
        match r {
            Ok(()) => {
                &&& forall|j: int|
                    0 <= j < segments@.len() ==> scan(
                        (#[trigger] segment_models(segments@)[j]).counter,
                        segment_models(segments@)[j].data,
                    ) is Some
                &&& final(index)@ == pointers(segments_log(segment_models(segments@)))
            },
            Err(e) => {
                &&& exists|j: int|
                    0 <= j < segments@.len() && scan(
                        (#[trigger] segment_models(segments@)[j]).counter,
                        segment_models(segments@)[j].data,
                    ) is None
                &&& e is SerializationError
            },
        },
{
    let ghost models = segment_models(segments@);
    let mut j: usize = 0;
    assert(models.take(0) =~= Seq::<SegmentModel>::empty());
    while j < segments.len()
        invariant
            j <= segments.len(),
            models == segment_models(segments@),
            index@ == pointers(segments_log(models.take(j as int))),
            forall|m: int|
                0 <= m < j ==> scan((#[trigger] models[m]).counter, models[m].data) is Some,
        decreases segments.len() - j,
    {
        assert(models[j as int] == segments@[j as int]@);
        let ghost before = segments_log(models.take(j as int));
        proof {
            assert(models.take(j + 1).drop_last() =~= models.take(j as int));
            assert(models.take(j + 1).last() == models[j as int]);
        }
        match read_log(index, segments[j].counter, segments[j].data.as_slice(), Ghost(before)) {
            Ok(_) => {},
            Err(e) => {
                return Err(e);
            },
        }
        j += 1;
    }
    assert(models.take(j as int) =~= models);
    Ok(())
}

impl KvStore {
    /// Opens the store on the files of a directory, with rotation after 150
    /// records and compaction after 5 rotations.
    pub fn open(entries: Vec<DirEntry>) -> (r: Result<KvStore, KvError>)
        ensures
            match r {
                Ok(store) => {
                    &&& names_consistent(entry_models(entries@))
                    &&& readable(entry_models(entries@))
                    &&& store@.opened_from(entry_models(entries@), 150, 5)
                },
                Err(e) => if !names_consistent(entry_models(entries@)) {
                    e is Consistency
                } else {
                    !readable(entry_models(entries@)) && e is SerializationError
                },
            },
    {
        KvStore::open_with(entries, Config::standard())
    }

    /// Opens the store on the files of a directory.
    ///
    /// The files with the extension `.immutable` are the immutable segments;
    /// the stem of each must denote its counter. They are replayed by
    /// ascending counter and `db.active` after them: a `Set` points its key
    /// at the record, a `Remove` takes its key out of the index. A directory
    /// whose names break the rules is refused with a `Consistency` error,
    /// and one with a segment that is not a sequence of well-formed records
    /// with a `SerializationError`.
    pub fn open_with(entries: Vec<DirEntry>, config: Config) -> (r: Result<KvStore, KvError>)
        ensures
            match r {
                Ok(store) => {
                    &&& names_consistent(entry_models(entries@))
                    &&& readable(entry_models(entries@))
                    &&& store@.opened_from(
                        entry_models(entries@),
                        config.rotation(),
                        config.compaction(),
                    )
                },
                Err(e) => if !names_consistent(entry_models(entries@)) {
                    e is Consistency
                } else {
                    !readable(entry_models(entries@)) && e is SerializationError
                },
            },
    {
        let ghost dir = entry_models(entries@);
        let (segments, active) = match collect_segments(entries) {
            Ok(found) => found,
            Err(e) => {
                return Err(e);
            },
        };
        let ghost models = segment_models(segments@);
        let highest: u64 = if segments.len() == 0 {
            0
        } else {
            segments[segments.len() - 1].counter
        };
        proof {
            assert forall|j: int| 0 <= j < models.len() implies (#[trigger] models[j]).counter
                < u64::MAX && models[j].counter <= highest by {
                assert(holds_segment(dir, 0, models[j]));
                assert(models[models.len() - 1] == segments@[segments@.len() - 1]@);
            }
        }
        let mut index = Index::new();
        assert(index@ =~= pointers(Seq::<LogEntry>::empty()));
        match read_immutable_logs(&mut index, &segments) {
            Ok(()) => {},
            Err(e) => {
                proof {
                    let j = choose|j: int|
                        0 <= j < models.len() && scan(
                            (#[trigger] models[j]).counter,
                            models[j].data,
                        ) is None;
                    assert(holds_segment(dir, 0, models[j]));
                    let i = choose|i: int|
                        0 <= i < dir.len() && is_segment(#[trigger] dir[i]) && segment_of(dir[i])
                            == models[j];
                    lemma_scan_any_segment(0, models[j].counter, dir[i].data, 0);
                }
                return Err(e);
            },
        }
        proof {
            lemma_scan_any_segment(0, (highest + 1) as u64, active@, 0);
        }
        let active_entries = match read_log(
            &mut index,
            highest + 1,
            active.as_slice(),
            Ghost(segments_log(models)),
        ) {
            Ok(count) => count,
            Err(e) => {
                return Err(e);
            },
        };
        proof {
            assert forall|i: int| 0 <= i < dir.len() && is_segment(#[trigger] dir[i]) implies scan(
                0,
                dir[i].data,
            ) is Some by {
                assert(lists_segment(models, segment_of(dir[i])));
                let j = choose|j: int|
                    0 <= j < models.len() && #[trigger] models[j] == segment_of(dir[i]);
                lemma_scan_any_segment(0, models[j].counter, dir[i].data, 0);
            }
        }
        let rotation_threshold = config.rotation_threshold();
        let compaction_threshold = config.compaction_threshold();
        let active_len: usize = active.len();
        let store = KvStore {
            rotation_threshold,
            compaction_threshold,
            immutables: segments,
            active,
            active_entries,
            immutable_counter: highest,
            immutables_since_last_compaction: 0,
            index,
            journal: Vec::new(),
            synced: Ghost(DiskModel { immutables: models, active: active@ }),
        };
        proof {
            assert(store@.immutables == models);
            assert(store@.journal =~= Seq::<ActionModel>::empty());
        }
        Ok(store)
    }

    /// The files of the directory as the store holds it: one for each
    /// immutable segment, by ascending counter, and `db.active` last.
    pub fn entries(&self) -> (out: Vec<DirEntry>)
        ensures
            entry_models(out@) == directory_image(self@.immutables, self@.active),
    {
        let mut out: Vec<DirEntry> = Vec::new();
        let mut i: usize = 0;
        while i < self.immutables.len()
            invariant
                i <= self.immutables.len(),
                out@.len() == i,
                forall|j: int|
                    0 <= j < i ==> (#[trigger] out@[j])@ == directory_image(
                        self@.immutables,
                        self@.active,
                    )[j],
            decreases self.immutables.len() - i,
        {
            assert(self@.immutables[i as int] == self.immutables@[i as int]@);
            let segment = &self.immutables[i];
            out.push(
                DirEntry {
                    name: segment_file_name(segment.counter),
                    data: slice_to_vec(segment.data.as_slice()),
                },
            );
            i += 1;
        }
        proof {
            reveal_strlit("db.active");
        }
        out.push(
            DirEntry {
                name: String::from_str("db.active"),
                data: slice_to_vec(self.active.as_slice()),
            },
        );
        assert(entry_models(out@) =~= directory_image(self@.immutables, self@.active));
        out
    }

    /// Hands out what the store has done to its directory since the journal
    /// was last taken, or since the store was opened: the actions that bring
    /// the directory on disk in line with the store, in order.
    pub fn take_journal(&mut self) -> (actions: Vec<DiskAction>)
        requires
            old(self)@.wf(),
        ensures
            final(self)@.wf(),
            action_models(actions@) == old(self)@.journal,
            perform_all(old(self)@.synced, action_models(actions@)) == old(self)@.disk(),
            final(self)@ == (StoreModel {
                journal: Seq::empty(),
                synced: old(self)@.disk(),
                ..old(self)@
            }),
    {
        let mut actions: Vec<DiskAction> = Vec::new();
        std::mem::swap(&mut self.journal, &mut actions);
        self.synced = Ghost(DiskModel { immutables: self@.immutables, active: self@.active });
        proof {
            assert(self@.journal =~= Seq::<ActionModel>::empty());
            assert(self@.log() == old(self)@.log());
        }
        actions
    }

    /// Adds a key-value mapping to the store, or gives the key a new value.
    ///
    /// The record carries version 0 where the index does not hold the key,
    /// and the version after the indexed one where it does. It is appended to
    /// the active segment, after rotation and compaction where they are due,
    /// and the index is pointed at it. A record that would not read back is
    /// refused with a `SerializationError`, and a key whose version cannot
    /// grow any more with a `Consistency` error; in both cases the store
    /// stays as it was.
    pub fn set(&mut self, key: String, value: String) -> (r: Result<(), KvError>)
        requires
            old(self)@.wf(),
        ensures
            final(self)@.wf(),
            match r {
                Ok(()) => {
                    &&& can_set(old(self)@, key@, value@)
                    &&& final(self)@ == old(self)@.set(key@, value@)
                    &&& final(self)@.contents().contains_key(key@)
                    &&& final(self)@.contents()[key@] == value@
                    &&& final(self)@.contents().dom() == old(self)@.contents().dom().insert(key@)
                    &&& versions_increase(old(self)@.log()) ==> final(self)@.contents()
                        == old(self)@.contents().insert(key@, value@)
                    &&& versions_increase(old(self)@.log()) && version_is_new(old(self)@, key@)
                        ==> versions_increase(final(self)@.log())
                },
                Err(e) => {
                    &&& !can_set(old(self)@, key@, value@)
                    &&& final(self)@ == old(self)@
                    &&& if old(self)@.next_version(key@) > u64::MAX {
                        e is Consistency
                    } else {
                        e is SerializationError
                    }
                },
            },
    {
        let version: u64 = match self.index.lookup(key.as_str()) {
            Some(p) => {
                if p.version == u64::MAX {
                    return Err(
                        KvError::Consistency(String::from_str("the version of the key is exhausted")),
                    );
                }
                p.version + 1
            },
            None => 0,
        };
        let indexed_key = key.clone();
        let record = Record::Put { key, value, version };
        assert(record@ == old(self)@.set_record(key@, value@));
        let text = match encode_record(&record) {
            Ok(text) => text,
            Err(e) => {
                return Err(e);
            },
        };
        let ghost written = text@;
        assert(one_record(written));
        let offset = self.append(text, false);
        let ghost appended = self@;
        assert(appended == old(self)@.append(written, false));
        let pointer = ValuePointer { segment: self.immutable_counter + 1, offset, version };
        self.index.upsert(indexed_key, pointer);
        assert(self@ == (StoreModel { index: appended.index.insert(key@, pointer), ..appended }));
        proof {
            lemma_set(old(self)@, key@, value@);
        }
        Ok(())
    }

    /// Returns the value of `key`, or `None` where the store does not hold
    /// the key.
    ///
    /// The index is asked for the key's pointer, and the record at that
    /// place is decoded. Where no segment or no record is found there, or
    /// the record is no `Set` of this key, the result is a `Consistency`
    /// error.
    pub fn get(&self, key: String) -> (r: Result<Option<String>, KvError>)
        requires
            self@.wf(),
        ensures
            match r {
                Ok(Some(value)) => self@.contents().contains_key(key@) && self@.contents()[key@]
                    == value@,
                Ok(None) => !self@.contents().contains_key(key@),
                Err(_) => false,
            },
            match r {
                Ok(Some(value)) => self@.get(key@) == Ok::<Option<Seq<char>>, ()>(Some(value@)),
                Ok(None) => self@.get(key@) == Ok::<Option<Seq<char>>, ()>(None),
                Err(e) => self@.get(key@) is Err && e is Consistency,
            },
    {
        proof {
            assert forall|i: int| 0 <= i < self@.immutables.len() implies (
            #[trigger] self@.immutables[i]).data.len() <= u64::MAX by {
                assert(self@.immutables[i] == self.immutables@[i]@);
                assert(self.immutables@[i].data.len() == self.immutables@[i].data@.len());
            }
            assert(self.active.len() == self.active@.len());
            lemma_get_reads_contents(self@, key@);
        }
        match self.index.lookup(key.as_str()) {
            None => Ok(None),
            Some(p) => {
                match self.segment_bytes(p.segment) {
                    None => Err(no_set_at(p.offset)),
                    Some(data) => {
                        if p.offset > data.len() as u64 {
                            return Err(no_set_at(p.offset));
                        }
                        match decode_record(data.as_slice(), p.offset as usize) {
                            Ok((Record::Put { key: found, value, .. }, _)) => {
                                if found == key {
                                    Ok(Some(value))
                                } else {
                                    Err(no_set_at(p.offset))
                                }
                            },
                            _ => Err(no_set_at(p.offset)),
                        }
                    },
                }
            },
        }
    }

    /// Removes `key` from the store.
    ///
    /// Fails with `KeyNotFound` where the index does not hold the key.
    /// Otherwise the key leaves the index and a `Remove` record is appended
    /// to the active segment, after rotation and compaction where they are
    /// due. A record that would not read back is refused with a
    /// `SerializationError`. On every error the store stays as it was.
    pub fn remove(&mut self, key: String) -> (r: Result<(), KvError>)
        requires
            old(self)@.wf(),
        ensures
            final(self)@.wf(),
            match r {
                Ok(()) => {
                    &&& can_remove(old(self)@, key@)
                    &&& final(self)@ == old(self)@.remove(key@)
                    &&& !final(self)@.contents().contains_key(key@)
                    &&& final(self)@.contents().dom() == old(self)@.contents().dom().remove(key@)
                    &&& versions_increase(old(self)@.log()) ==> final(self)@.contents()
                        == old(self)@.contents().remove(key@)
                    &&& versions_increase(old(self)@.log()) ==> versions_increase(
                        final(self)@.log(),
                    )
                },
                Err(e) => {
                    &&& !can_remove(old(self)@, key@)
                    &&& final(self)@ == old(self)@
                    &&& if !old(self)@.contents().contains_key(key@) {
                        e is KeyNotFound
                    } else {
                        e is SerializationError
                    }
                },
            },
    {
        proof {
            lemma_contents_keys(self@);
        }
        if self.index.lookup(key.as_str()).is_none() {
            return Err(KvError::KeyNotFound);
        }
        let record = Record::Remove { key };
        let text = encode_record(&record)?;
        match &record {
            Record::Remove { key } => {
                self.index.erase(key.as_str());
            },
            Record::Put { .. } => {},
        }
        self.append(text, false);
        proof {
            lemma_remove(old(self)@, key@);
        }
        Ok(())
    }

    /// Finds the bytes of the segment that the index calls `id`.
    fn segment_bytes(&self, id: u64) -> (found: Option<&Vec<u8>>)
        requires
            self@.immutable_counter < u64::MAX,
        ensures
            match found {
                Some(data) => self@.segment_data(id) == Some(data@),
                None => self@.segment_data(id) is None,
            },
    {
        if id == self.immutable_counter + 1 {
            return Some(&self.active);
        }
        let mut i: usize = 0;
        while i < self.immutables.len()
            invariant
                i <= self.immutables.len(),
                id != self@.active_id(),
                segment_from(self@.immutables, id, 0) == segment_from(self@.immutables, id, i as int),
            decreases self.immutables.len() - i,
        {
            assert(self@.immutables[i as int] == self.immutables@[i as int]@);
            if self.immutables[i].counter == id {
                assert(segment_from(self@.immutables, id, i as int) == Some(
                    self@.immutables[i as int].data,
                ));
                assert(self@.segment_data(id) == Some(self.immutables@[i as int].data@));
                return Some(&self.immutables[i].data);
            }
            i += 1;
        }
        None
    }

    /// Writes the text of one record at the end of the active segment and
    /// returns the offset at which the record starts.
    fn write(&mut self, text: Vec<u8>) -> (offset: u64)
        requires
            old(self)@.well_structured(),
            one_record(text@),
        ensures
            final(self)@ == old(self)@.write(text@),
            final(self)@.well_structured(),
            offset == old(self)@.active.len(),
    {
        proof {
            lemma_scan_entries(self@.active_id(), self@.active, 0);
            lemma_scan_append(self@.active_id(), self@.active, 0, text@);
            crate::record::lemma_parse_record_bounds(text@, 0);
            lemma_write(self@, text@);
        }
        let offset = self.active.len();
        let mut text = text;
        let ghost before = action_models(self.journal@);
        self.journal.push(DiskAction::Append(slice_to_vec(text.as_slice())));
        assert(action_models(self.journal@) =~= before.push(ActionModel::Append(text@)));
        self.active.append(&mut text);
        // Each record takes at least one byte, so the count stays below the length.
        let length: usize = self.active.len();
        assert(self.active_entries < length);
        self.active_entries = self.active_entries + 1;
        offset as u64
    }

    /// Renames the active segment to the immutable segment with the next
    /// counter and starts a new, empty active segment.
    fn rotate(&mut self)
        requires
            old(self)@.well_structured(),
            old(self)@.immutable_counter + 2 <= u64::MAX,
        ensures
            final(self)@ == old(self)@.rotate(),
            final(self)@.well_structured(),
    {
        self.immutable_counter = self.immutable_counter + 1;
        self.immutables_since_last_compaction = self.immutables_since_last_compaction + 1;
        let ghost before = action_models(self.journal@);
        self.journal.push(DiskAction::Rotate(self.immutable_counter));
        assert(action_models(self.journal@) =~= before.push(
            ActionModel::Rotate(self.immutable_counter),
        ));
        let mut data: Vec<u8> = Vec::new();
        std::mem::swap(&mut self.active, &mut data);
        self.immutables.push(Segment { counter: self.immutable_counter, data });
        self.active_entries = 0;
        proof {
            assert(self@.immutables =~= old(self)@.rotate().immutables);
            assert(self@.active =~= old(self)@.rotate().active);
            lemma_rotate(old(self)@);
        }
    }

    /// Rotates the active segment where rotation is due.
    fn make_room(&mut self)
        requires
            old(self)@.well_structured(),
        ensures
            final(self)@ == old(self)@.make_room(),
            final(self)@.well_structured(),
    {
        if self.active_entries >= self.rotation_threshold && self.immutable_counter < u64::MAX - 1 {
            self.rotate();
        }
    }

    /// Is compaction due?
    fn should_compact(&self) -> (due: bool)
        ensures
            due == self@.should_compact(),
    {
        self.immutables_since_last_compaction >= self.compaction_threshold as u64
    }

    /// Appends the text of one record to the active segment and returns the
    /// offset at which it starts. Before the text is written the active
    /// segment is rotated where rotation is due, and then, unless
    /// `no_compaction` is set, the immutable segments are compacted where
    /// compaction is due. Compaction itself appends with `no_compaction` set.
    fn append(&mut self, text: Vec<u8>, no_compaction: bool) -> (offset: u64)
        requires
            old(self)@.well_structured(),
            one_record(text@),
        ensures
            final(self)@ == old(self)@.append(text@, no_compaction),
            final(self)@.well_structured(),
            offset == final(self)@.active.len() - text@.len(),
        decreases
                (if no_compaction {
                    0int
                } else {
                    3int
                }),
    {
        self.make_room();
        if !no_compaction && self.should_compact() {
            self.compact();
        }
        self.write(text)
    }

    /// Compacts every immutable segment that the directory holds at this
    /// moment, by ascending counter, and starts the count of rotations anew.
    fn compact(&mut self)
        requires
            old(self)@.well_structured(),
        ensures
            final(self)@ == old(self)@.compact(),
            final(self)@.well_structured(),
        decreases 2int,
    {
        let count: usize = self.immutables.len();
        let mut remaining: usize = count;
        let mut i: usize = 0;
        while remaining > 0 && i < self.immutables.len()
            invariant
                self@.well_structured(),
                self@.compact_pass(i as int, remaining as nat) == old(self)@.compact_pass(
                    0,
                    count as nat,
                ),
            decreases remaining,
        {
            let rewritten = self.compact_file(i);
            if !rewritten {
                i += 1;
            }
            remaining -= 1;
        }
        self.immutables_since_last_compaction = 0;
    }

    /// Compacts the immutable segment at position `i`. A record of the
    /// segment is retained where it is a `Set` whose key the index holds
    /// with the same version, and dropped otherwise. Where nothing is
    /// dropped the segment stays untouched. Otherwise each retained record is
    /// appended to the active segment, the index is pointed at the copy, and
    /// the segment leaves the directory. Returns whether the segment left.
    fn compact_file(&mut self, i: usize) -> (rewritten: bool)
        requires
            old(self)@.well_structured(),
            i < old(self)@.immutables.len(),
        ensures
            final(self)@ == old(self)@.compact_segment(i as int),
            final(self)@.well_structured(),
            rewritten == !old(self)@.segment_is_clean(i as int),
        decreases 1int,
    {
        let ghost start = self@;
        let ghost id = self@.immutables[i as int].counter;
        let ghost data = self@.immutables[i as int].data;
        let ghost entries = entries_of(id, data);
        let ghost index = self@.index;
        assert(self@.immutables[i as int] == self.immutables@[i as int]@);
        assert(scan(id, data) == Some(entries));
        let (kept, dropped) = classify(self.immutables[i].data.as_slice(), &self.index, Ghost(id));
        if dropped == 0 {
            return false;
        }
        let ghost kept_log = kept_entries(kept@, id);
        proof {
            lemma_scan_entries(id, data, 0);
            lemma_current_entries(index, entries);
        }
        let mut j: usize = 0;
        while j < kept.len()
            invariant
                j <= kept.len(),
                i < self@.immutables.len(),
                self@.immutables[i as int] == (SegmentModel { counter: id, data }),
                self@ == start.migrate_all(data, kept_log, j as nat),
                self@.well_structured(),
                kept_log == kept_entries(kept@, id),
                forall|m: int|
                    0 <= m < kept_log.len() ==> {
                        let e = #[trigger] kept_log[m];
                        &&& e.record is Put
                        &&& 0 <= e.offset < e.end <= data.len()
                        &&& parse_record(data, e.offset) == Some((e.record, e.end))
                    },
            decreases kept.len() - j,
        {
            let ghost e = kept_log[j as int];
            assert(e == kept@[j as int].entry(id));
            assert(self@.immutables[i as int] == self.immutables@[i as int]@);
            let text = slice_to_vec(
                slice_subrange(self.immutables[i].data.as_slice(), kept[j].start, kept[j].end),
            );
            proof {
                crate::record::lemma_parse_record_local(data, text@, -e.offset, e.offset);
            }
            let ghost before = self@;
            let offset = self.append(text, true);
            match &kept[j].record {
                Record::Put { key, version, .. } => {
                    let pointer = ValuePointer {
                        segment: self.immutable_counter + 1,
                        offset,
                        version: *version,
                    };
                    self.index.upsert(key.clone(), pointer);
                },
                Record::Remove { .. } => {
                    // Only `Set` records are retained.
                    assert(false);
                },
            }
            assert(self@ == before.migrate(data, e));
            assert(self@.immutables[i as int] == before.immutables[i as int]);
            j += 1;
        }
        let ghost moved = self@;
        let dropped_segment = self.immutables.remove(i);
        let ghost before = action_models(self.journal@);
        self.journal.push(DiskAction::Delete(dropped_segment.counter));
        proof {
            assert(action_models(self.journal@) =~= before.push(ActionModel::Delete(id)));
            assert(self@.immutables =~= moved.immutables.remove(i as int));
            assert(self@ == moved.drop_segment(i as int));
            lemma_segment_removed(moved, i as int);
        }
        true
    }
}

/// The message of a pointer that leads to no `Set` record.
pub open spec fn no_set_message(offset: u64) -> Seq<char> {
    "No 'Set' command at offset "@ + decimal_chars(offset as nat)
}

/// The error of a pointer that leads to no `Set` record: a `Consistency`
/// error that names the offset.
fn no_set_at(offset: u64) -> (e: KvError)
    ensures
        e matches KvError::Consistency(msg) && msg@ == no_set_message(offset),
{
    let mut msg = String::from_str("No 'Set' command at offset ");
    msg.append(decimal_string(offset).as_str());
    KvError::Consistency(msg)
}

/// One step of a scan: where the scan from `pos` gives the entries from the
/// `k`th on and `pos` lies before the end, a record parses at `pos`, it is
/// the `k`th entry, and the scan from its end gives the entries after it.
proof fn lemma_scan_step(segment: u64, data: Seq<u8>, pos: int, entries: Seq<LogEntry>, k: int)
    requires
        0 <= pos < data.len(),
        0 <= k <= entries.len(),
        scan_from(segment, data, pos) == Some(entries.skip(k)),
    ensures
        parse_record(data, pos) is Some,
        k < entries.len(),
        pos < parse_record(data, pos).unwrap().1 <= data.len(),
        entries[k] == (LogEntry {
            segment,
            offset: pos,
            end: parse_record(data, pos).unwrap().1,
            record: parse_record(data, pos).unwrap().0,
        }),
        scan_from(segment, data, parse_record(data, pos).unwrap().1) == Some(entries.skip(k + 1)),
{
    let (record, end) = parse_record(data, pos).unwrap();
    crate::record::lemma_parse_record_bounds(data, pos);
    let rest = scan_from(segment, data, end).unwrap();
    let first = LogEntry { segment, offset: pos, end, record };
    assert(entries.skip(k) == seq![first] + rest);
    assert(entries.skip(k).len() > 0);
    assert(entries.skip(k)[0] == first);
    assert(rest =~= entries.skip(k + 1)) by {
        assert forall|m: int| 0 <= m < rest.len() implies rest[m] == entries.skip(k + 1)[m] by {
            assert(entries.skip(k)[m + 1] == rest[m]);
        }
    }
}

/// The scan of a segment ends where the segment ends.
proof fn lemma_scan_end(segment: u64, data: Seq<u8>, pos: int, entries: Seq<LogEntry>, k: int)
    requires
        pos >= data.len(),
        0 <= k <= entries.len(),
        scan_from(segment, data, pos) == Some(entries.skip(k)),
    ensures
        k == entries.len(),
{
    assert(entries.skip(k).len() == 0);
}

/// What one more entry adds to the retained entries.
proof fn lemma_current_step(index: Map<Seq<char>, ValuePointer>, entries: Seq<LogEntry>, k: int)
    requires
        0 <= k < entries.len(),
    ensures
        current_entries(index, entries.take(k + 1)) == (if is_current(index, entries[k]) {
            current_entries(index, entries.take(k)).push(entries[k])
        } else {
            current_entries(index, entries.take(k))
        }),
{
    assert(entries.take(k + 1).drop_last() =~= entries.take(k));
    assert(entries.take(k + 1).last() == entries[k]);
}

/// Reads a segment record by record and sorts its records into those that
/// compaction retains, which are returned in order with their extents, and
/// those that it drops, which are counted.
fn classify(data: &[u8], index: &Index, Ghost(id): Ghost<u64>) -> (out: (Vec<Kept>, usize))
    requires
        scan(id, data@) is Some,
    ensures
        kept_entries(out.0@, id) == current_entries(index@, entries_of(id, data@)),
        out.0@.len() + out.1 == entries_of(id, data@).len(),
{
    let ghost entries = entries_of(id, data@);
    let mut kept: Vec<Kept> = Vec::new();
    let mut dropped: usize = 0;
    let mut pos: usize = 0;
    let ghost mut k: int = 0;
    proof {
        assert(entries.skip(0) =~= entries);
        assert(entries.take(0) =~= Seq::<LogEntry>::empty());
        assert(kept_entries(kept@, id) =~= Seq::<LogEntry>::empty());
    }
    while pos < data.len()
        invariant
            0 <= k <= entries.len(),
            scan_from(id, data@, pos as int) == Some(entries.skip(k)),
            kept_entries(kept@, id) == current_entries(index@, entries.take(k)),
            dropped + kept.len() == k,
            k <= pos,
        decreases data.len() - pos,
    {
        proof {
            lemma_scan_step(id, data@, pos as int, entries, k);
            lemma_current_step(index@, entries, k);
        }
        match decode_record(data, pos) {
            Err(_) => {
                // A segment of a well-structured directory decodes to its end.
                assert(false);
                return (kept, dropped);
            },
            Ok((record, end)) => {
                let current = match &record {
                    Record::Put { key, version, .. } => match index.lookup(key.as_str()) {
                        Some(p) => p.version == *version,
                        None => false,
                    },
                    Record::Remove { .. } => false,
                };
                assert(current == is_current(index@, entries[k]));
                if current {
                    let ghost before = kept_entries(kept@, id);
                    kept.push(Kept { record, start: pos, end });
                    assert(kept_entries(kept@, id) =~= before.push(entries[k]));
                } else {
                    dropped += 1;
                }
                pos = end;
                proof {
                    k = k + 1;
                }
            },
        }
    }
    proof {
        lemma_scan_end(id, data@, pos as int, entries, k);
        assert(entries.take(k) =~= entries);
    }
    (kept, dropped)
}

/// A record that compaction retains, with its extent in the segment it
/// was read from.
struct Kept {
    record: Record,
    start: usize,
    end: usize,
}

impl Kept {
    spec fn entry(self, segment: u64) -> LogEntry {
        LogEntry { segment, offset: self.start as int, end: self.end as int, record: self.record@ }
    }
}

spec fn kept_entries(kept: Seq<Kept>, segment: u64) -> Seq<LogEntry> {
    Seq::new(kept.len(), |j: int| kept[j].entry(segment))
}

/// The retained entries are entries of the segment, and each is a `Set`.
proof fn lemma_current_entries(index: Map<Seq<char>, ValuePointer>, entries: Seq<LogEntry>)
    ensures
        current_entries(index, entries).len() <= entries.len(),
        forall|m: int|
            0 <= m < current_entries(index, entries).len() ==> {
                let e = #[trigger] current_entries(index, entries)[m];
                &&& is_current(index, e)
                &&& exists|j: int| 0 <= j < entries.len() && entries[j] == e
            },
    decreases entries.len(),
{
    if entries.len() > 0 {
        lemma_current_entries(index, entries.drop_last());
        let before = current_entries(index, entries.drop_last());
        let all = current_entries(index, entries);
        assert forall|m: int| 0 <= m < all.len() implies ({
            let e = #[trigger] all[m];
            &&& is_current(index, e)
            &&& exists|j: int| 0 <= j < entries.len() && entries[j] == e
        }) by {
            if m < before.len() {
                let j = choose|j: int|
                    0 <= j < entries.drop_last().len() && entries.drop_last()[j] == before[m];
                assert(entries[j] == all[m]);
            } else {
                assert(entries[entries.len() - 1] == all[m]);
            }
        }
    }
}

impl KvsEngine for KvStore {
    open spec fn valid(&self) -> bool {
        self@.wf()
    }

    open spec fn contents(&self) -> Map<Seq<char>, Seq<char>> {
        self@.contents()
    }

    /// `set` of the store: it succeeds exactly where the version of the key
    /// can still grow and the record reads back as it is written, and leaves
    /// the store as `StoreModel::set` says; otherwise the store stays as it was.
    fn set(&mut self, key: String, value: String) -> (r: Result<(), KvError>)
        ensures
            match r {
                Ok(()) => {
                    &&& can_set(old(self)@, key@, value@)
                    &&& final(self)@ == old(self)@.set(key@, value@)
                    &&& final(self)@.contents().dom() == old(self)@.contents().dom().insert(key@)
                    &&& versions_increase(old(self)@.log()) ==> final(self)@.contents()
                        == old(self)@.contents().insert(key@, value@)
                },
                Err(e) => {
                    &&& !can_set(old(self)@, key@, value@)
                    &&& final(self)@ == old(self)@
                    &&& if old(self)@.next_version(key@) > u64::MAX {
                        e is Consistency
                    } else {
                        e is SerializationError
                    }
                },
            },
    {
        KvStore::set(self, key, value)
    }

    /// `get` of the store: it never fails, leaves the store as it is, and
    /// returns the value that the store holds for the key, or `None` where
    /// it holds none.
    fn get(&mut self, key: String) -> (r: Result<Option<String>, KvError>)
        ensures
            final(self)@ == old(self)@,
            match r {
                Ok(Some(value)) => old(self)@.contents().contains_key(key@) && old(self)@.contents()[key@] == value@,
                Ok(None) => !old(self)@.contents().contains_key(key@),
                Err(_) => false,
            },
    {
        KvStore::get(self, key)
    }

    /// `remove` of the store: it succeeds exactly where the store holds the
    /// key and the record reads back as it is written, and leaves the store
    /// as `StoreModel::remove` says; otherwise the store stays as it was.
    fn remove(&mut self, key: String) -> (r: Result<(), KvError>)
        ensures
            match r {
                Ok(()) => {
                    &&& can_remove(old(self)@, key@)
                    &&& final(self)@ == old(self)@.remove(key@)
                    &&& final(self)@.contents().dom() == old(self)@.contents().dom().remove(key@)
                    &&& versions_increase(old(self)@.log()) ==> final(self)@.contents()
                        == old(self)@.contents().remove(key@)
                },
                Err(e) => {
                    &&& !can_remove(old(self)@, key@)
                    &&& final(self)@ == old(self)@
                    &&& if !old(self)@.contents().contains_key(key@) {
                        e is KeyNotFound
                    } else {
                        e is SerializationError
                    }
                },
            },
    {
        proof {
            lemma_contents_keys(self@);
        }
        KvStore::remove(self, key)
    }
}

} // verus!
