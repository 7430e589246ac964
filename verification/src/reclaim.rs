//! Space reclamation: how many mutations a record that is overwritten or
//! removed can stay in the directory.

use vstd::prelude::*;
use crate::history::{applicable, apply, run, runs, Mutation};
use crate::laws::{
    keeps_segments, lemma_compact, lemma_entry_text, lemma_make_room, lemma_prepare, lemma_remove,
    lemma_segment_removed, lemma_segments_log_origin, lemma_set, lemma_split_log, lemma_write,
    lies_in, log_at, log_before, log_behind, one_record, written_entry,
};
use crate::log::{entries_of, lemma_scan_entries, LogEntry};
use crate::model::{current_entries, is_current, segments_log, StoreModel};
use crate::record::{record_text, RecordModel};
use crate::replay::{
    has_set, index_matches, lemma_current_entries_hold, lemma_matches_is_pointers,
    lemma_versions_below_index, versions_increase,
};

verus! {

/// Is `e` an entry of `log`?
pub open spec fn has_entry(log: Seq<LogEntry>, e: LogEntry) -> bool {
    exists|i: int| 0 <= i < log.len() && #[trigger] log[i] == e
}

/// Is every entry of `after` an entry of `before`, or else a record written
/// behind offset `len` of the segment `id` or in a later segment?
pub open spec fn fresh(after: Seq<LogEntry>, before: Seq<LogEntry>, id: u64, len: nat) -> bool {
    forall|i: int|
        0 <= i < after.len() ==> has_entry(before, #[trigger] after[i]) || after[i].segment > id
            || (after[i].segment == id && after[i].offset >= len)
}

/// Has the store `t` moved on from the store `s`? Either its active
/// segment is a later one, or it is the same one and has not shrunk.
pub open spec fn ahead(s: StoreModel, t: StoreModel) -> bool {
    &&& t.rotation_threshold == s.rotation_threshold
    &&& t.compaction_threshold == s.compaction_threshold
    &&& t.immutable_counter >= s.immutable_counter
    &&& t.immutable_counter == s.immutable_counter ==> {
        &&& t.active.len() >= s.active.len()
        &&& t.active_entries >= s.active_entries
    }
}

/// Does the entry lie in the store's directory where a record can lie: in
/// a segment up to the active one, and below the end of the active one?
pub open spec fn placed(s: StoreModel, e: LogEntry) -> bool {
    e.segment < s.active_id() || (e.segment == s.active_id() && 0 <= e.offset < s.active.len())
}

/// Is the entry overwritten or removed? It is a `Remove`, or the index
/// does not hold its key, or holds it with a higher version.
pub open spec fn obsolete(s: StoreModel, e: LogEntry) -> bool {
    match e.record {
        RecordModel::Put { key, version, .. } => !s.index.contains_key(key) || version
            < s.index[key].version,
        RecordModel::Remove { .. } => true,
    }
}

/// Every entry of the log is placed.
pub proof fn lemma_log_placed(s: StoreModel, i: int)
    requires
        s.well_structured(),
        0 <= i < s.log().len(),
    ensures
        placed(s, s.log()[i]),
        s.log()[i].segment < s.active_id() ==> exists|j: int|
            0 <= j < s.immutables.len() && (#[trigger] s.immutables[j]).counter
                == s.log()[i].segment && has_entry(
                entries_of(s.immutables[j].counter, s.immutables[j].data),
                s.log()[i],
            ),
{
    let e = s.log()[i];
    let head = segments_log(s.immutables);
    if i < head.len() {
        let at = lemma_segments_log_origin(s.immutables, i);
        let segment = s.immutables[at.0];
        lemma_scan_entries(segment.counter, segment.data, 0);
        assert(entries_of(segment.counter, segment.data)[at.1] == e);
        assert(s.immutables[at.0].counter == e.segment);
    } else {
        lemma_scan_entries(s.active_id(), s.active, 0);
        assert(e == entries_of(s.active_id(), s.active)[i - head.len()]);
    }
}

/// What is fresh against a log stays fresh against an earlier one.
pub proof fn lemma_fresh_chain(
    last: Seq<LogEntry>,
    middle: Seq<LogEntry>,
    first: Seq<LogEntry>,
    s: StoreModel,
    t: StoreModel,
)
    requires
        fresh(last, middle, t.active_id(), t.active.len()),
        fresh(middle, first, s.active_id(), s.active.len()),
        ahead(s, t),
        s.immutable_counter < u64::MAX,
        t.immutable_counter < u64::MAX,
    ensures
        fresh(last, first, s.active_id(), s.active.len()),
{
    assert forall|i: int| 0 <= i < last.len() implies has_entry(first, #[trigger] last[i])
        || last[i].segment > s.active_id() || (last[i].segment == s.active_id() && last[i].offset
        >= s.active.len()) by {
        if has_entry(middle, last[i]) {
            let j = choose|j: int| 0 <= j < middle.len() && #[trigger] middle[j] == last[i];
            assert(has_entry(first, middle[j]) || middle[j].segment > s.active_id() || (
            middle[j].segment == s.active_id() && middle[j].offset >= s.active.len()));
        }
    }
}

/// Being ahead is carried along.
pub proof fn lemma_ahead_chain(s: StoreModel, t: StoreModel, u: StoreModel)
    requires
        ahead(s, t),
        ahead(t, u),
    ensures
        ahead(s, u),
{
}

/// One retained record moves: the log grows by a fresh entry, and the
/// store moves on.
pub proof fn lemma_migrate_fresh(s: StoreModel, data: Seq<u8>, e: LogEntry)
    requires
        s.well_structured(),
        lies_in(data, e),
    ensures
        s.migrate(data, e).well_structured(),
        fresh(s.migrate(data, e).log(), s.log(), s.active_id(), s.active.len()),
        ahead(s, s.migrate(data, e)),
        keeps_segments(s, s.migrate(data, e), s.immutables.len() as int),
{
    let text = data.subrange(e.offset, e.end);
    let r = s.make_room();
    lemma_make_room(s);
    lemma_entry_text(data, e);
    lemma_write(r, text);
    let m = s.migrate(data, e);
    let entry = written_entry(r, text);
    assert(m.log() == s.log().push(entry));
    assert forall|i: int| 0 <= i < m.log().len() implies has_entry(s.log(), #[trigger] m.log()[i])
        || m.log()[i].segment > s.active_id() || (m.log()[i].segment == s.active_id()
        && m.log()[i].offset >= s.active.len()) by {
        if i < s.log().len() {
            assert(s.log()[i] == m.log()[i]);
        }
    }
    assert forall|i: int| s.immutables.len() <= i < m.immutables.len() implies (
    #[trigger] m.immutables[i]).counter > s.immutable_counter by {
        if s.rotation_due() {
            assert(m.immutables[i] == s.rotate().immutables[i]);
        }
    }
}

/// The first `count` retained records move: the log grows by fresh
/// entries, and the store moves on.
pub proof fn lemma_migrate_all_fresh(s: StoreModel, data: Seq<u8>, kept: Seq<LogEntry>, count: nat)
    requires
        s.well_structured(),
        count <= kept.len(),
        forall|m: int| 0 <= m < kept.len() ==> lies_in(data, #[trigger] kept[m]),
    ensures
        s.migrate_all(data, kept, count).well_structured(),
        fresh(s.migrate_all(data, kept, count).log(), s.log(), s.active_id(), s.active.len()),
        ahead(s, s.migrate_all(data, kept, count)),
        keeps_segments(s, s.migrate_all(data, kept, count), s.immutables.len() as int),
    decreases count,
{
    if count == 0 {
        assert forall|i: int| 0 <= i < s.log().len() implies has_entry(
            s.log(),
            #[trigger] s.log()[i],
        ) by {}
    } else {
        lemma_migrate_all_fresh(s, data, kept, (count - 1) as nat);
        let p = s.migrate_all(data, kept, (count - 1) as nat);
        lemma_migrate_fresh(p, data, kept[count - 1]);
        let m = p.migrate(data, kept[count - 1]);
        lemma_fresh_chain(m.log(), p.log(), s.log(), s, p);
        lemma_ahead_chain(s, p, m);
        assert forall|i: int| 0 <= i < s.immutables.len() implies #[trigger] m.immutables[i]
            == s.immutables[i] by {
            assert(p.immutables[i] == s.immutables[i]);
            assert(m.immutables[i] == p.immutables[i]);
        }
        assert forall|i: int| s.immutables.len() <= i < m.immutables.len() implies (
        #[trigger] m.immutables[i]).counter > s.immutable_counter by {
            if i < p.immutables.len() {
                assert(m.immutables[i] == p.immutables[i]);
            }
        }
    }
}

/// One segment is compacted: every entry of the log is one that the log
/// held or a fresh one, and the store moves on.
pub proof fn lemma_compact_segment_fresh(s: StoreModel, i: int)
    requires
        s.well_structured(),
        0 <= i < s.immutables.len(),
    ensures
        s.compact_segment(i).well_structured(),
        fresh(s.compact_segment(i).log(), s.log(), s.active_id(), s.active.len()),
        ahead(s, s.compact_segment(i)),
{
    let segment = s.immutables[i];
    let entries = log_at(s, i);
    let kept = current_entries(s.index, entries);
    if s.segment_is_clean(i) {
        assert forall|k: int| 0 <= k < s.log().len() implies has_entry(
            s.log(),
            #[trigger] s.log()[k],
        ) by {}
    } else {
        lemma_current_entries_hold(s.index, entries);
        lemma_scan_entries(segment.counter, segment.data, 0);
        assert forall|m: int| 0 <= m < kept.len() implies lies_in(segment.data, #[trigger] kept[m]) by {
            let k = choose|k: int| 0 <= k < entries.len() && entries[k] == kept[m];
            assert(lies_in(segment.data, entries[k]));
        }
        lemma_migrate_all_fresh(s, segment.data, kept, kept.len());
        let m = s.migrate_all(segment.data, kept, kept.len());
        let c = s.compact_segment(i);
        assert(c == m.drop_segment(i));
        lemma_split_log(m, i);
        lemma_segment_removed(m, i);
        let a = log_before(m, i);
        let mid = log_at(m, i);
        let b = log_behind(m, i);
        assert(c.log() == a + b);
        assert forall|k: int| 0 <= k < c.log().len() implies has_entry(
            s.log(),
            #[trigger] c.log()[k],
        ) || c.log()[k].segment > s.active_id() || (c.log()[k].segment == s.active_id()
            && c.log()[k].offset >= s.active.len()) by {
            let k0 = if k < a.len() { k } else { k + mid.len() };
            assert(m.log()[k0] == c.log()[k]);
        }
    }
}

/// A pass of compaction: every entry of the log is one that the log held
/// or a fresh one, and the store moves on.
pub proof fn lemma_compact_pass_fresh(s: StoreModel, i: int, remaining: nat)
    requires
        s.well_structured(),
    ensures
        s.compact_pass(i, remaining).well_structured(),
        fresh(s.compact_pass(i, remaining).log(), s.log(), s.active_id(), s.active.len()),
        ahead(s, s.compact_pass(i, remaining)),
    decreases remaining,
{
    if remaining == 0 || i < 0 || i >= s.immutables.len() {
        assert forall|k: int| 0 <= k < s.log().len() implies has_entry(
            s.log(),
            #[trigger] s.log()[k],
        ) by {}
    } else if s.segment_is_clean(i) {
        lemma_compact_pass_fresh(s, i + 1, (remaining - 1) as nat);
    } else {
        lemma_compact_segment_fresh(s, i);
        let c = s.compact_segment(i);
        lemma_compact_pass_fresh(c, i, (remaining - 1) as nat);
        let done = c.compact_pass(i, (remaining - 1) as nat);
        lemma_fresh_chain(done.log(), c.log(), s.log(), s, c);
        lemma_ahead_chain(s, c, done);
    }
}

/// The number of mutations up to and with the one that rotates the active
/// segment.
pub open spec fn appends_until_rotation(s: StoreModel) -> nat {
    if s.active_entries < s.rotation_threshold {
        (s.rotation_threshold - s.active_entries + 1) as nat
    } else {
        1
    }
}

/// The number of mutations from one rotation to the next.
pub open spec fn rotation_period(s: StoreModel) -> nat {
    if s.rotation_threshold >= 1 {
        s.rotation_threshold
    } else {
        1
    }
}

/// The number of mutations up to and with the one that compacts.
pub open spec fn appends_until_compaction(s: StoreModel) -> nat {
    if s.since_compaction >= s.compaction_threshold {
        1
    } else {
        (appends_until_rotation(s) + (s.compaction_threshold - s.since_compaction - 1)
            * rotation_period(s)) as nat
    }
}

/// The most mutations that can pass from any state of the store up to and
/// with the one that compacts.
pub open spec fn longest_wait(s: StoreModel) -> nat {
    s.rotation_threshold + 1 + s.compaction_threshold * rotation_period(s)
}

/// No wait is longer than the longest.
pub proof fn lemma_wait_bound(s: StoreModel)
    ensures
        1 <= appends_until_rotation(s) <= s.rotation_threshold + 1,
        1 <= appends_until_compaction(s) <= longest_wait(s),
{
    let c = s.compaction_threshold as int;
    let n = s.since_compaction as int;
    let p = rotation_period(s) as int;
    if n < c {
        assert((c - n - 1) * p <= c * p) by (nonlinear_arith)
            requires
                0 <= n < c,
                p >= 1,
        ;
        assert((c - n - 1) * p >= 0) by (nonlinear_arith)
            requires
                0 <= n < c,
                p >= 1,
        ;
    } else {
        assert(c * p >= 0) by (nonlinear_arith)
            requires
                c >= 0,
                p >= 1,
        ;
    }
}

/// One mutation nearer to compaction: a mutation compacts where the wait
/// is 1, and leaves a wait of one less where it is longer.
pub proof fn lemma_wait_step(s: StoreModel, text: Seq<u8>)
    requires
        s.immutable_counter + 2 <= u64::MAX,
    ensures
        s.make_room().should_compact() == (appends_until_compaction(s) == 1),
        !s.make_room().should_compact() ==> appends_until_compaction(s.make_room().write(text)) + 1
            == appends_until_compaction(s),
{
    let c = s.compaction_threshold as int;
    let n = s.since_compaction as int;
    let p = rotation_period(s) as int;
    let r = s.make_room();
    let w = r.write(text);
    if n < c {
        assert((c - n - 1) * p >= 0) by (nonlinear_arith)
            requires
                0 <= n < c,
                p >= 1,
        ;
        if c - n - 1 > 0 {
            assert((c - n - 1) * p >= 1) by (nonlinear_arith)
                requires
                    c - n - 1 >= 1,
                    p >= 1,
            ;
            assert((c - n - 1) * p == p + (c - n - 2) * p) by (nonlinear_arith);
        } else {
            assert((c - n - 1) * p == 0) by (nonlinear_arith)
                requires
                    c - n - 1 == 0,
            ;
        }
        if !r.should_compact() {
            assert(rotation_period(w) == rotation_period(s));
            if s.rotation_due() {
                assert(w.since_compaction == n + 1);
                assert(w.active_entries == 1);
                assert(appends_until_rotation(w) == p);
                assert((c - (n + 1) - 1) * p == (c - n - 2) * p);
            } else {
                assert(w.since_compaction == n);
                assert(s.active_entries < s.rotation_threshold);
                assert(appends_until_rotation(w) + 1 == appends_until_rotation(s));
            }
        }
    }
}

/// Compaction: every entry of the log is one that the log held or a fresh
/// one, and the store moves on.
pub proof fn lemma_compact_fresh(s: StoreModel)
    requires
        s.well_structured(),
    ensures
        s.compact().well_structured(),
        fresh(s.compact().log(), s.log(), s.active_id(), s.active.len()),
        ahead(s, s.compact()),
{
    lemma_compact_pass_fresh(s, 0, s.immutables.len());
    let p = s.compact_pass(0, s.immutables.len());
    assert(s.compact().log() == p.log());
}

/// Rotation and compaction where they are due: every entry of the log is
/// one that the log held or a fresh one, the store moves on, and where its
/// active segment is still the same one, rotation was not due.
pub proof fn lemma_prepare_fresh(s: StoreModel)
    requires
        s.well_structured(),
    ensures
        s.prepare().well_structured(),
        fresh(s.prepare().log(), s.log(), s.active_id(), s.active.len()),
        ahead(s, s.prepare()),
        s.prepare().immutable_counter == s.immutable_counter ==> !s.rotation_due(),
{
    lemma_make_room(s);
    let r = s.make_room();
    assert(fresh(r.log(), s.log(), s.active_id(), s.active.len())) by {
        assert forall|i: int| 0 <= i < r.log().len() implies has_entry(
            s.log(),
            #[trigger] r.log()[i],
        ) by {
            assert(s.log()[i] == r.log()[i]);
        }
    }
    assert(ahead(s, r));
    if r.should_compact() {
        lemma_compact_fresh(r);
        lemma_fresh_chain(r.compact().log(), r.log(), s.log(), s, r);
        lemma_ahead_chain(s, r, r.compact());
    }
}

/// Compaction drops what is not current: an entry of an immutable segment
/// that compaction finds, and that is not current, is no entry of the log
/// behind it.
pub proof fn lemma_compact_drops(s: StoreModel, hole: Option<Seq<char>>, e: LogEntry)
    requires
        s.well_structured(),
        index_matches(s.index, s.log(), hole),
        e.segment <= s.immutable_counter,
        !is_current(s.index, e),
    ensures
        !has_entry(s.compact().log(), e),
{
    lemma_compact(s, hole);
    lemma_compact_fresh(s);
    let c = s.compact();
    if has_entry(c.log(), e) {
        let i = choose|i: int| 0 <= i < c.log().len() && #[trigger] c.log()[i] == e;
        lemma_log_placed(c, i);
        let j = choose|j: int|
            0 <= j < c.immutables.len() && (#[trigger] c.immutables[j]).counter == e.segment
                && has_entry(entries_of(c.immutables[j].counter, c.immutables[j].data), e);
        let entries = entries_of(c.immutables[j].counter, c.immutables[j].data);
        let k = choose|k: int| 0 <= k < entries.len() && #[trigger] entries[k] == e;
        assert(crate::replay::all_current(c.index, entries));
        assert(is_current(c.index, entries[k]));
        crate::laws::lemma_current_stable(c.index, s.index, entries);
        assert(false);
    }
}

/// How long the entry `x` can still be an entry of the log, counted in
/// mutations: while it lies in the active segment, up to the rotation of
/// that segment and then the longest wait for a compaction; while it lies in
/// an immutable segment, up to the next compaction; and no longer once it has
/// left the log.
pub open spec fn watch(s: StoreModel, x: LogEntry) -> nat {
    if x.segment >= s.active_id() {
        appends_until_rotation(s) + longest_wait(s)
    } else if has_entry(s.log(), x) {
        appends_until_compaction(s)
    } else {
        0
    }
}

/// One record is appended, after rotation and compaction where they are
/// due: an entry that is overwritten or removed comes by one mutation nearer
/// to leaving the log, and one that has left does not come back.
pub proof fn lemma_append_step(
    base: StoreModel,
    hole: Option<Seq<char>>,
    text: Seq<u8>,
    x: LogEntry,
)
    requires
        base.well_structured(),
        index_matches(base.index, base.log(), hole),
        one_record(text),
        base.immutable_counter + 2 <= u64::MAX,
        placed(base, x),
        has_entry(base.log(), x) ==> obsolete(base, x),
    ensures
        placed(base.prepare().write(text), x),
        has_entry(base.prepare().write(text).log(), x) ==> has_entry(base.log(), x),
        watch(base.prepare().write(text), x) == 0 || watch(base.prepare().write(text), x) + 1
            <= watch(base, x),
{
    let r = base.make_room();
    let p = base.prepare();
    let w = p.write(text);
    lemma_make_room(base);
    lemma_prepare_fresh(base);
    lemma_write(p, text);
    let entry = written_entry(p, text);
    assert(w.log() == p.log().push(entry));
    assert(w.log().last() == entry);
    assert(entry != x);
    if has_entry(w.log(), x) {
        let i = choose|i: int| 0 <= i < w.log().len() && #[trigger] w.log()[i] == x;
        assert(i < p.log().len());
        assert(p.log()[i] == x);
        assert(has_entry(base.log(), p.log()[i]));
    }
    lemma_wait_bound(w);
    lemma_wait_bound(base);
    if x.segment >= base.active_id() {
        if w.immutable_counter == base.immutable_counter {
            assert(base.active_entries < base.rotation_threshold);
        }
    } else if has_entry(base.log(), x) {
        if r.should_compact() {
            lemma_compact_drops(r, hole, x);
            assert(!has_entry(p.log(), x));
            if has_entry(w.log(), x) {
                let i = choose|i: int| 0 <= i < w.log().len() && #[trigger] w.log()[i] == x;
                assert(p.log()[i] == x);
            }
        } else {
            lemma_wait_step(base, text);
        }
    }
}

/// What is known of an entry that is followed through the mutations: the
/// store obeys its invariant, the versions of each key grow along its log,
/// the entry lies where a record can lie, and it is overwritten or removed
/// as long as it is an entry of the log.
pub open spec fn followed(s: StoreModel, x: LogEntry) -> bool {
    &&& s.wf()
    &&& versions_increase(s.log())
    &&& placed(s, x)
    &&& has_entry(s.log(), x) ==> obsolete(s, x)
}

/// One mutation: an entry that is overwritten or removed comes by one
/// mutation nearer to leaving the log, and one that has left does not come
/// back.
pub proof fn lemma_step(s: StoreModel, m: Mutation, x: LogEntry)
    requires
        followed(s, x),
        applicable(s, m),
    ensures
        followed(apply(s, m), x),
        watch(apply(s, m), x) == 0 || watch(apply(s, m), x) + 1 <= watch(s, x),
{
    lemma_matches_is_pointers(s.index, s.log());
    match m {
        Mutation::Put { key, value } => {
            let text = record_text(s.set_record(key, value)).unwrap();
            lemma_set(s, key, value);
            lemma_prepare(s, None);
            lemma_append_step(s, None, text, x);
            let w = s.prepare().write(text);
            let after = s.set(key, value);
            assert(after.log() == w.log());
            assert(watch(after, x) == watch(w, x));
            if has_entry(after.log(), x) {
                assert(obsolete(s, x));
                match x.record {
                    RecordModel::Put { key: k, version, .. } => {
                        if k == key {
                            let i = choose|i: int|
                                0 <= i < s.log().len() && #[trigger] s.log()[i] == x;
                            assert(has_set(s.log(), key));
                            assert(s.index.contains_key(key));
                        } else {
                            assert(s.prepare().index.contains_key(k) == s.index.contains_key(k));
                        }
                    },
                    RecordModel::Remove { .. } => {},
                }
            }
        },
        Mutation::Remove { key } => {
            let text = record_text(RecordModel::Remove { key }).unwrap();
            lemma_remove(s, key);
            crate::replay::lemma_erase_matches(s.index, s.log(), key);
            let erased = StoreModel { index: s.index.remove(key), ..s };
            assert(erased.log() == s.log());
            lemma_prepare(erased, Some(key));
            assert(has_entry(erased.log(), x) ==> obsolete(erased, x));
            lemma_append_step(erased, Some(key), text, x);
            let after = s.remove(key);
            assert(watch(erased, x) == watch(s, x));
            if has_entry(after.log(), x) {
                assert(obsolete(s, x));
                match x.record {
                    RecordModel::Put { key: k, version, .. } => {
                        assert(erased.prepare().index.contains_key(k) == erased.index.contains_key(
                            k,
                        ));
                    },
                    RecordModel::Remove { .. } => {},
                }
            }
        },
    }
}

/// A sequence of mutations: an entry that is overwritten or removed comes
/// nearer to leaving the log by every one of them.
pub proof fn lemma_run(s: StoreModel, ms: Seq<Mutation>, x: LogEntry)
    requires
        followed(s, x),
        runs(s, ms),
    ensures
        followed(run(s, ms), x),
        watch(run(s, ms), x) == 0 || watch(run(s, ms), x) + ms.len() <= watch(s, x),
    decreases ms.len(),
{
    if ms.len() > 0 {
        lemma_run(s, ms.drop_last(), x);
        lemma_step(run(s, ms.drop_last()), ms.last(), x);
    }
}

/// The most mutations that a record that is overwritten or removed can
/// survive: those up to the rotation of a full active segment, and then the
/// longest wait for a compaction.
pub open spec fn reclaim_bound(s: StoreModel) -> nat {
    s.rotation_threshold + 1 + longest_wait(s)
}

/// Space reclamation. An entry of the log that is not current, that is,
/// a `Set` that is overwritten or whose key is removed, or a `Remove`, is no
/// entry of the log any more once as many mutations as `reclaim_bound` says
/// have been carried out. This holds where the versions of each key grow
/// along the log, and for mutations that keep them growing.
pub proof fn law_space_reclaimed(s: StoreModel, ms: Seq<Mutation>, x: LogEntry)
    requires
        s.wf(),
        versions_increase(s.log()),
        has_entry(s.log(), x),
        !is_current(s.index, x),
        runs(s, ms),
        ms.len() >= reclaim_bound(s),
    ensures
        !has_entry(run(s, ms).log(), x),
{
    let i = choose|i: int| 0 <= i < s.log().len() && #[trigger] s.log()[i] == x;
    lemma_log_placed(s, i);
    lemma_matches_is_pointers(s.index, s.log());
    match x.record {
        RecordModel::Put { key, version, .. } => {
            if s.index.contains_key(key) {
                lemma_versions_below_index(s.log(), s.index, i);
            }
        },
        RecordModel::Remove { .. } => {},
    }
    assert(followed(s, x));
    lemma_wait_bound(s);
    lemma_run(s, ms, x);
    lemma_wait_bound(run(s, ms));
}

} // verus!
