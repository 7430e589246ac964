//! What replaying a log leads to, and how that changes when the log
//! changes: when an entry is added, and when a block of entries is taken out
//! of its middle after the entries still current have been copied to its end.

use vstd::prelude::*;
use crate::index::ValuePointer;
use crate::log::{latest, live, pointers, LogEntry};
use crate::model::{current_entries, is_current};

verus! {

/// The value that `key` has after `log` is replayed.
pub open spec fn live_value(log: Seq<LogEntry>, key: Seq<char>) -> Option<Seq<char>> {
    match live(log, key) {
        Some(e) => Some(e.value()),
        None => None,
    }
}

/// Is `index` what replaying `log` leads to, but for the key `hole`, which
/// the index does not hold whatever the log says of it?
pub open spec fn index_matches(
    index: Map<Seq<char>, ValuePointer>,
    log: Seq<LogEntry>,
    hole: Option<Seq<char>>,
) -> bool {
    forall|key: Seq<char>|
        if hole == Some(key) {
            !(#[trigger] index.contains_key(key))
        } else {
            &&& index.contains_key(key) == (live(log, key) is Some)
            &&& index.contains_key(key) ==> index[key] == live(log, key).unwrap().pointer()
        }
}

/// Do the versions of each key grow along the log? Of two `Set` records of
/// one key, the later one carries the higher version.
pub open spec fn versions_increase(log: Seq<LogEntry>) -> bool {
    forall|i: int, j: int|
        0 <= i < j < log.len() && (#[trigger] log[i]).record is Put && (
        #[trigger] log[j]).record is Put && log[i].record.key() == log[j].record.key()
            ==> log[i].pointer().version < log[j].pointer().version
}

/// Does `copies` hold the records of `entries`, in order?
pub open spec fn same_records(copies: Seq<LogEntry>, entries: Seq<LogEntry>) -> bool {
    &&& copies.len() == entries.len()
    &&& forall|m: int| 0 <= m < copies.len() ==> (#[trigger] copies[m]).record == entries[m].record
}

/// Does the log hold a `Set` of `key`?
pub open spec fn has_set(log: Seq<LogEntry>, key: Seq<char>) -> bool {
    exists|i: int| 0 <= i < log.len() && (#[trigger] log[i]).record is Put && log[i].record.key() == key
}

/// Does `after` hold a `Set` only of keys of which `before` holds one?
pub open spec fn sets_within(after: Seq<LogEntry>, before: Seq<LogEntry>) -> bool {
    forall|key: Seq<char>| #[trigger] has_set(after, key) ==> has_set(before, key)
}

/// Does every key but the hole have the same value after the one log is
/// replayed as after the other?
pub open spec fn same_values(x: Seq<LogEntry>, y: Seq<LogEntry>, hole: Option<Seq<char>>) -> bool {
    forall|key: Seq<char>| hole != Some(key) ==> #[trigger] live_value(x, key) == live_value(y, key)
}

/// What compaction does to the log where the versions of each key grow
/// along it: they still grow, and every key but the hole keeps its value.
pub open spec fn transparent(
    after: Seq<LogEntry>,
    before: Seq<LogEntry>,
    hole: Option<Seq<char>>,
) -> bool {
    versions_increase(before) ==> versions_increase(after) && same_values(after, before, hole)
}

/// Is every entry of `log` current?
pub open spec fn all_current(index: Map<Seq<char>, ValuePointer>, log: Seq<LogEntry>) -> bool {
    forall|i: int| 0 <= i < log.len() ==> is_current(index, #[trigger] log[i])
}

/// An index that matches a log with no hole is the index that replaying
/// the log leads to.
pub proof fn lemma_matches_is_pointers(index: Map<Seq<char>, ValuePointer>, log: Seq<LogEntry>)
    ensures
        index_matches(index, log, None) == (index == pointers(log)),
{
    if index_matches(index, log, None) {
        assert forall|key: Seq<char>| #[trigger]
            index.contains_key(key) == pointers(log).contains_key(key) && (index.contains_key(key)
                ==> index[key] == pointers(log)[key]) by {
            assert(!(None::<Seq<char>> == Some(key)));
        }
        assert(index =~= pointers(log));
    }
}

/// The last entry that speaks of a key in a log of two parts is the last
/// one in the second part, or, where the second part is silent, the last
/// one in the first.
pub proof fn lemma_latest_concat(x: Seq<LogEntry>, y: Seq<LogEntry>, key: Seq<char>)
    ensures
        latest(x + y, key) == (match latest(y, key) {
            Some(e) => Some(e),
            None => latest(x, key),
        }),
    decreases y.len(),
{
    if y.len() == 0 {
        assert(x + y =~= x);
    } else {
        assert((x + y).last() == y.last());
        assert((x + y).drop_last() =~= x + y.drop_last());
        lemma_latest_concat(x, y.drop_last(), key);
    }
}

/// The last entry that speaks of a key is an entry of the log, speaks of
/// the key, and no entry behind it does.
pub proof fn lemma_latest_position(log: Seq<LogEntry>, key: Seq<char>) -> (at: int)
    requires
        latest(log, key) is Some,
    ensures
        0 <= at < log.len(),
        log[at] == latest(log, key).unwrap(),
        log[at].record.key() == key,
        forall|j: int| at < j < log.len() ==> (#[trigger] log[j]).record.key() != key,
    decreases log.len(),
{
    if log.last().record.key() == key {
        log.len() - 1
    } else {
        let at = lemma_latest_position(log.drop_last(), key);
        assert(log.drop_last()[at] == log[at]);
        assert forall|j: int| at < j < log.len() implies (#[trigger] log[j]).record.key()
            != key by {
            if j < log.len() - 1 {
                assert(log.drop_last()[j] == log[j]);
            }
        }
        at
    }
}

/// A log of current entries speaks only of keys that the index holds.
pub proof fn lemma_current_keys(
    index: Map<Seq<char>, ValuePointer>,
    log: Seq<LogEntry>,
    key: Seq<char>,
)
    requires
        all_current(index, log),
        latest(log, key) is Some,
    ensures
        index.contains_key(key),
{
    let at = lemma_latest_position(log, key);
    assert(is_current(index, log[at]));
}

/// The retained entries of a block: each is current, each current entry of
/// the block is among them, and they keep their order.
pub proof fn lemma_current_entries_hold(
    index: Map<Seq<char>, ValuePointer>,
    entries: Seq<LogEntry>,
)
    ensures
        all_current(index, current_entries(index, entries)),
        forall|i: int|
            0 <= i < entries.len() && is_current(index, #[trigger] entries[i]) ==> latest(
                current_entries(index, entries),
                entries[i].record.key(),
            ) is Some,
        forall|m: int|
            0 <= m < current_entries(index, entries).len() ==> exists|i: int|
                0 <= i < entries.len() && entries[i] == #[trigger] current_entries(
                    index,
                    entries,
                )[m],
    decreases entries.len(),
{
    if entries.len() > 0 {
        let shorter = entries.drop_last();
        lemma_current_entries_hold(index, shorter);
        let before = current_entries(index, shorter);
        let all = current_entries(index, entries);
        assert forall|m: int| 0 <= m < all.len() implies is_current(index, #[trigger] all[m]) by {
            if m < before.len() {
                assert(all[m] == before[m]);
            }
        }
        assert forall|i: int|
            0 <= i < entries.len() && is_current(index, #[trigger] entries[i]) implies latest(
            all,
            entries[i].record.key(),
        ) is Some by {
            if i < entries.len() - 1 {
                assert(shorter[i] == entries[i]);
                if is_current(index, entries.last()) {
                    assert(all.drop_last() =~= before);
                }
            } else {
                assert(all.last() == entries[i]);
            }
        }
        assert forall|m: int| 0 <= m < all.len() implies exists|i: int|
            0 <= i < entries.len() && entries[i] == #[trigger] all[m] by {
            if m < before.len() {
                assert(all[m] == before[m]);
                let i = choose|i: int| 0 <= i < shorter.len() && shorter[i] == before[m];
                assert(entries[i] == all[m]);
            } else {
                assert(entries[entries.len() - 1] == all[m]);
            }
        }
    }
}

/// Copies speak of the keys that the entries they were made from speak of.
pub proof fn lemma_copies_mention(copies: Seq<LogEntry>, entries: Seq<LogEntry>, key: Seq<char>)
    requires
        same_records(copies, entries),
    ensures
        latest(copies, key) is Some == latest(entries, key) is Some,
        latest(copies, key) is Some ==> latest(copies, key).unwrap().record == latest(
            entries,
            key,
        ).unwrap().record,
    decreases copies.len(),
{
    if copies.len() > 0 {
        assert(copies.last().record == entries.last().record);
        assert(same_records(copies.drop_last(), entries.drop_last())) by {
            assert forall|m: int| 0 <= m < copies.drop_last().len() implies (
            #[trigger] copies.drop_last()[m]).record == entries.drop_last()[m].record by {
                assert(copies[m].record == entries[m].record);
            }
        }
        lemma_copies_mention(copies.drop_last(), entries.drop_last(), key);
    }
}

/// A `Set` that is added to the log points its key at itself.
pub proof fn lemma_push_set_matches(
    index: Map<Seq<char>, ValuePointer>,
    log: Seq<LogEntry>,
    e: LogEntry,
    hole: Option<Seq<char>>,
)
    requires
        index_matches(index, log, hole),
        e.record is Put,
        hole != Some(e.record.key()),
    ensures
        index_matches(index.insert(e.record.key(), e.pointer()), log.push(e), hole),
{
    let longer = log.push(e);
    let grown = index.insert(e.record.key(), e.pointer());
    assert(longer.drop_last() =~= log);
    assert forall|key: Seq<char>|
        if hole == Some(key) {
            !(#[trigger] grown.contains_key(key))
        } else {
            &&& grown.contains_key(key) == (live(longer, key) is Some)
            &&& grown.contains_key(key) ==> grown[key] == live(longer, key).unwrap().pointer()
        } by {
        assert(index.contains_key(key) || !index.contains_key(key));
        assert(latest(longer, key) == if e.record.key() == key {
            Some(e)
        } else {
            latest(log, key)
        });
    }
}

/// A `Remove` of the key that the index was made to forget closes the hole.
pub proof fn lemma_push_remove_matches(
    index: Map<Seq<char>, ValuePointer>,
    log: Seq<LogEntry>,
    e: LogEntry,
)
    requires
        e.record is Remove,
        index_matches(index, log, Some(e.record.key())),
    ensures
        index_matches(index, log.push(e), None),
{
    let longer = log.push(e);
    assert(longer.drop_last() =~= log);
    assert forall|key: Seq<char>|
        if None::<Seq<char>> == Some(key) {
            !(#[trigger] index.contains_key(key))
        } else {
            &&& index.contains_key(key) == (live(longer, key) is Some)
            &&& index.contains_key(key) ==> index[key] == live(longer, key).unwrap().pointer()
        } by {
        assert(index.contains_key(key) || !index.contains_key(key));
        assert(latest(longer, key) == if e.record.key() == key {
            Some(e)
        } else {
            latest(log, key)
        });
    }
}

/// Taking a key out of an index that matches the log leaves an index that
/// matches it but for that key.
pub proof fn lemma_erase_matches(
    index: Map<Seq<char>, ValuePointer>,
    log: Seq<LogEntry>,
    key: Seq<char>,
)
    requires
        index_matches(index, log, None),
    ensures
        index_matches(index.remove(key), log, Some(key)),
{
    let erased = index.remove(key);
    assert forall|k: Seq<char>|
        if Some(key) == Some(k) {
            !(#[trigger] erased.contains_key(k))
        } else {
            &&& erased.contains_key(k) == (live(log, k) is Some)
            &&& erased.contains_key(k) ==> erased[k] == live(log, k).unwrap().pointer()
        } by {
        assert(index.contains_key(k) || !index.contains_key(k));
        assert(!(None::<Seq<char>> == Some(k)));
    }
}

/// The heart of compaction. A log consists of the blocks `a`, `s` and `b`.
/// Every entry of `a` is current, and every current entry of `s` has a
/// later entry of its key in `b`. Then `s` can be taken out: the index still
/// matches, and every key but the hole is live with the same entry or not
/// at all.
pub proof fn lemma_block_removed(
    a: Seq<LogEntry>,
    s: Seq<LogEntry>,
    b: Seq<LogEntry>,
    index: Map<Seq<char>, ValuePointer>,
    hole: Option<Seq<char>>,
)
    requires
        index_matches(index, a + s + b, hole),
        all_current(index, a),
        forall|i: int|
            0 <= i < s.len() && is_current(index, #[trigger] s[i]) ==> latest(
                b,
                s[i].record.key(),
            ) is Some,
    ensures
        index_matches(index, a + b, hole),
        forall|key: Seq<char>|
            hole != Some(key) ==> #[trigger] live(a + b, key) == live(a + s + b, key),
{
    assert forall|key: Seq<char>| hole != Some(key) implies #[trigger] live(a + b, key) == live(
        a + s + b,
        key,
    ) by {
        lemma_latest_concat(a + s, b, key);
        lemma_latest_concat(a, b, key);
        lemma_latest_concat(a, s, key);
        if latest(b, key) is None && latest(s, key) is Some {
            let e = latest(s, key).unwrap();
            let at = lemma_latest_position(s, key);
            assert(index.contains_key(key) || !index.contains_key(key));
            if e.record is Put {
                assert(live(a + s + b, key) == Some(e));
                assert(index[key] == e.pointer());
                assert(is_current(index, s[at]));
                assert(false);
            } else {
                assert(live(a + s + b, key) is None);
                if latest(a, key) is Some {
                    lemma_current_keys(index, a, key);
                    assert(false);
                }
            }
        }
    }
    assert forall|key: Seq<char>|
        if hole == Some(key) {
            !(#[trigger] index.contains_key(key))
        } else {
            &&& index.contains_key(key) == (live(a + b, key) is Some)
            &&& index.contains_key(key) ==> index[key] == live(a + b, key).unwrap().pointer()
        } by {
        assert(index.contains_key(key) || !index.contains_key(key));
        if hole != Some(key) {
            assert(live(a + b, key) == live(a + s + b, key));
        }
    }
}

/// The positions in `entries` of the entries that compaction retains.
pub open spec fn current_positions(
    index: Map<Seq<char>, ValuePointer>,
    entries: Seq<LogEntry>,
) -> Seq<int>
    decreases entries.len(),
{
    if entries.len() == 0 {
        Seq::empty()
    } else {
        let before = current_positions(index, entries.drop_last());
        if is_current(index, entries.last()) {
            before.push(entries.len() - 1)
        } else {
            before
        }
    }
}

/// The retained entries stand in the block at ascending positions.
pub proof fn lemma_current_positions(index: Map<Seq<char>, ValuePointer>, entries: Seq<LogEntry>)
    ensures
        current_positions(index, entries).len() == current_entries(index, entries).len(),
        forall|m: int|
            0 <= m < current_positions(index, entries).len() ==> {
                let p = #[trigger] current_positions(index, entries)[m];
                &&& 0 <= p < entries.len()
                &&& current_entries(index, entries)[m] == entries[p]
                &&& is_current(index, entries[p])
            },
        forall|m: int, n: int|
            0 <= m < n < current_positions(index, entries).len() ==> current_positions(
                index,
                entries,
            )[m] < current_positions(index, entries)[n],
    decreases entries.len(),
{
    if entries.len() > 0 {
        let shorter = entries.drop_last();
        lemma_current_positions(index, shorter);
        let before = current_positions(index, shorter);
        let all = current_positions(index, entries);
        assert forall|m: int| 0 <= m < all.len() implies ({
            let p = #[trigger] all[m];
            &&& 0 <= p < entries.len()
            &&& current_entries(index, entries)[m] == entries[p]
            &&& is_current(index, entries[p])
        }) by {
            if m < before.len() {
                assert(all[m] == before[m]);
                assert(shorter[before[m]] == entries[before[m]]);
            }
        }
        assert forall|m: int, n: int| 0 <= m < n < all.len() implies all[m] < all[n] by {
            assert(all[m] == before[m]);
            if n < before.len() {
                assert(all[n] == before[n]);
            }
        }
    }
}

/// Where the versions of each key grow along the log, an entry that is
/// current is the live entry of its key, and no later entry speaks of the key.
pub proof fn lemma_current_is_live(
    log: Seq<LogEntry>,
    at: int,
    index: Map<Seq<char>, ValuePointer>,
    hole: Option<Seq<char>>,
)
    requires
        index_matches(index, log, hole),
        versions_increase(log),
        0 <= at < log.len(),
        is_current(index, log[at]),
    ensures
        live(log, log[at].record.key()) == Some(log[at]),
        hole != Some(log[at].record.key()),
        forall|j: int| at < j < log.len() ==> (#[trigger] log[j]).record.key() != log[at].record.key(),
{
    let e = log[at];
    let key = e.record.key();
    assert(index.contains_key(key));
    assert(hole != Some(key));
    assert(live(log, key) is Some);
    let q = lemma_latest_position(log, key);
    if at < q {
        assert(log[at].pointer().version < log[q].pointer().version);
        assert(index[key] == log[q].pointer());
        assert(false);
    }
    if q < at {
        assert(log[at].record.key() != key);
    }
}

/// Copies of the current entries of a block, added to the end of the log,
/// leave every key but the hole with the value it had, where the versions of
/// each key grow along the log.
pub proof fn lemma_copies_keep_values(
    a: Seq<LogEntry>,
    s: Seq<LogEntry>,
    b: Seq<LogEntry>,
    c: Seq<LogEntry>,
    index: Map<Seq<char>, ValuePointer>,
    hole: Option<Seq<char>>,
)
    requires
        index_matches(index, a + s + b, hole),
        versions_increase(a + s + b),
        same_records(c, current_entries(index, s)),
    ensures
        forall|key: Seq<char>|
            hole != Some(key) ==> #[trigger] live_value(a + s + b + c, key) == live_value(
                a + s + b,
                key,
            ),
{
    let old = a + s + b;
    let kept = current_entries(index, s);
    lemma_current_positions(index, s);
    assert forall|key: Seq<char>| hole != Some(key) implies #[trigger] live_value(old + c, key)
        == live_value(old, key) by {
        lemma_latest_concat(old, c, key);
        lemma_copies_mention(c, kept, key);
        if latest(c, key) is Some {
            let x = latest(c, key).unwrap();
            let m = lemma_latest_position(kept, key);
            let p = current_positions(index, s)[m];
            assert(kept[m] == s[p]);
            assert(old[a.len() + p] == s[p]);
            lemma_current_is_live(old, a.len() + p, index, hole);
            assert(x.record == kept[m].record);
        }
    }
}

/// Once a block is taken out of the log and copies of its current entries
/// stand at the end, the versions of each key still grow along the log.
pub proof fn lemma_compacted_versions(
    a: Seq<LogEntry>,
    s: Seq<LogEntry>,
    b: Seq<LogEntry>,
    c: Seq<LogEntry>,
    index: Map<Seq<char>, ValuePointer>,
    hole: Option<Seq<char>>,
)
    requires
        index_matches(index, a + s + b, hole),
        versions_increase(a + s + b),
        same_records(c, current_entries(index, s)),
    ensures
        versions_increase(a + b + c),
{
    let old = a + s + b;
    let new = a + b + c;
    let kept = current_entries(index, s);
    let positions = current_positions(index, s);
    lemma_current_positions(index, s);
    assert forall|i: int, j: int|
        0 <= i < j < new.len() && (#[trigger] new[i]).record is Put && (
        #[trigger] new[j]).record is Put && new[i].record.key()
            == new[j].record.key() implies new[i].pointer().version < new[j].pointer().version by {
        let outer = a.len() + b.len();
        let i0 = if i < a.len() { i } else { i + s.len() };
        if j < outer {
            let j0 = if j < a.len() { j } else { j + s.len() };
            assert(new[i] == old[i0]);
            assert(new[j] == old[j0]);
        } else if i < outer {
            let m = j - outer;
            let p = positions[m];
            assert(new[i] == old[i0]);
            assert(new[j] == c[m]);
            assert(c[m].record == kept[m].record);
            assert(kept[m] == s[p]);
            assert(old[a.len() + p] == s[p]);
            lemma_current_is_live(old, a.len() + p, index, hole);
            if i0 > a.len() + p {
                assert(old[i0].record.key() != s[p].record.key());
            }
            assert(old[i0].pointer().version < old[a.len() + p].pointer().version);
        } else {
            let m = i - outer;
            let n = j - outer;
            let p = positions[m];
            let q = positions[n];
            assert(new[i] == c[m]);
            assert(new[j] == c[n]);
            assert(c[m].record == kept[m].record);
            assert(c[n].record == kept[n].record);
            assert(kept[m] == s[p]);
            assert(kept[n] == s[q]);
            assert(old[a.len() + p] == s[p]);
            assert(old[a.len() + q] == s[q]);
            lemma_current_is_live(old, a.len() + p, index, hole);
            assert(old[a.len() + q].record.key() != s[p].record.key());
        }
    }
}

/// A `Set` of a key may be added to a log whose versions grow where its
/// version is above that of every `Set` of the key in the log.
pub proof fn lemma_push_keeps_versions(log: Seq<LogEntry>, e: LogEntry)
    requires
        versions_increase(log),
        e.record is Put ==> forall|i: int|
            0 <= i < log.len() && (#[trigger] log[i]).record is Put && log[i].record.key()
                == e.record.key() ==> log[i].pointer().version < e.pointer().version,
    ensures
        versions_increase(log.push(e)),
{
    let longer = log.push(e);
    assert forall|i: int, j: int|
        0 <= i < j < longer.len() && (#[trigger] longer[i]).record is Put && (
        #[trigger] longer[j]).record is Put && longer[i].record.key()
            == longer[j].record.key() implies longer[i].pointer().version
        < longer[j].pointer().version by {
        assert(longer[i] == log[i]);
        if j < log.len() {
            assert(longer[j] == log[j]);
        }
    }
}

/// Where the index matches the log and the versions grow, every `Set` of a
/// key that the index holds carries at most the version that the index
/// holds for the key.
pub proof fn lemma_versions_below_index(
    log: Seq<LogEntry>,
    index: Map<Seq<char>, ValuePointer>,
    i: int,
)
    requires
        index_matches(index, log, None),
        versions_increase(log),
        0 <= i < log.len(),
        log[i].record is Put,
        index.contains_key(log[i].record.key()),
    ensures
        log[i].pointer().version <= index[log[i].record.key()].version,
{
    let key = log[i].record.key();
    assert(!(None::<Seq<char>> == Some(key)));
    let q = lemma_latest_position(log, key);
    if i < q {
        assert(log[i].pointer().version < log[q].pointer().version);
    } else if q < i {
        assert(log[i].record.key() != key);
    }
}

/// A key that is live has a `Set` in the log.
pub proof fn lemma_live_has_set(log: Seq<LogEntry>, key: Seq<char>)
    requires
        live(log, key) is Some,
    ensures
        has_set(log, key),
{
    let at = lemma_latest_position(log, key);
    assert(log[at].record is Put && log[at].record.key() == key);
}

/// A log that grows by a `Set` of a key that it holds a `Set` of holds
/// `Set`s of the same keys as before.
pub proof fn lemma_push_sets_within(log: Seq<LogEntry>, e: LogEntry)
    requires
        e.record is Put ==> has_set(log, e.record.key()),
    ensures
        sets_within(log.push(e), log),
{
    let longer = log.push(e);
    assert forall|key: Seq<char>| #[trigger] has_set(longer, key) implies has_set(log, key) by {
        let i = choose|i: int|
            0 <= i < longer.len() && (#[trigger] longer[i]).record is Put
                && longer[i].record.key() == key;
        if i < log.len() {
            assert(log[i] == longer[i]);
        }
    }
}

/// A log with a block taken out holds `Set`s only of keys of which it held
/// one before.
pub proof fn lemma_block_sets_within(a: Seq<LogEntry>, s: Seq<LogEntry>, b: Seq<LogEntry>)
    ensures
        sets_within(a + b, a + s + b),
{
    let old = a + s + b;
    let new = a + b;
    assert forall|key: Seq<char>| #[trigger] has_set(new, key) implies has_set(old, key) by {
        let i = choose|i: int|
            0 <= i < new.len() && (#[trigger] new[i]).record is Put && new[i].record.key() == key;
        let i0 = if i < a.len() { i } else { i + s.len() };
        assert(old[i0] == new[i]);
    }
}

} // verus!
