//! Sequences of mutations: the store behind any number of `set`s and
//! `remove`s, and what stays as it is all along.

use vstd::prelude::*;
use crate::laws::{
    can_remove, can_set, lemma_get_reads_contents, lemma_remove, lemma_set, version_is_new,
};
use crate::model::StoreModel;
use crate::replay::versions_increase;

verus! {

/// A mutation of the store.
pub enum Mutation {
    Put { key: Seq<char>, value: Seq<char> },
    Remove { key: Seq<char> },
}

/// The store behind a mutation.
pub open spec fn apply(s: StoreModel, m: Mutation) -> StoreModel {
    match m {
        Mutation::Put { key, value } => s.set(key, value),
        Mutation::Remove { key } => s.remove(key),
    }
}

/// Can the mutation be carried out, with the version of a `Set` above
/// every version of its key in the log, and can the counter of the segments
/// still grow?
pub open spec fn applicable(s: StoreModel, m: Mutation) -> bool {
    &&& s.immutable_counter + 2 <= u64::MAX
    &&& match m {
        Mutation::Put { key, value } => can_set(s, key, value) && version_is_new(s, key),
        Mutation::Remove { key } => can_remove(s, key),
    }
}

/// The store behind a sequence of mutations.
pub open spec fn run(s: StoreModel, ms: Seq<Mutation>) -> StoreModel
    decreases ms.len(),
{
    if ms.len() == 0 {
        s
    } else {
        apply(run(s, ms.drop_last()), ms.last())
    }
}

/// Can each mutation of the sequence be carried out in its turn?
pub open spec fn runs(s: StoreModel, ms: Seq<Mutation>) -> bool
    decreases ms.len(),
{
    if ms.len() == 0 {
        true
    } else {
        runs(s, ms.drop_last()) && applicable(run(s, ms.drop_last()), ms.last())
    }
}

/// The key that a mutation speaks of.
pub open spec fn key_of(m: Mutation) -> Seq<char> {
    match m {
        Mutation::Put { key, .. } => key,
        Mutation::Remove { key } => key,
    }
}

/// Does no mutation of the sequence speak of `key`?
pub open spec fn silent_on(ms: Seq<Mutation>, key: Seq<char>) -> bool {
    forall|i: int| 0 <= i < ms.len() ==> key_of(#[trigger] ms[i]) != key
}

/// A sequence of mutations keeps the invariant of the store, and the
/// versions of each key growing along its log.
pub proof fn lemma_run_keeps_invariant(s: StoreModel, ms: Seq<Mutation>)
    requires
        s.wf(),
        versions_increase(s.log()),
        runs(s, ms),
    ensures
        run(s, ms).wf(),
        versions_increase(run(s, ms).log()),
    decreases ms.len(),
{
    if ms.len() > 0 {
        lemma_run_keeps_invariant(s, ms.drop_last());
        let before = run(s, ms.drop_last());
        match ms.last() {
            Mutation::Put { key, value } => {
                lemma_set(before, key, value);
            },
            Mutation::Remove { key } => {
                lemma_remove(before, key);
            },
        }
    }
}

/// What the store holds for a key is not touched by mutations of other
/// keys, however many of them there are and whatever they rotate and
/// compact: the key is held behind them where it was held before them, and
/// with the same value. This holds where the versions of each key grow along
/// the log, and for mutations that keep them growing.
pub proof fn law_value_survives(s: StoreModel, ms: Seq<Mutation>, key: Seq<char>)
    requires
        s.wf(),
        versions_increase(s.log()),
        runs(s, ms),
        silent_on(ms, key),
    ensures
        run(s, ms).contents().contains_key(key) == s.contents().contains_key(key),
        s.contents().contains_key(key) ==> run(s, ms).contents()[key] == s.contents()[key],
        s.fits() && run(s, ms).fits() ==> run(s, ms).get(key) == s.get(key),
    decreases ms.len(),
{
    lemma_run_keeps_invariant(s, ms);
    if ms.len() > 0 {
        let shorter = ms.drop_last();
        assert(silent_on(shorter, key)) by {
            assert forall|i: int| 0 <= i < shorter.len() implies key_of(#[trigger] shorter[i])
                != key by {
                assert(shorter[i] == ms[i]);
            }
        }
        law_value_survives(s, shorter, key);
        lemma_run_keeps_invariant(s, shorter);
        let before = run(s, shorter);
        assert(key_of(ms[ms.len() - 1]) != key);
        match ms.last() {
            Mutation::Put { key: k, value } => {
                lemma_set(before, k, value);
            },
            Mutation::Remove { key: k } => {
                lemma_remove(before, k);
            },
        }
    }
    if s.fits() && run(s, ms).fits() {
        lemma_get_reads_contents(s, key);
        lemma_get_reads_contents(run(s, ms), key);
    }
}

/// The last write wins: once `set(key, value)` has succeeded, `get(key)`
/// returns the value behind any number of mutations of other keys.
pub proof fn law_last_write_wins(
    s: StoreModel,
    key: Seq<char>,
    value: Seq<char>,
    ms: Seq<Mutation>,
)
    requires
        s.wf(),
        versions_increase(s.log()),
        applicable(s, Mutation::Put { key, value }),
        runs(s.set(key, value), ms),
        silent_on(ms, key),
        run(s.set(key, value), ms).fits(),
    ensures
        run(s.set(key, value), ms).get(key) == Ok::<Option<Seq<char>>, ()>(Some(value)),
{
    lemma_set(s, key, value);
    let first = s.set(key, value);
    law_value_survives(first, ms, key);
    lemma_run_keeps_invariant(first, ms);
    lemma_get_reads_contents(run(first, ms), key);
}

/// A removed key stays removed: once `remove(key)` has succeeded,
/// `get(key)` returns nothing behind any number of mutations of other keys.
pub proof fn law_removed_stays_removed(s: StoreModel, key: Seq<char>, ms: Seq<Mutation>)
    requires
        s.wf(),
        versions_increase(s.log()),
        applicable(s, Mutation::Remove { key }),
        runs(s.remove(key), ms),
        silent_on(ms, key),
        run(s.remove(key), ms).fits(),
    ensures
        run(s.remove(key), ms).get(key) == Ok::<Option<Seq<char>>, ()>(None),
{
    lemma_remove(s, key);
    let first = s.remove(key);
    law_value_survives(first, ms, key);
    lemma_run_keeps_invariant(first, ms);
    lemma_get_reads_contents(run(first, ms), key);
}

} // verus!
