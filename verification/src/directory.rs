//! The directory as the store finds it: a list of named files, out of which
//! the immutable segments are picked by their names and put in order.

use vstd::prelude::*;
use vstd::string::StringExecFns;
use crate::error::KvError;
use crate::log::scan;
use crate::model::{ActionModel, SegmentModel};
use crate::names::{
    active_name, consistency_error, counter_of, extract_counter, is_immutable_file,
    is_immutable_name, segment_name,
};

verus! {

/// A file of the directory: its name and what it holds.
#[derive(Debug)]
pub struct DirEntry {
    pub name: String,
    pub data: Vec<u8>,
}

/// A file of the directory as a mathematical value.
pub struct DirEntryModel {
    pub name: Seq<char>,
    pub data: Seq<u8>,
}

impl View for DirEntry {
    type V = DirEntryModel;

    open spec fn view(&self) -> DirEntryModel {
        DirEntryModel { name: self.name@, data: self.data@ }
    }
}

/// The files of a vector as mathematical values.
pub open spec fn entry_models(entries: Seq<DirEntry>) -> Seq<DirEntryModel> {
    Seq::new(entries.len(), |i: int| entries[i]@)
}

/// An immutable segment of the directory.
#[derive(Debug)]
pub struct Segment {
    /// The number in the segment's file name.
    pub counter: u64,
    /// The bytes of the segment.
    pub data: Vec<u8>,
}

impl View for Segment {
    type V = SegmentModel;

    open spec fn view(&self) -> SegmentModel {
        SegmentModel { counter: self.counter, data: self.data@ }
    }
}

/// The segments of a vector as mathematical values.
pub open spec fn segment_models(segments: Seq<Segment>) -> Seq<SegmentModel> {
    Seq::new(segments.len(), |i: int| segments[i]@)
}

/// Something that the store has done to its directory and that is still
/// to be done to the directory on disk.
#[derive(Debug, PartialEq, Eq)]
pub enum DiskAction {
    /// Append the bytes to `db.active`.
    Append(Vec<u8>),
    /// Rename `db.active` to the immutable segment with the counter, and
    /// create a new, empty `db.active`.
    Rotate(u64),
    /// Delete the immutable segment with the counter.
    Delete(u64),
}

impl View for DiskAction {
    type V = ActionModel;

    open spec fn view(&self) -> ActionModel {
        match self {
            DiskAction::Append(bytes) => ActionModel::Append(bytes@),
            DiskAction::Rotate(counter) => ActionModel::Rotate(*counter),
            DiskAction::Delete(counter) => ActionModel::Delete(*counter),
        }
    }
}

/// The actions of a vector as mathematical values.
pub open spec fn action_models(actions: Seq<DiskAction>) -> Seq<ActionModel> {
    Seq::new(actions.len(), |i: int| actions[i]@)
}

/// Is the file an immutable segment with a counter that can be read?
pub open spec fn is_segment(entry: DirEntryModel) -> bool {
    is_immutable_name(entry.name) && counter_of(entry.name) is Some
}

/// The immutable segment that a file holds.
pub open spec fn segment_of(entry: DirEntryModel) -> SegmentModel {
    SegmentModel { counter: counter_of(entry.name).unwrap(), data: entry.data }
}

/// Do the names of the directory obey the rules? Every file with the
/// extension `.immutable` has a stem that denotes a counter below the
/// largest number of 64 bits, no two of them have the same counter, and at
/// most one file is called `db.active`.
pub open spec fn names_consistent(dir: Seq<DirEntryModel>) -> bool {
    &&& forall|i: int|
        0 <= i < dir.len() && is_immutable_name((#[trigger] dir[i]).name) ==> counter_of(
            dir[i].name,
        ) is Some && counter_of(dir[i].name).unwrap() < u64::MAX
    &&& forall|i: int, j: int|
        0 <= i < j < dir.len() && is_immutable_name((#[trigger] dir[i]).name) && is_immutable_name(
            (#[trigger] dir[j]).name,
        ) ==> counter_of(dir[i].name) != counter_of(dir[j].name)
    &&& forall|i: int, j: int|
        0 <= i < j < dir.len() ==> !((#[trigger] dir[i]).name == active_name() && (
        #[trigger] dir[j]).name == active_name())
}

/// The bytes of the first file from position `from` on that is called
/// `db.active`; empty where there is none.
pub open spec fn active_from(dir: Seq<DirEntryModel>, from: int) -> Seq<u8>
    decreases dir.len() - from,
{
    if from < 0 || from >= dir.len() {
        Seq::empty()
    } else if dir[from].name == active_name() {
        dir[from].data
    } else {
        active_from(dir, from + 1)
    }
}

/// The bytes of the active segment of the directory; empty where the
/// directory has no file `db.active`.
pub open spec fn active_image(dir: Seq<DirEntryModel>) -> Seq<u8> {
    active_from(dir, 0)
}

/// Do the counters ascend strictly?
pub open spec fn ascending(segments: Seq<SegmentModel>) -> bool {
    forall|i: int, j: int|
        0 <= i < j < segments.len() ==> (#[trigger] segments[i]).counter < (
        #[trigger] segments[j]).counter
}

/// Is `segment` the segment of a file of `dir` at or behind position `from`?
pub open spec fn holds_segment(dir: Seq<DirEntryModel>, from: int, segment: SegmentModel) -> bool {
    exists|i: int|
        from <= i < dir.len() && is_segment(#[trigger] dir[i]) && segment_of(dir[i]) == segment
}

/// Is `segment` among `segments`?
pub open spec fn lists_segment(segments: Seq<SegmentModel>, segment: SegmentModel) -> bool {
    exists|j: int| 0 <= j < segments.len() && #[trigger] segments[j] == segment
}

/// Are `segments` the immutable segments of the files of `dir` from
/// position `from` on, no more and no less?
pub open spec fn lists_segments(
    dir: Seq<DirEntryModel>,
    from: int,
    segments: Seq<SegmentModel>,
) -> bool {
    &&& forall|j: int|
        0 <= j < segments.len() ==> holds_segment(dir, from, #[trigger] segments[j])
    &&& forall|i: int|
        from <= i < dir.len() && is_segment(#[trigger] dir[i]) ==> lists_segment(
            segments,
            segment_of(dir[i]),
        )
}

/// Is every segment of the directory a sequence of well-formed records?
pub open spec fn readable(dir: Seq<DirEntryModel>) -> bool {
    &&& forall|i: int|
        0 <= i < dir.len() && is_segment(#[trigger] dir[i]) ==> scan(0, dir[i].data) is Some
    &&& scan(0, active_image(dir)) is Some
}

/// The files that a store writes: one for each immutable segment, named
/// after its counter, and `db.active` behind them.
pub open spec fn directory_image(immutables: Seq<SegmentModel>, active: Seq<u8>) -> Seq<
    DirEntryModel,
> {
    Seq::new(
        immutables.len() + 1,
        |i: int|
            if i < immutables.len() {
                DirEntryModel { name: segment_name(immutables[i].counter), data: immutables[i].data }
            } else {
                DirEntryModel { name: active_name(), data: active }
            },
    )
}

/// The tunable thresholds of a store.
#[derive(Debug, Clone, Copy)]
pub struct Config {
    rotation_threshold: usize,
    compaction_threshold: usize,
}

impl Config {
    #[verifier::type_invariant]
    spec fn valid(self) -> bool {
        self.compaction_threshold >= 1
    }

    /// The number of records in the active segment at which it is rotated.
    pub closed spec fn rotation(self) -> nat {
        self.rotation_threshold as nat
    }

    /// The number of rotations after which the immutable segments are compacted.
    pub closed spec fn compaction(self) -> nat {
        self.compaction_threshold as nat
    }

    /// The thresholds given, or `None` where the compaction threshold is 0:
    /// compaction must leave at least one rotation between two runs.
    pub fn new(rotation_threshold: usize, compaction_threshold: usize) -> (config: Option<Config>)
        ensures
            match config {
                Some(c) => compaction_threshold >= 1 && c.rotation() == rotation_threshold
                    && c.compaction() == compaction_threshold,
                None => compaction_threshold == 0,
            },
    {
        if compaction_threshold == 0 {
            None
        } else {
            Some(Config { rotation_threshold, compaction_threshold })
        }
    }

    /// Rotation after 150 records, compaction after 5 rotations.
    pub fn standard() -> (config: Config)
        ensures
            config.rotation() == 150,
            config.compaction() == 5,
    {
        Config { rotation_threshold: 150, compaction_threshold: 5 }
    }

    /// The rotation threshold.
    pub fn rotation_threshold(&self) -> (n: usize)
        ensures
            n == self.rotation(),
    {
        self.rotation_threshold
    }

    /// The compaction threshold, which is at least 1.
    pub fn compaction_threshold(&self) -> (n: usize)
        ensures
            n == self.compaction(),
            n >= 1,
    {
        proof {
            use_type_invariant(self);
        }
        self.compaction_threshold
    }
}

/// Puts a segment into a list that is ordered by counter. Returns the
/// position it was given, or `None`, with the list unchanged, where the list
/// holds a segment with the same counter.
fn insert_segment(segments: &mut Vec<Segment>, segment: Segment) -> (at: Option<usize>)
    requires
        ascending(segment_models(old(segments)@)),
    ensures
        match at {
            Some(p) => {
                &&& p <= old(segments)@.len()
                &&& segment_models(final(segments)@) == segment_models(old(segments)@).insert(
                    p as int,
                    segment@,
                )
                &&& ascending(segment_models(final(segments)@))
                &&& forall|j: int|
                    0 <= j < old(segments)@.len() ==> (#[trigger] segment_models(
                        old(segments)@,
                    )[j]).counter != segment.counter
            },
            None => {
                &&& segment_models(final(segments)@) == segment_models(old(segments)@)
                &&& exists|j: int|
                    0 <= j < old(segments)@.len() && (#[trigger] segment_models(
                        old(segments)@,
                    )[j]).counter == segment.counter
            },
        },
{
    let ghost old_models = segment_models(segments@);
    let counter = segment.counter;
    let mut p: usize = 0;
    while p < segments.len() && segments[p].counter < counter
        invariant
            p <= segments.len(),
            segment_models(segments@) == old_models,
            forall|j: int| 0 <= j < p ==> (#[trigger] old_models[j]).counter < counter,
        decreases segments.len() - p,
    {
        assert(old_models[p as int] == segments@[p as int]@);
        p += 1;
    }
    if p < segments.len() {
        assert(old_models[p as int] == segments@[p as int]@);
        if segments[p].counter == counter {
            return None;
        }
    }
    let ghost added = segment@;
    segments.insert(p, segment);
    proof {
        let new_models = segment_models(segments@);
        assert(new_models =~= old_models.insert(p as int, added));
        assert forall|a: int, b: int| 0 <= a < b < new_models.len() implies (
        #[trigger] new_models[a]).counter < (#[trigger] new_models[b]).counter by {
            let a0 = if a < p { a } else { a - 1 };
            let b0 = if b < p { b } else { b - 1 };
            if a != p {
                assert(new_models[a] == old_models[a0]);
            }
            if b != p {
                assert(new_models[b] == old_models[b0]);
            }
            if a != p && b != p {
                assert(old_models[a0].counter < old_models[b0].counter);
            } else if a == p {
                assert(old_models[p as int].counter <= old_models[b0].counter);
            }
        }
        assert forall|j: int| 0 <= j < old_models.len() implies (
        #[trigger] old_models[j]).counter != counter by {
            if j >= p {
                assert(old_models[p as int].counter <= old_models[j].counter);
            }
        }
    }
    Some(p)
}

/// A list of the segments behind a file, with the file's segment put in,
/// is a list of the segments from the file on.
proof fn lemma_lists_insert(
    dir: Seq<DirEntryModel>,
    at: int,
    models: Seq<SegmentModel>,
    p: int,
)
    requires
        0 <= at < dir.len(),
        0 <= p <= models.len(),
        lists_segments(dir, at + 1, models),
        is_segment(dir[at]),
    ensures
        lists_segments(dir, at, models.insert(p, segment_of(dir[at]))),
{
    let added = segment_of(dir[at]);
    let longer = models.insert(p, added);
    assert forall|j: int| 0 <= j < longer.len() implies holds_segment(
        dir,
        at,
        #[trigger] longer[j],
    ) by {
        if j == p {
            assert(is_segment(dir[at]) && segment_of(dir[at]) == longer[j]);
        } else {
            let j0 = if j < p { j } else { j - 1 };
            assert(longer[j] == models[j0]);
            assert(holds_segment(dir, at + 1, models[j0]));
            let i = choose|i: int|
                at + 1 <= i < dir.len() && is_segment(#[trigger] dir[i]) && segment_of(dir[i])
                    == models[j0];
            assert(is_segment(dir[i]) && segment_of(dir[i]) == longer[j]);
        }
    }
    assert forall|i: int| at <= i < dir.len() && is_segment(#[trigger] dir[i]) implies lists_segment(
        longer,
        segment_of(dir[i]),
    ) by {
        if i == at {
            assert(longer[p] == segment_of(dir[i]));
        } else {
            assert(lists_segment(models, segment_of(dir[i])));
            let j = choose|j: int|
                0 <= j < models.len() && #[trigger] models[j] == segment_of(dir[i]);
            if j < p {
                assert(longer[j] == segment_of(dir[i]));
            } else {
                assert(longer[j + 1] == segment_of(dir[i]));
            }
        }
    }
}

/// A list of the segments behind a file that is no segment is a list of the
/// segments from the file on.
proof fn lemma_lists_skip(dir: Seq<DirEntryModel>, at: int, models: Seq<SegmentModel>)
    requires
        0 <= at < dir.len(),
        lists_segments(dir, at + 1, models),
        !is_segment(dir[at]),
    ensures
        lists_segments(dir, at, models),
{
    assert forall|j: int| 0 <= j < models.len() implies holds_segment(
        dir,
        at,
        #[trigger] models[j],
    ) by {
        assert(holds_segment(dir, at + 1, models[j]));
        let i = choose|i: int|
            at + 1 <= i < dir.len() && is_segment(#[trigger] dir[i]) && segment_of(dir[i])
                == models[j];
        assert(is_segment(dir[i]) && segment_of(dir[i]) == models[j]);
    }
    assert forall|i: int| at <= i < dir.len() && is_segment(#[trigger] dir[i]) implies lists_segment(
        models,
        segment_of(dir[i]),
    ) by {
        assert(i >= at + 1);
    }
}

/// The name of the active segment is not the name of an immutable one.
proof fn lemma_active_is_no_segment()
    ensures
        !is_immutable_name(active_name()),
{
    reveal_strlit(".immutable");
    reveal_strlit("db.active");
}

/// What holds of the files from position `from` on once they have been
/// looked at: the names among them obey the rules.
pub open spec fn names_consistent_from(dir: Seq<DirEntryModel>, from: int) -> bool {
    &&& forall|i: int|
        from <= i < dir.len() && is_immutable_name((#[trigger] dir[i]).name) ==> counter_of(
            dir[i].name,
        ) is Some && counter_of(dir[i].name).unwrap() < u64::MAX
    &&& forall|i: int, j: int|
        from <= i < j < dir.len() && is_immutable_name((#[trigger] dir[i]).name)
            && is_immutable_name((#[trigger] dir[j]).name) ==> counter_of(dir[i].name)
            != counter_of(dir[j].name)
    &&& forall|i: int, j: int|
        from <= i < j < dir.len() ==> !((#[trigger] dir[i]).name == active_name() && (
        #[trigger] dir[j]).name == active_name())
}

/// Picks the segments out of the files of a directory. The files with the
/// extension `.immutable` are returned by ascending counter, together with
/// the bytes of `db.active`, which are empty where the directory has no such
/// file. Other files are passed over. A name that breaks the rules is
/// refused with a `Consistency` error.
pub fn collect_segments(entries: Vec<DirEntry>) -> (r: Result<(Vec<Segment>, Vec<u8>), KvError>)
    ensures
        match r {
            Ok((segments, active)) => {
                &&& names_consistent(entry_models(entries@))
                &&& lists_segments(entry_models(entries@), 0, segment_models(segments@))
                &&& ascending(segment_models(segments@))
                &&& active@ == active_image(entry_models(entries@))
            },
            Err(e) => !names_consistent(entry_models(entries@)) && e is Consistency,
        },
{
    let ghost dir = entry_models(entries@);
    let mut rest = entries;
    let mut segments: Vec<Segment> = Vec::new();
    let mut active: Vec<u8> = Vec::new();
    let mut have_active: bool = false;
    proof {
        reveal_strlit("db.active");
    }
    let active_file = String::from_str("db.active");
    while rest.len() > 0
        invariant
            dir == entry_models(entries@),
            rest@.len() <= dir.len(),
            entry_models(rest@) == dir.take(rest@.len() as int),
            active_file@ == active_name(),
            lists_segments(dir, rest@.len() as int, segment_models(segments@)),
            ascending(segment_models(segments@)),
            active@ == active_from(dir, rest@.len() as int),
            have_active == (exists|i: int|
                rest@.len() <= i < dir.len() && (#[trigger] dir[i]).name == active_name()),
            names_consistent_from(dir, rest@.len() as int),
        decreases rest.len(),
    {
        let ghost before = rest@;
        let ghost at = rest@.len() - 1;
        let ghost old_models = segment_models(segments@);
        let entry = rest.pop().unwrap();
        proof {
            assert(entry@ == entry_models(before)[at]);
            assert(entry@ == dir[at]);
            assert(entry_models(rest@) =~= dir.take(at));
            lemma_active_is_no_segment();
        }
        if is_immutable_file(entry.name.as_str()) {
            let counter = match extract_counter(entry.name.as_str()) {
                Ok(counter) => counter,
                Err(e) => {
                    return Err(e);
                },
            };
            if counter == u64::MAX {
                return Err(consistency_error("Counter out of range: ", entry.name.as_str()));
            }
            let name = entry.name;
            match insert_segment(&mut segments, Segment { counter, data: entry.data }) {
                None => {
                    proof {
                        let j = choose|j: int|
                            0 <= j < old_models.len() && (#[trigger] old_models[j]).counter
                                == counter;
                        assert(holds_segment(dir, at + 1, old_models[j]));
                        let other = choose|i: int|
                            at + 1 <= i < dir.len() && is_segment(#[trigger] dir[i]) && segment_of(
                                dir[i],
                            ) == old_models[j];
                        assert(is_immutable_name(dir[at].name) && is_immutable_name(
                            dir[other].name,
                        ));
                        assert(counter_of(dir[at].name) == counter_of(dir[other].name));
                    }
                    return Err(consistency_error("Duplicate counter: ", name.as_str()));
                },
                Some(p) => {
                    proof {
                        lemma_lists_insert(dir, at, old_models, p as int);
                        assert forall|j: int|
                            at < j < dir.len() && is_immutable_name(
                                (#[trigger] dir[j]).name,
                            ) implies counter_of(dir[at].name) != counter_of(dir[j].name) by {
                            assert(is_segment(dir[j]));
                            assert(lists_segment(old_models, segment_of(dir[j])));
                            let m = choose|m: int|
                                0 <= m < old_models.len() && #[trigger] old_models[m]
                                    == segment_of(dir[j]);
                            assert(old_models[m].counter != counter);
                        }
                    }
                },
            }
        } else if entry.name == active_file {
            if have_active {
                proof {
                    let other = choose|i: int|
                        at < i < dir.len() && (#[trigger] dir[i]).name == active_name();
                    assert(dir[at].name == active_name() && dir[other].name == active_name());
                }
                return Err(consistency_error("Duplicate file: ", entry.name.as_str()));
            }
            active = entry.data;
            have_active = true;
            proof {
                lemma_lists_skip(dir, at, old_models);
            }
        } else {
            proof {
                lemma_lists_skip(dir, at, old_models);
            }
        }
    }
    Ok((segments, active))
}

/// Two lists with ascending counters that hold the same segments are the
/// same list.
pub proof fn lemma_ascending_unique(x: Seq<SegmentModel>, y: Seq<SegmentModel>)
    requires
        ascending(x),
        ascending(y),
        forall|i: int| 0 <= i < x.len() ==> lists_segment(y, #[trigger] x[i]),
        forall|j: int| 0 <= j < y.len() ==> lists_segment(x, #[trigger] y[j]),
    ensures
        x == y,
    decreases x.len(),
{
    if x.len() == 0 {
        if y.len() > 0 {
            assert(lists_segment(x, y[0]));
        }
        assert(x =~= y);
    } else {
        assert(lists_segment(y, x[x.len() - 1]));
        let j = choose|j: int| 0 <= j < y.len() && #[trigger] y[j] == x[x.len() - 1];
        assert(lists_segment(x, y[y.len() - 1]));
        let i = choose|i: int| 0 <= i < x.len() && #[trigger] x[i] == y[y.len() - 1];
        if j < y.len() - 1 {
            assert(y[j].counter < y[y.len() - 1].counter);
            if i < x.len() - 1 {
                assert(x[i].counter < x[x.len() - 1].counter);
            }
            assert(false);
        }
        assert(x.last() == y.last());
        let xs = x.drop_last();
        let ys = y.drop_last();
        assert forall|a: int| 0 <= a < xs.len() implies lists_segment(ys, #[trigger] xs[a]) by {
            assert(xs[a] == x[a]);
            assert(lists_segment(y, x[a]));
            let b = choose|b: int| 0 <= b < y.len() && #[trigger] y[b] == x[a];
            if b == y.len() - 1 {
                assert(x[a].counter < x[x.len() - 1].counter);
                assert(false);
            }
            assert(ys[b] == xs[a]);
        }
        assert forall|b: int| 0 <= b < ys.len() implies lists_segment(xs, #[trigger] ys[b]) by {
            assert(ys[b] == y[b]);
            assert(lists_segment(x, y[b]));
            let a = choose|a: int| 0 <= a < x.len() && #[trigger] x[a] == y[b];
            if a == x.len() - 1 {
                assert(y[b].counter < y[y.len() - 1].counter);
                assert(false);
            }
            assert(xs[a] == ys[b]);
        }
        assert(ascending(xs)) by {
            assert forall|a: int, b: int| 0 <= a < b < xs.len() implies (#[trigger] xs[a]).counter
                < (#[trigger] xs[b]).counter by {
                assert(xs[a] == x[a] && xs[b] == x[b]);
            }
        }
        assert(ascending(ys)) by {
            assert forall|a: int, b: int| 0 <= a < b < ys.len() implies (#[trigger] ys[a]).counter
                < (#[trigger] ys[b]).counter by {
                assert(ys[a] == y[a] && ys[b] == y[b]);
            }
        }
        lemma_ascending_unique(xs, ys);
        assert(x =~= xs.push(x.last()));
        assert(y =~= ys.push(y.last()));
    }
}

/// The active segment of a written directory is found behind its
/// immutable segments.
proof fn lemma_image_active(immutables: Seq<SegmentModel>, active: Seq<u8>, from: int)
    requires
        0 <= from <= immutables.len(),
    ensures
        active_from(directory_image(immutables, active), from) == active,
    decreases immutables.len() - from,
{
    let dir = directory_image(immutables, active);
    if from < immutables.len() {
        crate::names::lemma_segment_name(immutables[from].counter);
        lemma_image_active(immutables, active, from + 1);
    }
}

/// The directory that a store writes can be opened, and it holds the
/// segments of the store and no others: its names obey the rules, its
/// immutable segments are those of the store, and its active segment is the
/// store's.
pub proof fn lemma_image(immutables: Seq<SegmentModel>, active: Seq<u8>)
    requires
        ascending(immutables),
        forall|i: int| 0 <= i < immutables.len() ==> (#[trigger] immutables[i]).counter < u64::MAX,
    ensures
        names_consistent(directory_image(immutables, active)),
        lists_segments(directory_image(immutables, active), 0, immutables),
        active_image(directory_image(immutables, active)) == active,
        forall|i: int|
            0 <= i < immutables.len() ==> is_segment(
                #[trigger] directory_image(immutables, active)[i],
            ) && segment_of(directory_image(immutables, active)[i]) == immutables[i],
        !is_segment(directory_image(immutables, active)[immutables.len() as int]),
{
    let dir = directory_image(immutables, active);
    lemma_image_active(immutables, active, 0);
    lemma_active_is_no_segment();
    assert forall|i: int| 0 <= i < immutables.len() implies is_segment(#[trigger] dir[i])
        && segment_of(dir[i]) == immutables[i] && dir[i].name != active_name() by {
        crate::names::lemma_segment_name(immutables[i].counter);
    }
    assert forall|j: int| 0 <= j < immutables.len() implies holds_segment(
        dir,
        0,
        #[trigger] immutables[j],
    ) by {
        assert(is_segment(dir[j]) && segment_of(dir[j]) == immutables[j]);
    }
    assert forall|i: int| 0 <= i < dir.len() && is_segment(#[trigger] dir[i]) implies lists_segment(
        immutables,
        segment_of(dir[i]),
    ) by {
        assert(i < immutables.len());
        assert(immutables[i] == segment_of(dir[i]));
    }
    assert forall|i: int, j: int|
        0 <= i < j < dir.len() && is_immutable_name((#[trigger] dir[i]).name) && is_immutable_name(
            (#[trigger] dir[j]).name,
        ) implies counter_of(dir[i].name) != counter_of(dir[j].name) by {
        assert(is_segment(dir[i]) && is_segment(dir[j]));
        assert(immutables[i].counter < immutables[j].counter);
    }
    assert forall|i: int, j: int| 0 <= i < j < dir.len() implies !((#[trigger] dir[i]).name
        == active_name() && (#[trigger] dir[j]).name == active_name()) by {
        assert(is_segment(dir[i]));
    }
    assert forall|i: int|
        0 <= i < dir.len() && is_immutable_name((#[trigger] dir[i]).name) implies counter_of(
        dir[i].name,
    ) is Some && counter_of(dir[i].name).unwrap() < u64::MAX by {
        assert(i < immutables.len());
        assert(is_segment(dir[i]) && segment_of(dir[i]) == immutables[i]);
    }
}

} // verus!
