//! The in-memory index: for each live key, where its newest `Set` record lies.

use vstd::prelude::*;
use vstd::hash_map::StringHashMap;

verus! {

/// Where the live record of a key lies, and which version it carries.
#[derive(Debug, Clone, Copy, PartialEq, Eq, Structural)]
pub struct ValuePointer {
    /// The counter of the segment that holds the record.
    pub segment: u64,
    /// The offset of the record's first byte within that segment.
    pub offset: u64,
    /// The version written in the record.
    pub version: u64,
}

/// A map from keys to value pointers, with no order among the keys.
pub struct Index {
    map: StringHashMap<ValuePointer>,
}

impl View for Index {
    type V = Map<Seq<char>, ValuePointer>;

    closed spec fn view(&self) -> Map<Seq<char>, ValuePointer> {
        self.map@
    }
}

impl Index {
    /// An index that holds no key.
    pub fn new() -> (index: Index)
        ensures
            index@ == Map::<Seq<char>, ValuePointer>::empty(),
    {
        Index { map: StringHashMap::new() }
    }

    /// The pointer of `key`, if the index holds the key.
    pub fn lookup(&self, key: &str) -> (found: Option<ValuePointer>)
        ensures
            found == (if self@.contains_key(key@) {
                Some(self@[key@])
            } else {
                None
            }),
    {
        match self.map.get(key) {
            Some(p) => Some(*p),
            None => None,
        }
    }

    /// Points `key` at `pointer`, whether or not the index held the key.
    pub fn upsert(&mut self, key: String, pointer: ValuePointer)
        ensures
            final(self)@ == old(self)@.insert(key@, pointer),
    {
        self.map.insert(key, pointer);
    }

    /// Takes `key` out of the index and returns the pointer it had, if any.
    pub fn erase(&mut self, key: &str) -> (prior: Option<ValuePointer>)
        ensures
            final(self)@ == old(self)@.remove(key@),
            prior == (if old(self)@.contains_key(key@) {
                Some(old(self)@[key@])
            } else {
                None
            }),
    {
        let prior = self.lookup(key);
        self.map.remove(key);
        prior
    }
}

} // verus!
