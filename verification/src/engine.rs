//! The interface of a storage engine, so that a front end can be written
//! against any engine that keeps strings under string keys.

use vstd::prelude::*;
pub use crate::error::KvError;

verus! {

/// A pluggable storage engine.
pub trait KvsEngine {
    /// The invariant that the engine's operations keep.
    spec fn valid(&self) -> bool;

    /// The keys that the engine holds, each with its value.
    spec fn contents(&self) -> Map<Seq<char>, Seq<char>>;

    /// Gives `key` the value `value`. On success the key holds the value.
    fn set(&mut self, key: String, value: String) -> (r: Result<(), KvError>)
        requires
            old(self).valid(),
        ensures
            final(self).valid(),
            r is Ok ==> final(self).contents().contains_key(key@) && final(self).contents()[key@]
                == value@,
    ;

    /// Returns the value of `key`, or `None` where the engine does not hold
    /// the key.
    fn get(&mut self, key: String) -> (r: Result<Option<String>, KvError>)
        requires
            old(self).valid(),
        ensures
            final(self).valid(),
            final(self).contents() == old(self).contents(),
            match r {
                Ok(Some(value)) => old(self).contents().contains_key(key@) && old(self).contents()[key@] == value@,
                Ok(None) => !old(self).contents().contains_key(key@),
                Err(_) => true,
            },
    ;

    /// Removes `key`. Fails with `KeyNotFound` where the engine does not
    /// hold the key; on success the key is gone.
    fn remove(&mut self, key: String) -> (r: Result<(), KvError>)
        requires
            old(self).valid(),
        ensures
            final(self).valid(),
            r is Ok ==> old(self).contents().contains_key(key@) && !final(self).contents().contains_key(key@),
            !old(self).contents().contains_key(key@) ==> r == Err::<(), KvError>(
                KvError::KeyNotFound,
            ),
    ;
}

} // verus!
