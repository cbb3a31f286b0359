//! The engine contract.
//!
//! An engine is anything that holds a map from string keys to string
//! values behind `get`, `set` and `remove`.  The log-structured
//! [`crate::kvs::KvStore`] is the primary implementation; the in-memory
//! [`crate::sled::SledKvsEngine`] is a drop-in substitute behind the same
//! contract.

use crate::errors::KvsError;
use vstd::prelude::*;

verus! {

/// A key-value store observed as a map from keys to values.
pub trait KvsEngine: Sized {
    /// The key-to-value map the engine holds.
    spec fn kv(&self) -> Map<Seq<char>, Seq<char>>;

    /// The engine's internal soundness condition, kept by every operation.
    spec fn wf(&self) -> bool;

    /// Returns the string value of the given string key, or nothing when
    /// the key is absent.
    fn get(&self, key: String) -> (r: Result<Option<String>, KvsError>)
        requires
            self.wf(),
        ensures
            r is Ok,
            r matches Ok(Some(s)) ==> self.kv().dom().contains(key@) && s@ == self.kv()[key@],
            r matches Ok(None) ==> !self.kv().dom().contains(key@),
    ;

    /// Saves the given string value to the given string key, replacing any
    /// earlier value.
    fn set(&mut self, key: String, value: String) -> (r: Result<(), KvsError>)
        requires
            old(self).wf(),
        ensures
            r is Ok,
            final(self).wf(),
            final(self).kv() == old(self).kv().insert(key@, value@),
    ;

    /// Removes the given string key; `KeyNotFound` when it is absent, and
    /// then the store is unchanged.
    fn remove(&mut self, key: String) -> (r: Result<(), KvsError>)
        requires
            old(self).wf(),
        ensures
            final(self).wf(),
            old(self).kv().dom().contains(key@) ==> r is Ok && final(self).kv() == old(
                self,
            ).kv().remove(key@),
            !old(self).kv().dom().contains(key@) ==> r == Err::<(), KvsError>(
                KvsError::KeyNotFound,
            ) && final(self).kv() == old(self).kv(),
    ;
}

} // verus!
