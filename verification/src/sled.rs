//! A second engine behind the same contract: a plain in-memory map.
//!
//! The engine contract is a capability set, and anything holding a map can
//! implement it; this type is the library's own drop-in substitute for the
//! log-structured engine, with the same observable behaviour and no log of
//! its own.  The running server's alternate engine is the embedded B-tree
//! store the surrounding process wires in; persistence is that store's own
//! business, not modelled here.

use crate::engines::KvsEngine;
use crate::errors::KvsError;
use vstd::hash_map::StringHashMap;
use vstd::prelude::*;

verus! {

/// A key-value engine holding its whole map in memory.
pub struct SledKvsEngine {
    index: StringHashMap<String>,
}

impl SledKvsEngine {
    /// Opens an empty engine.
    pub fn open() -> (r: Result<SledKvsEngine, KvsError>)
        ensures
            r is Ok,
            r matches Ok(s) ==> s.wf() && s.kv() == Map::<Seq<char>, Seq<char>>::empty(),
    {
        let r = SledKvsEngine { index: StringHashMap::new() };
        proof {
            assert(r.kv() =~= Map::<Seq<char>, Seq<char>>::empty());
        }
        Ok(r)
    }
}

impl KvsEngine for SledKvsEngine {
    closed spec fn kv(&self) -> Map<Seq<char>, Seq<char>> {
        self.index@.map_values(|v: String| v@)
    }

    open spec fn wf(&self) -> bool {
        true
    }

    fn get(&self, key: String) -> (r: Result<Option<String>, KvsError>) {
        match self.index.get(key.as_str()) {
            Some(v) => Ok(Some(v.clone())),
            None => Ok(None),
        }
    }

    fn set(&mut self, key: String, value: String) -> (r: Result<(), KvsError>) {
        let ghost pre = self.index@;
        self.index.insert(key, value);
        proof {
            assert(self.kv() =~= pre.map_values(|v: String| v@).insert(key@, value@));
        }
        Ok(())
    }

    fn remove(&mut self, key: String) -> (r: Result<(), KvsError>) {
        if self.index.contains_key(key.as_str()) {
            let ghost pre = self.index@;
            self.index.remove(key.as_str());
            proof {
                assert(self.kv() =~= pre.map_values(|v: String| v@).remove(key@));
            }
            Ok(())
        } else {
            Err(KvsError::KeyNotFound)
        }
    }
}

} // verus!
