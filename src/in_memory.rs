//! A back-end that keeps everything in memory.
use crate::engine::Engine;
use crate::error::StorageError;
use vstd::hash_map::StringHashMap;
use vstd::prelude::*;

verus! {

/// In-memory storage, for tests.
pub struct InMemoryStorage {
    storage: StringHashMap<String>,
}

impl InMemoryStorage {
    /// An empty store.
    pub fn new() -> (r: Self)
        ensures
            r.contents() == Map::<Seq<char>, Seq<char>>::empty(),
    {
        let r = InMemoryStorage { storage: StringHashMap::new() };
        assert(r.contents() =~= Map::<Seq<char>, Seq<char>>::empty());
        r
    }
}

impl Default for InMemoryStorage {
    fn default() -> (r: Self)
        ensures
            r.contents() == Map::<Seq<char>, Seq<char>>::empty(),
    {
        Self::new()
    }
}

impl Engine for InMemoryStorage {
    closed spec fn contents(&self) -> Map<Seq<char>, Seq<char>> {
        self.storage@.map_values(|v: String| v@)
    }

    fn get(&self, key: &str) -> (r: Result<Option<String>, StorageError>) {
        match self.storage.get(key) {
            Some(v) => Ok(Some(v.clone())),
            None => Ok(None),
        }
    }

    fn set(&mut self, key: String, value: String) -> (r: Result<(), StorageError>) {
        let ghost k = key@;
        let ghost v = value@;
        self.storage.insert(key, value);
        assert(self.contents() =~= old(self).contents().insert(k, v));
        Ok(())
    }

    fn remove(&mut self, key: &str) -> (r: Result<(), StorageError>) {
        if !self.storage.contains_key(key) {
            return Err(StorageError::KeyNotFound(key.to_owned()));
        }
        self.storage.remove(key);
        assert(self.contents() =~= old(self).contents().remove(key@));
        Ok(())
    }

    fn open(_path: &str) -> (r: Result<Self, StorageError>) {
        Ok(Self::new())
    }
}

} // verus!
