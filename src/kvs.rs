//! The key-value store over a storage back-end.
use crate::engine::Engine;
use crate::error::StorageError;
use vstd::prelude::*;

verus! {

/// A key-value store.
pub struct KvStore<T: Engine> {
    engine: T,
}

impl<T: Engine> View for KvStore<T> {
    type V = Map<Seq<char>, Seq<char>>;

    closed spec fn view(&self) -> Map<Seq<char>, Seq<char>> {
        self.engine.contents()
    }
}

impl<T: Engine> KvStore<T> {
    /// A store over `engine`.
    pub fn new(engine: T) -> (r: Result<Self, StorageError>)
        ensures
            r matches Ok(s) && s@ == engine.contents(),
    {
        Ok(KvStore { engine })
    }

    /// A store over the back-end kept at `path`.
    pub fn open(path: &str) -> (r: Result<Self, StorageError>) {
        let engine = T::open(path)?;
        Ok(KvStore { engine })
    }

    /// The value of `key`, if the store holds it.
    pub fn get(&self, key: &str) -> (r: Result<Option<String>, StorageError>)
        ensures
            r matches Ok(Some(v)) ==> self@.contains_key(key@) && self@[key@] == v@,
            r matches Ok(None) ==> !self@.contains_key(key@),
    {
        self.engine.get(key)
    }

    /// Writes `value` under `key`.
    pub fn set(&mut self, key: String, value: String) -> (r: Result<(), StorageError>)
        ensures
            r is Ok ==> final(self)@ == old(self)@.insert(key@, value@),
    {
        self.engine.set(key, value)
    }

    /// Drops `key`; `KeyNotFound` where the store does not hold it.
    pub fn remove(&mut self, key: &str) -> (r: Result<(), StorageError>)
        ensures
            r is Ok ==> old(self)@.contains_key(key@) && final(self)@ == old(self)@.remove(key@),
            (r matches Err(StorageError::KeyNotFound(_))) <==> !old(self)@.contains_key(key@),
            r matches Err(StorageError::KeyNotFound(k)) ==> k@ == key@,
    {
        self.engine.remove(key)
    }
}

} // verus!
