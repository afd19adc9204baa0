//! What a storage back-end offers.
use crate::error::StorageError;
use vstd::prelude::*;

verus! {

/// A key-value storage back-end.
pub trait Engine: Sized {
    /// The keys the back-end holds and their values.
    spec fn contents(&self) -> Map<Seq<char>, Seq<char>>;

    /// The value of `key`, if the back-end holds it.
    fn get(&self, key: &str) -> (r: Result<Option<String>, StorageError>)
        ensures
            r matches Ok(Some(v)) ==> self.contents().contains_key(key@) && self.contents()[key@]
                == v@,
            r matches Ok(None) ==> !self.contents().contains_key(key@),
    ;

    /// Writes `value` under `key`.
    fn set(&mut self, key: String, value: String) -> (r: Result<(), StorageError>)
        ensures
            r is Ok ==> final(self).contents() == old(self).contents().insert(key@, value@),
    ;

    /// Drops `key`; `KeyNotFound` where the back-end does not hold it.
    fn remove(&mut self, key: &str) -> (r: Result<(), StorageError>)
        ensures
            r is Ok ==> old(self).contents().contains_key(key@) && final(self).contents() == old(
                self,
            ).contents().remove(key@),
            (r matches Err(StorageError::KeyNotFound(_))) <==> !old(self).contents().contains_key(
                key@,
            ),
            r matches Err(StorageError::KeyNotFound(k)) ==> k@ == key@,
    ;

    /// Opens the back-end kept at `path`, where it keeps anything.
    fn open(path: &str) -> (r: Result<Self, StorageError>);
}

} // verus!
