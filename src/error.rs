//! What can go wrong.
use vstd::prelude::*;

verus! {

/// An error of the store.
#[derive(Debug)]
pub enum StorageError {
    /// `remove` of a key that the store does not hold.
    KeyNotFound(String),
    /// A log record that does not read as the record expected there: the
    /// log file's id and the record's offset.
    Corruption { file: u64, offset: u64 },
    /// Reading or writing the log files failed, or a log outgrew what the
    /// store can address.
    Io(String),
}

/// An error of a storage back-end.
#[derive(Debug, Clone)]
pub enum Error {
    /// Storage error
    Storage(String),
}

/// Result of a storage back-end.
pub type DBResult<T> = Result<T, Error>;

} // verus!
