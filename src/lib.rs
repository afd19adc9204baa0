//! A persistent key-value store on an append-only log with an in-memory index.
pub mod codec;
pub mod engine;
pub mod error;
pub mod in_memory;
pub mod index;
pub mod kvs;
pub mod log_structured;
pub mod model;
pub mod names;
pub mod replay;

pub use engine::Engine;
pub use error::{DBResult, Error, StorageError};
pub use in_memory::InMemoryStorage;
pub use kvs::KvStore;
pub use log_structured::LogStructured;
