//! A log-structured, single-process key-value store for string keys and
//! string values.
//!
//! The engine keeps every log segment as an in-memory character buffer
//! together with an index that maps each live key to the exact range of its
//! most recent `Set` record. Persistence is left to the caller: segments are
//! handed in at [`store::KvStore::open`] and can be read back out for
//! mirroring to disk.

pub mod codec;
pub mod idfile;
pub mod store;

pub use idfile::generate_id;
pub use idfile::log_path;
pub use store::KvError;
pub use store::KvStore;
pub use store::Result;
