//! A minimal log-structured key-value store.
//!
//! The store keeps an append-only log of records, each a fixed 12-byte
//! header followed by the raw key and value bytes, and an in-memory index
//! (the keydir) mapping each key to the location of its most recent record.

pub mod codec;
pub mod errors;
pub mod keydir;
pub mod store;

pub use codec::{Header, KeyValue};
pub use errors::Error;
pub use store::Store;
