//! The sharded key-value store with expiry and approximate LRU eviction.
pub mod db;
pub mod entry;

pub use db::Db;
pub use entry::Entry;
