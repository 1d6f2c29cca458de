//! A bounded, in-memory key-value cache with least-recently-used eviction
//! and snapshot persistence to a line-based text format.
//!
//! The store keeps at most `capacity` entries; a lookup counts as a use and
//! promotes the entry, and an insertion into a full store evicts the least
//! recently used entry. Snapshots are encoded one `key:value` record per
//! line and replayed through ordinary insertions on import.

pub mod codec;
pub mod laws;
pub mod model;
pub mod store;

pub use store::Cache;
pub use store::CacheTrait;
