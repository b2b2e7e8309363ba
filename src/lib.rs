//! A bounded key/value store with least-recently-used eviction, in memory
//! and mirrored to a line-oriented text snapshot.

pub mod cache_lru;
pub mod key;
pub mod model;
pub mod snapshot;
pub mod storage;
pub mod text;
