//! A bounded key-value cache with least-recently-used eviction.
//!
//! `model` states what the cache holds as a sequence of entries ordered by
//! recency, together with the laws that the operations obey. `lru` is the
//! executable cache: an arena of doubly linked nodes indexed by a hash map.
pub mod lru;
pub mod model;
