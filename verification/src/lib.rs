//! A bounded-capacity key-value cache with a deterministic eviction policy.
//!
//! The cache holds at most `capacity` entries at all times. When a new key is
//! inserted while the cache is full, exactly one victim entry — the least
//! recent one under the configured policy — is evicted to make room.

pub mod cache;
pub mod model;
