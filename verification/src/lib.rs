//! A two-tier key-value storage layer: an in-memory cache in front of a
//! durable persistent store, kept coherent by an eviction-cause-aware
//! invalidation policy, with namespaced records and durable sequence
//! counters.

pub mod cache;
pub mod codec;
pub mod errors;
pub mod keys;
pub mod laws;
pub mod policy;
pub mod storage;
pub mod store;
