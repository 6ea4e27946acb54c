//! The sharded cache: keys are spread over shards, each a lock around a cache that
//! follows an eviction policy.
pub mod eviction;
pub mod cache;
