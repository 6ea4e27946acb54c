//! Least-recently-used and first-in-first-out caches: a single-lock cache built on
//! an index-linked list, and a sharded cache whose shards follow an eviction policy.
pub mod basic;
pub mod sharded;
mod locks;
