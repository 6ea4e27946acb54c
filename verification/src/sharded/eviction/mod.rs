//! Eviction policies for the shards of the sharded cache.
use std::hash::Hash;
use vstd::prelude::*;
use crate::basic::key::CacheKey;

pub mod fifo;
pub mod lru;

verus! {

/// What a shard of the sharded cache offers. Each method takes `&self`: a shard
/// guards its entries with its own lock, so that threads can share it.
pub trait Eviction<Key, Value>: Send + Sync + Sized where
    Key: Send + Sync + CacheKey,
    Value: Send + Sync + Clone,
 {
    fn new(capacity: usize) -> Self;

    fn get(&self, key: &Key) -> Option<Value>;

    fn push(&self, key: Key, value: Value);

    fn remove(&self, key: &Key);

    fn contains(&self, key: &Key) -> bool;

    fn len(&self) -> usize;

    fn is_empty(&self) -> bool;
}

} // verus!
