use std::hash::{Hash, RandomState};
use std::marker::PhantomData;
use vstd::prelude::*;
use crate::basic::key::CacheKey;
use crate::locks::{hash_key, random_state_new};
use crate::sharded::eviction::Eviction;
use crate::sharded::eviction::lru::Lru;

verus! {

/// The eviction policies a cache can be built with.
pub enum EvictionPolicy {
    Lru,
    AsyncLru,
}

/// The shard that serves a key whose hash is `hash`, among `count` shards.
fn shard_index(hash: u64, count: usize) -> (i: usize)
    requires
        count > 0,
    ensures
        i == (hash as usize) % count,
        i < count,
{
    (hash as usize) % count
}

/// The sum of `lens` in wrapping arithmetic: added up from the first, each sum taken
/// modulo `usize::MAX + 1`.
pub open spec fn wrapping_total(lens: Seq<usize>) -> usize
    decreases lens.len(),
{
    if lens.len() == 0 {
        0
    } else {
        vstd::wrapping::usize_specs::wrapping_add(wrapping_total(lens.drop_last()), lens.last())
    }
}

/// The shards that `Cache::lru(capacity, shards)` builds, `capacity / shards + 1` entries
/// each, together have room for more than `capacity` entries.
pub proof fn lemma_shards_hold_capacity(capacity: nat, shards: nat)
    requires
        shards > 0,
    ensures
        shards * (capacity / shards + 1) > capacity,
{
    let q = capacity / shards;
    let r = capacity % shards;
    vstd::arithmetic::div_mod::lemma_fundamental_div_mod(capacity as int, shards as int);
    vstd::arithmetic::div_mod::lemma_mod_bound(capacity as int, shards as int);
    assert(shards * (q + 1) == shards * q + shards) by (nonlinear_arith);
}

/// A cache split into shards that lock independently; a key always goes to the shard
/// its hash picks, so threads working on keys of different shards do not wait for
/// each other.
#[verifier::reject_recursive_types(Key)]
#[verifier::reject_recursive_types(Value)]
pub struct Cache<Key, Value, EP> {
    shards: Vec<EP>,
    hash_builder: RandomState,
    _phantom: PhantomData<(Key, Value)>,
}

impl<Key, Value, EP> Cache<Key, Value, EP> {
    #[verifier::type_invariant]
    spec fn inv(self) -> bool {
        self.shards@.len() > 0
    }

    /// The shards, in the order the hash picks them.
    pub closed spec fn shards(&self) -> Seq<EP> {
        self.shards@
    }
}

impl<Key, Value, EP> Cache<Key, Value, EP> where
    Key: Send + Sync + CacheKey,
    Value: Send + Sync + Clone,
    EP: Eviction<Key, Value>,
 {
    /// Caches `v` under `k` in the shard that `k`'s hash picks.
    pub fn push(&self, k: Key, v: Value)
        ensures
            exists|i: int|
                0 <= i < self.shards().len() && self.picks(k, i) && #[trigger] call_ensures(
                    EP::push,
                    (&self.shards()[i], k, v),
                    (),
                ),
    {
        proof {
            use_type_invariant(self);
        }
        let shard_hash = hash_key(&self.hash_builder, &k);
        let shard = shard_index(shard_hash, self.shards.len());
        let ghost (key, value) = (k, v);
        self.shards[shard].push(k, v);
        assert(self.picks(key, shard as int));
        assert(call_ensures(EP::push, (&self.shards()[shard as int], key, value), ()));
    }

    /// Index `i` is a shard that `k`'s hash, under this cache's hash builder, picks.
    pub closed spec fn picks(&self, k: Key, i: int) -> bool {
        exists|h: u64|
            #![trigger call_ensures(hash_key::<Key>, (&self.hash_builder, &k), h)]
            call_ensures(hash_key::<Key>, (&self.hash_builder, &k), h) && i == (h as usize) as int
                % (self.shards@.len() as int)
    }

    /// The value cached under `k`, from the shard that `k`'s hash picks.
    pub fn get(&self, k: &Key) -> (found: Option<Value>)
        ensures
            exists|i: int|
                0 <= i < self.shards().len() && self.picks(*k, i) && #[trigger] call_ensures(
                    EP::get,
                    (&self.shards()[i], k),
                    found,
                ),
    {
        proof {
            use_type_invariant(self);
        }
        let shard_hash = hash_key(&self.hash_builder, k);
        let shard = shard_index(shard_hash, self.shards.len());
        let found = self.shards[shard].get(k);
        assert(self.picks(*k, shard as int));
        assert(call_ensures(EP::get, (&self.shards()[shard as int], k), found));
        found
    }

    /// Whether the shard that `k`'s hash picks holds `k`.
    pub fn contains(&self, k: &Key) -> (held: bool)
        ensures
            exists|i: int|
                0 <= i < self.shards().len() && self.picks(*k, i) && #[trigger] call_ensures(
                    EP::contains,
                    (&self.shards()[i], k),
                    held,
                ),
    {
        proof {
            use_type_invariant(self);
        }
        let shard_hash = hash_key(&self.hash_builder, k);
        let shard = shard_index(shard_hash, self.shards.len());
        let held = self.shards[shard].contains(k);
        assert(self.picks(*k, shard as int));
        assert(call_ensures(EP::contains, (&self.shards()[shard as int], k), held));
        held
    }

    /// Whether every shard reports that it is empty; the shards are asked in order, up
    /// to the first that reports entries.
    pub fn is_empty(&self) -> (empty: bool)
        ensures
            empty ==> forall|i: int|
                0 <= i < self.shards().len() ==> #[trigger] call_ensures(
                    EP::is_empty,
                    (&self.shards()[i],),
                    true,
                ),
            !empty ==> exists|i: int|
                0 <= i < self.shards().len() && #[trigger] call_ensures(
                    EP::is_empty,
                    (&self.shards()[i],),
                    false,
                ) && forall|j: int|
                    0 <= j < i ==> #[trigger] call_ensures(EP::is_empty, (&self.shards()[j],), true),
    {
        let mut i: usize = 0;
        while i < self.shards.len()
            invariant
                i <= self.shards@.len(),
                forall|j: int|
                    0 <= j < i ==> #[trigger] call_ensures(EP::is_empty, (&self.shards@[j],), true),
            decreases self.shards@.len() - i,
        {
            let shard_empty = self.shards[i].is_empty();
            if !shard_empty {
                assert(call_ensures(EP::is_empty, (&self.shards()[i as int],), false));
                assert(forall|j: int|
                    0 <= j < i ==> #[trigger] call_ensures(EP::is_empty, (&self.shards()[j],), true));
                return false;
            }
            i = i + 1;
        }
        true
    }

    /// The sum of the sizes the shards report, in wrapping arithmetic.
    pub fn size(&self) -> (total: usize)
        ensures
            exists|lens: Seq<usize>|
                lens.len() == self.shards().len() && total == wrapping_total(lens) && forall|i: int|
                    0 <= i < lens.len() ==> #[trigger] call_ensures(
                        EP::len,
                        (&self.shards()[i],),
                        lens[i],
                    ),
    {
        let mut size: usize = 0;
        let mut i: usize = 0;
        let ghost mut lens: Seq<usize> = Seq::empty();
        while i < self.shards.len()
            invariant
                i <= self.shards@.len(),
                lens.len() == i,
                size == wrapping_total(lens),
                forall|j: int|
                    0 <= j < i ==> #[trigger] call_ensures(EP::len, (&self.shards@[j],), lens[j]),
            decreases self.shards@.len() - i,
        {
            let n = self.shards[i].len();
            proof {
                let next = lens.push(n);
                assert(next.drop_last() =~= lens);
                lens = next;
            }
            size = size.wrapping_add(n);
            i = i + 1;
        }
        size
    }
}

impl<Key, Value> Cache<Key, Value, Lru<Key, Value>> where
    Key: Send + Sync + CacheKey,
    Value: Send + Sync + Clone,
 {
    /// A cache of `shards` LRU shards that hold `capacity / shards + 1` entries each.
    pub fn lru(capacity: usize, shards: usize) -> (cache: Self)
        requires
            shards > 0,
            capacity / shards < usize::MAX,
        ensures
            cache.shards().len() == shards,
            forall|i: int|
                0 <= i < shards ==> #[trigger] cache.shards()[i].capacity() == capacity / shards + 1
                    && cache.shards()[i].made_with((capacity / shards + 1) as nat),
    {
        let mut cache_shards: Vec<Lru<Key, Value>> = Vec::new();
        let capacity_per_shard = capacity / shards + 1;
        let mut n: usize = 0;
        while n < shards
            invariant
                n <= shards,
                capacity_per_shard == capacity / shards + 1,
                cache_shards@.len() == n,
                forall|i: int|
                    0 <= i < n ==> #[trigger] cache_shards@[i].capacity() == capacity_per_shard
                        && cache_shards@[i].made_with(capacity_per_shard as nat),
            decreases shards - n,
        {
            let shard = Lru::new(capacity_per_shard);
            cache_shards.push(shard);
            n = n + 1;
        }
        let cache = Self { shards: cache_shards, hash_builder: random_state_new(), _phantom: PhantomData };
        assert forall|i: int| 0 <= i < shards implies #[trigger] cache.shards()[i].capacity()
            == capacity / shards + 1 && cache.shards()[i].made_with((capacity / shards + 1) as nat) by {
            assert(cache.shards()[i] == cache_shards@[i]);
            assert(capacity_per_shard as nat == (capacity / shards + 1) as nat);
        }
        cache
    }
}

} // verus!
