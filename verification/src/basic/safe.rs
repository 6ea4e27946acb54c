use std::hash::Hash;
use std::sync::{Arc, Mutex};
use vstd::prelude::*;
use crate::basic::key::CacheKey;
use crate::basic::lru::{Lru, lru_push, lru_touch};
use crate::basic::table::{fits, has_key, position};
use crate::locks::{lemma_mutex_gives, mutex_gives, mutex_hands_out, mutex_lock, mutex_new, mutex_ref, mutex_value};

verus! {

/// An LRU cache behind one mutex: every operation, reads included, takes the lock,
/// since a read also moves its entry to the front. Values are shared out as `Arc`s.
#[verifier::reject_recursive_types(Key)]
#[verifier::reject_recursive_types(Value)]
pub struct ThreadSafeLru<Key: CacheKey, Value> {
    lru: Mutex<Lru<Key, Arc<Value>>>,
}

impl<Key: CacheKey, Value> ThreadSafeLru<Key, Value> {
    /// The mutex was made around an empty cache of capacity `cap`.
    pub closed spec fn made_with(&self, cap: nat) -> bool {
        exists|lru: Lru<Key, Arc<Value>>|
            #![trigger call_ensures(mutex_new::<Lru<Key, Arc<Value>>>, (lru,), self.lru)]
            lru@ == Seq::<(Key, Arc<Value>)>::empty() && lru.capacity() == cap && call_ensures(
                mutex_new::<Lru<Key, Arc<Value>>>,
                (lru,),
                self.lru,
            )
    }

    /// `lru` is the cache state that locking the mutex hands out for writing; what is
    /// written through it is what the mutex then holds.
    pub closed spec fn writes(&self, lru: &mut Lru<Key, Arc<Value>>) -> bool {
        mutex_hands_out(&self.lru, lru)
    }

    /// `lru` is a state of the cache that reading the mutex gives.
    pub closed spec fn read_state(&self, lru: Lru<Key, Arc<Value>>) -> bool {
        mutex_gives(&self.lru, lru)
    }

    pub fn new(cap: usize) -> (cache: Self)
        requires
            cap > 0,
        ensures
            cache.made_with(cap as nat),
    {
        let lru = Lru::new(cap);
        let ghost first = lru;
        let lock = mutex_new(lru);
        let cache = Self { lru: lock };
        assert(call_ensures(mutex_new::<Lru<Key, Arc<Value>>>, (first,), cache.lru));
        cache
    }

    /// Under the mutex, the cache state becomes `lru_push` of the state the mutex handed
    /// out, with `v` shared behind a new `Arc`.
    pub fn push(&self, k: Key, v: Value)
        ensures
            exists|lru: &mut Lru<Key, Arc<Value>>, shared: Arc<Value>|
                self.writes(lru) && *shared == v && (*final(lru))@ == lru_push(
                    (*lru)@,
                    k,
                    shared,
                    (*lru).capacity(),
                ) && (*final(lru)).capacity() == (*lru).capacity(),
    {
        let mut guard = mutex_lock(&self.lru);
        let lru = mutex_value(&mut guard);
        assert(self.writes(lru));
        let shared = Arc::new(v);
        lru.push(k, shared);
    }

    /// A shared handle on the value cached under `key`, which becomes the most recently used:
    /// under the mutex, the cache state becomes `lru_touch` of the state it handed out.
    /// Of the cache state that locking the mutex gives, it is a clone of the value cached
    /// under `key`, if there is one.
    pub fn get(&self, key: &Key) -> (found: Option<Arc<Value>>)
        ensures
            exists|lru: Lru<Key, Arc<Value>>|
                #![trigger self.read_state(lru)]
                self.read_state(lru) && (found is Some <==> has_key(lru@, *key)) && (found is Some
                    ==> cloned(lru@[position(lru@, *key)].1, found->Some_0)),
            exists|lru: &mut Lru<Key, Arc<Value>>|
                self.writes(lru) && (found is Some <==> has_key((*lru)@, *key)) && (*final(lru))@
                    == lru_touch((*lru)@, *key) && (*final(lru)).capacity() == (*lru).capacity(),
    {
        let mut guard = mutex_lock(&self.lru);
        let ghost locked = guard;
        let lru = mutex_value(&mut guard);
        assert(self.writes(lru));
        let ghost before = *lru;
        let found = lru.get(key).cloned();
        proof {
            lemma_mutex_gives(&self.lru, locked, &before);
            assert(self.read_state(before));
        }
        found
    }

    /// The number of entries in the cache state that reading the mutex gives; that state
    /// fits its capacity.
    pub fn len(&self) -> (n: usize)
        ensures
            exists|lru: Lru<Key, Arc<Value>>|
                self.read_state(lru) && n == lru@.len() && fits(lru@, lru.capacity()),
    {
        let guard = mutex_lock(&self.lru);
        let lru = mutex_ref(&guard);
        let n = lru.size();
        proof {
            lemma_mutex_gives(&self.lru, guard, lru);
            assert(self.read_state(*lru));
        }
        n
    }
}

} // verus!
