use std::hash::Hash;
use std::sync::Arc;
use parking_lot::RwLock;
use vstd::prelude::*;
use crate::basic::key::CacheKey;
use crate::locks::{
    lemma_read_gives, read_gives, write_hands_out, read_value, rwlock_new, rwlock_read, rwlock_write, write_value};
use crate::sharded::eviction::Eviction;
use crate::basic::table::{
    Table, slot_limit, has_key, position, fits, keys, without_key, lemma_drop_ends,
    lemma_without_key, lemma_index_of_pos, lemma_distinct_remove, lemma_distinct_ends,
    lemma_distinct_add,
};
use crate::basic::dll::lemma_index_of_unique;

verus! {

/// The entries after `push(k, v)` on a FIFO cache of capacity `cap` holding `s`, oldest
/// first: a key already held takes the new value and goes to the back; otherwise, when
/// the cache is full, the oldest entry leaves and the new entry goes in at the back.
pub open spec fn fifo_push<Key: View, Value>(s: Seq<(Key, Value)>, k: Key, v: Value, cap: nat) -> Seq<(Key, Value)> {
    if has_key(s, k) {
        s.remove(position(s, k)).push((k, v))
    } else if s.len() >= cap && s.len() > 0 {
        s.drop_first().push((k, v))
    } else {
        s.push((k, v))
    }
}

/// Pushing onto a FIFO cache whose entries fit its capacity leaves entries that fit it.
pub proof fn lemma_fifo_push_fits<Key: View, Value>(s: Seq<(Key, Value)>, k: Key, v: Value, cap: nat)
    requires
        fits(s, cap),
    ensures
        fits(fifo_push(s, k, v, cap), cap),
{
    lemma_without_key(s, k);
    if has_key(s, k) {
        let r = s.remove(position(s, k));
        lemma_distinct_remove(s, position(s, k));
        lemma_distinct_add(r, k, v);
    } else if s.len() >= cap && s.len() > 0 {
        lemma_distinct_ends(s);
        lemma_drop_ends(s, k);
        lemma_distinct_add(s.drop_first(), k, v);
    } else {
        lemma_distinct_add(s, k, v);
    }
}

/// A read right after a write of `k` finds `k` as the newest entry, with the value written.
pub proof fn lemma_fifo_get_after_push<Key: View, Value>(s: Seq<(Key, Value)>, k: Key, v: Value, cap: nat)
    requires
        fits(s, cap),
    ensures
        has_key(fifo_push(s, k, v, cap), k),
        position(fifo_push(s, k, v, cap), k) == fifo_push(s, k, v, cap).len() - 1,
        fifo_push(s, k, v, cap).last() == (k, v),
{
    let t = fifo_push(s, k, v, cap);
    lemma_fifo_push_fits(s, k, v, cap);
    assert(keys(t)[t.len() - 1] == k@);
    lemma_index_of_unique(keys(t), t.len() - 1);
}

/// When a full FIFO cache takes a new key, the oldest entry is the one that leaves;
/// every other entry stays.
pub proof fn lemma_fifo_evicts_oldest<Key: View, Value>(s: Seq<(Key, Value)>, k: Key, v: Value, cap: nat)
    requires
        fits(s, cap),
        !has_key(s, k),
        s.len() == cap,
        cap > 0,
    ensures
        !has_key(fifo_push(s, k, v, cap), s[0].0),
        forall|j: int| 0 < j < s.len() ==> fifo_push(s, k, v, cap).contains(#[trigger] s[j]),
{
    let t = fifo_push(s, k, v, cap);
    lemma_distinct_remove(s, 0);
    assert(s.remove(0) =~= s.drop_first());
    if has_key(t, s[0].0) {
        let j = keys(t).index_of(s[0].0@);
        if j == t.len() - 1 {
            assert(keys(s)[0] == s[0].0@);
        } else {
            assert(keys(s.drop_first())[j] == s[0].0@);
        }
    }
    assert forall|j: int| 0 < j < s.len() implies t.contains(#[trigger] s[j]) by {
        assert(t[j - 1] == s[j]);
    }
}

/// Pushing a cached key keeps the number of entries and moves the key to the back.
pub proof fn lemma_fifo_repush<Key: View, Value>(s: Seq<(Key, Value)>, k: Key, v: Value, cap: nat)
    requires
        fits(s, cap),
        has_key(s, k),
    ensures
        fifo_push(s, k, v, cap).len() == s.len(),
        fifo_push(s, k, v, cap).last() == (k, v),
{
    lemma_without_key(s, k);
}

/// The state of one FIFO shard: entries from oldest to newest, each in a slot of the
/// node array and found by key through the map.
pub struct FifoInner<Key: CacheKey, Value> {
    table: Table<Key, Value>,
    capacity: usize,
}

impl<Key: CacheKey, Value> View for FifoInner<Key, Value> {
    type V = Seq<(Key, Value)>;

    /// The entries, oldest first.
    closed spec fn view(&self) -> Seq<(Key, Value)> {
        self.table@
    }
}

impl<Key: CacheKey, Value> FifoInner<Key, Value> {
    #[verifier::type_invariant]
    spec fn inv(self) -> bool {
        &&& self.table.wf()
        &&& self.table@.len() <= (if self.capacity == 0 { 1 } else { self.capacity })
        &&& self.table.slot_count() <= slot_limit(self.capacity as nat)
    }

    /// The number of node slots, held or freed.
    pub closed spec fn slot_count(&self) -> nat {
        self.table.slot_count()
    }

    /// The number of entries past which a new key evicts the oldest one.
    pub closed spec fn capacity(&self) -> nat {
        self.capacity as nat
    }

    pub fn new(capacity: usize) -> (inner: Self)
        ensures
            inner@ == Seq::<(Key, Value)>::empty(),
            inner.capacity() == capacity,
            inner.slot_count() == 0,
    {
        Self { table: Table::with_capacity(capacity), capacity }
    }

    /// Caches `value` under `key`: a cached key takes the new value and goes to the
    /// back; a new key first evicts the oldest entry when the shard is full.
    pub fn push(&mut self, key: Key, value: Value)
        ensures
            final(self)@ == fifo_push(old(self)@, key, value, old(self).capacity()),
            final(self).capacity() == old(self).capacity(),
            fits(old(self)@, old(self).capacity()),
            fits(final(self)@, final(self).capacity()),
            final(self).slot_count() <= slot_limit(final(self).capacity()),
    {
        proof {
            use_type_invariant(&*self);
            self.table.lemma_shape();
            lemma_without_key(self.table@, key);
        }
        let ghost s = self.table@;
        let mut table = Table::new();
        std::mem::swap(&mut self.table, &mut table);
        match table.find(&key) {
            Some(node_index) => {
                proof {
                    lemma_index_of_pos(table.handles(), s, key, node_index);
                }
                // update the entry in place and send the entry to the back
                let ghost k0 = key;
                table.set_entry(node_index, key, value);
                table.move_to_back(node_index);
                proof {
                    let i = position(s, k0);
                    assert(table@ =~= s.remove(i).push((k0, value)));
                }
            },
            None => {
                // make room for the new entry when the shard is full
                if table.len() >= self.capacity {
                    table.pop_front();
                    proof {
                        if s.len() > 0 {
                            lemma_drop_ends(s, key);
                        }
                    }
                }
                proof {
                    table.lemma_shape();
                }
                table.insert_back(key, value);
            },
        }
        self.table = table;
        proof {
            use_type_invariant(&*self);
            self.table.lemma_shape();
        }
    }

    /// A clone of the value cached under `key`, if any; the order stays.
    pub fn get(&self, key: &Key) -> (r: Option<Value>)
        where
            Value: Clone,
        ensures
            r is Some <==> has_key(self@, *key),
            r is Some ==> cloned(self@[position(self@, *key)].1, r->Some_0),
    {
        proof {
            use_type_invariant(self);
            self.table.lemma_shape();
        }
        match self.table.find(key) {
            Some(node_index) => {
                proof {
                    lemma_index_of_pos(self.table.handles(), self.table@, *key, node_index);
                }
                Some(self.table.value(node_index).clone())
            },
            None => None,
        }
    }

    /// Takes the entry with `key` out, if there is one.
    pub fn remove(&mut self, key: &Key)
        ensures
            final(self)@ == without_key(old(self)@, *key),
            final(self).capacity() == old(self).capacity(),
            fits(old(self)@, old(self).capacity()),
            fits(final(self)@, final(self).capacity()),
    {
        proof {
            use_type_invariant(&*self);
            self.table.lemma_shape();
        }
        let mut table = Table::new();
        std::mem::swap(&mut self.table, &mut table);
        match table.find(key) {
            Some(node_index) => {
                proof {
                    lemma_index_of_pos(table.handles(), table@, *key, node_index);
                }
                table.remove_slot(node_index);
            },
            None => {},
        }
        self.table = table;
        proof {
            use_type_invariant(&*self);
            self.table.lemma_shape();
        }
    }

    pub fn contains(&self, key: &Key) -> (b: bool)
        ensures
            b == has_key(self@, *key),
    {
        proof {
            use_type_invariant(self);
        }
        self.table.contains_key(key)
    }

    pub fn len(&self) -> (n: usize)
        ensures
            n == self@.len(),
            fits(self@, self.capacity()),
            self.slot_count() <= slot_limit(self.capacity()),
    {
        proof {
            use_type_invariant(self);
            self.table.lemma_shape();
        }
        self.table.len()
    }

    pub fn is_empty(&self) -> (b: bool)
        ensures
            b == (self@.len() == 0),
    {
        proof {
            use_type_invariant(self);
        }
        0 == self.table.len()
    }
}

/// A FIFO shard: the oldest entry leaves first, and reads leave the order alone, so
/// they only share the lock.
#[derive(Clone)]
#[verifier::reject_recursive_types(Key)]
#[verifier::reject_recursive_types(Value)]
pub struct Fifo<Key, Value> where
    Key: Send + Sync + CacheKey,
    Value: Send + Sync + Clone,
 {
    inner: Arc<RwLock<FifoInner<Key, Value>>>,
    capacity: usize,
}

impl<Key, Value> Fifo<Key, Value> where
    Key: Send + Sync + CacheKey,
    Value: Send + Sync + Clone,
 {
    /// The capacity the shard was made with.
    pub closed spec fn capacity(&self) -> nat {
        self.capacity as nat
    }

    /// `inner` is a state of the shard that a shared read of its lock gives.
    pub closed spec fn read_state(&self, inner: FifoInner<Key, Value>) -> bool {
        read_gives(&*self.inner, inner)
    }

    /// `state` is the shard state that a write of the lock hands out; what is written
    /// through it is what the lock then holds.
    pub closed spec fn writes(&self, state: &mut FifoInner<Key, Value>) -> bool {
        write_hands_out(&*self.inner, state)
    }

    /// The lock was made around an empty shard state of capacity `cap`.
    pub closed spec fn made_with(&self, cap: nat) -> bool {
        exists|inner: FifoInner<Key, Value>|
            #![trigger call_ensures(rwlock_new::<FifoInner<Key, Value>>, (inner,), *self.inner)]
            inner@ == Seq::<(Key, Value)>::empty() && inner.capacity() == cap && call_ensures(
                rwlock_new::<FifoInner<Key, Value>>,
                (inner,),
                *self.inner,
            )
    }
}

impl<Key, Value> Eviction<Key, Value> for Fifo<Key, Value> where
    Key: Send + Sync + CacheKey,
    Value: Send + Sync + Clone,
 {
    fn new(capacity: usize) -> (shard: Self)
        ensures
            shard.capacity() == capacity,
            shard.made_with(capacity as nat),
    {
        let first = FifoInner::new(capacity);
        let ghost first_state = first;
        let lock = rwlock_new(first);
        let shard = Self { inner: Arc::new(lock), capacity };
        assert(call_ensures(rwlock_new::<FifoInner<Key, Value>>, (first_state,), *shard.inner));
        shard
    }

    /// A clone of the value under `key` in the shard state that a read of the lock gives.
    fn get(&self, key: &Key) -> (r: Option<Value>)
        ensures
            exists|inner: FifoInner<Key, Value>|
                self.read_state(inner) && (r is Some <==> has_key(inner@, *key)) && (r is Some
                    ==> cloned(inner@[position(inner@, *key)].1, r->Some_0)),
    {
        let guard = rwlock_read(&*self.inner);
        let inner = read_value(&guard);
        let r = inner.get(key);
        proof {
            lemma_read_gives(&*self.inner, guard, inner);
            assert(self.read_state(*inner));
        }
        r
    }

    /// Under the lock held alone, the shard state becomes `fifo_push` of the state the
    /// lock handed out.
    fn push(&self, key: Key, value: Value)
        ensures
            exists|state: &mut FifoInner<Key, Value>|
                self.writes(state) && (*final(state))@ == fifo_push(
                    (*state)@,
                    key,
                    value,
                    (*state).capacity(),
                ) && (*final(state)).capacity() == (*state).capacity(),
    {
        let mut guard = rwlock_write(&*self.inner);
        let state = write_value(&mut guard);
        assert(self.writes(state));
        state.push(key, value);
    }

    /// Under the lock held alone, the shard state loses the entry with `key`, if any.
    fn remove(&self, key: &Key)
        ensures
            exists|state: &mut FifoInner<Key, Value>|
                self.writes(state) && (*final(state))@ == without_key((*state)@, *key) && (
                *final(state)).capacity() == (*state).capacity(),
    {
        let mut guard = rwlock_write(&*self.inner);
        let state = write_value(&mut guard);
        assert(self.writes(state));
        state.remove(key);
    }

    /// Whether the shard state that a read of the lock gives holds `key`.
    fn contains(&self, key: &Key) -> (b: bool)
        ensures
            exists|inner: FifoInner<Key, Value>|
                self.read_state(inner) && b == has_key(inner@, *key),
    {
        let guard = rwlock_read(&*self.inner);
        let inner = read_value(&guard);
        let b = inner.contains(key);
        proof {
            lemma_read_gives(&*self.inner, guard, inner);
            assert(self.read_state(*inner));
        }
        b
    }

    /// The number of entries in the shard state that a read of the lock gives; that
    /// state fits its capacity.
    fn len(&self) -> (n: usize)
        ensures
            exists|inner: FifoInner<Key, Value>|
                self.read_state(inner) && n == inner@.len() && fits(inner@, inner.capacity()),
    {
        let guard = rwlock_read(&*self.inner);
        let inner = read_value(&guard);
        let n = inner.len();
        proof {
            lemma_read_gives(&*self.inner, guard, inner);
            assert(self.read_state(*inner));
        }
        n
    }

    /// Whether the shard state that a read of the lock gives has no entry.
    fn is_empty(&self) -> (b: bool)
        ensures
            exists|inner: FifoInner<Key, Value>| self.read_state(inner) && b == (inner@.len() == 0),
    {
        let guard = rwlock_read(&*self.inner);
        let inner = read_value(&guard);
        let b = inner.is_empty();
        proof {
            lemma_read_gives(&*self.inner, guard, inner);
            assert(self.read_state(*inner));
        }
        b
    }
}

} // verus!
