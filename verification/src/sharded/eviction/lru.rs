use std::hash::Hash;
use std::sync::Arc;
use parking_lot::{Mutex, RwLock};
use vstd::prelude::*;
use crate::basic::key::CacheKey;
use crate::locks::{
    lemma_pl_mutex_gives, lemma_read_gives, pl_mutex_gives, read_gives, write_hands_out,
    pl_mutex_hands_out, pl_mutex_reads_then_hands_out,
    pl_mutex_lock, pl_mutex_ref, pl_mutex_new, pl_mutex_value, read_value, rwlock_new, rwlock_read,
    rwlock_write, write_value,
};
use crate::sharded::eviction::Eviction;
use crate::basic::lru::{lru_push, lru_touch};
use crate::basic::dll::lemma_index_of_unique;
use crate::basic::table::{
    Table, slot_limit, has_key, position, fits, keys, distinct_keys, without_key, lemma_drop_ends,
    lemma_without_key, lemma_index_of_pos, lemma_to_front,
};

verus! {

/// `s` and its slots `hs` after the entry in slot `h`, if any, becomes the most recently used.
pub open spec fn promote<Key: View, Value>(s: Seq<(Key, Value)>, hs: Seq<usize>, h: usize) -> (Seq<(Key, Value)>, Seq<usize>) {
    if hs.contains(h) {
        let i = hs.index_of(h);
        (seq![s[i]] + s.remove(i), seq![h] + hs.remove(i))
    } else {
        (s, hs)
    }
}

/// `s` and its slots `hs` after the entries in `slots` are promoted one after the other.
pub open spec fn promote_all<Key: View, Value>(s: Seq<(Key, Value)>, hs: Seq<usize>, slots: Seq<usize>) -> (Seq<(Key, Value)>, Seq<usize>)
    decreases slots.len(),
{
    if slots.len() == 0 {
        (s, hs)
    } else {
        let p = promote_all(s, hs, slots.drop_last());
        promote(p.0, p.1, slots.last())
    }
}

/// Promoting recent reads never changes what a shard holds: the same entries and slots
/// remain, with keys and slots still distinct; only their order changes.
pub proof fn lemma_promote_keeps_entries<Key: View, Value>(s: Seq<(Key, Value)>, hs: Seq<usize>, slots: Seq<usize>)
    requires
        hs.len() == s.len(),
        hs.no_duplicates(),
        distinct_keys(s),
    ensures
        promote_all(s, hs, slots).0.len() == s.len(),
        promote_all(s, hs, slots).1.len() == s.len(),
        promote_all(s, hs, slots).1.no_duplicates(),
        distinct_keys(promote_all(s, hs, slots).0),
        forall|e: (Key, Value)| #[trigger] promote_all(s, hs, slots).0.contains(e) <==> s.contains(e),
    decreases slots.len(),
{
    if slots.len() > 0 {
        lemma_promote_keeps_entries(s, hs, slots.drop_last());
        let p = promote_all(s, hs, slots.drop_last());
        let h = slots.last();
        if p.1.contains(h) {
            let i = p.1.index_of(h);
            lemma_to_front(p.0, i);
            lemma_to_front(p.1, i);
            lemma_to_front(keys(p.0), i);
            assert(keys(seq![p.0[i]] + p.0.remove(i)) =~= seq![keys(p.0)[i]] + keys(p.0).remove(i));
            assert(seq![h] + p.1.remove(i) =~= seq![p.1[i]] + p.1.remove(i));
        }
    }
}

/// The slot that holds the entry with key `k`, for entries `s` held in slots `hs`.
pub open spec fn slot_of<Key: View, Value>(s: Seq<(Key, Value)>, hs: Seq<usize>, k: Key) -> usize {
    hs[position(s, k)]
}

/// The entries after reads of the keys `ks`, one after the other, in the single-lock LRU
/// cache: each read moves its entry to the front.
pub open spec fn touch_all<Key: View, Value>(s: Seq<(Key, Value)>, ks: Seq<Key>) -> Seq<(Key, Value)>
    decreases ks.len(),
{
    if ks.len() == 0 {
        s
    } else {
        lru_touch(touch_all(s, ks.drop_last()), ks.last())
    }
}

/// Promoting the slot of a held key moves its entry to the front exactly as a read of
/// that key does in the single-lock LRU cache, and every held key keeps its slot.
pub proof fn lemma_promote_is_touch<Key: View, Value>(s: Seq<(Key, Value)>, hs: Seq<usize>, k: Key)
    requires
        hs.len() == s.len(),
        hs.no_duplicates(),
        distinct_keys(s),
        has_key(s, k),
    ensures
        promote(s, hs, slot_of(s, hs, k)).0 == lru_touch(s, k),
        forall|k2: Key| #[trigger] has_key(s, k2) ==> has_key(promote(s, hs, slot_of(s, hs, k)).0, k2)
            && slot_of(promote(s, hs, slot_of(s, hs, k)).0, promote(s, hs, slot_of(s, hs, k)).1, k2)
            == slot_of(s, hs, k2),
{
    let i = position(s, k);
    let h = hs[i];
    lemma_index_of_unique(hs, i);
    assert(hs.contains(h));
    let t = seq![s[i]] + s.remove(i);
    let ths = seq![h] + hs.remove(i);
    lemma_promote_keeps_entries(s, hs, seq![h]);
    assert(seq![h].drop_last() =~= Seq::<usize>::empty());
    assert(promote_all(s, hs, Seq::<usize>::empty()) == (s, hs));
    assert(seq![h].last() == h);
    assert(promote_all(s, hs, seq![h]) == promote(s, hs, h));
    assert(promote(s, hs, h) == (t, ths));
    assert(distinct_keys(t));
    assert forall|k2: Key| #[trigger] has_key(s, k2) implies has_key(t, k2) && slot_of(t, ths, k2)
        == slot_of(s, hs, k2) by {
        let j = position(s, k2);
        assert(keys(s)[j] == k2@);
        let p = if j == i { 0 } else if j < i { j + 1 } else { j };
        assert(keys(t)[p] == k2@);
        lemma_index_of_unique(keys(t), p);
        assert(ths[p] == hs[j]);
    }
}

/// Promoting the slots of the keys `ks`, noted one per read in the order of the reads,
/// gives the entries that those reads give in the single-lock LRU cache.
pub proof fn lemma_noted_reads_replay<Key: View, Value>(s: Seq<(Key, Value)>, hs: Seq<usize>, ks: Seq<Key>)
    requires
        hs.len() == s.len(),
        hs.no_duplicates(),
        distinct_keys(s),
        forall|i: int| 0 <= i < ks.len() ==> #[trigger] has_key(s, ks[i]),
    ensures
        promote_all(s, hs, ks.map_values(|k: Key| slot_of(s, hs, k))).0 == touch_all(s, ks),
        forall|k2: Key| #[trigger] has_key(s, k2) ==> has_key(
            promote_all(s, hs, ks.map_values(|k: Key| slot_of(s, hs, k))).0,
            k2,
        ) && slot_of(
            promote_all(s, hs, ks.map_values(|k: Key| slot_of(s, hs, k))).0,
            promote_all(s, hs, ks.map_values(|k: Key| slot_of(s, hs, k))).1,
            k2,
        ) == slot_of(s, hs, k2),
    decreases ks.len(),
{
    let slots = ks.map_values(|k: Key| slot_of(s, hs, k));
    if ks.len() > 0 {
        let rest = ks.drop_last();
        lemma_noted_reads_replay(s, hs, rest);
        assert(slots.drop_last() =~= rest.map_values(|k: Key| slot_of(s, hs, k)));
        let p = promote_all(s, hs, slots.drop_last());
        lemma_promote_keeps_entries(s, hs, slots.drop_last());
        let last = ks.last();
        assert(has_key(s, ks[ks.len() - 1]));
        assert(slots.last() == slot_of(p.0, p.1, last));
        lemma_promote_is_touch(p.0, p.1, last);
    }
}

/// A buffer of recent reads that a write emptied promotes nothing at the next write:
/// each noted read is promoted once.
pub proof fn lemma_drained_promotes_nothing<Key: View, Value>(s: Seq<(Key, Value)>, hs: Seq<usize>, buf: Seq<usize>)
    requires
        buf == Seq::<usize>::empty(),
    ensures
        promote_all(s, hs, buf) == (s, hs),
{
}

/// The state of one LRU shard: entries from most to least recently used, each in a
/// slot of the node array and found by key through the map.
pub struct LruInner<Key: CacheKey, Value> {
    table: Table<Key, Value>,
    capacity: usize,
}

impl<Key: CacheKey, Value> View for LruInner<Key, Value> {
    type V = Seq<(Key, Value)>;

    /// The entries, most recently used first.
    closed spec fn view(&self) -> Seq<(Key, Value)> {
        self.table@
    }
}

impl<Key: CacheKey, Value> LruInner<Key, Value> {
    #[verifier::type_invariant]
    spec fn inv(self) -> bool {
        &&& self.table.wf()
        &&& self.table@.len() <= (if self.capacity == 0 { 1 } else { self.capacity })
        &&& self.table.slot_count() <= slot_limit(self.capacity as nat)
    }

    /// The number of node slots, held or freed.
    pub closed spec fn slot_count(&self) -> nat {
        self.table.slot_count()
    }

    /// The node slots of the entries, in the order of the entries.
    pub closed spec fn slots(&self) -> Seq<usize> {
        self.table.handles()
    }

    /// The number of entries past which a new key evicts the coldest one.
    pub closed spec fn capacity(&self) -> nat {
        self.capacity as nat
    }

    pub fn new(capacity: usize) -> (inner: Self)
        ensures
            inner@ == Seq::<(Key, Value)>::empty(),
            inner.capacity() == capacity,
            inner.slot_count() == 0,
    {
        Self { table: Table::with_capacity(capacity), capacity }
    }

    /// Caches `value` under `key`: a cached key takes the new value and moves to the
    /// front; a new key first evicts the coldest entry when the shard is full.
    pub fn push(&mut self, key: Key, value: Value)
        ensures
            final(self)@ == lru_push(old(self)@, key, value, old(self).capacity()),
            final(self).capacity() == old(self).capacity(),
            fits(old(self)@, old(self).capacity()),
            fits(final(self)@, final(self).capacity()),
            final(self).slot_count() <= slot_limit(final(self).capacity()),
    {
        proof {
            use_type_invariant(&*self);
            self.table.lemma_shape();
            lemma_without_key(self.table@, key);
        }
        let ghost s = self.table@;
        let mut table = Table::new();
        std::mem::swap(&mut self.table, &mut table);
        match table.find(&key) {
            Some(node_index) => {
                proof {
                    lemma_index_of_pos(table.handles(), s, key, node_index);
                }
                // update the entry in place and make the entry the most recent
                let ghost k0 = key;
                table.set_entry(node_index, key, value);
                table.move_to_front(node_index);
                proof {
                    let i = position(s, k0);
                    assert(table@ =~= seq![(k0, value)] + s.remove(i));
                }
            },
            None => {
                // make room for the new entry when the shard is full
                if table.len() >= self.capacity {
                    table.pop_back();
                    proof {
                        if s.len() > 0 {
                            lemma_drop_ends(s, key);
                        }
                    }
                }
                proof {
                    table.lemma_shape();
                }
                table.insert_front(key, value);
            },
        }
        self.table = table;
        proof {
            use_type_invariant(&*self);
            self.table.lemma_shape();
        }
    }

    /// The slot and a clone of the value of the entry with `key`, if any; the order stays.
    pub fn lookup(&self, key: &Key) -> (r: Option<(usize, Value)>)
        where
            Value: Clone,
        ensures
            r is Some <==> has_key(self@, *key),
            r is Some ==> r->Some_0.0 == self.slots()[position(self@, *key)] && cloned(
                self@[position(self@, *key)].1,
                r->Some_0.1,
            ),
    {
        proof {
            use_type_invariant(self);
            self.table.lemma_shape();
        }
        match self.table.find(key) {
            Some(node_index) => {
                proof {
                    lemma_index_of_pos(self.table.handles(), self.table@, *key, node_index);
                }
                let value = self.table.value(node_index).clone();
                Some((node_index, value))
            },
            None => None,
        }
    }

    /// Makes the entries in `slots` the most recently used, one after the other; a slot
    /// that holds no entry is passed over.
    pub fn promote(&mut self, slots: &Vec<usize>)
        ensures
            (final(self)@, final(self).slots()) == promote_all(old(self)@, old(self).slots(), slots@),
            final(self).capacity() == old(self).capacity(),
            fits(old(self)@, old(self).capacity()),
            fits(final(self)@, final(self).capacity()),
    {
        proof {
            use_type_invariant(&*self);
            self.table.lemma_shape();
        }
        let mut table = Table::new();
        std::mem::swap(&mut self.table, &mut table);
        let ghost s0 = table@;
        let ghost hs0 = table.handles();
        let ghost slot_count0 = table.slot_count();
        let mut i: usize = 0;
        while i < slots.len()
            invariant
                table.wf(),
                table.slot_count() == slot_count0,
                i <= slots@.len(),
                table@.len() == s0.len(),
                (table@, table.handles()) == promote_all(s0, hs0, slots@.take(i as int)),
            decreases slots@.len() - i,
        {
            let node_index = slots[i];
            proof {
                table.lemma_shape();
                assert(slots@.take(i + 1).drop_last() =~= slots@.take(i as int));
                assert(slots@.take(i + 1).last() == node_index);
            }
            if table.holds(node_index) {
                table.move_to_front(node_index);
            }
            i = i + 1;
        }
        assert(slots@.take(slots@.len() as int) =~= slots@);
        self.table = table;
        proof {
            use_type_invariant(&*self);
            self.table.lemma_shape();
        }
    }

    /// Takes the entry with `key` out, if there is one.
    pub fn remove(&mut self, key: &Key)
        ensures
            final(self)@ == without_key(old(self)@, *key),
            final(self).capacity() == old(self).capacity(),
            fits(old(self)@, old(self).capacity()),
            fits(final(self)@, final(self).capacity()),
    {
        proof {
            use_type_invariant(&*self);
            self.table.lemma_shape();
        }
        let mut table = Table::new();
        std::mem::swap(&mut self.table, &mut table);
        match table.find(key) {
            Some(node_index) => {
                proof {
                    lemma_index_of_pos(table.handles(), table@, *key, node_index);
                }
                table.remove_slot(node_index);
            },
            None => {},
        }
        self.table = table;
        proof {
            use_type_invariant(&*self);
            self.table.lemma_shape();
        }
    }

    pub fn contains(&self, key: &Key) -> (b: bool)
        ensures
            b == has_key(self@, *key),
    {
        proof {
            use_type_invariant(self);
        }
        self.table.contains_key(key)
    }

    pub fn len(&self) -> (n: usize)
        ensures
            n == self@.len(),
            fits(self@, self.capacity()),
            self.slot_count() <= slot_limit(self.capacity()),
    {
        proof {
            use_type_invariant(self);
            self.table.lemma_shape();
        }
        self.table.len()
    }

    pub fn is_empty(&self) -> (b: bool)
        ensures
            b == (self@.len() == 0),
    {
        proof {
            use_type_invariant(self);
        }
        0 == self.table.len()
    }
}

/// How many recent reads a shard collects before it moves them to the front at once.
pub const RECENT_FLUSH_LEN: usize = 64;

/// An LRU shard. A read takes the lock shared and only notes the slot it read; the
/// noted slots move to the front together, once enough have gathered or before the
/// next write, so that reads rarely need the lock alone.
#[derive(Clone)]
#[verifier::reject_recursive_types(Key)]
#[verifier::reject_recursive_types(Value)]
pub struct Lru<Key, Value> where
    Key: Send + Sync + CacheKey,
    Value: Send + Sync + Clone,
 {
    inner: Arc<RwLock<LruInner<Key, Value>>>,
    recent_nodes_idx: Arc<Mutex<Vec<usize>>>,
    capacity: usize,
}

impl<Key, Value> Lru<Key, Value> where
    Key: Send + Sync + CacheKey,
    Value: Send + Sync + Clone,
 {
    /// The capacity the shard was made with.
    pub closed spec fn capacity(&self) -> nat {
        self.capacity as nat
    }

    /// `inner` is a state of the shard that a shared read of its lock gives.
    pub closed spec fn read_state(&self, inner: LruInner<Key, Value>) -> bool {
        read_gives(&*self.inner, inner)
    }

    /// `state` is the shard state that a write of the lock hands out; what is written
    /// through it is what the lock then holds.
    pub closed spec fn writes(&self, state: &mut LruInner<Key, Value>) -> bool {
        write_hands_out(&*self.inner, state)
    }

    /// `buf` is the buffer of recent reads that locking it hands out for writing.
    pub closed spec fn notes(&self, buf: &mut Vec<usize>) -> bool {
        pl_mutex_hands_out(&*self.recent_nodes_idx, buf)
    }

    /// Through one lock of the buffer of recent reads, `slots` were read from it and
    /// then `buf` was handed out for writing.
    pub closed spec fn drains(&self, slots: Vec<usize>, buf: &mut Vec<usize>) -> bool {
        pl_mutex_reads_then_hands_out(&*self.recent_nodes_idx, slots, buf)
    }

    /// `slots` is a list of noted reads that locking the shard's buffer of recent reads
    /// gives.
    pub closed spec fn recent_gives(&self, slots: Vec<usize>) -> bool {
        pl_mutex_gives(&*self.recent_nodes_idx, slots)
    }

    /// The lock was made around an empty shard state of capacity `cap`, and the buffer
    /// of recent reads around an empty list.
    pub closed spec fn made_with(&self, cap: nat) -> bool {
        &&& exists|inner: LruInner<Key, Value>|
            #![trigger call_ensures(rwlock_new::<LruInner<Key, Value>>, (inner,), *self.inner)]
            inner@ == Seq::<(Key, Value)>::empty() && inner.capacity() == cap && call_ensures(
                rwlock_new::<LruInner<Key, Value>>,
                (inner,),
                *self.inner,
            )
        &&& exists|recent: Vec<usize>|
            #![trigger call_ensures(pl_mutex_new::<Vec<usize>>, (recent,), *self.recent_nodes_idx)]
            recent@ == Seq::<usize>::empty() && call_ensures(
                pl_mutex_new::<Vec<usize>>,
                (recent,),
                *self.recent_nodes_idx,
            )
    }

    /// Moves the slots noted by recent reads to the front, in the order they were read,
    /// and forgets them.
    fn handle_recent_used(&self, inner: &mut LruInner<Key, Value>)
        ensures
            exists|slots: Vec<usize>|
                #![trigger self.recent_gives(slots)]
                self.recent_gives(slots) && (final(inner)@, final(inner).slots()) == promote_all(
                    old(inner)@,
                    old(inner).slots(),
                    slots@,
                ),
            exists|slots: Vec<usize>, buf: &mut Vec<usize>|
                self.drains(slots, buf) && (*final(buf))@ == Seq::<usize>::empty() && (
                final(inner)@,
                final(inner).slots(),
            ) == promote_all(old(inner)@, old(inner).slots(), slots@),
            final(inner).capacity() == old(inner).capacity(),
    {
        let mut guard = pl_mutex_lock(&*self.recent_nodes_idx);
        let recent = pl_mutex_ref(&guard);
        inner.promote(recent);
        let ghost slots = *recent;
        proof {
            lemma_pl_mutex_gives(&*self.recent_nodes_idx, guard, recent);
            assert(self.recent_gives(slots));
        }
        let buf = pl_mutex_value(&mut guard);
        assert(self.drains(slots, buf));
        buf.clear();
    }
}

impl<Key, Value> Eviction<Key, Value> for Lru<Key, Value> where
    Key: Send + Sync + CacheKey,
    Value: Send + Sync + Clone,
 {
    fn new(capacity: usize) -> (shard: Self)
        ensures
            shard.capacity() == capacity,
            shard.made_with(capacity as nat),
    {
        let first = LruInner::new(capacity);
        let ghost first_state = first;
        let lock = rwlock_new(first);
        let recent = Vec::with_capacity(1024);
        let ghost first_recent = recent;
        let recent_lock = pl_mutex_new(recent);
        let shard = Self { inner: Arc::new(lock), recent_nodes_idx: Arc::new(recent_lock), capacity };
        assert(call_ensures(rwlock_new::<LruInner<Key, Value>>, (first_state,), *shard.inner));
        assert(call_ensures(pl_mutex_new::<Vec<usize>>, (first_recent,), *shard.recent_nodes_idx));
        shard
    }

    /// A clone of the value under `key` in the shard state that a read of the lock gives.
    /// A hit is noted for promotion; enough noted hits are promoted at once.
    fn get(&self, key: &Key) -> (r: Option<Value>)
        ensures
            exists|inner: LruInner<Key, Value>|
                self.read_state(inner) && (r is Some <==> has_key(inner@, *key)) && (r is Some
                    ==> cloned(inner@[position(inner@, *key)].1, r->Some_0)) && (r is Some ==> exists|
                    buf: &mut Vec<usize>,
                |
                    self.notes(buf) && (*final(buf))@ == (*buf)@.push(
                        inner.slots()[position(inner@, *key)],
                    ) && ((*final(buf))@.len() >= RECENT_FLUSH_LEN ==> exists|
                        state: &mut LruInner<Key, Value>,
                        slots: Vec<usize>,
                        drained: &mut Vec<usize>,
                    |
                        self.writes(state) && self.drains(slots, drained) && (*final(drained))@
                            == Seq::<usize>::empty() && ((*final(state))@, (*final(state)).slots())
                            == promote_all((*state)@, (*state).slots(), slots@))),
    {
        let (found, seen) = {
            let guard = rwlock_read(&*self.inner);
            let inner = read_value(&guard);
            let found = inner.lookup(key);
            proof {
                lemma_read_gives(&*self.inner, guard, inner);
            }
            (found, Ghost(*inner))
        };
        assert(self.read_state(seen@));
        match found {
            Some((node_index, value)) => {
                let flush = {
                    let mut guard = pl_mutex_lock(&*self.recent_nodes_idx);
                    let recent = pl_mutex_value(&mut guard);
                    assert(self.notes(recent));
                    recent.push(node_index);
                    recent.len() >= RECENT_FLUSH_LEN
                };
                if flush {
                    let mut guard = rwlock_write(&*self.inner);
                    let state = write_value(&mut guard);
                    assert(self.writes(state));
                    self.handle_recent_used(state);
                }
                Some(value)
            },
            None => None,
        }
    }

    /// Under the lock held alone, the reads noted so far are promoted and their buffer
    /// is emptied; then the shard state becomes `lru_push` of the promoted state.
    fn push(&self, key: Key, value: Value)
        ensures
            exists|state: &mut LruInner<Key, Value>, slots: Vec<usize>, buf: &mut Vec<usize>|
                self.writes(state) && self.drains(slots, buf) && (*final(buf))@ == Seq::<
                    usize,
                >::empty() && (*final(state))@ == lru_push(
                    promote_all((*state)@, (*state).slots(), slots@).0,
                    key,
                    value,
                    (*state).capacity(),
                ) && (*final(state)).capacity() == (*state).capacity(),
    {
        let mut guard = rwlock_write(&*self.inner);
        let inner = write_value(&mut guard);
        assert(self.writes(inner));
        // promote the recent reads first, so that eviction picks the true coldest entry
        self.handle_recent_used(inner);
        inner.push(key, value);
    }

    /// Under the lock held alone, the shard state loses the entry with `key`, if any.
    fn remove(&self, key: &Key)
        ensures
            exists|state: &mut LruInner<Key, Value>|
                self.writes(state) && (*final(state))@ == without_key((*state)@, *key) && (
                *final(state)).capacity() == (*state).capacity(),
    {
        let mut guard = rwlock_write(&*self.inner);
        let state = write_value(&mut guard);
        assert(self.writes(state));
        state.remove(key);
    }

    /// Whether the shard state that a read of the lock gives holds `key`.
    fn contains(&self, key: &Key) -> (b: bool)
        ensures
            exists|inner: LruInner<Key, Value>|
                self.read_state(inner) && b == has_key(inner@, *key),
    {
        let guard = rwlock_read(&*self.inner);
        let inner = read_value(&guard);
        let b = inner.contains(key);
        proof {
            lemma_read_gives(&*self.inner, guard, inner);
            assert(self.read_state(*inner));
        }
        b
    }

    /// The number of entries in the shard state that a read of the lock gives; that
    /// state fits its capacity.
    fn len(&self) -> (n: usize)
        ensures
            exists|inner: LruInner<Key, Value>|
                self.read_state(inner) && n == inner@.len() && fits(inner@, inner.capacity()),
    {
        let guard = rwlock_read(&*self.inner);
        let inner = read_value(&guard);
        let n = inner.len();
        proof {
            lemma_read_gives(&*self.inner, guard, inner);
            assert(self.read_state(*inner));
        }
        n
    }

    /// Whether the shard state that a read of the lock gives has no entry.
    fn is_empty(&self) -> (b: bool)
        ensures
            exists|inner: LruInner<Key, Value>| self.read_state(inner) && b == (inner@.len() == 0),
    {
        let guard = rwlock_read(&*self.inner);
        let inner = read_value(&guard);
        let b = inner.is_empty();
        proof {
            lemma_read_gives(&*self.inner, guard, inner);
            assert(self.read_state(*inner));
        }
        b
    }
}

} // verus!
