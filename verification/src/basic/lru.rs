use std::hash::Hash;
use vstd::prelude::*;
use crate::basic::key::CacheKey;
use crate::basic::table::{
    Table, has_key, position, fits, keys, distinct_keys, lemma_drop_ends,
    lemma_without_key, lemma_index_of_pos, lemma_distinct_remove, lemma_distinct_ends,
    lemma_distinct_add,
};
use crate::basic::dll::lemma_index_of_unique;

verus! {

/// The entries after `push(k, v)` on an LRU cache of capacity `cap` holding `s`, most
/// recent first: a key already held takes the new value and moves to the front;
/// otherwise, when the cache is full, the least recently used entry leaves and the
/// new entry goes in at the front.
pub open spec fn lru_push<Key: View, Value>(s: Seq<(Key, Value)>, k: Key, v: Value, cap: nat) -> Seq<(Key, Value)> {
    if has_key(s, k) {
        seq![(k, v)] + s.remove(position(s, k))
    } else if s.len() >= cap && s.len() > 0 {
        seq![(k, v)] + s.drop_last()
    } else {
        seq![(k, v)] + s
    }
}

/// The entries after a lookup of `k` that marks it as most recently used.
pub open spec fn lru_touch<Key: View, Value>(s: Seq<(Key, Value)>, k: Key) -> Seq<(Key, Value)> {
    if has_key(s, k) {
        seq![s[position(s, k)]] + s.remove(position(s, k))
    } else {
        s
    }
}

/// Pushing onto a cache whose entries fit its capacity leaves entries that fit it: keys
/// stay distinct and the cache never holds more than its capacity.
pub proof fn lemma_lru_push_fits<Key: View, Value>(s: Seq<(Key, Value)>, k: Key, v: Value, cap: nat)
    requires
        fits(s, cap),
    ensures
        fits(lru_push(s, k, v, cap), cap),
{
    lemma_without_key(s, k);
    if has_key(s, k) {
        let r = s.remove(position(s, k));
        lemma_distinct_remove(s, position(s, k));
        lemma_distinct_add(r, k, v);
    } else if s.len() >= cap && s.len() > 0 {
        lemma_distinct_ends(s);
        lemma_drop_ends(s, k);
        lemma_distinct_add(s.drop_last(), k, v);
    } else {
        lemma_distinct_add(s, k, v);
    }
}

/// A read right after a write of `k` finds `k` at the front, with the value written.
pub proof fn lemma_lru_get_after_push<Key: View, Value>(s: Seq<(Key, Value)>, k: Key, v: Value, cap: nat)
    requires
        fits(s, cap),
    ensures
        has_key(lru_push(s, k, v, cap), k),
        position(lru_push(s, k, v, cap), k) == 0,
        lru_push(s, k, v, cap)[0] == (k, v),
        lru_touch(lru_push(s, k, v, cap), k) == lru_push(s, k, v, cap),
{
    let t = lru_push(s, k, v, cap);
    lemma_lru_push_fits(s, k, v, cap);
    assert(keys(t)[0] == k@);
    lemma_index_of_unique(keys(t), 0);
    assert(seq![t[0]] + t.remove(0) =~= t);
}

/// Pushing a cached key keeps the number of entries; a new key adds one, unless the
/// cache is full and its coldest entry leaves to make room.
pub proof fn lemma_lru_push_len<Key: View, Value>(s: Seq<(Key, Value)>, k: Key, v: Value, cap: nat)
    requires
        fits(s, cap),
        cap > 0,
    ensures
        has_key(s, k) ==> lru_push(s, k, v, cap).len() == s.len(),
        !has_key(s, k) && s.len() < cap ==> lru_push(s, k, v, cap).len() == s.len() + 1,
        !has_key(s, k) && s.len() == cap ==> lru_push(s, k, v, cap).len() == s.len(),
{
    lemma_without_key(s, k);
}

/// When a full cache takes a new key, the least recently used entry is the one that
/// leaves; every other entry stays.
pub proof fn lemma_lru_evicts_coldest<Key: View, Value>(s: Seq<(Key, Value)>, k: Key, v: Value, cap: nat)
    requires
        fits(s, cap),
        !has_key(s, k),
        s.len() == cap,
        cap > 0,
    ensures
        !has_key(lru_push(s, k, v, cap), s.last().0),
        forall|j: int| 0 <= j < s.len() - 1 ==> lru_push(s, k, v, cap).contains(#[trigger] s[j]),
{
    let t = lru_push(s, k, v, cap);
    lemma_distinct_remove(s, s.len() - 1);
    assert(s.remove(s.len() - 1) =~= s.drop_last());
    if has_key(t, s.last().0) {
        let j = keys(t).index_of(s.last().0@);
        if j == 0 {
            assert(keys(s)[s.len() - 1] == s.last().0@);
        } else {
            assert(keys(s.drop_last())[j - 1] == s.last().0@);
        }
    }
    assert forall|j: int| 0 <= j < s.len() - 1 implies t.contains(#[trigger] s[j]) by {
        assert(t[j + 1] == s[j]);
    }
}

/// A read changes no entry: the same entries remain, only the one read moves to the front.
pub proof fn lemma_lru_touch_keeps_entries<Key: View, Value>(s: Seq<(Key, Value)>, k: Key)
    requires
        distinct_keys(s),
    ensures
        lru_touch(s, k).len() == s.len(),
        forall|e: (Key, Value)| #[trigger] lru_touch(s, k).contains(e) <==> s.contains(e),
        distinct_keys(lru_touch(s, k)),
{
    lemma_without_key(s, k);
    if has_key(s, k) {
        let i = position(s, k);
        let t = lru_touch(s, k);
        let r = s.remove(i);
        lemma_distinct_remove(s, i);
        lemma_distinct_add(r, s[i].0, s[i].1);
        assert(t =~= seq![s[i]] + r);
        assert forall|e: (Key, Value)| #[trigger] t.contains(e) <==> s.contains(e) by {
            if t.contains(e) {
                let j = t.index_of(e);
                if j > 0 {
                    let j0 = if j - 1 < i { j - 1 } else { j };
                    assert(s[j0] == e);
                }
            }
            if s.contains(e) {
                let j = s.index_of(e);
                if j == i {
                    assert(t[0] == e);
                } else {
                    let j1 = if j < i { j + 1 } else { j };
                    assert(t[j1] == e);
                }
            }
        }
    }
}

/// A key just read is not the next one evicted: while the cache has room for two or
/// more entries, pushing another key keeps it.
pub proof fn lemma_lru_touched_survives<Key: View, Value>(
    s: Seq<(Key, Value)>,
    k: Key,
    k2: Key,
    v2: Value,
    cap: nat,
)
    requires
        fits(s, cap),
        has_key(s, k),
        k2@ != k@,
        cap >= 2,
    ensures
        has_key(lru_push(lru_touch(s, k), k2, v2, cap), k),
{
    lemma_lru_touch_keeps_entries(s, k);
    lemma_without_key(s, k);
    let t = lru_touch(s, k);
    assert(keys(t)[0] == k@);
    lemma_without_key(t, k2);
    let u = lru_push(t, k2, v2, cap);
    if has_key(t, k2) {
        let p = position(t, k2);
        assert(p != 0);
        assert(t.remove(p)[0] == t[0]);
        assert(keys(u)[1] == k@);
    } else if t.len() >= cap && t.len() > 0 {
        assert(t.drop_last()[0] == t[0]);
        assert(keys(u)[1] == k@);
    } else {
        assert(keys(u)[1] == k@);
    }
}

/// A least-recently-used cache: the list keeps entries from most to least recently
/// used, and the map finds an entry's slot by its key.
pub struct Lru<Key: CacheKey, Value> {
    table: Table<Key, Value>,
    cap: usize,
}

impl<Key: CacheKey, Value> View for Lru<Key, Value> {
    type V = Seq<(Key, Value)>;

    /// The cached entries, most recently used first.
    closed spec fn view(&self) -> Seq<(Key, Value)> {
        self.table@
    }
}

impl<Key: CacheKey, Value> Lru<Key, Value> {
    #[verifier::type_invariant]
    spec fn inv(self) -> bool {
        &&& self.table.wf()
        &&& 0 < self.cap
        &&& self.table@.len() <= self.cap
        &&& self.table.slot_count() <= self.cap
    }

    /// The number of node slots, held or freed.
    pub closed spec fn slot_count(&self) -> nat {
        self.table.slot_count()
    }

    /// The most entries the cache holds.
    pub closed spec fn capacity(&self) -> nat {
        self.cap as nat
    }

    pub fn new(cap: usize) -> (lru: Self)
        requires
            cap > 0,
        ensures
            lru@ == Seq::<(Key, Value)>::empty(),
            lru.capacity() == cap,
            lru.slot_count() == 0,
    {
        Self { table: Table::with_capacity(cap), cap }
    }

    /// Caches `v` under `k`, evicting the least recently used entry when the cache is full.
    pub fn push(&mut self, k: Key, v: Value)
        ensures
            final(self)@ == lru_push(old(self)@, k, v, old(self).capacity()),
            final(self).capacity() == old(self).capacity(),
            fits(old(self)@, old(self).capacity()),
            fits(final(self)@, final(self).capacity()),
            final(self).slot_count() <= final(self).capacity(),
    {
        proof {
            use_type_invariant(&*self);
            self.table.lemma_shape();
            lemma_without_key(self.table@, k);
        }
        let ghost s = self.table@;
        // the table is rearranged while out of the cache, which holds an empty one meanwhile
        let mut table = Table::new();
        std::mem::swap(&mut self.table, &mut table);
        // a key that is already cached goes in again, possibly with another value
        match table.find(&k) {
            Some(h) => {
                proof {
                    lemma_index_of_pos(table.handles(), s, k, h);
                }
                table.remove_slot(h);
            },
            None => {},
        }
        let ghost rest = table@;
        proof {
            table.lemma_shape();
        }
        // a full cache makes room by dropping its coldest entry
        if table.len() >= self.cap {
            table.pop_back();
            proof {
                lemma_drop_ends(rest, k);
            }
        }
        proof {
            table.lemma_shape();
        }
        table.insert_front(k, v);
        self.table = table;
        proof {
            use_type_invariant(&*self);
            self.table.lemma_shape();
        }
    }

    /// The value cached under `key`, which becomes the most recently used entry.
    pub fn get(&mut self, key: &Key) -> (r: Option<&Value>)
        ensures
            final(self)@ == lru_touch(old(self)@, *key),
            final(self).capacity() == old(self).capacity(),
            r is Some <==> has_key(old(self)@, *key),
            r is Some ==> *r->Some_0 == old(self)@[position(old(self)@, *key)].1,
            fits(old(self)@, old(self).capacity()),
            fits(final(self)@, final(self).capacity()),
    {
        proof {
            use_type_invariant(&*self);
            self.table.lemma_shape();
            lemma_without_key(self.table@, *key);
        }
        match self.table.find(key) {
            Some(h) => {
                proof {
                    lemma_index_of_pos(self.table.handles(), self.table@, *key, h);
                }
                let mut table = Table::new();
                std::mem::swap(&mut self.table, &mut table);
                table.move_to_front(h);
                self.table = table;
                proof {
                    use_type_invariant(&*self);
                    self.table.lemma_shape();
                    lemma_index_of_unique(self.table.handles(), 0);
                }
                Some(self.table.value(h))
            },
            None => None,
        }
    }

    pub fn size(&self) -> (n: usize)
        ensures
            n == self@.len(),
            fits(self@, self.capacity()),
            0 < self.capacity(),
            n <= self.capacity(),
            self.slot_count() <= self.capacity(),
    {
        proof {
            use_type_invariant(self);
            self.table.lemma_shape();
        }
        self.table.len()
    }

    pub fn is_empty(&self) -> (b: bool)
        ensures
            b == (self@.len() == 0),
    {
        proof {
            use_type_invariant(self);
        }
        0 == self.table.len()
    }
}

} // verus!
