use vstd::prelude::*;
use crate::basic::dll::{Dll, lemma_index_of_unique};
use crate::basic::key::CacheKey;

verus! {

/// The views of the keys of a sequence of entries, in the same order.
pub open spec fn keys<Key: View, Value>(s: Seq<(Key, Value)>) -> Seq<Key::V> {
    s.map_values(|e: (Key, Value)| e.0@)
}

/// Some entry of `s` has the key `k`.
pub open spec fn has_key<Key: View, Value>(s: Seq<(Key, Value)>, k: Key) -> bool {
    keys(s).contains(k@)
}

/// The position of the entry with key `k` in `s` (meaningful when there is one).
pub open spec fn position<Key: View, Value>(s: Seq<(Key, Value)>, k: Key) -> int {
    keys(s).index_of(k@)
}

/// No two entries of `s` share a key.
pub open spec fn distinct_keys<Key: View, Value>(s: Seq<(Key, Value)>) -> bool {
    keys(s).no_duplicates()
}

/// The entries have distinct keys and there are at most `cap` of them (one, when `cap` is
/// zero: a shard made with no room still keeps its latest entry).
pub open spec fn fits<Key: View, Value>(s: Seq<(Key, Value)>, cap: nat) -> bool {
    &&& distinct_keys(s)
    &&& s.len() <= (if cap == 0 {
        1
    } else {
        cap
    })
}

/// The most slots a shard of capacity `cap` ever needs: one per entry it may hold.
pub open spec fn slot_limit(cap: nat) -> nat {
    if cap == 0 {
        1
    } else {
        cap
    }
}

/// `s` without the entry whose key is `k`, if it has one.
pub open spec fn without_key<Key: View, Value>(s: Seq<(Key, Value)>, k: Key) -> Seq<(Key, Value)> {
    if has_key(s, k) {
        s.remove(position(s, k))
    } else {
        s
    }
}

/// Dropping the first or the last entry brings in no key.
pub proof fn lemma_drop_ends<Key: View, Value>(s: Seq<(Key, Value)>, k: Key)
    requires
        s.len() > 0,
        !has_key(s, k),
    ensures
        !has_key(s.drop_last(), k),
        !has_key(s.drop_first(), k),
{
    if has_key(s.drop_last(), k) {
        let j = keys(s.drop_last()).index_of(k@);
        assert(keys(s)[j] == k@);
    }
    if has_key(s.drop_first(), k) {
        let j = keys(s.drop_first()).index_of(k@);
        assert(keys(s)[j + 1] == k@);
    }
}

/// With distinct keys, the entry found for `k` is the one at its position, and taking it
/// out leaves no entry with that key.
pub proof fn lemma_without_key<Key: View, Value>(s: Seq<(Key, Value)>, k: Key)
    requires
        distinct_keys(s),
    ensures
        has_key(s, k) ==> 0 <= position(s, k) < s.len() && s[position(s, k)].0@ == k@,
        has_key(s, k) ==> without_key(s, k).len() == s.len() - 1,
        !has_key(without_key(s, k), k),
{
    if has_key(s, k) {
        let i = position(s, k);
        assert(keys(s)[i] == k@);
        let r = s.remove(i);
        if has_key(r, k) {
            let j = keys(r).index_of(k@);
            let j0 = if j < i { j } else { j + 1 };
            assert(keys(s)[j0] == k@);
        }
    }
}

/// The slot found for key `k` sits at the position of `k` among the entries.
pub proof fn lemma_index_of_pos<Key: View, Value>(hs: Seq<usize>, s: Seq<(Key, Value)>, k: Key, h: usize)
    requires
        hs.no_duplicates(),
        hs.len() == s.len(),
        has_key(s, k),
        h == hs[position(s, k)],
    ensures
        hs.contains(h),
        hs.index_of(h) == position(s, k),
{
    assert(keys(s).contains(k@));
    lemma_index_of_unique(hs, position(s, k));
}

/// Taking one entry out keeps the keys distinct, keeps every other key, and brings in none.
pub proof fn lemma_distinct_remove<Key: View, Value>(s: Seq<(Key, Value)>, i: int)
    requires
        distinct_keys(s),
        0 <= i < s.len(),
    ensures
        distinct_keys(s.remove(i)),
        forall|k: Key| #[trigger] has_key(s.remove(i), k) ==> has_key(s, k),
        forall|k: Key| has_key(s, k) && k@ != s[i].0@ ==> #[trigger] has_key(s.remove(i), k),
        !has_key(s.remove(i), s[i].0),
{
    let r = s.remove(i);
    assert forall|a: int, b: int| 0 <= a < b < r.len() implies keys(r)[a] != keys(r)[b] by {
        let a0 = if a < i { a } else { a + 1 };
        let b0 = if b < i { b } else { b + 1 };
        assert(keys(r)[a] == keys(s)[a0]);
        assert(keys(r)[b] == keys(s)[b0]);
    }
    assert forall|k: Key| #[trigger] has_key(r, k) implies has_key(s, k) by {
        let j = keys(r).index_of(k@);
        let j0 = if j < i { j } else { j + 1 };
        assert(keys(s)[j0] == k@);
    }
    assert forall|k: Key| has_key(s, k) && k@ != s[i].0@ implies #[trigger] has_key(r, k) by {
        let j = keys(s).index_of(k@);
        assert(j != i);
        let j1 = if j < i { j } else { j - 1 };
        assert(keys(r)[j1] == k@);
    }
    if has_key(r, s[i].0) {
        let j = keys(r).index_of(s[i].0@);
        let j0 = if j < i { j } else { j + 1 };
        assert(keys(s)[j0] == keys(s)[i]);
    }
}

/// Dropping the first or the last entry keeps the keys distinct.
pub proof fn lemma_distinct_ends<Key: View, Value>(s: Seq<(Key, Value)>)
    requires
        distinct_keys(s),
        s.len() > 0,
    ensures
        distinct_keys(s.drop_last()),
        distinct_keys(s.drop_first()),
{
    lemma_distinct_remove(s, s.len() - 1);
    lemma_distinct_remove(s, 0);
    assert(s.remove(s.len() - 1) =~= s.drop_last());
    assert(s.remove(0) =~= s.drop_first());
}

/// Adding an entry with a new key at either end keeps the keys distinct.
pub proof fn lemma_distinct_add<Key: View, Value>(r: Seq<(Key, Value)>, k: Key, v: Value)
    requires
        distinct_keys(r),
        !has_key(r, k),
    ensures
        distinct_keys(seq![(k, v)] + r),
        distinct_keys(r.push((k, v))),
        has_key(seq![(k, v)] + r, k),
        has_key(r.push((k, v)), k),
{
    let f = seq![(k, v)] + r;
    let b = r.push((k, v));
    assert(keys(f)[0] == k@);
    assert(keys(b)[r.len() as int] == k@);
    assert forall|x: int, y: int| 0 <= x < y < f.len() implies keys(f)[x] != keys(f)[y] by {
        assert(keys(f)[y] == keys(r)[y - 1]);
        if x > 0 {
            assert(keys(f)[x] == keys(r)[x - 1]);
        }
    }
    assert forall|x: int, y: int| 0 <= x < y < b.len() implies keys(b)[x] != keys(b)[y] by {
        assert(keys(b)[x] == keys(r)[x]);
        if y < r.len() {
            assert(keys(b)[y] == keys(r)[y]);
        }
    }
}

/// Removing a key takes out that key only: every other key stays with its entry, and
/// the keys stay distinct.
pub proof fn lemma_without_key_keeps_others<Key: View, Value>(s: Seq<(Key, Value)>, k: Key)
    requires
        distinct_keys(s),
    ensures
        !has_key(without_key(s, k), k),
        distinct_keys(without_key(s, k)),
        forall|k2: Key| k2@ != k@ ==> #[trigger] has_key(without_key(s, k), k2) == has_key(s, k2),
        forall|e: (Key, Value)| e.0@ != k@ ==> (#[trigger] without_key(s, k).contains(e) <==> s.contains(e)),
{
    lemma_without_key(s, k);
    if has_key(s, k) {
        let i = position(s, k);
        lemma_distinct_remove(s, i);
        let r = s.remove(i);
        assert forall|e: (Key, Value)| e.0@ != k@ implies (#[trigger] r.contains(e) <==> s.contains(e)) by {
            if r.contains(e) {
                let j = r.index_of(e);
                let j0 = if j < i { j } else { j + 1 };
                assert(s[j0] == e);
            }
            if s.contains(e) {
                let j = s.index_of(e);
                assert(j != i);
                let j1 = if j < i { j } else { j - 1 };
                assert(r[j1] == e);
            }
        }
    }
}

/// Moving the element at position `i` to the front keeps the elements, their number,
/// and their distinctness.
pub proof fn lemma_to_front<A>(s: Seq<A>, i: int)
    requires
        0 <= i < s.len(),
    ensures
        (seq![s[i]] + s.remove(i)).len() == s.len(),
        forall|e: A| #[trigger] (seq![s[i]] + s.remove(i)).contains(e) <==> s.contains(e),
        s.no_duplicates() ==> (seq![s[i]] + s.remove(i)).no_duplicates(),
{
    let t = seq![s[i]] + s.remove(i);
    assert forall|e: A| #[trigger] t.contains(e) <==> s.contains(e) by {
        if t.contains(e) {
            let j = t.index_of(e);
            if j > 0 {
                let j0 = if j - 1 < i { j - 1 } else { j };
                assert(s[j0] == e);
            }
        }
        if s.contains(e) {
            let j = s.index_of(e);
            if j == i {
                assert(t[0] == e);
            } else {
                let j1 = if j < i { j + 1 } else { j };
                assert(t[j1] == e);
            }
        }
    }
    if s.no_duplicates() {
        assert forall|a: int, b: int| 0 <= a < b < t.len() implies t[a] != t[b] by {
            let b0 = if b - 1 < i { b - 1 } else { b };
            assert(t[b] == s[b0]);
            assert(b0 != i);
            if a > 0 {
                let a0 = if a - 1 < i { a - 1 } else { a };
                assert(t[a] == s[a0]);
                assert(a0 != b0);
            }
        }
    }
}

/// A list of entries together with a map from each key to the slot of its entry.
pub struct Table<Key: CacheKey, Value> {
    list: Dll<Key, Value>,
    map: Key::Index,
}

impl<Key: CacheKey, Value> View for Table<Key, Value> {
    type V = Seq<(Key, Value)>;

    /// The entries of the table in list order.
    closed spec fn view(&self) -> Seq<(Key, Value)> {
        self.list@
    }
}

impl<Key: CacheKey, Value> Table<Key, Value> {
    /// The slots of the entries, in list order.
    pub closed spec fn handles(&self) -> Seq<usize> {
        self.list.handles()
    }

    /// The freed slots, waiting to be reused.
    pub closed spec fn free_slots(&self) -> Seq<usize> {
        self.list.free_slots()
    }

    /// The number of slots, held or freed.
    pub closed spec fn slot_count(&self) -> nat {
        self.list.slot_count()
    }

    /// The slot the map gives each key view.
    spec fn slots(&self) -> Map<<Key as View>::V, usize> {
        Key::slots_of(&self.map)
    }

    /// The list is well formed, and the map sends the view of each key on the list to the
    /// slot of its entry, and no other view anywhere.
    pub closed spec fn wf(&self) -> bool {
        &&& self.list.wf()
        &&& forall|k: <Key as View>::V| #[trigger]
            self.slots().contains_key(k) ==> self.list.handles().contains(self.slots()[k])
                && self.list.entry(self.slots()[k]).0@ == k
        &&& forall|i: int|
            0 <= i < self.list.handles().len() ==> self.slots().contains_key(
                #[trigger] self.list.entry(self.list.handles()[i]).0@,
            ) && self.slots()[self.list.entry(self.list.handles()[i]).0@] == self.list.handles()[i]
    }

    /// The table's slots are distinct, its keys are distinct, and it lists one entry per
    /// slot. Every slot either holds an entry or is freed, never both.
    pub proof fn lemma_shape(&self)
        requires
            self.wf(),
        ensures
            self.handles().no_duplicates(),
            self@.len() == self.handles().len(),
            distinct_keys(self@),
            self.free_slots().no_duplicates(),
            self.slot_count() == self@.len() + self.free_slots().len(),
            forall|j: usize|
                j < self.slot_count() ==> (#[trigger] self.handles().contains(j) <==> !self.free_slots().contains(j)),
            forall|j: usize| #[trigger] self.free_slots().contains(j) ==> j < self.slot_count(),
            forall|j: usize| #[trigger] self.handles().contains(j) ==> j < self.slot_count(),
    {
        self.list.lemma_shape();
        let s = self@;
        let hs = self.list.handles();
        assert forall|a: int, b: int| 0 <= a < b < s.len() implies keys(s)[a] != keys(s)[b] by {
            assert(self.list.entry(hs[a]).0@ == keys(s)[a]);
            assert(self.list.entry(hs[b]).0@ == keys(s)[b]);
            if keys(s)[a] == keys(s)[b] {
                assert(self.slots()[self.list.entry(hs[a]).0@] == hs[a]);
                assert(self.slots()[self.list.entry(hs[b]).0@] == hs[b]);
            }
        }
    }

    pub fn new() -> (t: Self)
        ensures
            t.wf(),
            t@ == Seq::<(Key, Value)>::empty(),
            t.slot_count() == 0,
    {
        Self { list: Dll::new(), map: Key::new_index() }
    }

    pub fn with_capacity(capacity: usize) -> (t: Self)
        ensures
            t.wf(),
            t@ == Seq::<(Key, Value)>::empty(),
            t.slot_count() == 0,
    {
        Self { list: Dll::new(), map: Key::new_index() }
    }

    /// The slot of the entry with key `key`, if there is one.
    pub fn find(&self, key: &Key) -> (h: Option<usize>)
        requires
            self.wf(),
        ensures
            h is Some <==> has_key(self@, *key),
            h is Some ==> h->Some_0 == self.handles()[position(self@, *key)],
    {
        proof {
            self.lemma_shape();
            self.list.lemma_shape();
        }
        match Key::find_in(&self.map, key) {
            Some(h) => {
                proof {
                    assert(self.slots().contains_key(key@));
                    let hs = self.list.handles();
                    let j = hs.index_of(h);
                    assert(hs[j] == h);
                    assert(keys(self@)[j] == key@);
                    lemma_index_of_unique(keys(self@), j);
                }
                Some(h)
            },
            None => {
                proof {
                    if has_key(self@, *key) {
                        let j = keys(self@).index_of(key@);
                        assert(self.list.entry(self.list.handles()[j]).0@ == key@);
                    }
                }
                None
            },
        }
    }

    /// Whether some entry has the key `key`.
    pub fn contains_key(&self, key: &Key) -> (b: bool)
        requires
            self.wf(),
        ensures
            b == has_key(self@, *key),
    {
        proof {
            self.list.lemma_shape();
            if has_key(self@, *key) {
                let j = keys(self@).index_of(key@);
                assert(self.list.entry(self.list.handles()[j]).0@ == key@);
            }
            if self.slots().contains_key(key@) {
                let hs = self.list.handles();
                let j = hs.index_of(self.slots()[key@]);
                assert(keys(self@)[j] == key@);
            }
        }
        Key::find_in(&self.map, key).is_some()
    }

    /// Whether slot `h` holds an entry.
    pub fn holds(&self, h: usize) -> (b: bool)
        requires
            self.wf(),
        ensures
            b == self.handles().contains(h),
    {
        self.list.holds(h)
    }

    /// The value of the entry in slot `h`.
    pub fn value(&self, h: usize) -> (v: &Value)
        requires
            self.wf(),
            self.handles().contains(h),
        ensures
            *v == self@[self.handles().index_of(h)].1,
    {
        proof {
            self.list.lemma_shape();
        }
        self.list.value(h)
    }

    /// Adds an entry with a new key at the front and returns its slot.
    pub fn insert_front(&mut self, key: Key, value: Value) -> (h: usize)
        requires
            old(self).wf(),
            !has_key(old(self)@, key),
            old(self)@.len() < usize::MAX,
        ensures
            final(self).wf(),
            final(self)@ == seq![(key, value)] + old(self)@,
            final(self).handles() == seq![h] + old(self).handles(),
            final(self).slot_count() == (if old(self).free_slots().len() > 0 {
                old(self).slot_count()
            } else {
                old(self).slot_count() + 1
            }),
    {
        proof {
            self.list.lemma_shape();
        }
        let copy = key.copy_key();
        let ghost before = self.list;
        let h = self.list.push_front(copy, value);
        Key::insert_into(&mut self.map, key, h);
        proof {
            assert(self.slots() == old(self).slots().insert(key@, h));
            self.list.lemma_shape();
            let hs = self.list.handles();
            assert forall|k: <Key as View>::V| #[trigger] self.slots().contains_key(k) implies hs.contains(self.slots()[k])
                && self.list.entry(self.slots()[k]).0@ == k by {
                if k != key@ {
                    assert(before.handles().contains(self.slots()[k]));
                    assert(hs[before.handles().index_of(self.slots()[k]) + 1] == self.slots()[k]);
                } else {
                    assert(hs[0] == h);
                }
            }
            assert forall|i: int| 0 <= i < hs.len() implies self.slots().contains_key(
                #[trigger] self.list.entry(hs[i]).0@,
            ) && self.slots()[self.list.entry(hs[i]).0@] == hs[i] by {
                if i > 0 {
                    let g = before.handles()[i - 1];
                    assert(hs[i] == g);
                    assert(before.handles().contains(g));
                    assert(keys(before@)[i - 1] == before.entry(g).0@);
                }
            }
        }
        h
    }

    /// Adds an entry with a new key at the back and returns its slot.
    pub fn insert_back(&mut self, key: Key, value: Value) -> (h: usize)
        requires
            old(self).wf(),
            !has_key(old(self)@, key),
            old(self)@.len() < usize::MAX,
        ensures
            final(self).wf(),
            final(self)@ == old(self)@.push((key, value)),
            final(self).handles() == old(self).handles().push(h),
            final(self).slot_count() == (if old(self).free_slots().len() > 0 {
                old(self).slot_count()
            } else {
                old(self).slot_count() + 1
            }),
    {
        proof {
            self.list.lemma_shape();
        }
        let copy = key.copy_key();
        let ghost before = self.list;
        let h = self.list.push_back(copy, value);
        Key::insert_into(&mut self.map, key, h);
        proof {
            assert(self.slots() == old(self).slots().insert(key@, h));
            self.list.lemma_shape();
            let hs = self.list.handles();
            let n = before.handles().len() as int;
            assert forall|k: <Key as View>::V| #[trigger] self.slots().contains_key(k) implies hs.contains(self.slots()[k])
                && self.list.entry(self.slots()[k]).0@ == k by {
                if k != key@ {
                    assert(before.handles().contains(self.slots()[k]));
                    assert(hs[before.handles().index_of(self.slots()[k])] == self.slots()[k]);
                } else {
                    assert(hs[n] == h);
                }
            }
            assert forall|i: int| 0 <= i < hs.len() implies self.slots().contains_key(
                #[trigger] self.list.entry(hs[i]).0@,
            ) && self.slots()[self.list.entry(hs[i]).0@] == hs[i] by {
                if i < n {
                    let g = before.handles()[i];
                    assert(hs[i] == g);
                    assert(before.handles().contains(g));
                    assert(keys(before@)[i] == before.entry(g).0@);
                }
            }
        }
        h
    }

    /// After the list dropped the entry at position `i` and the map dropped its key,
    /// the two match again.
    proof fn lemma_removed(&self, before: &Self, i: int)
        requires
            before.wf(),
            0 <= i < before.list.handles().len(),
            self.list.wf(),
            self.list.handles() == before.list.handles().remove(i),
            forall|g: usize| #[trigger]
                self.list.handles().contains(g) ==> self.list.entry(g) == before.list.entry(g),
            self.slots() == before.slots().remove(before.list.entry(before.list.handles()[i]).0@),
        ensures
            self.wf(),
    {
        before.list.lemma_shape();
        self.list.lemma_shape();
        let hs = self.list.handles();
        let ohs = before.list.handles();
        let h = ohs[i];
        assert forall|k: <Key as View>::V| #[trigger] self.slots().contains_key(k) implies hs.contains(self.slots()[k])
            && self.list.entry(self.slots()[k]).0@ == k by {
            let g = self.slots()[k];
            assert(before.slots().contains_key(k));
            assert(ohs.contains(g));
            assert(g != h);
            let j = ohs.index_of(g);
            assert(j != i);
            let j1 = if j < i { j } else { j - 1 };
            assert(hs[j1] == g);
        }
        assert forall|a: int| 0 <= a < hs.len() implies self.slots().contains_key(
            #[trigger] self.list.entry(hs[a]).0@,
        ) && self.slots()[self.list.entry(hs[a]).0@] == hs[a] by {
            let a0 = if a < i { a } else { a + 1 };
            let g = ohs[a0];
            assert(hs[a] == g);
            assert(hs.contains(g));
            assert(before.slots()[before.list.entry(g).0@] == g);
            assert(g != h);
        }
    }

    /// Takes the entry in slot `h` out of the table.
    pub fn remove_slot(&mut self, h: usize) -> (kv: (Key, Value))
        requires
            old(self).wf(),
            old(self).handles().contains(h),
        ensures
            final(self).wf(),
            kv == old(self)@[old(self).handles().index_of(h)],
            final(self)@ == old(self)@.remove(old(self).handles().index_of(h)),
            final(self).handles() == old(self).handles().remove(old(self).handles().index_of(h)),
            final(self).slot_count() == old(self).slot_count(),
    {
        proof {
            self.list.lemma_shape();
        }
        let ghost i = self.handles().index_of(h);
        let (key, value) = self.list.remove(h);
        Key::remove_from(&mut self.map, &key);
        proof {
            self.lemma_removed(old(self), i);
        }
        (key, value)
    }

    /// Takes the entry at the back out, if there is one.
    pub fn pop_back(&mut self) -> (kv: Option<(Key, Value)>)
        requires
            old(self).wf(),
        ensures
            final(self).wf(),
            kv == (if old(self)@.len() == 0 {
                None
            } else {
                Some(old(self)@.last())
            }),
            final(self)@ == (if old(self)@.len() == 0 {
                old(self)@
            } else {
                old(self)@.drop_last()
            }),
            final(self).slot_count() == old(self).slot_count(),
    {
        proof {
            self.list.lemma_shape();
        }
        let ghost hs = self.handles();
        match self.list.pop_back() {
            Some((key, value)) => {
                Key::remove_from(&mut self.map, &key);
                proof {
                    assert(self.slots() == old(self).slots().remove(key@));
                    assert(hs.remove(hs.len() - 1) =~= hs.drop_last());
                    self.lemma_removed(old(self), hs.len() - 1);
                }
                Some((key, value))
            },
            None => {
                proof {
                    assert(self.slots() == old(self).slots());
                    assert forall|k: <Key as View>::V| !#[trigger] self.slots().contains_key(k) by {
                        if old(self).slots().contains_key(k) {
                            assert(old(self).list.handles().contains(old(self).slots()[k]));
                        }
                    }
                }
                None
            },
        }
    }

    /// Takes the entry at the front out, if there is one.
    pub fn pop_front(&mut self) -> (kv: Option<(Key, Value)>)
        requires
            old(self).wf(),
        ensures
            final(self).wf(),
            kv == (if old(self)@.len() == 0 {
                None
            } else {
                Some(old(self)@[0])
            }),
            final(self)@ == (if old(self)@.len() == 0 {
                old(self)@
            } else {
                old(self)@.drop_first()
            }),
            final(self).slot_count() == old(self).slot_count(),
    {
        proof {
            self.list.lemma_shape();
        }
        let ghost hs = self.handles();
        match self.list.pop_front() {
            Some((key, value)) => {
                Key::remove_from(&mut self.map, &key);
                proof {
                    assert(self.slots() == old(self).slots().remove(key@));
                    assert(hs.remove(0) =~= hs.drop_first());
                    self.lemma_removed(old(self), 0);
                }
                Some((key, value))
            },
            None => {
                proof {
                    assert(self.slots() == old(self).slots());
                    assert forall|k: <Key as View>::V| !#[trigger] self.slots().contains_key(k) by {
                        if old(self).slots().contains_key(k) {
                            assert(old(self).list.handles().contains(old(self).slots()[k]));
                        }
                    }
                }
                None
            },
        }
    }

    /// After the list moved an entry, the map still matches it.
    proof fn lemma_same_members(&self, before: &Self)
        requires
            before.wf(),
            self.list.wf(),
            self.slots() == before.slots(),
            forall|g: usize| #[trigger] self.list.handles().contains(g) == before.list.handles().contains(g),
            forall|g: usize| #[trigger] before.list.handles().contains(g) ==> self.list.entry(g) == before.list.entry(g),
        ensures
            self.wf(),
    {
        self.list.lemma_shape();
        before.list.lemma_shape();
        let hs = self.list.handles();
        assert forall|i: int| 0 <= i < hs.len() implies self.slots().contains_key(
            #[trigger] self.list.entry(hs[i]).0@,
        ) && self.slots()[self.list.entry(hs[i]).0@] == hs[i] by {
            assert(hs.contains(hs[i]));
            let j = before.list.handles().index_of(hs[i]);
            assert(before.list.handles()[j] == hs[i]);
        }
        assert forall|k: <Key as View>::V| #[trigger] self.slots().contains_key(k) implies hs.contains(self.slots()[k])
            && self.list.entry(self.slots()[k]).0@ == k by {
            assert(before.list.handles().contains(before.slots()[k]));
        }
    }

    /// Moves the entry in slot `h` to the front.
    pub fn move_to_front(&mut self, h: usize)
        requires
            old(self).wf(),
            old(self).handles().contains(h),
        ensures
            final(self).wf(),
            final(self)@ == seq![old(self)@[old(self).handles().index_of(h)]] + old(self)@.remove(old(self).handles().index_of(h)),
            final(self).handles() == seq![h] + old(self).handles().remove(old(self).handles().index_of(h)),
            final(self).slot_count() == old(self).slot_count(),
    {
        self.list.move_to_front(h);
        proof {
            self.lemma_same_members(old(self));
        }
    }

    /// Moves the entry in slot `h` to the back.
    pub fn move_to_back(&mut self, h: usize)
        requires
            old(self).wf(),
            old(self).handles().contains(h),
        ensures
            final(self).wf(),
            final(self)@ == old(self)@.remove(old(self).handles().index_of(h)).push(old(self)@[old(self).handles().index_of(h)]),
            final(self).handles() == old(self).handles().remove(old(self).handles().index_of(h)).push(h),
            final(self).slot_count() == old(self).slot_count(),
    {
        self.list.move_to_back(h);
        proof {
            self.lemma_same_members(old(self));
        }
    }

    /// Replaces the key and value of the entry in slot `h` by a key with the same view
    /// and a new value; the entry keeps its place.
    pub fn set_entry(&mut self, h: usize, key: Key, value: Value)
        requires
            old(self).wf(),
            old(self).handles().contains(h),
            key@ == old(self)@[old(self).handles().index_of(h)].0@,
        ensures
            final(self).wf(),
            final(self)@ == old(self)@.update(old(self).handles().index_of(h), (key, value)),
            final(self).handles() == old(self).handles(),
            final(self).slot_count() == old(self).slot_count(),
    {
        proof {
            self.list.lemma_shape();
        }
        self.list.set_entry(h, key, value);
        proof {
            let hs = self.list.handles();
            assert forall|i: int| 0 <= i < hs.len() implies self.slots().contains_key(
                #[trigger] self.list.entry(hs[i]).0@,
            ) && self.slots()[self.list.entry(hs[i]).0@] == hs[i] by {
                assert(hs.contains(hs[i]));
                assert(old(self).list.entry(hs[i]).0@ == self.list.entry(hs[i]).0@);
            }
            assert forall|k: <Key as View>::V| #[trigger] self.slots().contains_key(k) implies hs.contains(self.slots()[k])
                && self.list.entry(self.slots()[k]).0@ == k by {
                assert(old(self).list.handles().contains(old(self).slots()[k]));
            }
        }
    }

    pub fn len(&self) -> (n: usize)
        requires
            self.wf(),
        ensures
            n == self@.len(),
    {
        self.list.size()
    }
}

} // verus!
