//! Key types a cache can index: each brings the map from keys to slots that its
//! tables use, with what that map does stated over the keys' views.
use std::collections::HashMap;
use std::hash::Hash;
use vstd::prelude::*;
use vstd::hash_map::StringHashMap;
use vstd::std_specs::hash::obeys_key_model;

verus! {

/// A key type for the caches. Keys are told apart by their views: two keys with the
/// same view are the same key to a cache.
pub trait CacheKey: Eq + Hash + Clone + Sized + View {
    /// The map from keys to slots.
    type Index: Send + Sync;

    /// The slot each key's view maps to.
    spec fn slots_of(index: &Self::Index) -> Map<Self::V, usize>;

    fn new_index() -> (index: Self::Index)
        ensures
            Self::slots_of(&index) == Map::<Self::V, usize>::empty(),
    ;

    /// The slot of `key`, if the map has one.
    fn find_in(index: &Self::Index, key: &Self) -> (h: Option<usize>)
        ensures
            h is Some <==> Self::slots_of(index).contains_key(key@),
            h is Some ==> h->Some_0 == Self::slots_of(index)[key@],
    ;

    /// Maps `key` to slot `h`.
    fn insert_into(index: &mut Self::Index, key: Self, h: usize)
        ensures
            Self::slots_of(final(index)) == Self::slots_of(old(index)).insert(key@, h),
    ;

    /// Takes `key` out of the map.
    fn remove_from(index: &mut Self::Index, key: &Self)
        ensures
            Self::slots_of(final(index)) == Self::slots_of(old(index)).remove(key@),
    ;

    /// A copy of the key, for the list and the map to hold one each.
    fn copy_key(&self) -> (k: Self)
        ensures
            k == *self,
    ;
}

/// The slot of `key` in a std map whose key type follows the hashing model.
fn std_find<K: Eq + Hash>(index: &HashMap<K, usize>, key: &K) -> (h: Option<usize>)
    requires
        obeys_key_model::<K>(),
    ensures
        h is Some <==> index@.contains_key(*key),
        h is Some ==> h->Some_0 == index@[*key],
{
    match index.get(key) {
        Some(h) => Some(*h),
        None => None,
    }
}

/// Maps `key` to `h` in a std map whose key type follows the hashing model.
fn std_insert<K: Eq + Hash>(index: &mut HashMap<K, usize>, key: K, h: usize)
    requires
        obeys_key_model::<K>(),
    ensures
        final(index)@ == old(index)@.insert(key, h),
{
    index.insert(key, h);
}

/// Takes `key` out of a std map whose key type follows the hashing model.
fn std_remove<K: Eq + Hash>(index: &mut HashMap<K, usize>, key: &K)
    requires
        obeys_key_model::<K>(),
    ensures
        final(index)@ == old(index)@.remove(*key),
{
    index.remove(key);
}

impl CacheKey for String {
    type Index = StringHashMap<usize>;

    open spec fn slots_of(index: &StringHashMap<usize>) -> Map<Seq<char>, usize> {
        index@
    }

    fn new_index() -> (index: StringHashMap<usize>) {
        StringHashMap::new()
    }

    fn find_in(index: &StringHashMap<usize>, key: &String) -> (h: Option<usize>) {
        match index.get(key.as_str()) {
            Some(h) => Some(*h),
            None => None,
        }
    }

    fn insert_into(index: &mut StringHashMap<usize>, key: String, h: usize) {
        index.insert(key, h);
    }

    fn remove_from(index: &mut StringHashMap<usize>, key: &String) {
        index.remove(key.as_str());
    }

    fn copy_key(&self) -> (k: String) {
        self.clone()
    }
}

impl<'a> CacheKey for &'a str {
    type Index = StringHashMap<usize>;

    open spec fn slots_of(index: &StringHashMap<usize>) -> Map<Seq<char>, usize> {
        index@
    }

    fn new_index() -> (index: StringHashMap<usize>) {
        StringHashMap::new()
    }

    fn find_in(index: &StringHashMap<usize>, key: &&'a str) -> (h: Option<usize>) {
        match index.get(*key) {
            Some(h) => Some(*h),
            None => None,
        }
    }

    fn insert_into(index: &mut StringHashMap<usize>, key: &'a str, h: usize) {
        index.insert(str::to_owned(key), h);
    }

    fn remove_from(index: &mut StringHashMap<usize>, key: &&'a str) {
        index.remove(*key);
    }

    fn copy_key(&self) -> (k: &'a str) {
        *self
    }
}

impl CacheKey for u8 {
    type Index = HashMap<u8, usize>;

    open spec fn slots_of(index: &HashMap<u8, usize>) -> Map<u8, usize> {
        index@
    }

    fn new_index() -> (index: HashMap<u8, usize>) {
        HashMap::new()
    }

    fn find_in(index: &HashMap<u8, usize>, key: &u8) -> (h: Option<usize>) {
        std_find(index, key)
    }

    fn insert_into(index: &mut HashMap<u8, usize>, key: u8, h: usize) {
        std_insert(index, key, h)
    }

    fn remove_from(index: &mut HashMap<u8, usize>, key: &u8) {
        std_remove(index, key)
    }

    fn copy_key(&self) -> (k: u8) {
        *self
    }
}

impl CacheKey for u16 {
    type Index = HashMap<u16, usize>;

    open spec fn slots_of(index: &HashMap<u16, usize>) -> Map<u16, usize> {
        index@
    }

    fn new_index() -> (index: HashMap<u16, usize>) {
        HashMap::new()
    }

    fn find_in(index: &HashMap<u16, usize>, key: &u16) -> (h: Option<usize>) {
        std_find(index, key)
    }

    fn insert_into(index: &mut HashMap<u16, usize>, key: u16, h: usize) {
        std_insert(index, key, h)
    }

    fn remove_from(index: &mut HashMap<u16, usize>, key: &u16) {
        std_remove(index, key)
    }

    fn copy_key(&self) -> (k: u16) {
        *self
    }
}

impl CacheKey for u32 {
    type Index = HashMap<u32, usize>;

    open spec fn slots_of(index: &HashMap<u32, usize>) -> Map<u32, usize> {
        index@
    }

    fn new_index() -> (index: HashMap<u32, usize>) {
        HashMap::new()
    }

    fn find_in(index: &HashMap<u32, usize>, key: &u32) -> (h: Option<usize>) {
        std_find(index, key)
    }

    fn insert_into(index: &mut HashMap<u32, usize>, key: u32, h: usize) {
        std_insert(index, key, h)
    }

    fn remove_from(index: &mut HashMap<u32, usize>, key: &u32) {
        std_remove(index, key)
    }

    fn copy_key(&self) -> (k: u32) {
        *self
    }
}

impl CacheKey for u64 {
    type Index = HashMap<u64, usize>;

    open spec fn slots_of(index: &HashMap<u64, usize>) -> Map<u64, usize> {
        index@
    }

    fn new_index() -> (index: HashMap<u64, usize>) {
        HashMap::new()
    }

    fn find_in(index: &HashMap<u64, usize>, key: &u64) -> (h: Option<usize>) {
        std_find(index, key)
    }

    fn insert_into(index: &mut HashMap<u64, usize>, key: u64, h: usize) {
        std_insert(index, key, h)
    }

    fn remove_from(index: &mut HashMap<u64, usize>, key: &u64) {
        std_remove(index, key)
    }

    fn copy_key(&self) -> (k: u64) {
        *self
    }
}

impl CacheKey for u128 {
    type Index = HashMap<u128, usize>;

    open spec fn slots_of(index: &HashMap<u128, usize>) -> Map<u128, usize> {
        index@
    }

    fn new_index() -> (index: HashMap<u128, usize>) {
        HashMap::new()
    }

    fn find_in(index: &HashMap<u128, usize>, key: &u128) -> (h: Option<usize>) {
        std_find(index, key)
    }

    fn insert_into(index: &mut HashMap<u128, usize>, key: u128, h: usize) {
        std_insert(index, key, h)
    }

    fn remove_from(index: &mut HashMap<u128, usize>, key: &u128) {
        std_remove(index, key)
    }

    fn copy_key(&self) -> (k: u128) {
        *self
    }
}

impl CacheKey for usize {
    type Index = HashMap<usize, usize>;

    open spec fn slots_of(index: &HashMap<usize, usize>) -> Map<usize, usize> {
        index@
    }

    fn new_index() -> (index: HashMap<usize, usize>) {
        HashMap::new()
    }

    fn find_in(index: &HashMap<usize, usize>, key: &usize) -> (h: Option<usize>) {
        std_find(index, key)
    }

    fn insert_into(index: &mut HashMap<usize, usize>, key: usize, h: usize) {
        std_insert(index, key, h)
    }

    fn remove_from(index: &mut HashMap<usize, usize>, key: &usize) {
        std_remove(index, key)
    }

    fn copy_key(&self) -> (k: usize) {
        *self
    }
}

impl CacheKey for i8 {
    type Index = HashMap<i8, usize>;

    open spec fn slots_of(index: &HashMap<i8, usize>) -> Map<i8, usize> {
        index@
    }

    fn new_index() -> (index: HashMap<i8, usize>) {
        HashMap::new()
    }

    fn find_in(index: &HashMap<i8, usize>, key: &i8) -> (h: Option<usize>) {
        std_find(index, key)
    }

    fn insert_into(index: &mut HashMap<i8, usize>, key: i8, h: usize) {
        std_insert(index, key, h)
    }

    fn remove_from(index: &mut HashMap<i8, usize>, key: &i8) {
        std_remove(index, key)
    }

    fn copy_key(&self) -> (k: i8) {
        *self
    }
}

impl CacheKey for i16 {
    type Index = HashMap<i16, usize>;

    open spec fn slots_of(index: &HashMap<i16, usize>) -> Map<i16, usize> {
        index@
    }

    fn new_index() -> (index: HashMap<i16, usize>) {
        HashMap::new()
    }

    fn find_in(index: &HashMap<i16, usize>, key: &i16) -> (h: Option<usize>) {
        std_find(index, key)
    }

    fn insert_into(index: &mut HashMap<i16, usize>, key: i16, h: usize) {
        std_insert(index, key, h)
    }

    fn remove_from(index: &mut HashMap<i16, usize>, key: &i16) {
        std_remove(index, key)
    }

    fn copy_key(&self) -> (k: i16) {
        *self
    }
}

impl CacheKey for i32 {
    type Index = HashMap<i32, usize>;

    open spec fn slots_of(index: &HashMap<i32, usize>) -> Map<i32, usize> {
        index@
    }

    fn new_index() -> (index: HashMap<i32, usize>) {
        HashMap::new()
    }

    fn find_in(index: &HashMap<i32, usize>, key: &i32) -> (h: Option<usize>) {
        std_find(index, key)
    }

    fn insert_into(index: &mut HashMap<i32, usize>, key: i32, h: usize) {
        std_insert(index, key, h)
    }

    fn remove_from(index: &mut HashMap<i32, usize>, key: &i32) {
        std_remove(index, key)
    }

    fn copy_key(&self) -> (k: i32) {
        *self
    }
}

impl CacheKey for i64 {
    type Index = HashMap<i64, usize>;

    open spec fn slots_of(index: &HashMap<i64, usize>) -> Map<i64, usize> {
        index@
    }

    fn new_index() -> (index: HashMap<i64, usize>) {
        HashMap::new()
    }

    fn find_in(index: &HashMap<i64, usize>, key: &i64) -> (h: Option<usize>) {
        std_find(index, key)
    }

    fn insert_into(index: &mut HashMap<i64, usize>, key: i64, h: usize) {
        std_insert(index, key, h)
    }

    fn remove_from(index: &mut HashMap<i64, usize>, key: &i64) {
        std_remove(index, key)
    }

    fn copy_key(&self) -> (k: i64) {
        *self
    }
}

impl CacheKey for i128 {
    type Index = HashMap<i128, usize>;

    open spec fn slots_of(index: &HashMap<i128, usize>) -> Map<i128, usize> {
        index@
    }

    fn new_index() -> (index: HashMap<i128, usize>) {
        HashMap::new()
    }

    fn find_in(index: &HashMap<i128, usize>, key: &i128) -> (h: Option<usize>) {
        std_find(index, key)
    }

    fn insert_into(index: &mut HashMap<i128, usize>, key: i128, h: usize) {
        std_insert(index, key, h)
    }

    fn remove_from(index: &mut HashMap<i128, usize>, key: &i128) {
        std_remove(index, key)
    }

    fn copy_key(&self) -> (k: i128) {
        *self
    }
}

impl CacheKey for isize {
    type Index = HashMap<isize, usize>;

    open spec fn slots_of(index: &HashMap<isize, usize>) -> Map<isize, usize> {
        index@
    }

    fn new_index() -> (index: HashMap<isize, usize>) {
        HashMap::new()
    }

    fn find_in(index: &HashMap<isize, usize>, key: &isize) -> (h: Option<usize>) {
        std_find(index, key)
    }

    fn insert_into(index: &mut HashMap<isize, usize>, key: isize, h: usize) {
        std_insert(index, key, h)
    }

    fn remove_from(index: &mut HashMap<isize, usize>, key: &isize) {
        std_remove(index, key)
    }

    fn copy_key(&self) -> (k: isize) {
        *self
    }
}

} // verus!
