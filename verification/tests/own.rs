use thread_safe_lru_cache::basic::dll::Dll;
use thread_safe_lru_cache::basic::lru::Lru;
use thread_safe_lru_cache::basic::safe::ThreadSafeLru;
use thread_safe_lru_cache::basic::table::Table;
use thread_safe_lru_cache::sharded::cache::Cache;
use thread_safe_lru_cache::sharded::eviction::fifo::{Fifo, FifoInner};
use thread_safe_lru_cache::sharded::eviction::lru::{Lru as ShardedLru, LruInner, RECENT_FLUSH_LEN};
use thread_safe_lru_cache::sharded::eviction::Eviction;

#[test]
fn dll_ends_and_moves() {
    let mut dll = Dll::new();
    let a = dll.push_front("a", 1);
    let b = dll.push_back("b", 2);
    let _c = dll.push_front("c", 3);
    // order: c, a, b
    assert_eq!(dll.size(), 3);
    dll.move_to_front(b);
    // order: b, c, a
    dll.move_to_back(a);
    dll.move_to_back(b);
    // order: c, a, b
    assert_eq!(dll.remove(a), ("a", 1));
    assert!(!dll.holds(a));
    assert!(dll.holds(b));
    assert_eq!(dll.pop_back(), Some(("b", 2)));
    assert_eq!(dll.pop_front(), Some(("c", 3)));
    assert_eq!(dll.pop_back(), None);
    assert_eq!(dll.pop_front(), None);
    assert!(dll.is_empty());
}

#[test]
fn dll_move_to_front_then_pop() {
    let mut dll = Dll::new();
    let a = dll.push_back(1u64, 10u64);
    let _b = dll.push_back(2, 20);
    let c = dll.push_back(3, 30);
    dll.move_to_front(c);
    // order: 3, 1, 2
    assert_eq!(dll.pop_front(), Some((3, 30)));
    assert_eq!(dll.pop_back(), Some((2, 20)));
    assert_eq!(dll.pop_back(), Some((1, 10)));
    assert!(!dll.holds(a));
}

#[test]
fn dll_reuses_freed_slots() {
    let mut dll = Dll::new();
    let a = dll.push_front(1u64, 10u64);
    let _b = dll.push_front(2, 20);
    dll.remove(a);
    let c = dll.push_back(3, 30);
    assert_eq!(c, a);
    assert_eq!(*dll.value(c), 30);
    dll.set_entry(c, 3, 31);
    assert_eq!(*dll.value(c), 31);
}

#[test]
fn table_finds_by_key() {
    let mut table: Table<u64, &str> = Table::new();
    let h1 = table.insert_front(1, "one");
    let h2 = table.insert_back(2, "two");
    assert_eq!(table.find(&1), Some(h1));
    assert_eq!(table.find(&2), Some(h2));
    assert_eq!(table.find(&3), None);
    assert!(table.contains_key(&2));
    assert_eq!(table.remove_slot(h1), (1, "one"));
    assert_eq!(table.find(&1), None);
    assert_eq!(table.len(), 1);
    assert_eq!(table.pop_front(), Some((2, "two")));
    assert_eq!(table.pop_back(), None);
}

#[test]
fn lru_get_after_push_gives_the_value() {
    let mut lru = Lru::<u64, u64>::new(2);
    lru.push(7, 70);
    assert_eq!(lru.get(&7), Some(&70));
    lru.push(7, 71);
    assert_eq!(lru.get(&7), Some(&71));
    assert_eq!(lru.size(), 1);
}

#[test]
fn lru_read_protects_from_eviction() {
    let mut lru = Lru::<u64, u64>::new(2);
    lru.push(1, 10);
    lru.push(2, 20);
    // 1 is now the most recently used, so 2 leaves when 3 comes in
    assert_eq!(lru.get(&1), Some(&10));
    // a read changes no entry
    assert_eq!(lru.size(), 2);
    lru.push(3, 30);
    assert_eq!(lru.get(&2), None);
    assert_eq!(lru.get(&1), Some(&10));
    assert_eq!(lru.get(&3), Some(&30));
    assert_eq!(lru.size(), 2);
}

#[test]
fn lru_capacity_one_keeps_latest() {
    let mut lru = Lru::<u64, u64>::new(1);
    lru.push(1, 10);
    lru.push(2, 20);
    assert_eq!(lru.size(), 1);
    assert_eq!(lru.get(&1), None);
    assert_eq!(lru.get(&2), Some(&20));
}

#[test]
fn thread_safe_lru_round_trip() {
    let cache = ThreadSafeLru::new(2);
    cache.push(1u64, "one".to_string());
    cache.push(2u64, "two".to_string());
    assert_eq!(cache.get(&1).as_deref(), Some(&"one".to_string()));
    cache.push(3u64, "three".to_string());
    assert_eq!(cache.get(&2), None);
    assert_eq!(cache.len(), 2);
}

#[test]
fn thread_safe_lru_hot_keys_stay_within_capacity() {
    let capacity = 16;
    let cache = ThreadSafeLru::new(capacity);
    let hot_keys = [1usize, 2usize, 3usize, 4usize, 5usize];
    for i in 0..1_000 {
        let k = hot_keys[i % hot_keys.len()];
        cache.push(k, format!("hot-{}", k));
        if i % 3 == 0 {
            let _ = cache.get(&k);
        }
    }
    assert!(cache.len() <= capacity);
    assert_eq!(cache.len(), 5);
}

#[test]
fn lru_inner_push_lookup_promote_remove() {
    let mut inner = LruInner::<u64, u64>::new(2);
    inner.push(1, 10);
    inner.push(2, 20);
    let (slot1, v1) = inner.lookup(&1).unwrap();
    assert_eq!(v1, 10);
    // without promotion, 1 is the coldest and leaves first
    let mut pending = Vec::new();
    pending.push(slot1);
    inner.promote(&pending);
    inner.push(3, 30);
    assert!(inner.contains(&1));
    assert!(!inner.contains(&2));
    assert!(inner.contains(&3));
    inner.remove(&1);
    assert!(!inner.contains(&1));
    assert!(inner.contains(&3));
    assert_eq!(inner.len(), 1);
    // a slot that holds nothing is passed over
    let mut stale = Vec::new();
    stale.push(999);
    inner.promote(&stale);
    assert_eq!(inner.len(), 1);
}

#[test]
fn lru_inner_update_moves_to_front() {
    let mut inner = LruInner::<u64, u64>::new(2);
    inner.push(1, 10);
    inner.push(2, 20);
    inner.push(1, 11);
    inner.push(3, 30);
    assert_eq!(inner.lookup(&1).map(|p| p.1), Some(11));
    assert!(inner.lookup(&2).is_none());
}

#[test]
fn zero_capacity_shards_keep_one_entry() {
    let mut inner = LruInner::<u64, u64>::new(0);
    inner.push(1, 10);
    inner.push(2, 20);
    assert_eq!(inner.len(), 1);
    assert!(inner.contains(&2));
    let mut fifo = FifoInner::<u64, u64>::new(0);
    fifo.push(1, 10);
    fifo.push(2, 20);
    assert_eq!(fifo.len(), 1);
    assert_eq!(fifo.get(&2), Some(20));
}

#[test]
fn fifo_inner_evicts_oldest_and_repush_moves_back() {
    let mut fifo = FifoInner::<u64, u64>::new(3);
    fifo.push(1, 10);
    fifo.push(2, 20);
    fifo.push(3, 30);
    // reading does not change the order
    assert_eq!(fifo.get(&1), Some(10));
    fifo.push(4, 40);
    assert_eq!(fifo.get(&1), None);
    // pushing a cached key updates it and makes it the newest
    fifo.push(2, 21);
    fifo.push(5, 50);
    assert_eq!(fifo.get(&3), None);
    assert_eq!(fifo.get(&2), Some(21));
    assert_eq!(fifo.len(), 3);
    fifo.remove(&2);
    assert!(!fifo.contains(&2));
    assert!(!fifo.is_empty());
}

#[test]
fn fifo_shard_remove_and_contains() {
    let fifo = Fifo::new(4);
    fifo.push(1u64, 10u64);
    assert!(fifo.contains(&1));
    fifo.remove(&1);
    assert!(!fifo.contains(&1));
    assert!(fifo.is_empty());
}

#[test]
fn sharded_lru_reads_are_promoted_before_writes() {
    let shard = ShardedLru::new(2);
    shard.push(1u64, 10u64);
    shard.push(2u64, 20u64);
    assert_eq!(shard.get(&1), Some(10));
    // the pending read of 1 is applied first, so 2 is the one evicted
    shard.push(3, 30);
    assert_eq!(shard.get(&2), None);
    assert_eq!(shard.get(&1), Some(10));
    assert_eq!(shard.get(&3), Some(30));
    assert_eq!(shard.len(), 2);
    shard.remove(&3);
    assert!(!shard.contains(&3));
    assert!(!shard.is_empty());
}

#[test]
fn sharded_lru_flushes_after_many_reads() {
    let shard = ShardedLru::new(3);
    shard.push(1u64, 10u64);
    shard.push(2u64, 20u64);
    shard.push(3u64, 30u64);
    for _ in 0..RECENT_FLUSH_LEN {
        assert_eq!(shard.get(&1), Some(10));
    }
    shard.push(4, 40);
    assert_eq!(shard.get(&2), None);
    assert_eq!(shard.get(&1), Some(10));
}

#[test]
fn cache_round_trip() {
    let cache = Cache::lru(1000, 8);
    assert!(cache.is_empty());
    cache.push("hi", "hello");
    cache.push("foo", "temp");
    assert_eq!(cache.get(&"hi"), Some("hello"));
    assert_eq!(cache.get(&"bar"), None);
    assert!(cache.contains(&"foo"));
    assert!(!cache.contains(&"bar"));
    assert_eq!(cache.size(), 2);
    assert!(!cache.is_empty());
}

#[test]
fn cache_stays_within_shard_room() {
    // 3 shards of 10 / 3 + 1 = 4 entries each
    let cache = Cache::lru(10, 3);
    for k in 0..100u64 {
        cache.push(k, k);
    }
    assert!(cache.size() <= 12);
    assert!(cache.size() >= 4);
    assert_eq!(cache.get(&99), Some(99));
}

#[test]
fn string_keys_are_found_by_contents() {
    let mut lru = Lru::<String, i32>::new(2);
    lru.push(String::from("key"), 1);
    let probe = ["k", "e", "y"].concat();
    assert_eq!(lru.get(&probe), Some(&1));
    lru.push(probe, 2);
    assert_eq!(lru.size(), 1);
    assert_eq!(lru.get(&"key".to_string()), Some(&2));
}

#[test]
fn str_keys_in_a_fifo_shard() {
    let mut fifo = FifoInner::<&str, u64>::new(2);
    fifo.push("a", 1);
    fifo.push("b", 2);
    fifo.push("a", 3);
    fifo.push("c", 4);
    assert!(!fifo.contains(&"b"));
    assert_eq!(fifo.get(&"a"), Some(3));
    assert_eq!(fifo.len(), 2);
}
