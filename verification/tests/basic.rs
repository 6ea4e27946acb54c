use std::sync::Arc;
use thread_safe_lru_cache::basic::dll::Dll;
use thread_safe_lru_cache::basic::lru::Lru;
use thread_safe_lru_cache::basic::safe::ThreadSafeLru;
use thread_safe_lru_cache::sharded::eviction::lru::Lru as ShardedLru;
use thread_safe_lru_cache::sharded::eviction::Eviction;

#[test]
fn push_and_size() {
    let mut dll = Dll::new();
    assert!(dll.is_empty(), "dll must be empty");

    dll.push_front(1, 1);
    assert_eq!(dll.size(), 1, "dll-size: expected to have 1 size");

    dll.push_front(2, 2);
    assert_eq!(dll.size(), 2, "dll-size: expected to have 2 size");
}

#[test]
fn create_test() {
    let lru = Lru::<i32, i32>::new(3);
    assert_eq!(lru.size(), 0);
    assert!(lru.is_empty());
}

#[test]
fn lru_push_test() {
    let mut lru = Lru::<String, i32>::new(3);
    lru.push("A".to_string(), 1);
    lru.push("B".to_string(), 2);
    lru.push("C".to_string(), 3);
    assert_eq!(lru.size(), 3);
    lru.push("D".to_string(), 4);
    assert_eq!(lru.size(), 3);

    // the LRU shard of the sharded cache, driven the same way as the shard's own test
    let cache = ShardedLru::new(2);
    assert_eq!(cache.len(), 0);
    cache.push(0, 1);
    cache.push(1, 2);
    cache.push(2, 3);
    cache.push(3, 4);
    cache.push(5, 1);
    cache.push(6, 1);
    cache.push(7, 1);
    cache.push(8, 1);
    cache.push(12, 1);
    cache.push(13, 1);
    cache.push(14, 1);
    cache.push(15, 1);
    cache.push(16, 1);
    cache.push(17, 1);
    cache.push(18, 1);
    println!("cache size: {}", cache.len());
}

#[test]
fn push_same_node_test() {
    let mut lru = Lru::<String, i32>::new(3);
    lru.push("A".to_string(), 1);
    lru.push("B".to_string(), 2);
    lru.push("C".to_string(), 3);
    lru.push("A".to_string(), 4);
    assert_eq!(lru.size(), 3);
    lru.push("D".to_string(), 5);
    assert_eq!(lru.size(), 3);
}

#[test]
fn lru_push_and_get_test() {
    let mut lru = Lru::<String, i32>::new(3);
    lru.push("A".to_string(), 1);
    assert_eq!(lru.size(), 1);
    lru.push("B".to_string(), 2);
    assert_eq!(lru.size(), 2);
    lru.push("C".to_string(), 3);
    assert_eq!(lru.size(), 3);
    lru.push("D".to_string(), 4);
    assert_eq!(lru.size(), 3);

    assert_eq!(lru.get(&"A".to_string()), None);
    assert_eq!(lru.get(&"D".to_string()).unwrap(), &4);
    assert_eq!(lru.get(&"B".to_string()).unwrap(), &2);

    lru.push("E".to_string(), 5);
    assert_eq!(lru.get(&"C".to_string()), None);
    assert_eq!(lru.size(), 3);
}

#[test]
fn test_stress() {
    let capacity = 1000;
    let cache = Arc::new(ThreadSafeLru::new(capacity));
    let num_threads = 20;
    let ops_per_thread = 5000;

    for t in 0..num_threads {
        let key = t * ops_per_thread;
        cache.push(key, key.to_string());
        let _ = cache.get(&key);
    }
}
