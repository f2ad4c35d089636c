use fifo_cache::{Cache, CacheStats, SieveCache};

const FLOAT_TOLERANCE: f64 = 0.01;

fn hit_ratio(stats: &CacheStats) -> f64 {
    let hits = stats.hits();
    let total = hits + stats.misses();
    if total == 0 {
        0.0
    } else {
        hits as f64 / total as f64
    }
}

#[test]
fn sieve_test_new() {
    let cache: SieveCache<String, i32> = SieveCache::new(100);
    assert_eq!(cache.capacity(), 100);
    assert_eq!(cache.len(), 0);
    assert!(cache.is_empty());
}

#[test]
fn sieve_test_insert_and_get() {
    let mut cache = SieveCache::new(10);

    assert!(cache.insert("a".to_string(), 1).is_none());
    assert!(cache.insert("b".to_string(), 2).is_none());

    assert_eq!(cache.get(&"a".to_string()), Some(1));
    assert_eq!(cache.get(&"b".to_string()), Some(2));
    assert_eq!(cache.get(&"c".to_string()), None);

    assert_eq!(cache.len(), 2);
}

#[test]
fn sieve_test_update() {
    let mut cache = SieveCache::new(10);

    cache.insert("a".to_string(), 1);
    assert_eq!(cache.insert("a".to_string(), 100), Some(1));
    assert_eq!(cache.get(&"a".to_string()), Some(100));
    assert_eq!(cache.len(), 1);
}

#[test]
fn sieve_test_remove() {
    let mut cache = SieveCache::new(10);

    cache.insert("a".to_string(), 1);
    cache.insert("b".to_string(), 2);

    assert_eq!(cache.remove(&"a".to_string()), Some(1));
    assert_eq!(cache.get(&"a".to_string()), None);
    assert_eq!(cache.len(), 1);

    assert_eq!(cache.remove(&"c".to_string()), None);
}

#[test]
fn sieve_test_contains() {
    let mut cache = SieveCache::new(10);

    cache.insert("a".to_string(), 1);

    assert!(cache.contains(&"a".to_string()));
    assert!(!cache.contains(&"b".to_string()));
}

#[test]
fn sieve_test_clear() {
    let mut cache = SieveCache::new(10);

    cache.insert("a".to_string(), 1);
    cache.insert("b".to_string(), 2);
    cache.insert("c".to_string(), 3);

    cache.clear();

    assert!(cache.is_empty());
    assert_eq!(cache.get(&"a".to_string()), None);
}

#[test]
fn test_eviction() {
    let mut cache = SieveCache::new(3);

    cache.insert("a".to_string(), 1);
    cache.insert("b".to_string(), 2);
    cache.insert("c".to_string(), 3);

    cache.get(&"a".to_string());

    cache.insert("d".to_string(), 4);

    assert_eq!(cache.len(), 3);
    assert!(cache.contains(&"a".to_string()));
    assert!(cache.contains(&"d".to_string()));
}

#[test]
fn sieve_test_peek() {
    let mut cache = SieveCache::new(3);

    cache.insert("a".to_string(), 1);

    assert_eq!(cache.peek(&"a".to_string()), Some(1));

    cache.insert("b".to_string(), 2);
    cache.insert("c".to_string(), 3);
    cache.insert("d".to_string(), 4);

    assert!(!cache.contains(&"a".to_string()));
}

#[test]
fn sieve_test_stats() {
    let mut cache = SieveCache::new(10);

    cache.insert("a".to_string(), 1);
    cache.get(&"a".to_string());
    cache.get(&"b".to_string());
    cache.get(&"b".to_string());

    let stats = cache.stats();
    assert_eq!(stats.hits(), 1);
    assert_eq!(stats.misses(), 2);
    assert_eq!(stats.insertions(), 1);

    let expected_ratio = 1.0 / 3.0;
    assert!((hit_ratio(stats) - expected_ratio).abs() < FLOAT_TOLERANCE);
}

#[test]
fn sieve_test_get_or_insert_with() {
    let mut cache = SieveCache::new(10);

    let value = cache.get_or_insert_with("a".to_string(), || 42);
    assert_eq!(value, 42);

    let value = cache.get_or_insert_with("a".to_string(), || 100);
    assert_eq!(value, 42);
}

#[test]
fn sieve_hand_passes_visited_entries_and_evicts_unvisited() {
    // b and c visited, a not: the hand starts at the tail (a) and evicts it.
    let mut cache = SieveCache::new(3);
    cache.insert(1u64, 10u64);
    cache.insert(2u64, 20u64);
    cache.insert(3u64, 30u64);
    cache.get(&2);
    cache.get(&3);
    cache.insert(4, 40);
    assert!(!cache.contains(&1));
    assert!(cache.contains(&2) && cache.contains(&3) && cache.contains(&4));
    assert_eq!(cache.stats().evictions(), 1);
}

#[test]
fn sieve_all_visited_evicts_the_newest_unvisited_entry() {
    // All three entries visited: the sweep clears them and then evicts the
    // freshly inserted (unvisited) one.
    let mut cache = SieveCache::new(2);
    cache.insert(1u64, 1u64);
    cache.insert(2u64, 2u64);
    cache.get(&1);
    cache.get(&2);
    cache.insert(3, 3);
    assert!(cache.contains(&1));
    assert!(cache.contains(&2));
    assert!(!cache.contains(&3));
    assert_eq!(cache.len(), 2);
}

#[test]
fn sieve_update_records_no_insertion() {
    let mut cache = SieveCache::new(4);
    cache.insert(1u32, 1u32);
    cache.insert(1u32, 2u32);
    assert_eq!(cache.stats().insertions(), 1);
    assert_eq!(cache.peek(&1), Some(2));
    assert_eq!(cache.stats().hits(), 0);
}

#[test]
fn sieve_is_full_and_len_bounded() {
    let mut cache = SieveCache::new(2);
    for k in 0..10u64 {
        cache.insert(k, k);
        assert!(cache.len() <= 2);
    }
    assert!(cache.is_full());
}

#[test]
fn sieve_hand_resumes_where_it_stopped() {
    let mut cache = SieveCache::new(3);
    cache.insert(1u64, 1u64);
    cache.insert(2u64, 2u64);
    cache.insert(3u64, 3u64);
    cache.get(&1);
    // The hand clears 1's flag and evicts 2, stopping on 3.
    cache.insert(4, 4);
    assert!(cache.contains(&1) && !cache.contains(&2) && cache.contains(&3));
    // The next sweep starts on 3, which is unvisited.
    cache.insert(5, 5);
    assert!(cache.contains(&1) && !cache.contains(&3));
    assert!(cache.contains(&4) && cache.contains(&5));
    // Removing the entry under the hand moves the hand on to 5.
    assert_eq!(cache.remove(&4), Some(4));
    cache.insert(6, 6);
    cache.insert(7, 7);
    assert!(cache.contains(&1) && !cache.contains(&5));
    assert!(cache.contains(&6) && cache.contains(&7));
    assert_eq!(cache.stats().evictions(), 3);
}

#[test]
fn sieve_disabled_stats_leave_hits_and_misses_alone() {
    let mut cache = fifo_cache::CacheConfig::new(10)
        .with_stats(false)
        .build_sieve::<String, i32>()
        .unwrap();
    cache.insert("a".to_string(), 1);
    assert_eq!(cache.get(&"a".to_string()), Some(1));
    assert_eq!(cache.get(&"b".to_string()), None);
    assert_eq!(cache.stats().hits(), 0);
    assert_eq!(cache.stats().misses(), 0);
    assert_eq!(cache.stats().insertions(), 1);
}

#[test]
fn sieve_get_or_insert_with_on_a_full_cache_inserts() {
    let mut cache = SieveCache::new(1);
    cache.insert("a".to_string(), 1);
    let value = cache.get_or_insert_with("b".to_string(), || 2);
    assert_eq!(value, 2);
    assert_eq!(cache.stats().insertions(), 2);
    assert!(cache.contains(&"b".to_string()));
    assert!(!cache.contains(&"a".to_string()));
    assert_eq!(cache.len(), 1);
}
