use fifo_cache::{Cache, CacheConfig, CacheStats, S3FifoCache};

fn hit_ratio(stats: &CacheStats) -> f64 {
    let hits = stats.hits();
    let total = hits + stats.misses();
    if total == 0 {
        0.0
    } else {
        hits as f64 / total as f64
    }
}

/// The small queue size that a ratio gives, computed as the configuration
/// builder of the tool does it.
fn small_for_ratio(capacity: usize, ratio: f64) -> usize {
    ((capacity as f64) * ratio).ceil() as usize
}

#[test]
fn s3fifo_test_new() {
    let cache: S3FifoCache<String, i32> = S3FifoCache::new(100);
    assert_eq!(cache.capacity(), 100);
    assert_eq!(cache.len(), 0);
    assert!(cache.is_empty());
}

#[test]
fn s3fifo_test_insert_and_get() {
    let mut cache = S3FifoCache::new(10);

    assert!(cache.insert("a".to_string(), 1).is_none());
    assert!(cache.insert("b".to_string(), 2).is_none());

    assert_eq!(cache.get(&"a".to_string()), Some(1));
    assert_eq!(cache.get(&"b".to_string()), Some(2));
    assert_eq!(cache.get(&"c".to_string()), None);

    assert_eq!(cache.len(), 2);
}

#[test]
fn s3fifo_test_update() {
    let mut cache = S3FifoCache::new(10);

    cache.insert("a".to_string(), 1);
    assert_eq!(cache.insert("a".to_string(), 100), Some(1));
    assert_eq!(cache.get(&"a".to_string()), Some(100));
    assert_eq!(cache.len(), 1);
}

#[test]
fn s3fifo_test_remove() {
    let mut cache = S3FifoCache::new(10);

    cache.insert("a".to_string(), 1);
    cache.insert("b".to_string(), 2);

    assert_eq!(cache.remove(&"a".to_string()), Some(1));
    assert_eq!(cache.get(&"a".to_string()), None);
    assert_eq!(cache.len(), 1);

    assert_eq!(cache.remove(&"c".to_string()), None);
}

#[test]
fn s3fifo_test_contains() {
    let mut cache = S3FifoCache::new(10);

    cache.insert("a".to_string(), 1);

    assert!(cache.contains(&"a".to_string()));
    assert!(!cache.contains(&"b".to_string()));
}

#[test]
fn s3fifo_test_clear() {
    let mut cache = S3FifoCache::new(10);

    cache.insert("a".to_string(), 1);
    cache.insert("b".to_string(), 2);
    cache.insert("c".to_string(), 3);

    cache.clear();

    assert!(cache.is_empty());
    assert_eq!(cache.get(&"a".to_string()), None);
}

#[test]
fn test_eviction_promotes_frequent() {
    let mut cache = S3FifoCache::new(10);

    for i in 0..10 {
        cache.insert(format!("key{}", i), i);
    }

    cache.get(&"key0".to_string());
    cache.get(&"key0".to_string());

    cache.insert("new1".to_string(), 100);
    cache.insert("new2".to_string(), 101);

    assert_eq!(cache.len(), 10);
}

#[test]
fn test_ghost_queue_reinsert() {
    let mut cache = S3FifoCache::new(3);

    cache.insert("a".to_string(), 1);
    cache.insert("b".to_string(), 2);
    cache.insert("c".to_string(), 3);

    cache.insert("d".to_string(), 4);

    assert!(!cache.contains(&"a".to_string()));

    cache.insert("a".to_string(), 10);

    assert_eq!(cache.get(&"a".to_string()), Some(10));
}

#[test]
fn s3fifo_test_peek() {
    let mut cache = S3FifoCache::new(10);

    cache.insert("a".to_string(), 1);

    assert_eq!(cache.peek(&"a".to_string()), Some(1));

    let stats = cache.stats();
    assert_eq!(stats.hits(), 0);
}

#[test]
fn s3fifo_test_stats() {
    let mut cache = S3FifoCache::new(10);

    cache.insert("a".to_string(), 1);
    cache.get(&"a".to_string());
    cache.get(&"b".to_string());
    cache.get(&"b".to_string());

    let stats = cache.stats();
    assert_eq!(stats.hits(), 1);
    assert_eq!(stats.misses(), 2);
    assert_eq!(stats.insertions(), 1);
    assert!((hit_ratio(stats) - 0.333).abs() < 0.01);
}

#[test]
fn s3fifo_test_get_or_insert_with() {
    let mut cache = S3FifoCache::new(10);

    let value = cache.get_or_insert_with("a".to_string(), || 42);
    assert_eq!(value, 42);

    let value = cache.get_or_insert_with("a".to_string(), || 100);
    assert_eq!(value, 42);
}

#[test]
fn s3fifo_test_queue_capacities() {
    let config = CacheConfig::new(100).with_small_queue_capacity(small_for_ratio(100, 0.2));
    let cache = S3FifoCache::<String, i32>::with_config(config);

    assert_eq!(cache.small_queue_capacity(), 20);
    assert_eq!(cache.main_queue_capacity(), 80);
}

#[test]
fn test_frequency_increment() {
    let mut cache = S3FifoCache::new(10);

    cache.insert("a".to_string(), 1);

    cache.get(&"a".to_string());
    cache.get(&"a".to_string());
    cache.get(&"a".to_string());

    assert_eq!(cache.frequency(&"a".to_string()), Some(3));
}

#[test]
fn s3fifo_unhit_entry_goes_to_ghost_and_comes_back_to_main() {
    // capacity 3: small queue 1, main queue 2
    let mut cache = S3FifoCache::new(3);
    cache.insert(1u64, 1u64);
    cache.insert(2u64, 2u64);
    cache.insert(3u64, 3u64);
    cache.insert(4u64, 4u64);
    assert!(!cache.contains(&1));
    assert_eq!(cache.stats().evictions(), 1);
    cache.insert(1, 11);
    assert_eq!(cache.peek(&1), Some(11));
    assert_eq!(cache.len(), 3);
}

#[test]
fn s3fifo_hit_entry_is_promoted_not_evicted() {
    let mut cache = S3FifoCache::new(3);
    cache.insert(1u64, 1u64);
    cache.get(&1);
    cache.insert(2u64, 2u64);
    cache.insert(3u64, 3u64);
    cache.insert(4u64, 4u64);
    // 1 was hit while in the small queue: it is promoted, 2 leaves.
    assert!(cache.contains(&1));
    assert!(!cache.contains(&2));
    assert_eq!(cache.frequency(&1), Some(0));
}

#[test]
fn s3fifo_len_never_exceeds_capacity() {
    let mut cache = S3FifoCache::new(5);
    for k in 0..50u64 {
        cache.insert(k % 13, k);
        if k % 3 == 0 {
            cache.get(&(k % 7));
        }
        assert!(cache.len() <= 5);
    }
}

#[test]
fn s3fifo_frequency_of_missing_key() {
    let cache: S3FifoCache<u64, u64> = S3FifoCache::new(4);
    assert_eq!(cache.frequency(&1), None);
}

#[test]
fn s3fifo_disabled_stats_leave_hits_and_misses_alone() {
    let mut cache = CacheConfig::new(10).with_stats(false).build_s3fifo::<u64, u64>().unwrap();
    cache.insert(1, 10);
    assert_eq!(cache.get(&1), Some(10));
    assert_eq!(cache.get(&2), None);
    assert_eq!(cache.stats().hits(), 0);
    assert_eq!(cache.stats().misses(), 0);
    assert_eq!(cache.stats().insertions(), 1);
}

#[test]
fn s3fifo_ghost_hit_goes_to_main_queue() {
    let mut cache = S3FifoCache::new(3);
    for (k, v) in [("a", 1), ("b", 2), ("c", 3), ("d", 4), ("a", 10), ("e", 5), ("f", 6)] {
        cache.insert(k.to_string(), v);
    }
    assert_eq!(cache.insert("g".to_string(), 7), None);
    assert!(cache.contains(&"a".to_string()));
    assert_eq!(cache.peek(&"a".to_string()), Some(10));
    assert!(!cache.contains(&"e".to_string()));
    assert_eq!(cache.len(), 3);
}

#[test]
fn s3fifo_ghost_queue_capacity_comes_from_the_config() {
    let config = CacheConfig::new(3).with_ghost_queue_capacity(0);
    let mut cache = config.build_s3fifo::<String, i32>().unwrap();
    for (k, v) in [("a", 1), ("b", 2), ("c", 3), ("d", 4), ("a", 10), ("e", 5), ("f", 6)] {
        cache.insert(k.to_string(), v);
    }
    cache.insert("g".to_string(), 7);
    // Without a ghost queue the second "a" entered the small queue and left it.
    assert!(!cache.contains(&"a".to_string()));
    assert_eq!(cache.len(), 3);
}

#[test]
fn s3fifo_clear_forgets_the_ghost_queue() {
    let mut cache = S3FifoCache::new(3);
    for k in ["a", "b", "c", "d"] {
        cache.insert(k.to_string(), 0);
    }
    cache.clear();
    for k in ["a", "b", "c", "d"] {
        cache.insert(k.to_string(), 1);
    }
    // "a" was not remembered, so it went to the small queue and was evicted.
    assert!(!cache.contains(&"a".to_string()));
    assert_eq!(cache.len(), 3);
}

#[test]
fn s3fifo_frequency_is_capped_by_the_config() {
    let config = CacheConfig::new(10).with_max_frequency(1).unwrap();
    let mut cache = config.build_s3fifo::<u64, u64>().unwrap();
    cache.insert(1, 1);
    cache.get(&1);
    cache.get(&1);
    cache.get(&1);
    assert_eq!(cache.frequency(&1), Some(1));
    let mut default = S3FifoCache::<u64, u64>::new(10);
    default.insert(1, 1);
    for _ in 0..5 {
        default.get(&1);
    }
    assert_eq!(default.frequency(&1), Some(3));
}
