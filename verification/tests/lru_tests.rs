use fifo_cache::{Cache, CacheStats, LruCache};

const FLOAT_TOLERANCE: f64 = 0.01;

fn hit_ratio(stats: &CacheStats) -> f64 {
    let hits = stats.hits();
    let total = hits + stats.misses();
    if total == 0 {
        0.0
    } else {
        hits as f64 / total as f64
    }
}

#[test]
fn lru_test_new() {
    let cache: LruCache<String, i32> = LruCache::new(100);
    assert_eq!(cache.capacity(), 100);
    assert_eq!(cache.len(), 0);
    assert!(cache.is_empty());
}

#[test]
fn lru_test_insert_and_get() {
    let mut cache = LruCache::new(10);

    assert!(cache.insert("a".to_string(), 1).is_none());
    assert!(cache.insert("b".to_string(), 2).is_none());

    assert_eq!(cache.get(&"a".to_string()), Some(1));
    assert_eq!(cache.get(&"b".to_string()), Some(2));
    assert_eq!(cache.get(&"c".to_string()), None);

    assert_eq!(cache.len(), 2);
}

#[test]
fn lru_test_update() {
    let mut cache = LruCache::new(10);

    cache.insert("a".to_string(), 1);
    assert_eq!(cache.insert("a".to_string(), 100), Some(1));
    assert_eq!(cache.get(&"a".to_string()), Some(100));
    assert_eq!(cache.len(), 1);
}

#[test]
fn lru_test_remove() {
    let mut cache = LruCache::new(10);

    cache.insert("a".to_string(), 1);
    cache.insert("b".to_string(), 2);

    assert_eq!(cache.remove(&"a".to_string()), Some(1));
    assert_eq!(cache.get(&"a".to_string()), None);
    assert_eq!(cache.len(), 1);

    assert_eq!(cache.remove(&"c".to_string()), None);
}

#[test]
fn test_lru_eviction() {
    let mut cache = LruCache::new(3);

    cache.insert("a".to_string(), 1);
    cache.insert("b".to_string(), 2);
    cache.insert("c".to_string(), 3);

    cache.get(&"a".to_string());

    cache.insert("d".to_string(), 4);

    assert!(cache.contains(&"a".to_string()));
    assert!(!cache.contains(&"b".to_string()));
    assert!(cache.contains(&"c".to_string()));
    assert!(cache.contains(&"d".to_string()));
}

#[test]
fn lru_test_clear() {
    let mut cache = LruCache::new(10);

    cache.insert("a".to_string(), 1);
    cache.insert("b".to_string(), 2);
    cache.insert("c".to_string(), 3);

    cache.clear();

    assert!(cache.is_empty());
    assert_eq!(cache.get(&"a".to_string()), None);
}

#[test]
fn lru_test_peek() {
    let mut cache = LruCache::new(3);

    cache.insert("a".to_string(), 1);
    cache.insert("b".to_string(), 2);
    cache.insert("c".to_string(), 3);

    assert_eq!(cache.peek(&"a".to_string()), Some(1));

    cache.insert("d".to_string(), 4);

    assert!(!cache.contains(&"a".to_string()));
}

#[test]
fn lru_test_stats() {
    let mut cache = LruCache::new(10);

    cache.insert("a".to_string(), 1);
    cache.get(&"a".to_string());
    cache.get(&"b".to_string());
    cache.get(&"b".to_string());

    let stats = cache.stats();
    assert_eq!(stats.hits(), 1);
    assert_eq!(stats.misses(), 2);
    assert_eq!(stats.insertions(), 1);

    let expected_ratio = 1.0 / 3.0;
    assert!((hit_ratio(stats) - expected_ratio).abs() < FLOAT_TOLERANCE);
}

#[test]
fn lru_update_counts_as_insertion_and_refreshes() {
    let mut cache = LruCache::new(2);
    cache.insert(1u64, 1u64);
    cache.insert(2u64, 2u64);
    cache.insert(1u64, 10u64);
    assert_eq!(cache.stats().insertions(), 3);
    cache.insert(3u64, 3u64);
    assert!(cache.contains(&1));
    assert!(!cache.contains(&2));
    assert_eq!(cache.stats().evictions(), 1);
}

#[test]
fn lru_hits_reorder_the_eviction_queue() {
    let mut cache = LruCache::new(3);
    cache.insert(1u64, 1u64);
    cache.insert(2u64, 2u64);
    cache.insert(3u64, 3u64);
    cache.get(&1);
    cache.get(&2);
    cache.insert(4, 4);
    assert!(!cache.contains(&3));
    cache.get(&1);
    cache.insert(5, 5);
    assert!(!cache.contains(&2));
    assert!(cache.contains(&1) && cache.contains(&4) && cache.contains(&5));
    assert_eq!(cache.remove(&4), Some(4));
    cache.insert(6, 6);
    cache.insert(7, 7);
    assert!(!cache.contains(&1));
    assert_eq!(cache.len(), 3);
}

#[test]
fn lru_disabled_stats_leave_hits_and_misses_alone() {
    let mut cache = LruCache::with_config(fifo_cache::CacheConfig::new(4).with_stats(false));
    cache.insert(1u64, 1u64);
    assert_eq!(cache.get(&1), Some(1));
    assert_eq!(cache.get(&2), None);
    assert_eq!(cache.stats().hits(), 0);
    assert_eq!(cache.stats().misses(), 0);
    assert_eq!(cache.stats().insertions(), 1);
}
