use fifo_cache::CacheStats;

fn hit_ratio(stats: &CacheStats) -> f64 {
    let hits = stats.hits();
    let total = hits + stats.misses();
    if total == 0 {
        0.0
    } else {
        hits as f64 / total as f64
    }
}

#[test]
fn test_initial_state() {
    let stats = CacheStats::new();
    assert_eq!(stats.hits(), 0);
    assert_eq!(stats.misses(), 0);
    assert_eq!(stats.insertions(), 0);
    assert_eq!(stats.evictions(), 0);
    assert!((hit_ratio(&stats) - 0.0).abs() < f64::EPSILON);
}

#[test]
fn test_recording() {
    let mut stats = CacheStats::new();

    stats.record_hit();
    stats.record_hit();
    stats.record_miss();
    stats.record_insertion();
    stats.record_eviction();
    stats.record_eviction();

    assert_eq!(stats.hits(), 2);
    assert_eq!(stats.misses(), 1);
    assert_eq!(stats.insertions(), 1);
    assert_eq!(stats.evictions(), 2);
}

#[test]
fn test_hit_ratio() {
    let mut stats = CacheStats::new();

    stats.record_hit();
    stats.record_hit();
    stats.record_hit();
    stats.record_miss();

    assert!((hit_ratio(&stats) - 0.75).abs() < 0.001);
    assert!(((1.0 - hit_ratio(&stats)) - 0.25).abs() < 0.001);
    assert_eq!(stats.total_accesses(), 4);
}

#[test]
fn test_reset() {
    let mut stats = CacheStats::new();
    stats.record_hit();
    stats.record_miss();
    stats.record_insertion();
    stats.record_eviction();

    stats.reset();

    assert_eq!(stats.hits(), 0);
    assert_eq!(stats.misses(), 0);
    assert_eq!(stats.insertions(), 0);
    assert_eq!(stats.evictions(), 0);
}

#[test]
fn stats_test_clone() {
    let mut stats = CacheStats::new();
    stats.record_hit();
    stats.record_hit();
    stats.record_miss();

    let snapshot = stats.clone();

    stats.record_hit();

    assert_eq!(snapshot.hits(), 2);
    assert_eq!(stats.hits(), 3);
}

#[test]
fn stats_default_is_zero() {
    let stats = CacheStats::default();
    assert_eq!(stats.total_accesses(), 0);
    assert_eq!(stats.evictions(), 0);
}
