use fifo_cache::{CacheConfig, CacheError};

/// The small queue size that a ratio gives, computed as the configuration
/// builder of the tool does it.
fn small_for_ratio(capacity: usize, ratio: f64) -> usize {
    ((capacity as f64) * ratio).ceil() as usize
}

#[test]
fn config_test_queue_capacities() {
    let config = CacheConfig::new(100).with_small_queue_capacity(small_for_ratio(100, 0.10));
    assert_eq!(config.small_queue_capacity(), 10);
    assert_eq!(config.main_queue_capacity(), 90);
    assert_eq!(config.ghost_queue_capacity(), 90);
}

#[test]
fn config_validation_errors_without_ratios() {
    assert!(CacheConfig::new(0).validate().is_err());
    assert!(CacheConfig::new(100).with_max_frequency(0).is_err());
}

#[test]
fn config_defaults_without_ratios() {
    let config = CacheConfig::new(1000);
    assert_eq!(config.capacity(), 1000);
    assert_eq!(config.small_queue_capacity(), 100);
    assert_eq!(config.max_frequency(), 3);
    assert!(config.stats_enabled());
    assert_eq!(config.initial_capacity_hint(), 1000);
}

#[test]
fn config_builder_chain_without_ratios() {
    let config = CacheConfig::new(1000)
        .with_max_frequency(7)
        .unwrap()
        .with_stats(false)
        .with_initial_capacity(500);
    assert_eq!(config.max_frequency(), 7);
    assert!(!config.stats_enabled());
    assert_eq!(config.initial_capacity_hint(), 500);
}

#[test]
fn config_default_small_queue_rounds_up() {
    assert_eq!(CacheConfig::new(3).small_queue_capacity(), 1);
    assert_eq!(CacheConfig::new(3).main_queue_capacity(), 2);
    assert_eq!(CacheConfig::new(25).small_queue_capacity(), 3);
    assert_eq!(CacheConfig::new(0).small_queue_capacity(), 0);
    assert_eq!(CacheConfig::default().capacity(), 1024);
}

#[test]
fn config_errors_carry_the_bad_value() {
    match CacheConfig::new(0).validate() {
        Err(CacheError::InvalidCapacity(c)) => assert_eq!(c, 0),
        _ => panic!("expected an invalid capacity"),
    }
    match CacheConfig::new(5).with_max_frequency(0) {
        Err(CacheError::InvalidMaxFrequency(m)) => assert_eq!(m, 0),
        _ => panic!("expected an invalid maximum frequency"),
    }
    assert!(CacheConfig::new(0).build_sieve::<u64, u64>().is_err());
    assert!(CacheConfig::new(4).build_s3fifo::<u64, u64>().is_ok());
}

#[test]
fn config_main_queue_saturates() {
    let config = CacheConfig::new(10).with_small_queue_capacity(25);
    assert_eq!(config.main_queue_capacity(), 0);
    let config = config.with_ghost_queue_capacity(7);
    assert_eq!(config.ghost_queue_capacity(), 7);
}

#[test]
fn config_small_queue_must_fit_the_capacity() {
    match CacheConfig::new(10).with_small_queue_capacity(0).validate() {
        Err(CacheError::InvalidSmallQueueCapacity(n)) => assert_eq!(n, 0),
        _ => panic!("expected an invalid small queue"),
    }
    match CacheConfig::new(10).with_small_queue_capacity(11).validate() {
        Err(CacheError::InvalidSmallQueueCapacity(n)) => assert_eq!(n, 11),
        _ => panic!("expected an invalid small queue"),
    }
    assert!(CacheConfig::new(10).with_small_queue_capacity(10).validate().is_ok());
    assert!(CacheConfig::new(10).with_small_queue_capacity(0).build_sieve::<u64, u64>().is_err());
    match CacheConfig::new(0).with_small_queue_capacity(0).validate() {
        Err(CacheError::InvalidCapacity(c)) => assert_eq!(c, 0),
        _ => panic!("expected an invalid capacity"),
    }
}
