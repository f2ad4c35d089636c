use fifo_cache::CacheEntry;

#[test]
fn test_new_entry() {
    let entry = CacheEntry::new("key", 42);
    assert_eq!(entry.key(), &"key");
    assert_eq!(entry.value(), &42);
    assert_eq!(entry.metadata(), 0);
}

#[test]
fn test_with_metadata() {
    let entry = CacheEntry::with_metadata("key", 42, 2);
    assert_eq!(entry.metadata(), 2);
}

#[test]
fn test_freq_increment() {
    let mut entry = CacheEntry::new("key", 42);

    entry.increment_freq();
    assert_eq!(entry.freq(), 1);

    entry.increment_freq();
    assert_eq!(entry.freq(), 2);

    entry.increment_freq();
    assert_eq!(entry.freq(), 3);

    // Should not exceed MAX_FREQ
    entry.increment_freq();
    assert_eq!(entry.freq(), 3);
}

#[test]
fn test_freq_decrement() {
    let mut entry = CacheEntry::new("key", 42);
    entry.set_freq(3);

    assert_eq!(entry.decrement_freq(), 3);
    assert_eq!(entry.freq(), 2);

    assert_eq!(entry.decrement_freq(), 2);
    assert_eq!(entry.freq(), 1);

    assert_eq!(entry.decrement_freq(), 1);
    assert_eq!(entry.freq(), 0);

    // Should not go below 0
    assert_eq!(entry.decrement_freq(), 0);
    assert_eq!(entry.freq(), 0);
}

#[test]
fn test_freq_reset() {
    let mut entry = CacheEntry::new("key", 42);
    entry.set_freq(3);
    entry.reset_freq();
    assert_eq!(entry.freq(), 0);
}

#[test]
fn test_custom_max_freq() {
    let mut entry = CacheEntry::new("key", 42);

    for _ in 0..10 {
        entry.increment_freq_with_max(7);
    }
    assert_eq!(entry.freq(), 7);
}

#[test]
fn test_visited_flag() {
    let mut entry = CacheEntry::new("key", 42);

    assert!(!entry.is_visited());

    entry.mark_visited();
    assert!(entry.is_visited());

    entry.clear_visited();
    assert!(!entry.is_visited());
}

#[test]
fn test_multiple_marks() {
    let mut entry = CacheEntry::new("key", 42);

    entry.mark_visited();
    entry.mark_visited();
    entry.mark_visited();

    assert!(entry.is_visited());
    assert_eq!(entry.metadata(), 1);
}

#[test]
fn entry_test_clone() {
    let mut entry = CacheEntry::new("key".to_string(), vec![1, 2, 3]);
    entry.set_freq(2);

    let cloned = entry.clone();
    assert_eq!(cloned.key(), entry.key());
    assert_eq!(cloned.value(), entry.value());
    assert_eq!(cloned.freq(), entry.freq());
}

#[test]
fn test_debug() {
    let entry = CacheEntry::new("key", 42);
    let debug_str = format!("{:?}", entry);
    assert!(debug_str.contains("CacheEntry"));
    assert!(debug_str.contains("key"));
    assert!(debug_str.contains("42"));
}

#[test]
fn entry_into_parts_gives_key_and_value() {
    let entry = CacheEntry::with_metadata("k".to_string(), 7u32, 3);
    assert_eq!(entry.into_parts(), ("k".to_string(), 7));
}

#[test]
fn entry_decay_then_hit_stays_capped() {
    let mut entry = CacheEntry::with_metadata(1u64, 1u64, 3);
    entry.increment_freq();
    assert_eq!(entry.freq(), 3);
    entry.increment_freq_with_max(2);
    assert_eq!(entry.freq(), 3);
    entry.clear_visited();
    assert_eq!(entry.metadata(), 0);
}
