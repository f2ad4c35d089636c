use fifo_cache::GhostQueue;

#[test]
fn ghost_test_basic_operations() {
    let mut ghost = GhostQueue::new(10);

    assert!(ghost.is_empty());
    assert!(!ghost.is_full());

    assert!(ghost.insert("a".to_string()));
    assert!(ghost.insert("b".to_string()));
    assert!(ghost.insert("c".to_string()));

    assert!(ghost.contains(&"a".to_string()));
    assert!(ghost.contains(&"b".to_string()));
    assert!(ghost.contains(&"c".to_string()));
    assert!(!ghost.contains(&"d".to_string()));

    assert_eq!(ghost.len(), 3);
}

#[test]
fn test_no_duplicates() {
    let mut ghost = GhostQueue::new(10);

    assert!(ghost.insert("a".to_string()));
    assert!(!ghost.insert("a".to_string()));

    assert_eq!(ghost.len(), 1);
}

#[test]
fn ghost_test_remove() {
    let mut ghost = GhostQueue::new(10);

    ghost.insert("a".to_string());
    ghost.insert("b".to_string());

    assert!(ghost.remove(&"a".to_string()));
    assert!(!ghost.contains(&"a".to_string()));
    assert!(ghost.contains(&"b".to_string()));

    assert!(!ghost.remove(&"c".to_string()));
}

#[test]
fn test_fifo_eviction() {
    let mut ghost = GhostQueue::new(3);

    ghost.insert("a".to_string());
    ghost.insert("b".to_string());
    ghost.insert("c".to_string());

    ghost.insert("d".to_string());

    assert!(!ghost.contains(&"a".to_string()));
    assert!(ghost.contains(&"b".to_string()));
    assert!(ghost.contains(&"c".to_string()));
    assert!(ghost.contains(&"d".to_string()));
    assert_eq!(ghost.len(), 3);
}

#[test]
fn ghost_test_clear() {
    let mut ghost = GhostQueue::new(10);

    ghost.insert("a".to_string());
    ghost.insert("b".to_string());
    ghost.insert("c".to_string());

    ghost.clear();

    assert!(ghost.is_empty());
    assert!(!ghost.contains(&"a".to_string()));
}

#[test]
fn ghost_test_iter() {
    let mut ghost = GhostQueue::new(10);

    ghost.insert("a".to_string());
    ghost.insert("b".to_string());
    ghost.insert("c".to_string());

    let keys: Vec<_> = ghost.iter().collect();
    assert_eq!(keys, vec!["a", "b", "c"]);
}

#[test]
fn test_capacity_zero() {
    let ghost = GhostQueue::<String>::new(0);

    assert!(ghost.is_empty());
    assert!(ghost.is_full());
}

#[test]
fn ghost_capacity_zero_tracks_no_key() {
    let mut ghost = GhostQueue::new(0);
    assert!(!ghost.insert(1u64));
    assert!(!ghost.insert(2u64));
    assert_eq!(ghost.len(), 0);
    assert!(!ghost.contains(&1));
    assert!(!ghost.contains(&2));
}

#[test]
fn ghost_remove_keeps_order_of_the_rest() {
    let mut ghost = GhostQueue::new(5);
    for k in 1u32..=4 {
        ghost.insert(k);
    }
    assert!(ghost.remove(&2));
    let keys: Vec<u32> = ghost.iter().cloned().collect();
    assert_eq!(keys, vec![1, 3, 4]);
    ghost.insert(5);
    ghost.insert(6);
    ghost.insert(7);
    let keys: Vec<u32> = ghost.iter().cloned().collect();
    assert_eq!(keys, vec![3, 4, 5, 6, 7]);
    assert_eq!(ghost.capacity(), 5);
}

#[test]
fn ghost_default_capacity() {
    let ghost: GhostQueue<u64> = GhostQueue::default();
    assert_eq!(ghost.capacity(), 1024);
}
