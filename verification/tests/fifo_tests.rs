use fifo_cache::FifoQueue;
use std::sync::Arc;

#[test]
fn fifo_test_basic_operations() {
    let mut queue = FifoQueue::new(10);

    assert!(queue.is_empty());
    assert!(!queue.is_full());

    queue.push_back(1);
    queue.push_back(2);
    queue.push_back(3);

    assert_eq!(queue.len(), 3);
    assert_eq!(queue.front(), Some(&1));
    assert_eq!(queue.back(), Some(&3));

    assert_eq!(queue.pop_front(), Some(1));
    assert_eq!(queue.pop_front(), Some(2));
    assert_eq!(queue.len(), 1);
}

#[test]
fn test_capacity_limit() {
    let mut queue = FifoQueue::new(3);

    assert!(queue.push_back(1));
    assert!(queue.push_back(2));
    assert!(queue.push_back(3));
    assert!(!queue.push_back(4));
    assert!(queue.is_full());

    assert_eq!(queue.len(), 3);
}

#[test]
fn test_push_back_evict() {
    let mut queue = FifoQueue::new(3);

    queue.push_back(1);
    queue.push_back(2);
    queue.push_back(3);

    let evicted = queue.push_back_evict(4);
    assert_eq!(evicted, Some(1));
    assert_eq!(queue.len(), 3);
    assert_eq!(queue.front(), Some(&2));
}

#[test]
fn test_unbounded() {
    let mut queue = FifoQueue::<i32>::unbounded();

    for i in 0..1000 {
        assert!(queue.push_back(i));
    }

    assert_eq!(queue.len(), 1000);
    assert!(!queue.is_full());
}

#[test]
fn fifo_test_clear() {
    let mut queue = FifoQueue::new(10);
    queue.push_back(1);
    queue.push_back(2);

    queue.clear();

    assert!(queue.is_empty());
}

#[test]
fn test_retain() {
    let mut queue = FifoQueue::new(10);
    queue.push_back(1);
    queue.push_back(2);
    queue.push_back(3);
    queue.push_back(4);

    queue.retain(|x| x % 2 == 0);

    assert_eq!(queue.len(), 2);
    assert_eq!(queue.pop_front(), Some(2));
    assert_eq!(queue.pop_front(), Some(4));
}

#[test]
fn fifo_test_iter() {
    let mut queue = FifoQueue::new(10);
    queue.push_back(1);
    queue.push_back(2);
    queue.push_back(3);

    let sum: i32 = queue.iter().sum();
    assert_eq!(sum, 6);
}

#[test]
fn test_from_iter() {
    let queue: FifoQueue<i32> = FifoQueue::from_vec(vec![1, 2, 3]);
    assert_eq!(queue.len(), 3);
    assert_eq!(queue.capacity(), 3);
}

#[test]
fn fifo_push_back_evict_not_full_evicts_nothing() {
    let mut queue = FifoQueue::new(0);
    assert_eq!(queue.push_back_evict(5), None);
    assert_eq!(queue.push_back_evict(6), None);
    assert_eq!(queue.len(), 2);
    assert_eq!(queue.back(), Some(&6));
}

#[test]
fn fifo_contains_and_find() {
    let mut queue = FifoQueue::new(4);
    queue.push_back(7);
    queue.push_back(9);
    assert!(queue.contains(&9));
    assert!(!queue.contains(&8));

    let mut arcs = FifoQueue::new(4);
    arcs.push_back(Arc::new(1));
    arcs.push_back(Arc::new(2));
    arcs.push_back(Arc::new(4));
    assert_eq!(arcs.find(|a| **a % 2 == 0).map(|a| *a), Some(2));
    assert_eq!(arcs.find(|a| **a > 10), None);
}

#[test]
fn fifo_pop_front_empty_and_default() {
    let mut queue: FifoQueue<u8> = FifoQueue::default();
    assert_eq!(queue.capacity(), 0);
    assert_eq!(queue.pop_front(), None);
    assert_eq!(queue.front(), None);
    assert_eq!(queue.back(), None);
    queue.inner_mut().push_back(3);
    assert_eq!(queue.front(), Some(&3));
}

#[test]
fn fifo_order_law_first_in_first_out() {
    let mut queue = FifoQueue::new(0);
    for i in 0..5 {
        queue.push_back(i);
    }
    for i in 0..5 {
        assert_eq!(queue.pop_front(), Some(i));
    }
}

#[test]
fn fifo_into_iter_yields_front_first() {
    let mut queue = FifoQueue::new(3);
    queue.push_back(1);
    queue.push_back(2);
    queue.push_back(3);
    queue.push_back_evict(4);
    let items: Vec<i32> = queue.into_iter().collect();
    assert_eq!(items, vec![2, 3, 4]);
}
