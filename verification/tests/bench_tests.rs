use fifo_cache::bench::{format_number, warm_up, SimpleRng};
use fifo_cache::{Cache, SieveCache};

#[test]
fn format_number_groups_thousands() {
    assert_eq!(format_number(0), "0");
    assert_eq!(format_number(999), "999");
    assert_eq!(format_number(1000), "1,000");
    assert_eq!(format_number(1234567), "1,234,567");
    assert_eq!(format_number(10_000), "10,000");
    assert_eq!(format_number(100_200_003), "100,200,003");
}

#[test]
fn simple_rng_is_xorshift64() {
    let mut rng = SimpleRng::new(0);
    let mut x: u64 = 0x9E37_79B9_7F4A_7C15;
    for _ in 0..5 {
        x ^= x << 13;
        x ^= x >> 7;
        x ^= x << 17;
        assert_eq!(rng.next_u64(), x);
    }
    let mut a = SimpleRng::new(42);
    let mut b = SimpleRng::new(42);
    assert_eq!(a.next_u64(), b.next_u64());
}

#[test]
fn warm_up_fills_to_capacity_and_resets_stats() {
    let mut cache = SieveCache::<u64, u64>::new(5);
    cache.get(&42);
    warm_up(&mut cache, 100);
    assert_eq!(cache.len(), 5);
    for k in 0..5u64 {
        assert_eq!(cache.peek(&k), Some(k));
    }
    assert_eq!(cache.stats().misses(), 0);
    assert_eq!(cache.stats().insertions(), 0);
    let mut small = SieveCache::<u64, u64>::new(5);
    warm_up(&mut small, 3);
    assert_eq!(small.len(), 3);
}
