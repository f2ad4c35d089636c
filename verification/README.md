# fifo_cache

Cache eviction algorithms — S3-FIFO, SIEVE and an LRU baseline — written in
Verus, with their behaviour stated in `requires`/`ensures` contracts and
proved.

## Layout

- `src/` — the verified library.
  - `cache.rs`: the `Cache` trait; its contracts describe every cache as a
    bounded map from keys to values.
  - `sieve.rs`, `s3fifo.rs`, `lru.rs`: the three caches. Each one states its
    eviction rule as a spec function over the sequence of its entries and
    proves its operations against it.
  - `table.rs`, `index.rs`, `links.rs`, `order.rs`, `model.rs`: the entry
    table with its hash index (an `ahash::AHashMap` behind small trusted
    wrappers), the slot-linked list used by SIEVE and LRU, and the
    sequence/map model the contracts are written in.
  - `entry.rs`, `stats.rs`, `config.rs`, `fifo.rs`, `ghost.rs`, `key.rs`,
    `error.rs`, `bench.rs`: entries, counters, configuration, the FIFO and
    ghost queues, key hashing, errors and the benchmark helpers.
- `tests/` — tests run against the compiled library.
- `app/` — the `fifo-bench` command-line benchmark (threads, timing,
  floating-point workload generation and output), which uses the library.
