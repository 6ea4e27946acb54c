# thread_safe_lru_cache

Thread-safe caches with least-recently-used and first-in-first-out eviction, verified
with Verus.

- `basic::key` — the `CacheKey` trait: each key type brings the map from keys to
  slots that the tables use (std's `HashMap` for integers, vstd's `StringHashMap` for
  `String` and `&str`). Keys are told apart by their views.
- `basic::dll` — a doubly linked list whose nodes live in the slots of a vector and
  link to each other by slot number; freed slots are reused.
- `basic::table` — that list together with a hash map from each key to the slot of
  its entry, plus the sequence-level vocabulary (`keys`, `has_key`, `position`,
  `fits`, `without_key`) that the contracts use.
- `basic::lru` — an LRU cache over a table; `basic::safe` puts it behind one mutex.
- `sharded::eviction` — the `Eviction` trait and its two shards, `lru` (reads noted
  under a shared lock and promoted in batches) and `fifo`, each a `parking_lot` lock
  around a verified inner state.
- `sharded::cache` — a cache that spreads keys over shards by their hash.
- `locks` — the lock and hasher calls the caches make, with the contracts they are
  trusted to meet.

Every cache is modelled as the sequence of its entries (most recent first for LRU,
oldest first for FIFO); `lru_push`, `lru_touch`, `fifo_push` and `without_key` say
what each operation does to that sequence, and the `lemma_*` proof functions state
the laws that follow.
