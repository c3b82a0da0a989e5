# Trine KV

An embedded LSM key-value store with snapshots, range and prefix scans, range deletions, buckets,
and object storage. The library under `src/` is written in Verus: its contracts are proved.

- `src/` is the library. `lsm` holds the tree of a bucket: memtables, deltas, reads, scans,
  conflicts and flushes. `iterator` merges sorted sources. `manifest` holds the durable state of a
  database, its layout, its edits, and how it is published to a file or by compare-and-swap.
  `object_store` holds keys, listings, a store in memory, and the checks made of a service.
  `io` decides which file operation runs next and which calls it is made of.
- `app/` is the host side: files, threads, clocks, and services that answer asynchronously.
- `tests/` runs the library on concrete values.

What the library takes on trust is marked `external_body`, with a comment that says what is
claimed of the code behind it.
