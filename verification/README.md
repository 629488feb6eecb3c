# beyond_kv

The logic of a Redis-compatible key-value store and of its benchmark driver, written and proved in
Verus: a two-level store with an in-memory S3-FIFO cache in front of a log-structured disk engine.

- `src/proto` — protocol values, the grammar of commands, replies.
- `src/engine` — records, data files and their footers, the index of a namespace, recovery, the
  write path in steps, reads and catch-up scans, size-tiered reclaim, the content-addressed value
  store, the cache, watch subscriptions, and the per-shard store that ties them together.
- `src/bench` — keyspaces, workloads, the shares and outcomes of a run, statistics, timestamps.
- `src/bytes.rs`, `src/codec.rs`, `src/decimal.rs`, `src/text.rs`, `src/fx.rs` — byte strings,
  little-endian numbers, decimal and fixed-width text, and maps on top of the Fx hash table.
- `app` — `kv-bench` itself, and the engine's I/O: what the library's steps ask to be read, written
  and synced is done there.
- `tests` — the library from outside; `tests/engine.rs` runs whole stores over an in-memory disk.

An operation that needs the disk is a sequence of steps. A step changes the state in memory and says
what is to be done on disk; the caller does it and takes the next step. `src/engine/log/history.rs`
states what the steps add up to: a log that is opened again holds what it held, a crash leaves a
prefix of the history, a read gives back what was written, and a watcher that catches up misses
nothing. `src/engine/log/carry.rs` states that this holds behind a merge of files, too, and
`src/engine/coherence.rs` that the cache never gives an outdated answer.
