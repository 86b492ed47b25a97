# bloomy

A small storage engine: a skip-list memtable over byte-string keys and a
checksummed, append-only write-ahead log, verified with Verus.

## Layout

- `src/keys.rs` — the lexicographic order of keys, key ranges, and the map
  that a strictly sorted list of entries denotes.
- `src/storage/memtable.rs` — the skip list (`SkipList`) and the memtable
  around it; its view is a map from key to value, and scans return exactly
  the in-range entries in key order.
- `src/storage/wal.rs` — the log format: header, record encoding, CRC-32,
  and reading one record from a byte buffer; encode/read round trips are
  proved.
- `src/engine/lsm.rs` — the in-memory engine, log replay and recovery;
  replaying a log written as records followed by a cut-short record gives
  back exactly those records, so a reopened store holds, under each key, the
  value of the last put on it, or nothing after a delete.
- `src/api`, `src/config`, `src/types.rs`, `src/error.rs` — the public
  interface, configuration, and errors.
- `src/viewer.rs` — the logic of the WAL viewer: decoding a log for display,
  its arguments, the text of each line, and how a key or a tick of the clock
  changes the viewer's state.
- `app/` — the program: files, JSON configuration, the on-disk store (it
  logs and syncs each mutation before applying it, and recovers the log on
  opening), the
  benchmark (`bloomy bench`) and the terminal viewer (`bloomy view`).

The log format is described in the doc comment of `src/storage/wal.rs`.
