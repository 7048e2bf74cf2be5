# regolith

An embedded, log-structured key-value store, verified with Verus.

- `src/history.rs` says what a database is: the writes it has accepted, in
  order, and what a read at a point of that history sees. Everything else is
  proved against it.
- `src/engine/` holds the parts: the log format (`wal`) and what a cut costs it
  (`torn`), the skip list and the memtable, reads and merges, compaction, the snapshot registry, and the store
  that puts them together, with its tables as files (`store/files`).
- `src/db/` is the database handle: column families, writes, reads, snapshots,
  cursors and streams, properties, ingestion, and the laws that hold across
  operations (`laws`) and through any run of calls (`runs`).
- `src/mvcc.rs` runs transactions on kovan-mvcc.
- `src/options.rs`, `src/batch.rs`, `src/error.rs`, `src/event_listener.rs` are
  what callers build and get back.
- `app/` puts a database into a directory: files, a lock, and log messages.

The library does no input or output. A host hands it what a database left
behind (`Stored`) and takes the bytes of its log and tables back.
