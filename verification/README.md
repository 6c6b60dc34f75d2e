# manifold

Column-family storage for an embedded key-value store: many column families share
one file, each laid out as a list of segments of it, with a write-ahead log in
front. The library is written in Verus; every function in `src/` is verified
against its contract, except a few small trusted wrappers (marked
`#[verifier::external_body]`) around the CRC-32 crate, std's UTF-8
conversions and `Duration::from_secs`, whose contracts are stated from their
documentation.

## Layout

- `src/header.rs`, `src/header_laws.rs`: the master header on the first page of the
  file (encoding, decoding, validation) and its round-trip laws.
- `src/database.rs`, `src/database_laws.rs`, `src/layout_laws.rs`: creating,
  finding, listing and deleting column families, handing out segments, and the
  laws that tie them together (what is created is found, what is deleted is gone,
  the header is read back on reopening, no two pieces of the file overlap).
- `src/partitioned_backend.rs`, `src/partition_laws.rs`: a column family's segments
  seen as one contiguous address space, growing on demand.
- `src/file_handle_pool.rs`, `src/state.rs`, `src/builder.rs`: the bounded pool of
  storage handles (least recently used goes first) and per-column-family state.
- `src/wal/`: log entries and their encoding, the journal's framing and recovery
  scan, the group-commit log, checkpoint bookkeeping, the checkpoint step machine (read, apply each
  entry once, truncate, forget) and replay planning.
- `src/types.rs`, `src/keys.rs`, `src/tuples.rs`: stored value types, their
  encodings and key order.
- `src/backend.rs`: the storage interface and an in-memory storage.
- `app/lib.rs`: what needs the operating system: file storage, opening a database
  by path, the log file, and the background sync and checkpoint threads.
