# wal_columns

Binary columns, and the metadata of a remote write-ahead log, with proofs in
[Verus](https://github.com/verus-lang/verus).

- `src/binary.rs` holds vectors of binary strings and their builder. Their view is the sequence
  of rows. `src/column.rs` is the boundary to `arrow`, `src/jsonb_text.rs` that to `jsonb`, and
  `src/json.rs` that to `serde_json`.
- `src/vector_text.rs` reads rows that hold vectors, as text or as bytes.
- `src/ddl.rs`, `src/region.rs` and `src/meta_error.rs` help procedures that define tables.
- `src/entry_ids.rs` merges the last entries that datanodes report.
- `src/mailbox.rs` and `src/wal_prune.rs` make up replies and tables to try these things out.
- `app/` is ordinary Rust around the library: asynchronous stores and channels, floating point,
  and types with `serde` derives.
