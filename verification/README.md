# Buoy

A store for short notes ("thoughts"): capture, edit with history, deletion by
tombstone, inline `#tags`, keyword and semantic search, related thoughts, saved
searches, action tracking, and synchronisation between devices in which the last
writer wins. The library is written in Verus: what each operation does is stated
in its contract and proved.

- `src/` is the verified library. `tables` holds the rows and the statements that
  change them, `model` says what each operation makes of the tables, `store`,
  `query`, `matching` and `backfill` carry the operations out. `service`, `ffi` (with `ffi_tags` and `ffi_sync`)
  and `client` are the decisions of the HTTP service, of the native bindings and
  of the desktop client.
- What holds of the store as a whole is in `sound` (the invariant that every
  operation keeps), `laws`, `search_laws` and `convergence` (devices that exchange their changes
  end up with the same notes).
- `tests/` runs the library, with SQLite's text index where search is concerned.
- `app/` is the program around it: `main.rs` is the server, and `native.rs` the
  root of the native library. Both keep the tables in SQLite (`storage.rs`) and
  get vectors from all-MiniLM-L6-v2 (`model.rs`).

The store notes in a journal the statements that led to what it holds; storage
executes them. Replaying the journal gives the store's tables, which is part of
the contract of every operation.
