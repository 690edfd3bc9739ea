# reconcile_engine

An offline-first reconcile engine: source payloads (JSON arrays of objects,
or CSV with a header row) are normalized into canonical records and merged
field by field into stored rows — last writer wins on (timestamp, source
priority), with same-source exact ties going to the later write — beside a
redis-style key/value surface with a write-behind cache, glob-matched change
events, and compact binary row encodings.

## Layout

- `src/` — the library, verified with Verus. Every decision the engine makes
  lives here with its contract:
  - `normalize`, `csv`, `json`, `ieee`, `text` — payload parsing, timestamp
    parsing, value canonicalization, and the dead-letter reasons;
  - `fieldmap` — the key-ordered string map rows and metadata are kept in;
  - `reconcile` — the field merge, the per-key group fold with its stored-row
    short-circuit, metadata compaction, content hashing, and batch totals,
    with the merge's laws as proof functions;
  - `kvcache` — the write-behind cache and its coalescing queue;
  - `commands`, `dispatch`, `ingest`, `store` — reserved keys, merged-row
    names, expiry, the JSON command protocol, ingest fingerprints and change
    channels, and schema migration planning;
  - `pubsub`, `glob`, `binenc`, `error`.
- `app/` — ordinary Rust around the library: the SQLite store, the engine
  that owns it, the command envelope, the C ABI, and serde forms of library
  types. It performs the I/O the library decides on.
- `tests/` — executable tests of the library.
