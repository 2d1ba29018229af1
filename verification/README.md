# aikoql

A log-structured storage engine and the decisions of the server in front of it,
written in Verus.

A write goes to a log of frames, then to a memtable. Memtables become immutable
segments, segments are named by a manifest, and `CURRENT` names the manifest.
Objects have identities, replicas and placements, which are kept in logs of
their own. Compaction merges segments under a retention policy.

## Layout

- `src/` is the verified library. It works on plain values: bytes in, bytes out.
  - `codec`, `text`, `table`, `sort`, `listing`, `idmap`, `hash`: common parts
  - `format`, `wal`, `checkpoint`, `identity`, `placement`: what lies on disk;
    `canonical` says that what is accepted is what was written
  - `segment`: writing, opening and reading immutable segments
  - `memtable`, `cache`, `stats`: what lies in memory
  - `compaction`: merging, retention, chunks, relocation
  - `db`: the database as a state machine; an operation that writes files
    first gives a plan, and takes effect when the plan was carried out
  - `engine`, `migration`: the storage interface, and legacy logs
  - `server`: configuration, backend selection, messages, admission, reports
- `tests/` runs the library on concrete values.
- `app/` is the program around it: files, locks, threads, sockets.

Statements about more than one operation (what a read gives back of a write,
what a flush or a compaction keeps, what comes back after an interruption)
stand as public proof functions in the `*_laws.rs` modules and beside the
functions that they speak of. `db/reach_laws.rs` holds the invariant of a
database at every step of its life, and what follows from it.

## Outside code

The library calls SHA-256 of the `sha2` crate, the JSON parser of `serde_json`,
and a few functions of the standard library that have no specification of their
own. Each of these stands behind one small function whose comment says what is
relied on.
