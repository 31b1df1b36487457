# basemyai_engine

The storage core of an embedded, single-writer, log-structured key-value
engine, verified with Verus.

* `src/` is the library. Everything in it is verified: the keyspaces, the
  memtable, block-based tables with their index and bloom filter, the block
  cache, versions, reads, writes, flushes, compactions, opening and recovery,
  key rotation, the read-only audit, and the rebuilding of derived indexes.
* `tests/` runs the library on a disk held in memory.
* `app/` is the same on a real file system. The byte formats and the
  cryptography are a trait there, supplied by the embedding program.

## How contracts are stated

The library decides; others touch the disk. What it asks for stands in a few
traits (`SstReader`, `SstWriter`, `StoreFiles`, `StoreDir`, `StoreRoot`,
`StoreAudit`, `TableFiles`, `IndexCodec`, `IndexBuilder`). Their methods promise
nothing, so every contract speaks of every answer: a relation such as `loads`,
`gets`, `flushes` or `audits` says what is asked and what comes of each answer.

A call that may change a file takes a `Permit`, and only `Traced`
(`src/store/trace.rs`) can make one. It records each such call with its answer
as a `Step`. A function that writes takes a `Traced`, and its contract says
which steps it added, in which order: a flush writes its table, publishes the
manifest, and only then empties the log; a request that is refused adds none;
an audit adds none.

## What holds of the store as a whole

Given that the disk returns what was written:

* `engine/laws`, `engine/read_back`, `engine/write_laws`: lookups, scans and
  pages answer from one map; a lookup gives back the last write; a flush and a
  merge keep every live entry; compacting leaves one table without tombstones.
* `engine/answer_laws`, `engine/call_laws`: scans agree with lookups, chained
  pages are the range, and what lookups and counters tell after a put, a delete,
  a batch or a compaction.
* `engine/cache_laws`: nothing is cached of a table that is not live.
* `engine/durable`, `engine/crash_laws`, `engine/recovery_laws`: the memtable is
  what was logged since the log was last emptied, and the live tables are those
  of the manifest last published, after any calls; a crash after any step of a
  batch, a flush or a merge loses nothing, and a batch is seen whole or not at
  all; opening serves what is on disk.
* `engine/open_laws`: a store that is intact opens, and answers as it did.
* `engine/file_laws`: no file that is given up is that of a live table.
* `engine/rotate_laws`, `engine/key_laws`, `engine/rotate_answers`: a full
  rotation touches nothing of the old generation before the pointer moves; one
  that fails leaves the store as it was; one that succeeds keeps every answer,
  and then only the new key opens.
* `sst_block/roundtrip`: a table that was written loads as it was written.
* `verify/laws`, `verify/quick_laws`, `verify/settled_laws`, `verify/key_laws`,
  `verify_logical/laws`, `verify_logical/kinds`, `verify_logical/scope_laws`:
  what an audit sees, what it does not, which findings only warn, and which key
  it takes.
* `verify/table_laws`, `verify/sound_laws`, `verify/left_laws`: a store as an
  engine leaves it audits healthy, without an error and without a warning.
* `repair/rebuild_laws`, `repair/record_laws`: a rebuild writes and deletes no
  primary record, and every one of them reads as before.

## What is trusted

Three text conversions of the standard library (`src/text.rs`) and the making
of a fresh store identity by the `uuid` crate (`src/store/engine/open.rs`).
