//! The engine: a memtable over a version of live tables.
//!
//! Everything that touches a disk is asked of [`StoreFiles`]. The engine
//! decides what is asked and what becomes of its own state for every answer;
//! it takes nothing for granted of the answers. What changes a file goes
//! through [`Traced`], and each contract says which changes were made, in
//! which order, and that no other was.
use crate::error::EngineError;
use crate::key::Key;
use crate::store::block_cache::{payload_bytes, BlockCache};
use crate::store::memtable::Memtable;
use crate::store::options::EngineOptions;
use crate::store::rows::{rows_view, Row};
use crate::store::sst_block::write::tombstones_in;
use crate::store::sst_block::{capped64, BlockSstFile, SstReader, SstWriter};
use crate::store::stats::{Counters, EngineStats};
use crate::store::trace::{Permit, Traced};
use crate::store::version::Version;
use crate::store::{rows, Value};
use compact::table_bytes;
use std::sync::Arc;
use vstd::prelude::*;

pub mod answer_laws;
pub mod bound_laws;
pub mod cache_laws;
pub mod call_laws;
pub mod compact;
pub mod file_laws;
pub mod gate_laws;
pub mod io;
pub mod key_laws;
pub mod laws;
pub mod open;
pub mod open_laws;
pub mod read;
pub mod read_back;
pub mod recover;
pub mod recovery_laws;
pub mod crash_laws;
pub mod durable;
pub mod replay_laws;
pub mod rotate;
pub mod rotate_answers;
pub mod rotate_laws;
pub mod sweep_laws;
pub mod write;
pub mod write_laws;

verus! {

/// The files of a store, as the engine uses them.
pub trait StoreFiles: SstReader + SstWriter {
    /// Writes a whole file under a temporary name, makes it durable, and
    /// renames it into place.
    fn write_file(&self, permit: &Permit, path: &str, bytes: &Vec<u8>) -> Result<(), EngineError>;

    /// Makes a manifest of the live tables durable.
    fn publish_manifest(&self, permit: &Permit, dir: &str, generation: u64, live: &Vec<u64>) -> Result<(), EngineError>;

    /// Appends one put to the log of `dir` and makes it durable; gives the
    /// bytes appended.
    fn append_put(&self, permit: &Permit, dir: &str, key: &[u8], value: &[u8]) -> Result<u64, EngineError>;

    /// Appends one delete to the log of `dir` and makes it durable.
    fn append_delete(&self, permit: &Permit, dir: &str, key: &[u8]) -> Result<u64, EngineError>;

    /// Appends one record of several operations, to be replayed as a whole or
    /// not at all, and makes it durable.
    fn append_batch(&self, permit: &Permit, dir: &str, ops: &Vec<(Key, Option<Value>)>) -> Result<u64, EngineError>;

    /// Empties the log of `dir`.
    fn reset_log(&self, permit: &Permit, dir: &str) -> Result<(), EngineError>;

    /// Gives up the file of a table that is no longer live: it is to be
    /// removed once no snapshot holds it.
    fn retire(&self, permit: &Permit, path: &str);
}

/// One page of a range: live entries in ascending key order, and where to
/// resume. No entries with a place to resume is progress, not the end.
#[derive(Debug)]
pub struct ScanPage {
    pub entries: Vec<(Key, Value)>,
    pub next_start: Option<Vec<u8>>,
}

/// A single-writer store.
#[derive(Debug)]
pub struct Engine {
    /// The data directory, relative to the store's root.
    pub dir: String,
    pub generation_id: u64,
    /// The identity of the store.
    pub store_id: u128,
    pub encrypted: bool,
    pub memtable: Memtable,
    /// The published set of live tables, replaced as a whole.
    pub current: Arc<Version>,
    /// The id of the next table.
    pub next_sst_id: u64,
    pub options: EngineOptions,
    pub counters: Counters,
    pub orphan_bytes_at_open: u64,
    pub generation_remove_failures: u64,
    pub active_snapshots: u64,
    pub point_lookup_full_sst_read: u64,
    pub block_cache: BlockCache,
}

impl Engine {
    /// The parts are well-formed, and every live table has an id below the
    /// next one.
    pub open spec fn wf(&self) -> bool {
        &&& self.memtable.wf()
        &&& self.current.wf()
        &&& self.block_cache.wf()
        &&& forall|i: int|
            0 <= i < self.current.ssts@.len() ==> (#[trigger] self.current.ssts@[i]).id < self.next_sst_id
    }

    /// Nothing but the cache differs.
    pub open spec fn same_but_cache(self, other: Engine) -> bool {
        self == Engine { block_cache: self.block_cache, ..other }
    }
}

/// A stable view of the tables of one version. It holds files, not a moment:
/// what was not flushed when it was taken is not in it.
#[derive(Debug)]
pub struct Snapshot {
    pub version: Arc<Version>,
}

/// The tombstones of tables, as their indexes count them.
pub open spec fn table_tombstones(ssts: Seq<Arc<BlockSstFile>>) -> nat
    decreases ssts.len(),
{
    if ssts.len() == 0 {
        0
    } else {
        table_tombstones(ssts.drop_last()) + ssts.last().tombstones as nat
    }
}

impl Engine {
    /// What the engine tells of itself, given the length of its log, the times
    /// it was synchronised, and the retired tables that could not be removed.
    pub fn stats(&self, wal_bytes: u64, wal_fsyncs: u64, sst_remove_failures: u64) -> (s: EngineStats)
        ensures
            s.wal_bytes == wal_bytes,
            s.wal_records == self.counters.wal_records,
            s.memtable_bytes == capped64(payload_bytes(self.memtable.spec_rows())),
            s.sst_count == self.current.ssts@.len(),
            s.sst_bytes == capped64(table_bytes(self.current.ssts@)),
            s.tombstone_count == capped64(
                tombstones_in(self.memtable.spec_rows()) + table_tombstones(self.current.ssts@),
            ),
            s.flush_count == self.counters.flush_count,
            s.compaction_count == self.counters.compaction_count,
            s.compaction_input_bytes == self.counters.compaction_input_bytes,
            s.compaction_output_bytes == self.counters.compaction_output_bytes,
            s.bytes_read == self.counters.bytes_read,
            s.bytes_written == self.counters.bytes_written,
            s.block_cache_hits == self.block_cache.spec_hits(),
            s.block_cache_misses == self.block_cache.spec_misses(),
            s.point_lookup_full_sst_read == self.point_lookup_full_sst_read,
            s.fsync_count == self.counters.fsync_count.wrapping_add(wal_fsyncs),
            s.orphan_bytes == self.orphan_bytes_at_open,
            s.compaction_remove_failures == sst_remove_failures,
            s.generation_remove_failures == self.generation_remove_failures,
            s.manifest_generation == self.current.manifest_generation,
            s.active_snapshots == self.active_snapshots,
    {
        let rows = self.memtable.iter();
        let ghost view = self.memtable.spec_rows();
        let mut memtable_bytes: u64 = 0;
        let mut tombstones: u64 = 0;
        let mut i: usize = 0;
        assert(view.subrange(0, 0) =~= Seq::<Row>::empty());
        while i < rows.len()
            invariant
                i <= rows@.len(),
                view == rows_view(rows@),
                memtable_bytes == capped64(payload_bytes(view.subrange(0, i as int))),
                tombstones == capped64(tombstones_in(view.subrange(0, i as int))),
            decreases rows@.len() - i,
        {
            proof {
                let next = view.subrange(0, i + 1);
                assert(next.drop_last() =~= view.subrange(0, i as int));
                assert(next.last() == rows::row_view(rows@[i as int]));
            }
            memtable_bytes = memtable_bytes.saturating_add(rows[i].0.as_bytes().len() as u64);
            match &rows[i].1 {
                Some(value) => {
                    memtable_bytes = memtable_bytes.saturating_add(value.len() as u64);
                },
                None => {
                    tombstones = tombstones.saturating_add(1);
                },
            }
            i = i + 1;
        }
        assert(view.subrange(0, i as int) =~= view);
        let ghost ssts = self.current.ssts@;
        let mut k: usize = 0;
        assert(ssts.subrange(0, 0) =~= Seq::<Arc<BlockSstFile>>::empty());
        while k < self.current.ssts.len()
            invariant
                ssts == self.current.ssts@,
                k <= ssts.len(),
                tombstones == capped64(tombstones_in(view) + table_tombstones(ssts.subrange(0, k as int))),
            decreases ssts.len() - k,
        {
            proof {
                assert(ssts.subrange(0, k + 1).drop_last() =~= ssts.subrange(0, k as int));
            }
            tombstones = tombstones.saturating_add(self.current.ssts[k].tombstones);
            k = k + 1;
        }
        assert(ssts.subrange(0, k as int) =~= ssts);
        EngineStats {
            wal_bytes,
            wal_records: self.counters.wal_records,
            memtable_bytes,
            sst_count: self.current.ssts.len(),
            sst_bytes: compact::sum_table_bytes(&self.current.ssts),
            tombstone_count: tombstones,
            flush_count: self.counters.flush_count,
            compaction_count: self.counters.compaction_count,
            compaction_input_bytes: self.counters.compaction_input_bytes,
            compaction_output_bytes: self.counters.compaction_output_bytes,
            bytes_read: self.counters.bytes_read,
            bytes_written: self.counters.bytes_written,
            block_cache_hits: self.block_cache.hits(),
            block_cache_misses: self.block_cache.misses(),
            point_lookup_full_sst_read: self.point_lookup_full_sst_read,
            fsync_count: self.counters.fsync_count.wrapping_add(wal_fsyncs),
            orphan_bytes: self.orphan_bytes_at_open,
            compaction_remove_failures: sst_remove_failures,
            generation_remove_failures: self.generation_remove_failures,
            manifest_generation: self.current.manifest_generation,
            active_snapshots: self.active_snapshots,
        }
    }

    /// Whether the store is encrypted at rest.
    #[must_use]
    pub fn is_encrypted(&self) -> (r: bool)
        ensures
            r == self.encrypted,
    {
        self.encrypted
    }

    /// The identity of the store.
    #[must_use]
    pub fn store_id(&self) -> (id: u128)
        ensures
            id == self.store_id,
    {
        self.store_id
    }

    /// Pins the tables of the current version. Later flushes and compactions
    /// make versions of their own and leave this one as it is.
    #[must_use]
    pub fn snapshot(&mut self) -> (s: Snapshot)
        ensures
            *s.version == *old(self).current,
            *final(self) == (Engine {
                active_snapshots: old(self).active_snapshots.wrapping_add(1),
                ..*old(self)
            }),
            old(self).wf() ==> final(self).wf(),
    {
        self.active_snapshots = self.active_snapshots.wrapping_add(1);
        Snapshot { version: self.current.clone() }
    }

    /// Gives a pinned version back.
    pub fn release(&mut self, snapshot: Snapshot)
        ensures
            *final(self) == (Engine {
                active_snapshots: old(self).active_snapshots.wrapping_sub(1),
                ..*old(self)
            }),
            old(self).wf() ==> final(self).wf(),
    {
        self.active_snapshots = self.active_snapshots.wrapping_sub(1);
    }

    /// Flushes what is pending and gives the engine up. What was written is
    /// durable without it; it only saves the replay.
    pub fn close<F: StoreFiles>(self, files: &mut Traced<F>) -> (r: Result<(), EngineError>)
        requires
            self.wf(),
            self.next_sst_id < u64::MAX - 1,
        ensures
            final(files).spec_files() == old(files).spec_files(),
            exists|after: Engine| #[trigger]
                compact::flushes(
                    &old(files).spec_files(),
                    old(files).steps(),
                    final(files).steps(),
                    self,
                    after,
                    r,
                ),
    {
        let mut engine = self;
        let r = engine.flush(files);
        assert(compact::flushes(
            &old(files).spec_files(),
            old(files).steps(),
            files.steps(),
            self,
            engine,
            r,
        ));
        r
    }
}

} // verus!
