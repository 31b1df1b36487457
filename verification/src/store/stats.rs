//! What an engine tells of itself.
use vstd::prelude::*;

verus! {

/// A point-in-time picture of an engine. Counters count since the engine was
/// opened; gauges are taken when asked.
#[derive(Debug, Clone, Copy, PartialEq, Eq, Structural)]
#[non_exhaustive]
pub struct EngineStats {
    /// Gauge: length of the log on disk.
    pub wal_bytes: u64,
    /// Counter: log records appended; a batch is one record.
    pub wal_records: u64,
    /// Gauge: key and value bytes in the memtable.
    pub memtable_bytes: u64,
    /// Gauge: live tables.
    pub sst_count: usize,
    /// Gauge: bytes of the live tables on disk.
    pub sst_bytes: u64,
    /// Gauge: tombstones in the memtable and the live tables.
    pub tombstone_count: u64,
    /// Counter: memtable flushes.
    pub flush_count: u64,
    /// Counter: compactions.
    pub compaction_count: u64,
    /// Counter: bytes of the tables that compactions consumed.
    pub compaction_input_bytes: u64,
    /// Counter: bytes of the tables that compactions produced.
    pub compaction_output_bytes: u64,
    /// Counter: bytes read at open: the log, and the metadata of each table.
    pub bytes_read: u64,
    /// Counter: bytes written to the log and to tables.
    pub bytes_written: u64,
    /// Counter: point lookups whose block was cached.
    pub block_cache_hits: u64,
    /// Counter: point lookups whose block had to be read.
    pub block_cache_misses: u64,
    /// Counter: point lookups that read more than one block of one table.
    pub point_lookup_full_sst_read: u64,
    /// Counter: file synchronisations of the log, of tables and of manifests.
    pub fsync_count: u64,
    /// Gauge: bytes of orphaned temporary files found when opened.
    pub orphan_bytes: u64,
    /// Counter: removals of superseded tables that failed.
    pub compaction_remove_failures: u64,
    /// Counter: removals of superseded generations that failed.
    pub generation_remove_failures: u64,
    /// Gauge: publications of the manifest.
    pub manifest_generation: u64,
    /// Gauge: snapshots that are still held.
    pub active_snapshots: u64,
}

/// The engine's counters.
#[derive(Debug, Clone, Copy, PartialEq, Eq, Structural)]
pub struct Counters {
    pub wal_records: u64,
    pub flush_count: u64,
    pub compaction_count: u64,
    pub compaction_input_bytes: u64,
    pub compaction_output_bytes: u64,
    pub bytes_read: u64,
    pub bytes_written: u64,
    pub fsync_count: u64,
}

/// Counters before anything happened, but for `bytes_read`.
pub open spec fn counters_at_open(bytes_read: u64) -> Counters {
    Counters {
        wal_records: 0,
        flush_count: 0,
        compaction_count: 0,
        compaction_input_bytes: 0,
        compaction_output_bytes: 0,
        bytes_read,
        bytes_written: 0,
        fsync_count: 0,
    }
}

impl Counters {
    /// Counters before anything happened, but for `bytes_read`.
    pub fn at_open(bytes_read: u64) -> (counters: Counters)
        ensures
            counters == counters_at_open(bytes_read),
    {
        Counters {
            wal_records: 0,
            flush_count: 0,
            compaction_count: 0,
            compaction_input_bytes: 0,
            compaction_output_bytes: 0,
            bytes_read,
            bytes_written: 0,
            fsync_count: 0,
        }
    }

    /// After one log record of `bytes` bytes.
    pub open spec fn with_log_record(self, bytes: u64) -> Counters {
        Counters {
            wal_records: self.wal_records.wrapping_add(1),
            bytes_written: self.bytes_written.wrapping_add(bytes),
            ..self
        }
    }

    /// After one flushed table of `bytes` bytes.
    pub open spec fn with_flush(self, bytes: u64) -> Counters {
        Counters {
            flush_count: self.flush_count.wrapping_add(1),
            bytes_written: self.bytes_written.wrapping_add(bytes),
            fsync_count: self.fsync_count.wrapping_add(1),
            ..self
        }
    }

    /// After one published manifest.
    pub open spec fn with_manifest(self) -> Counters {
        Counters { fsync_count: self.fsync_count.wrapping_add(1), ..self }
    }

    /// After one compaction of `input` bytes into `output` bytes.
    pub open spec fn with_compaction(self, input: u64, output: u64) -> Counters {
        Counters {
            fsync_count: self.fsync_count.wrapping_add(1),
            ..self.with_merge(input, output)
        }
    }

    /// After one merge of `input` bytes into `output` bytes.
    pub open spec fn with_merge(self, input: u64, output: u64) -> Counters {
        Counters {
            compaction_count: self.compaction_count.wrapping_add(1),
            compaction_input_bytes: self.compaction_input_bytes.wrapping_add(input),
            compaction_output_bytes: self.compaction_output_bytes.wrapping_add(output),
            bytes_written: self.bytes_written.wrapping_add(output),
            ..self
        }
    }
}

} // verus!
