//! The engine's tunables.
use vstd::prelude::*;

verus! {

/// Default target size of one data block: 16 KiB.
pub const DEFAULT_BLOCK_SIZE: u32 = 16384;

/// Default byte budget of the decoded-block cache: 32 MiB.
pub const DEFAULT_BLOCK_CACHE_CAPACITY_BYTES: usize = 33554432;

/// Tunables of an engine.
#[derive(Debug, Clone, Copy)]
pub struct EngineOptions {
    /// Number of memtable rows at which a write also flushes.
    pub memtable_flush_threshold: usize,
    /// Number of live tables above which the next flush also merges them.
    pub compaction_sst_threshold: usize,
    /// Target size in bytes of one data block: a target, not a bound.
    pub block_size: u32,
    /// Byte budget of the cache of decoded blocks.
    pub block_cache_capacity_bytes: usize,
    /// Whether a flush runs a pending compaction itself. Without it a caller
    /// polls for a pending compaction and runs the merge where it sees fit.
    pub auto_compact_on_flush: bool,
}

/// The default tunables.
pub open spec fn is_default(options: EngineOptions) -> bool {
    &&& options.memtable_flush_threshold == 1000
    &&& options.compaction_sst_threshold == 4
    &&& options.block_size == DEFAULT_BLOCK_SIZE
    &&& options.block_cache_capacity_bytes == DEFAULT_BLOCK_CACHE_CAPACITY_BYTES
    &&& options.auto_compact_on_flush
}

impl Default for EngineOptions {
    fn default() -> (options: EngineOptions)
        ensures
            is_default(options),
    {
        EngineOptions {
            memtable_flush_threshold: 1000,
            compaction_sst_threshold: 4,
            block_size: DEFAULT_BLOCK_SIZE,
            block_cache_capacity_bytes: DEFAULT_BLOCK_CACHE_CAPACITY_BYTES,
            auto_compact_on_flush: true,
        }
    }
}

} // verus!
