//! The store: memtable, sorted tables on disk, and the engine that layers
//! them.
use vstd::prelude::*;

pub mod batch;
pub mod block_cache;
pub mod engine;
pub mod files;
pub mod layers;
pub mod measure_laws;
pub mod memtable;
pub mod options;
pub mod repair;
pub mod rows;
pub mod sst;
pub mod sst_block;
pub mod sst_laws;
pub mod stats;
pub mod trace;
pub mod verify;
pub mod verify_logical;
pub mod version;
pub mod version_laws;

verus! {

/// A stored value.
pub type Value = Vec<u8>;

} // verus!
