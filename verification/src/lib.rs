//! `basemyai_engine`: the storage core of an embedded, single-writer,
//! log-structured key-value engine.
//!
//! * [`bytes`] orders byte strings; everything sorted in this crate is sorted
//!   by that order. [`text`] writes and reads numbers and names.
//! * [`key`] holds the opaque key type and the reserved `idx/` keyspaces.
//! * [`store`] holds the memtable, the tables on disk, the engine that layers
//!   them, the audit and the rebuilding of derived indexes.
//! * [`error`] holds what can go wrong.
//!
//! A write goes to the log first, then to the memtable. A flush writes the
//! memtable as a new table, publishes it in the manifest, and only then
//! empties the log. The library performs none of this itself: it asks traits
//! such as [`store::engine::StoreFiles`] to, takes nothing for granted of the
//! answers, and states what it does for each of them. What changes a file is
//! recorded, in order, by [`store::trace::Traced`].

pub mod bytes;
pub mod bytes_laws;
pub mod text;
pub mod error;
pub mod error_laws;
pub mod key;
pub mod store;
