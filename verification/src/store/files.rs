//! What is asked of the file system and of the codecs around the engine.
//!
//! The traits promise nothing: every answer is possible, and what the library
//! does is stated for each of them. Paths are relative to the store's root;
//! the root itself is the empty path.
use crate::error::EngineError;
use crate::store::engine::write::WalRecord;
use crate::store::engine::StoreFiles;
use crate::store::sst_block::SstReader;
use crate::store::trace::Permit;
use crate::text;
use vstd::prelude::*;

verus! {

/// The store format that this library reads and writes.
pub const STORE_FORMAT_VERSION: u32 = 3;

/// One entry of a directory. The name is its last path component.
#[derive(Debug)]
pub struct DirEntry {
    pub name: String,
    pub is_dir: bool,
    pub len: u64,
}

/// The store's format version and identity, as recorded at its root. A record
/// of the older kind has no identity.
#[derive(Debug, Clone, Copy, PartialEq, Eq, Structural)]
pub struct StoreMeta {
    pub store_format_version: u32,
    pub store_id: Option<u128>,
}

/// The live tables, as last published.
#[derive(Debug)]
pub struct SstManifest {
    pub manifest_generation: u64,
    pub live_sst_ids: Vec<u64>,
}

/// How the key that opens a store was supplied.
#[derive(Debug, Clone, Copy, PartialEq, Eq, Structural)]
pub enum KeyMode {
    RawKey,
    Passphrase,
}

/// The cost parameters of a passphrase's key derivation.
#[derive(Debug, Clone, Copy, PartialEq, Eq, Structural)]
pub enum Argon2idProfile {
    Default,
    Constrained,
}

/// A key with the way it was supplied, and the profile under which new
/// metadata is written.
#[derive(Debug)]
pub struct UserKey {
    pub bytes: Vec<u8>,
    pub mode: KeyMode,
    pub profile: Argon2idProfile,
}

/// What a key with its mode and profile says.
pub struct KeyV {
    pub bytes: Seq<u8>,
    pub mode: KeyMode,
    pub profile: Argon2idProfile,
}

impl UserKey {
    /// What the key says.
    pub open spec fn says(&self) -> KeyV {
        KeyV { bytes: self.bytes@, mode: self.mode, profile: self.profile }
    }
}

/// Why a metadata record could not be had: its bytes could not be read, or
/// they do not decode.
#[derive(Debug)]
pub enum ReadFault {
    Unreadable(String),
    Undecodable(EngineError),
}

/// What a read-only scan of the log found: the operations, batches taken
/// apart, and the length of a torn last record.
#[derive(Debug)]
pub struct WalScan {
    pub records: Vec<WalRecord>,
    pub torn_tail_bytes: u64,
}

/// Looking at a store without changing it.
pub trait StoreDir: SstReader {
    fn is_dir(&self, path: &str) -> bool;

    fn is_file(&self, path: &str) -> bool;

    /// Whether there is something at `path`.
    fn is_present(&self, path: &str) -> bool;

    fn list(&self, dir: &str) -> Result<Vec<DirEntry>, EngineError>;

    /// Lists `dir` without the entries that cannot be told.
    fn list_readable(&self, dir: &str) -> Result<Vec<DirEntry>, EngineError>;

    fn read_store_meta(&self) -> Result<StoreMeta, ReadFault>;

    /// The generation that the pointer at the root names.
    fn read_generation(&self) -> Result<u64, ReadFault>;

    fn read_manifest(&self, dir: &str) -> Result<SstManifest, ReadFault>;

    /// Unwraps the data key under `key`; with a generation, the record must be
    /// bound to it.
    fn load_crypto(&self, dir: &str, key: &[u8], mode: KeyMode, generation: Option<u64>) -> Result<(), EngineError>;

    /// The lengths of a table's header and of its footer.
    fn section_lens(&self, encrypted: bool) -> (u64, u64);
}

/// Opening a store for writing.
pub trait StoreRoot: StoreDir + StoreFiles {
    fn create_root(&self, permit: &Permit) -> Result<(), EngineError>;

    /// Takes the writer lock; `false` if another process holds it.
    fn lock_exclusive(&self, permit: &Permit) -> Result<bool, EngineError>;

    fn write_store_meta(&self, permit: &Permit, meta: &StoreMeta) -> Result<(), EngineError>;

    /// Makes a data key and wraps it under `key`.
    fn create_crypto(
        &self,
        permit: &Permit,
        dir: &str,
        key: &UserKey,
        generation: Option<u64>,
    ) -> Result<(), EngineError>;

    /// Wraps the data key that is in use under `key`.
    fn rewrap_crypto(&self, permit: &Permit, dir: &str, key: &UserKey, generation: u64) -> Result<(), EngineError>;

    /// Opens the log, made if absent, and gives its length.
    fn open_log(&self, permit: &Permit, dir: &str) -> Result<u64, EngineError>;

    /// The operations of the log, a torn last record cut off.
    fn replay_log(&self, permit: &Permit, dir: &str) -> Result<Vec<WalRecord>, EngineError>;

    /// One attempt to remove a file.
    fn remove_file(&self, permit: &Permit, path: &str) -> bool;

    /// Removes a directory with all it holds.
    fn remove_dir(&self, permit: &Permit, path: &str) -> Result<(), EngineError>;

    fn create_dir(&self, permit: &Permit, path: &str) -> Result<(), EngineError>;

    /// Waits a moment between two attempts.
    fn pause(&self);

    /// Points the store at a generation, durably.
    fn publish_generation(&self, permit: &Permit, generation: u64) -> Result<(), EngineError>;
}

/// Auditing a store.
pub trait StoreAudit: StoreDir {
    /// Takes the shared lock, if the lock file is there; `false` if a writer
    /// holds it.
    fn lock_shared(&self) -> Result<bool, EngineError>;

    /// The version of log records that the codecs understand.
    fn log_record_version(&self) -> u32;

    /// The log's epoch, if one was ever recorded.
    fn log_epoch(&self, dir: &str) -> Result<Option<u64>, EngineError>;

    /// Reads the log without changing it.
    fn scan_log(&self, dir: &str, store_id: u128, epoch: u64) -> Result<WalScan, EngineError>;

    /// Opens a table for reading its blocks; the error is the system's text.
    fn open_table(&self, path: &str) -> Result<(), String>;
}

/// `files` may answer that `path` is a directory with `r`.
pub open spec fn tells_dir<F: StoreDir>(files: &F, path: Seq<char>, r: bool) -> bool {
    exists|p: &str| p@ == path && #[trigger] call_ensures(F::is_dir, (files, p), r)
}

/// `files` may answer that `path` is a file with `r`.
pub open spec fn tells_file<F: StoreDir>(files: &F, path: Seq<char>, r: bool) -> bool {
    exists|p: &str| p@ == path && #[trigger] call_ensures(F::is_file, (files, p), r)
}

/// `files` may answer that there is something at `path` with `r`.
pub open spec fn tells_present<F: StoreDir>(files: &F, path: Seq<char>, r: bool) -> bool {
    exists|p: &str| p@ == path && #[trigger] call_ensures(F::is_present, (files, p), r)
}

/// `files` may list `dir` as `r`.
pub open spec fn gives_list<F: StoreDir>(files: &F, dir: Seq<char>, r: Result<Vec<DirEntry>, EngineError>) -> bool {
    exists|d: &str| d@ == dir && #[trigger] call_ensures(F::list, (files, d), r)
}

/// `files` may list what can be told of `dir` as `r`.
pub open spec fn gives_readable<F: StoreDir>(files: &F, dir: Seq<char>, r: Result<Vec<DirEntry>, EngineError>) -> bool {
    exists|d: &str| d@ == dir && #[trigger] call_ensures(F::list_readable, (files, d), r)
}

/// `files` may give the manifest of `dir` as `r`.
pub open spec fn gives_manifest<F: StoreDir>(files: &F, dir: Seq<char>, r: Result<SstManifest, ReadFault>) -> bool {
    exists|d: &str| d@ == dir && #[trigger] call_ensures(F::read_manifest, (files, d), r)
}

/// `files` may answer the loading of a key with `r`.
pub open spec fn gives_crypto<F: StoreDir>(
    files: &F,
    dir: Seq<char>,
    key: Seq<u8>,
    mode: KeyMode,
    generation: Option<u64>,
    r: Result<(), EngineError>,
) -> bool {
    exists|d: &str, k: &[u8]|
        d@ == dir && k@ == key && #[trigger] call_ensures(F::load_crypto, (files, d, k, mode, generation), r)
}

/// The id that a directory name names a generation by: `gen-`, then a number.
pub open spec fn generation_of(name: Seq<char>) -> Option<u64> {
    if text::begins_with(name, "gen-"@) {
        text::parsed_u64(name.subrange(4, name.len() as int))
    } else {
        None
    }
}

/// The id that a directory name names a generation by.
pub fn generation_id(name: &str) -> (id: Option<u64>)
    ensures
        id == generation_of(name@),
{
    proof {
        reveal_strlit("gen-");
    }
    if !text::starts_with(name, "gen-") {
        return None;
    }
    let n: usize = name.unicode_len();
    text::parse_u64(name.substring_char(4, n))
}

/// The directory of a generation; generation zero lives at the root.
pub open spec fn generation_dir_name(generation: u64) -> Seq<char> {
    "gen-"@ + text::dec_text(generation as nat)
}

/// The directory of a generation is found again by its name, and by no other
/// generation's.
pub proof fn a_generation_is_found_by_its_name(generation: u64)
    ensures
        generation_of(generation_dir_name(generation)) == Some(generation),
{
    reveal_strlit("gen-");
    let name = generation_dir_name(generation);
    assert(name.subrange(0, 4) =~= "gen-"@);
    assert(name.subrange(4, name.len() as int) =~= text::dec_text(generation as nat));
    text::written_numbers_read_back(generation);
}

/// The directory of a generation.
pub fn generation_dir(generation: u64) -> (dir: String)
    ensures
        dir@ == generation_dir_name(generation),
{
    String::from_str("gen-").concat(text::dec(generation).as_str())
}

/// `name` has the extension `sst`: it ends in `.sst` and has something before
/// it.
pub open spec fn has_sst_extension(name: Seq<char>) -> bool {
    text::ends_in(name, ".sst"@) && name.len() > 4
}

/// Whether `name` has the extension `sst`.
pub fn is_sst_name(name: &str) -> (r: bool)
    ensures
        r == has_sst_extension(name@),
{
    text::ends_with(name, ".sst") && name.unicode_len() > 4
}

} // verus!
