//! The typed errors of the engine.
use crate::text;
use crate::text::dec_text;
use vstd::prelude::*;

verus! {

/// Why an operation on a store failed. Paths are relative to the store root.
#[derive(Debug)]
pub enum EngineError {
    /// Reading or writing failed underneath the engine.
    Io { path: String, reason: String },
    /// A graph-key field is longer than its 32-bit length prefix can say.
    GraphKeyTooLong { field: &'static str, len: usize },
    /// A memory-key field is longer than its 32-bit length prefix can say.
    MemoryKeyTooLong { field: &'static str, len: usize },
    /// A whole-file table is not authentic or does not decode.
    CorruptSst { path: String, reason: String },
    CorruptSstHeader { path: String, reason: String },
    UnsupportedSstHeaderVersion { path: String, reason: String },
    CorruptSstFooter { path: String, reason: String },
    UnsupportedSstFooterVersion { path: String, reason: String },
    CorruptSstBlockIndex { path: String, reason: String },
    UnsupportedSstBlockIndexVersion { path: String, reason: String },
    CorruptSstBloomFilter { path: String, reason: String },
    UnsupportedSstBloomFilterVersion { path: String, reason: String },
    CorruptSstDataBlock { path: String, reason: String },
    UnsupportedSstDataBlockVersion { path: String, reason: String },
    /// A sealed section failed authentication or cannot be unframed.
    CorruptEncryptedSstBlock { path: String, reason: String },
    UnsupportedEncryptedSstBlockVersion { path: String, reason: String },
    CorruptWal { path: String, reason: String },
    CorruptStoreMeta { path: String, reason: String },
    CorruptCryptoMeta { path: String, reason: String },
    CorruptGenerationMeta { path: String, reason: String },
    CorruptSstManifest { path: String, reason: String },
    /// The store is encrypted and no key was supplied.
    MissingEncryptionKey { path: String },
    /// The supplied key does not unwrap the store's data key.
    WrongEncryptionKey { path: String },
    /// A key was supplied for a store that already holds plaintext.
    PlaintextStoreKeySupplied { path: String },
    /// A key rotation was asked of a plaintext store.
    NotEncrypted { path: String },
    /// Another process holds the store.
    StoreLocked { path: String },
    /// The store was written under another format; `found` is 0 where no
    /// version was ever recorded.
    UnsupportedStoreFormat { path: String, expected: u32, found: u32 },
    /// One record was written under another version.
    UnsupportedFormatVersion { path: String, expected: u32, found: u32 },
    /// The manifest lists an SST that is not on disk.
    MissingLiveSst { id: u64, path: String },
    /// A version edit deletes an SST that is not live.
    VersionEditMissingInput { id: u64 },
    /// A memory record or its key does not decode.
    CorruptMemoryRecord { reason: String },
    /// A vector node does not decode.
    CorruptVectorNode { reason: String },
}

/// `what`, where, and why.
pub open spec fn at_path(what: Seq<char>, path: Seq<char>, reason: Seq<char>) -> Seq<char> {
    what + " at "@ + path + ": "@ + reason
}

/// The version that was expected and the one that was found.
pub open spec fn versions(expected: u32, found: u32) -> Seq<char> {
    "expected "@ + dec_text(expected as nat) + ", found "@ + dec_text(found as nat)
}

fn located(what: &str, path: &str, reason: &str) -> (s: String)
    ensures
        s@ == at_path(what@, path@, reason@),
{
    String::from_str(what).concat(" at ").concat(path).concat(": ").concat(reason)
}

fn version_text(expected: u32, found: u32) -> (s: String)
    ensures
        s@ == versions(expected, found),
{
    String::from_str("expected ").concat(text::dec(expected as u64).as_str()).concat(", found ").concat(
        text::dec(found as u64).as_str(),
    )
}

impl EngineError {
    /// The error in words.
    pub open spec fn text(&self) -> Seq<char> {
        match self {
            EngineError::CorruptSst { path, reason } => at_path("corrupt table"@, path@, reason@),
            EngineError::CorruptSstHeader { path, reason } => at_path("corrupt table header"@, path@, reason@),
            EngineError::UnsupportedSstHeaderVersion { path, reason } =>
                at_path("unsupported table header version"@, path@, reason@),
            EngineError::CorruptSstFooter { path, reason } => at_path("corrupt table footer"@, path@, reason@),
            EngineError::UnsupportedSstFooterVersion { path, reason } =>
                at_path("unsupported table footer version"@, path@, reason@),
            EngineError::CorruptSstBlockIndex { path, reason } => at_path("corrupt table block index"@, path@, reason@),
            EngineError::UnsupportedSstBlockIndexVersion { path, reason } =>
                at_path("unsupported table block index version"@, path@, reason@),
            EngineError::CorruptSstBloomFilter { path, reason } =>
                at_path("corrupt table bloom filter"@, path@, reason@),
            EngineError::UnsupportedSstBloomFilterVersion { path, reason } =>
                at_path("unsupported table bloom filter version"@, path@, reason@),
            EngineError::CorruptSstDataBlock { path, reason } => at_path("corrupt table data block"@, path@, reason@),
            EngineError::UnsupportedSstDataBlockVersion { path, reason } =>
                at_path("unsupported table data block version"@, path@, reason@),
            EngineError::CorruptEncryptedSstBlock { path, reason } =>
                at_path("corrupt sealed table section"@, path@, reason@),
            EngineError::UnsupportedEncryptedSstBlockVersion { path, reason } =>
                at_path("unsupported sealed table section version"@, path@, reason@),
            EngineError::CorruptWal { path, reason } => at_path("corrupt log"@, path@, reason@),
            EngineError::CorruptStoreMeta { path, reason } => at_path("corrupt store metadata"@, path@, reason@),
            EngineError::CorruptCryptoMeta { path, reason } => at_path("corrupt encryption metadata"@, path@, reason@),
            EngineError::CorruptGenerationMeta { path, reason } =>
                at_path("corrupt generation pointer"@, path@, reason@),
            EngineError::CorruptSstManifest { path, reason } => at_path("corrupt manifest"@, path@, reason@),
            EngineError::Io { path, reason } => at_path("input/output failed"@, path@, reason@),
            EngineError::MissingEncryptionKey { path } => path@ + ": the store is encrypted and no key was supplied"@,
            EngineError::WrongEncryptionKey { path } => path@ + ": the key does not open the store"@,
            EngineError::PlaintextStoreKeySupplied { path } => path@ + ": a key was supplied for a plaintext store"@,
            EngineError::NotEncrypted { path } => path@ + ": the store is not encrypted"@,
            EngineError::StoreLocked { path } => path@ + ": the store is held by another process"@,
            EngineError::UnsupportedStoreFormat { path, expected, found } =>
                at_path("unsupported store format"@, path@, versions(*expected, *found)),
            EngineError::UnsupportedFormatVersion { path, expected, found } =>
                at_path("unsupported record version"@, path@, versions(*expected, *found)),
            EngineError::CorruptMemoryRecord { reason } => "corrupt memory record: "@ + reason@,
            EngineError::CorruptVectorNode { reason } => "corrupt vector node: "@ + reason@,
            EngineError::GraphKeyTooLong { field, len } =>
                "graph key field "@ + field@ + " of "@ + dec_text(*len as nat) + " bytes is too long"@,
            EngineError::MemoryKeyTooLong { field, len } =>
                "memory key field "@ + field@ + " of "@ + dec_text(*len as nat) + " bytes is too long"@,
            EngineError::MissingLiveSst { id, path } =>
                path@ + ": live table "@ + dec_text(*id as nat) + " is not on disk"@,
            EngineError::VersionEditMissingInput { id } =>
                "version edit deletes table "@ + dec_text(*id as nat) + ", which is not live"@,
        }
    }

    /// The error in words.
    pub fn message(&self) -> (s: String)
        ensures
            s@ == self.text(),
    {
        match self {
            EngineError::CorruptSst { path, reason } => located("corrupt table", path.as_str(), reason.as_str()),
            EngineError::CorruptSstHeader { path, reason } =>
                located("corrupt table header", path.as_str(), reason.as_str()),
            EngineError::UnsupportedSstHeaderVersion { path, reason } =>
                located("unsupported table header version", path.as_str(), reason.as_str()),
            EngineError::CorruptSstFooter { path, reason } =>
                located("corrupt table footer", path.as_str(), reason.as_str()),
            EngineError::UnsupportedSstFooterVersion { path, reason } =>
                located("unsupported table footer version", path.as_str(), reason.as_str()),
            EngineError::CorruptSstBlockIndex { path, reason } =>
                located("corrupt table block index", path.as_str(), reason.as_str()),
            EngineError::UnsupportedSstBlockIndexVersion { path, reason } =>
                located("unsupported table block index version", path.as_str(), reason.as_str()),
            EngineError::CorruptSstBloomFilter { path, reason } =>
                located("corrupt table bloom filter", path.as_str(), reason.as_str()),
            EngineError::UnsupportedSstBloomFilterVersion { path, reason } =>
                located("unsupported table bloom filter version", path.as_str(), reason.as_str()),
            EngineError::CorruptSstDataBlock { path, reason } =>
                located("corrupt table data block", path.as_str(), reason.as_str()),
            EngineError::UnsupportedSstDataBlockVersion { path, reason } =>
                located("unsupported table data block version", path.as_str(), reason.as_str()),
            EngineError::CorruptEncryptedSstBlock { path, reason } =>
                located("corrupt sealed table section", path.as_str(), reason.as_str()),
            EngineError::UnsupportedEncryptedSstBlockVersion { path, reason } =>
                located("unsupported sealed table section version", path.as_str(), reason.as_str()),
            EngineError::CorruptWal { path, reason } => located("corrupt log", path.as_str(), reason.as_str()),
            EngineError::CorruptStoreMeta { path, reason } =>
                located("corrupt store metadata", path.as_str(), reason.as_str()),
            EngineError::CorruptCryptoMeta { path, reason } =>
                located("corrupt encryption metadata", path.as_str(), reason.as_str()),
            EngineError::CorruptGenerationMeta { path, reason } =>
                located("corrupt generation pointer", path.as_str(), reason.as_str()),
            EngineError::CorruptSstManifest { path, reason } =>
                located("corrupt manifest", path.as_str(), reason.as_str()),
            EngineError::Io { path, reason } => located("input/output failed", path.as_str(), reason.as_str()),
            EngineError::MissingEncryptionKey { path } =>
                String::from_str(path.as_str()).concat(": the store is encrypted and no key was supplied"),
            EngineError::WrongEncryptionKey { path } =>
                String::from_str(path.as_str()).concat(": the key does not open the store"),
            EngineError::PlaintextStoreKeySupplied { path } =>
                String::from_str(path.as_str()).concat(": a key was supplied for a plaintext store"),
            EngineError::NotEncrypted { path } =>
                String::from_str(path.as_str()).concat(": the store is not encrypted"),
            EngineError::StoreLocked { path } =>
                String::from_str(path.as_str()).concat(": the store is held by another process"),
            EngineError::UnsupportedStoreFormat { path, expected, found } =>
                located("unsupported store format", path.as_str(), version_text(*expected, *found).as_str()),
            EngineError::UnsupportedFormatVersion { path, expected, found } =>
                located("unsupported record version", path.as_str(), version_text(*expected, *found).as_str()),
            EngineError::CorruptMemoryRecord { reason } =>
                String::from_str("corrupt memory record: ").concat(reason.as_str()),
            EngineError::CorruptVectorNode { reason } =>
                String::from_str("corrupt vector node: ").concat(reason.as_str()),
            EngineError::GraphKeyTooLong { field, len } =>
                String::from_str("graph key field ").concat(*field).concat(" of ")
                    .concat(text::dec(*len as u64).as_str()).concat(" bytes is too long"),
            EngineError::MemoryKeyTooLong { field, len } =>
                String::from_str("memory key field ").concat(*field).concat(" of ")
                    .concat(text::dec(*len as u64).as_str()).concat(" bytes is too long"),
            EngineError::MissingLiveSst { id, path } =>
                String::from_str(path.as_str()).concat(": live table ").concat(text::dec(*id).as_str())
                    .concat(" is not on disk"),
            EngineError::VersionEditMissingInput { id } =>
                String::from_str("version edit deletes table ").concat(text::dec(*id).as_str())
                    .concat(", which is not live"),
        }
    }
}

} // verus!
