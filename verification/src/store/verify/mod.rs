//! Auditing a store without opening it for writing.
//!
//! An audit collects what is wrong into a typed report instead of stopping at
//! the first symptom. Only a problem with the call itself is an error: no such
//! directory, no key or the wrong one.
use crate::error::EngineError;
use crate::store::files;
use crate::store::files::{generation_of, DirEntry};
use crate::store::sst_block;
use crate::store::sst_block::{joined, sst_id_of};
use crate::text;
use vstd::prelude::*;

pub mod audit;
pub mod checks;
pub mod complete_laws;
pub mod key_laws;
pub mod laws;
pub mod left_laws;
pub mod quick_laws;
pub mod settled_laws;
pub mod sound_laws;
pub mod table_laws;
pub mod whole_laws;

verus! {

/// How deep an audit goes.
#[derive(Debug, Clone, Copy, PartialEq, Eq, Structural)]
#[non_exhaustive]
pub enum VerifyMode {
    /// Metadata only: framing, checksums and cross-checks, no data block.
    Quick,
    /// `Quick`, and every data block read and held against its index entry.
    FullPhysical,
    /// `FullPhysical`, and the reserved keyspaces held against one another.
    FullLogical,
}

/// What kind of anomaly an issue is.
#[derive(Debug, Clone, Copy, PartialEq, Eq, Structural)]
#[non_exhaustive]
pub enum IssueKind {
    /// `store.meta` is unreadable or fails its checksum.
    StoreMetaCorrupt,
    /// The store was written under another format, or holds artifacts without any
    /// `store.meta`.
    StoreFormatUnsupported,
    /// The generation pointer does not decode, names generation zero, or names a
    /// directory that is not there.
    GenerationMetaCorrupt,
    /// `crypto.meta` is structurally corrupt. A wrong key is an error of the call.
    CryptoMetaCorrupt,
    /// A table header fails to decode or contradicts its file.
    SstHeaderCorrupt,
    /// A table footer fails to decode or contradicts its file.
    SstFooterCorrupt,
    /// A table block index fails to decode or contradicts its file.
    SstBlockIndexCorrupt,
    /// A table bloom filter fails to decode.
    SstBloomCorrupt,
    /// A data block fails its checksum, its framing, or its index entry.
    SstDataBlockCorrupt,
    /// A sealed section fails authentication or framing.
    SstSealedSectionCorrupt,
    /// Blocks lie outside the file or do not follow one another.
    SstBlockLayout,
    /// Keys are out of order, between blocks or within one.
    SstKeyOrder,
    /// A stored key is missing from the bloom filter.
    SstBloomFalseNegative,
    /// What the index says of a block disagrees with the block.
    SstMetadataMismatch,
    /// A whole log record is corrupt.
    WalCorrupt,
    /// The log ends in a torn record, as a crash leaves it. A warning.
    WalTornTail,
    /// A temporary file that a crash left. A warning.
    OrphanTmpFile,
    /// A file that the engine did not write. A warning.
    UnknownFile,
    /// Reading a file failed.
    Io,
    /// A reserved key does not parse against its layout.
    IdxKeyMalformed,
    /// A reserved value does not decode.
    IdxValueCorrupt,
    /// Record, reverse mapping and vector node do not belong together.
    MemoryLinkBroken,
    /// The id allocator is not above every id in use.
    AllocatorStale,
    /// A vector node lists a neighbor that does not exist.
    VectorNeighborMissing,
    /// A vector node has another dimension than the index.
    VectorDimMismatch,
    /// The vector metadata disagrees with the nodes. A warning: it is rebuilt when
    /// the index is opened.
    VectorMetaInconsistent,
    /// Postings and document terms disagree.
    FtsLinkBroken,
    /// Stored full-text statistics disagree with the recomputed ones.
    FtsStatsInconsistent,
    /// A graph edge has an endpoint without an entity. A warning.
    GraphEdgeDangling,
    /// A structure under one agent resolves to data of another.
    AgentIsolationBreach,
    /// The logical checks did not run because of physical errors.
    LogicalChecksSkipped,
    /// The manifest is unreadable or fails its checksum.
    SstManifestCorrupt,
    /// The manifest lists a table that is not on disk.
    LiveSstMissing,
    /// Anything else.
    Other,
}

/// The name of a kind.
pub open spec fn kind_name(kind: IssueKind) -> Seq<char> {
    match kind {
        IssueKind::StoreMetaCorrupt => "StoreMetaCorrupt"@,
        IssueKind::StoreFormatUnsupported => "StoreFormatUnsupported"@,
        IssueKind::GenerationMetaCorrupt => "GenerationMetaCorrupt"@,
        IssueKind::CryptoMetaCorrupt => "CryptoMetaCorrupt"@,
        IssueKind::SstHeaderCorrupt => "SstHeaderCorrupt"@,
        IssueKind::SstFooterCorrupt => "SstFooterCorrupt"@,
        IssueKind::SstBlockIndexCorrupt => "SstBlockIndexCorrupt"@,
        IssueKind::SstBloomCorrupt => "SstBloomCorrupt"@,
        IssueKind::SstDataBlockCorrupt => "SstDataBlockCorrupt"@,
        IssueKind::SstSealedSectionCorrupt => "SstSealedSectionCorrupt"@,
        IssueKind::SstBlockLayout => "SstBlockLayout"@,
        IssueKind::SstKeyOrder => "SstKeyOrder"@,
        IssueKind::SstBloomFalseNegative => "SstBloomFalseNegative"@,
        IssueKind::SstMetadataMismatch => "SstMetadataMismatch"@,
        IssueKind::WalCorrupt => "WalCorrupt"@,
        IssueKind::WalTornTail => "WalTornTail"@,
        IssueKind::OrphanTmpFile => "OrphanTmpFile"@,
        IssueKind::UnknownFile => "UnknownFile"@,
        IssueKind::Io => "Io"@,
        IssueKind::IdxKeyMalformed => "IdxKeyMalformed"@,
        IssueKind::IdxValueCorrupt => "IdxValueCorrupt"@,
        IssueKind::MemoryLinkBroken => "MemoryLinkBroken"@,
        IssueKind::AllocatorStale => "AllocatorStale"@,
        IssueKind::VectorNeighborMissing => "VectorNeighborMissing"@,
        IssueKind::VectorDimMismatch => "VectorDimMismatch"@,
        IssueKind::VectorMetaInconsistent => "VectorMetaInconsistent"@,
        IssueKind::FtsLinkBroken => "FtsLinkBroken"@,
        IssueKind::FtsStatsInconsistent => "FtsStatsInconsistent"@,
        IssueKind::GraphEdgeDangling => "GraphEdgeDangling"@,
        IssueKind::AgentIsolationBreach => "AgentIsolationBreach"@,
        IssueKind::LogicalChecksSkipped => "LogicalChecksSkipped"@,
        IssueKind::SstManifestCorrupt => "SstManifestCorrupt"@,
        IssueKind::LiveSstMissing => "LiveSstMissing"@,
        IssueKind::Other => "Other"@,
    }
}

impl IssueKind {
    /// The name of the kind.
    pub fn name(&self) -> (s: &'static str)
        ensures
            s@ == kind_name(*self),
    {
        match self {
            IssueKind::StoreMetaCorrupt => "StoreMetaCorrupt",
            IssueKind::StoreFormatUnsupported => "StoreFormatUnsupported",
            IssueKind::GenerationMetaCorrupt => "GenerationMetaCorrupt",
            IssueKind::CryptoMetaCorrupt => "CryptoMetaCorrupt",
            IssueKind::SstHeaderCorrupt => "SstHeaderCorrupt",
            IssueKind::SstFooterCorrupt => "SstFooterCorrupt",
            IssueKind::SstBlockIndexCorrupt => "SstBlockIndexCorrupt",
            IssueKind::SstBloomCorrupt => "SstBloomCorrupt",
            IssueKind::SstDataBlockCorrupt => "SstDataBlockCorrupt",
            IssueKind::SstSealedSectionCorrupt => "SstSealedSectionCorrupt",
            IssueKind::SstBlockLayout => "SstBlockLayout",
            IssueKind::SstKeyOrder => "SstKeyOrder",
            IssueKind::SstBloomFalseNegative => "SstBloomFalseNegative",
            IssueKind::SstMetadataMismatch => "SstMetadataMismatch",
            IssueKind::WalCorrupt => "WalCorrupt",
            IssueKind::WalTornTail => "WalTornTail",
            IssueKind::OrphanTmpFile => "OrphanTmpFile",
            IssueKind::UnknownFile => "UnknownFile",
            IssueKind::Io => "Io",
            IssueKind::IdxKeyMalformed => "IdxKeyMalformed",
            IssueKind::IdxValueCorrupt => "IdxValueCorrupt",
            IssueKind::MemoryLinkBroken => "MemoryLinkBroken",
            IssueKind::AllocatorStale => "AllocatorStale",
            IssueKind::VectorNeighborMissing => "VectorNeighborMissing",
            IssueKind::VectorDimMismatch => "VectorDimMismatch",
            IssueKind::VectorMetaInconsistent => "VectorMetaInconsistent",
            IssueKind::FtsLinkBroken => "FtsLinkBroken",
            IssueKind::FtsStatsInconsistent => "FtsStatsInconsistent",
            IssueKind::GraphEdgeDangling => "GraphEdgeDangling",
            IssueKind::AgentIsolationBreach => "AgentIsolationBreach",
            IssueKind::LogicalChecksSkipped => "LogicalChecksSkipped",
            IssueKind::SstManifestCorrupt => "SstManifestCorrupt",
            IssueKind::LiveSstMissing => "LiveSstMissing",
            IssueKind::Other => "Other",
        }
    }
}

/// One anomaly: its kind, where it was found, and the diagnosis.
#[derive(Debug)]
pub struct IntegrityIssue {
    pub kind: IssueKind,
    pub path: String,
    pub detail: String,
}

/// What an issue says.
pub struct Finding {
    pub kind: IssueKind,
    pub path: Seq<char>,
    pub detail: Seq<char>,
}

impl IntegrityIssue {
    /// What the issue says.
    pub open spec fn finding(&self) -> Finding {
        Finding { kind: self.kind, path: self.path@, detail: self.detail@ }
    }

    /// The issue on one line.
    pub fn message(&self) -> (s: String)
        ensures
            s@ == "["@ + kind_name(self.kind) + "] "@ + self.path@ + ": "@ + self.detail@,
    {
        String::from_str("[").concat(self.kind.name()).concat("] ").concat(self.path.as_str()).concat(": ").concat(
            self.detail.as_str(),
        )
    }

    /// An owned copy.
    pub fn copy(&self) -> (issue: IntegrityIssue)
        ensures
            issue.finding() == self.finding(),
    {
        IntegrityIssue { kind: self.kind, path: self.path.clone(), detail: self.detail.clone() }
    }
}

/// What issues say, in order.
pub open spec fn findings(issues: Seq<IntegrityIssue>) -> Seq<Finding> {
    Seq::new(issues.len(), |i: int| issues[i].finding())
}

/// One anomaly of `kind` in `path`.
pub open spec fn issue(kind: IssueKind, path: Seq<char>, detail: Seq<char>) -> Finding {
    Finding { kind, path, detail }
}

/// What each of the first `n` of something adds, one after the other.
pub open spec fn flat(n: nat, f: spec_fn(int) -> Seq<Finding>) -> Seq<Finding>
    decreases n,
{
    if n == 0 {
        Seq::empty()
    } else {
        flat((n - 1) as nat, f) + f(n - 1)
    }
}

/// A finding, if there is one.
pub open spec fn found_if(there: bool, finding: Finding) -> Seq<Finding> {
    if there {
        seq![finding]
    } else {
        Seq::empty()
    }
}

/// The outcome of an audit.
#[derive(Debug)]
pub struct VerifyReport {
    /// Whether there are no errors; warnings do not count.
    pub healthy: bool,
    /// Files examined.
    pub files_checked: u64,
    /// Data blocks read; none in a quick audit.
    pub blocks_checked: u64,
    /// Log operations and table rows seen.
    pub records_checked: u64,
    pub errors: Vec<IntegrityIssue>,
    pub warnings: Vec<IntegrityIssue>,
}

/// What a report says so far.
pub struct Tally {
    pub files: u64,
    pub blocks: u64,
    pub records: u64,
    pub errors: Seq<Finding>,
    pub warnings: Seq<Finding>,
}

impl Tally {
    /// One more error.
    pub open spec fn with_error(self, kind: IssueKind, path: Seq<char>, detail: Seq<char>) -> Tally {
        Tally { errors: self.errors.push(issue(kind, path, detail)), ..self }
    }

    /// One more warning.
    pub open spec fn with_warning(self, kind: IssueKind, path: Seq<char>, detail: Seq<char>) -> Tally {
        Tally { warnings: self.warnings.push(issue(kind, path, detail)), ..self }
    }

    /// More of both.
    pub open spec fn with(self, errors: Seq<Finding>, warnings: Seq<Finding>) -> Tally {
        Tally { errors: self.errors + errors, warnings: self.warnings + warnings, ..self }
    }

    /// One more file.
    pub open spec fn with_file(self) -> Tally {
        Tally { files: self.files.wrapping_add(1), ..self }
    }

    /// One more block, of `rows` rows.
    pub open spec fn with_block(self, rows: nat) -> Tally {
        Tally { blocks: self.blocks.wrapping_add(1), ..self.with_records(rows) }
    }

    /// More records.
    pub open spec fn with_records(self, records: nat) -> Tally {
        Tally { records: self.records.wrapping_add(records as u64), ..self }
    }
}

/// The tally of an audit that has not begun.
pub open spec fn no_tally() -> Tally {
    Tally { files: 0, blocks: 0, records: 0, errors: Seq::empty(), warnings: Seq::empty() }
}

impl VerifyReport {
    /// What the report says.
    pub open spec fn tally(&self) -> Tally {
        Tally {
            files: self.files_checked,
            blocks: self.blocks_checked,
            records: self.records_checked,
            errors: findings(self.errors@),
            warnings: findings(self.warnings@),
        }
    }

    /// The report says `tally`, and is closed.
    pub open spec fn closes(&self, tally: Tally) -> bool {
        self.tally() == tally && self.healthy == (tally.errors.len() == 0)
    }

    /// A report that says nothing yet.
    pub fn new() -> (report: VerifyReport)
        ensures
            report.tally() == no_tally(),
            !report.healthy,
    {
        let report = VerifyReport {
            healthy: false,
            files_checked: 0,
            blocks_checked: 0,
            records_checked: 0,
            errors: Vec::new(),
            warnings: Vec::new(),
        };
        assert(report.tally().errors =~= no_tally().errors);
        assert(report.tally().warnings =~= no_tally().warnings);
        report
    }

    pub(crate) fn error(&mut self, kind: IssueKind, path: &str, detail: String)
        ensures
            final(self).tally() == old(self).tally().with_error(kind, path@, detail@),
            final(self).healthy == old(self).healthy,
    {
        self.errors.push(IntegrityIssue { kind, path: String::from_str(path), detail });
        assert(self.tally().errors =~= old(self).tally().errors.push(issue(kind, path@, detail@)));
    }

    pub(crate) fn warning(&mut self, kind: IssueKind, path: &str, detail: String)
        ensures
            final(self).tally() == old(self).tally().with_warning(kind, path@, detail@),
            final(self).healthy == old(self).healthy,
    {
        self.warnings.push(IntegrityIssue { kind, path: String::from_str(path), detail });
        assert(self.tally().warnings =~= old(self).tally().warnings.push(issue(kind, path@, detail@)));
    }

    pub(crate) fn count_file(&mut self)
        ensures
            final(self).tally() == old(self).tally().with_file(),
            final(self).healthy == old(self).healthy,
    {
        self.files_checked = self.files_checked.wrapping_add(1);
    }

    pub(crate) fn count_records(&mut self, n: usize)
        ensures
            final(self).tally() == old(self).tally().with_records(n as nat),
            final(self).healthy == old(self).healthy,
    {
        self.records_checked = self.records_checked.wrapping_add(n as u64);
    }

    pub(crate) fn count_block(&mut self, rows: usize)
        ensures
            final(self).tally() == old(self).tally().with_block(rows as nat),
            final(self).healthy == old(self).healthy,
    {
        self.blocks_checked = self.blocks_checked.wrapping_add(1);
        self.records_checked = self.records_checked.wrapping_add(rows as u64);
    }

    /// Closes the report.
    pub(crate) fn finalize(self) -> (report: VerifyReport)
        ensures
            report.closes(self.tally()),
    {
        let mut report = self;
        report.healthy = report.errors.len() == 0;
        report
    }
}

/// The kind of anomaly that an error met while reading a table diagnoses.
pub open spec fn table_error_kind(e: EngineError) -> IssueKind {
    if e is CorruptSstHeader || e is UnsupportedSstHeaderVersion {
        IssueKind::SstHeaderCorrupt
    } else if e is CorruptSstFooter || e is UnsupportedSstFooterVersion {
        IssueKind::SstFooterCorrupt
    } else if e is CorruptSstBlockIndex || e is UnsupportedSstBlockIndexVersion {
        IssueKind::SstBlockIndexCorrupt
    } else if e is CorruptSstBloomFilter || e is UnsupportedSstBloomFilterVersion {
        IssueKind::SstBloomCorrupt
    } else if e is CorruptSstDataBlock || e is UnsupportedSstDataBlockVersion {
        IssueKind::SstDataBlockCorrupt
    } else if e is CorruptEncryptedSstBlock || e is UnsupportedEncryptedSstBlockVersion {
        IssueKind::SstSealedSectionCorrupt
    } else if e is Io {
        IssueKind::Io
    } else {
        IssueKind::Other
    }
}

/// The kind of anomaly that an error met while reading a table diagnoses.
pub fn sst_error_kind(e: &EngineError) -> (kind: IssueKind)
    ensures
        kind == table_error_kind(*e),
{
    match e {
        EngineError::CorruptSstHeader { .. } => IssueKind::SstHeaderCorrupt,
        EngineError::UnsupportedSstHeaderVersion { .. } => IssueKind::SstHeaderCorrupt,
        EngineError::CorruptSstFooter { .. } => IssueKind::SstFooterCorrupt,
        EngineError::UnsupportedSstFooterVersion { .. } => IssueKind::SstFooterCorrupt,
        EngineError::CorruptSstBlockIndex { .. } => IssueKind::SstBlockIndexCorrupt,
        EngineError::UnsupportedSstBlockIndexVersion { .. } => IssueKind::SstBlockIndexCorrupt,
        EngineError::CorruptSstBloomFilter { .. } => IssueKind::SstBloomCorrupt,
        EngineError::UnsupportedSstBloomFilterVersion { .. } => IssueKind::SstBloomCorrupt,
        EngineError::CorruptSstDataBlock { .. } => IssueKind::SstDataBlockCorrupt,
        EngineError::UnsupportedSstDataBlockVersion { .. } => IssueKind::SstDataBlockCorrupt,
        EngineError::CorruptEncryptedSstBlock { .. } => IssueKind::SstSealedSectionCorrupt,
        EngineError::UnsupportedEncryptedSstBlockVersion { .. } => IssueKind::SstSealedSectionCorrupt,
        EngineError::Io { .. } => IssueKind::Io,
        _ => IssueKind::Other,
    }
}

/// What an entry of a store directory is.
#[derive(Debug, Clone, Copy, PartialEq, Eq, Structural)]
pub enum FileKind {
    GenerationDir,
    OtherDir,
    StoreMeta,
    GenerationMeta,
    CryptoMeta,
    Wal,
    /// The lock, the manifest, or the log's epoch: the engine's own, and looked
    /// at elsewhere.
    Owned,
    Temporary,
    Sst(u64),
    Unknown,
}

/// What an entry of a store directory is, by its name.
pub open spec fn kind_of(name: Seq<char>, is_dir: bool) -> FileKind {
    if is_dir {
        if generation_of(name) is Some {
            FileKind::GenerationDir
        } else {
            FileKind::OtherDir
        }
    } else if name == "store.meta"@ {
        FileKind::StoreMeta
    } else if name == "generation.meta"@ {
        FileKind::GenerationMeta
    } else if name == "crypto.meta"@ {
        FileKind::CryptoMeta
    } else if name == "wal.log"@ {
        FileKind::Wal
    } else if name == ".basemyai.lock"@ || name == "manifest.meta"@ || name == "wal_epoch.meta"@ {
        FileKind::Owned
    } else if text::ends_in(name, ".tmp"@) {
        FileKind::Temporary
    } else {
        match sst_id_of(name) {
            Some(id) => FileKind::Sst(id),
            None => FileKind::Unknown,
        }
    }
}

/// What an entry of a store directory is.
pub fn classify(entry: &DirEntry) -> (kind: FileKind)
    ensures
        kind == kind_of(entry.name@, entry.is_dir),
{
    let name: &str = entry.name.as_str();
    if entry.is_dir {
        if files::generation_id(name).is_some() {
            FileKind::GenerationDir
        } else {
            FileKind::OtherDir
        }
    } else if text::same(name, "store.meta") {
        FileKind::StoreMeta
    } else if text::same(name, "generation.meta") {
        FileKind::GenerationMeta
    } else if text::same(name, "crypto.meta") {
        FileKind::CryptoMeta
    } else if text::same(name, "wal.log") {
        FileKind::Wal
    } else if text::same(name, ".basemyai.lock") || text::same(name, "manifest.meta") || text::same(
        name,
        "wal_epoch.meta",
    ) {
        FileKind::Owned
    } else if text::ends_with(name, ".tmp") {
        FileKind::Temporary
    } else {
        match sst_block::sst_id(name) {
            Some(id) => FileKind::Sst(id),
            None => FileKind::Unknown,
        }
    }
}

/// A table on disk.
#[derive(Debug)]
pub struct SstEntry {
    pub id: u64,
    pub path: String,
    pub len: u64,
}

/// A table on disk: its id, its path, its length.
pub struct Listed {
    pub id: u64,
    pub path: Seq<char>,
    pub len: u64,
}

impl SstEntry {
    /// What the entry says.
    pub open spec fn listed(&self) -> Listed {
        Listed { id: self.id, path: self.path@, len: self.len }
    }
}

/// What a directory holds, its entries told apart.
#[derive(Debug)]
pub struct Inventory {
    pub store_meta: bool,
    pub generation_meta: bool,
    pub generation_dirs: bool,
    pub crypto_meta: bool,
    pub wal: bool,
    /// Tables, lowest id first.
    pub ssts: Vec<SstEntry>,
}

/// Some entry is of a kind.
pub open spec fn holds_kind(entries: Seq<DirEntry>, kind: FileKind) -> bool {
    exists|i: int| 0 <= i < entries.len() && #[trigger] kind_of(entries[i].name@, entries[i].is_dir) == kind
}

/// Tables with one more among them, by id, after those of the same id.
pub open spec fn with_table(tables: Seq<Listed>, table: Listed) -> Seq<Listed>
    decreases tables.len(),
{
    if tables.len() == 0 || tables.last().id <= table.id {
        tables.push(table)
    } else {
        with_table(tables.drop_last(), table).push(tables.last())
    }
}

/// The tables that entries of `dir` name, lowest id first.
pub open spec fn tables_in(dir: Seq<char>, entries: Seq<DirEntry>) -> Seq<Listed>
    decreases entries.len(),
{
    if entries.len() == 0 {
        Seq::empty()
    } else {
        let rest = tables_in(dir, entries.drop_last());
        match kind_of(entries.last().name@, entries.last().is_dir) {
            FileKind::Sst(id) => with_table(
                rest,
                Listed { id, path: joined(dir, entries.last().name@), len: entries.last().len },
            ),
            _ => rest,
        }
    }
}

/// What an inventory has to say against entries of `dir`.
pub open spec fn strays_in(dir: Seq<char>, entries: Seq<DirEntry>) -> Seq<Finding>
    decreases entries.len(),
{
    if entries.len() == 0 {
        Seq::empty()
    } else {
        let rest = strays_in(dir, entries.drop_last());
        let path = joined(dir, entries.last().name@);
        match kind_of(entries.last().name@, entries.last().is_dir) {
            FileKind::OtherDir => rest.push(
                issue(IssueKind::UnknownFile, path, "unexpected subdirectory in a store"@),
            ),
            FileKind::Temporary => rest.push(
                issue(
                    IssueKind::OrphanTmpFile,
                    path,
                    "orphan left by a crash between write and rename — ignored by the engine, safe to reclaim"@,
                ),
            ),
            FileKind::Unknown => rest.push(
                issue(IssueKind::UnknownFile, path, "file the engine did not write and does not recognize"@),
            ),
            _ => rest,
        }
    }
}

/// What entries of tables say, in order.
pub open spec fn table_list(ssts: Seq<SstEntry>) -> Seq<Listed> {
    Seq::new(ssts.len(), |i: int| ssts[i].listed())
}

impl Inventory {
    /// The inventory of `entries` of `dir`.
    pub open spec fn lists(&self, dir: Seq<char>, entries: Seq<DirEntry>) -> bool {
        &&& self.store_meta == holds_kind(entries, FileKind::StoreMeta)
        &&& self.generation_meta == holds_kind(entries, FileKind::GenerationMeta)
        &&& self.generation_dirs == holds_kind(entries, FileKind::GenerationDir)
        &&& self.crypto_meta == holds_kind(entries, FileKind::CryptoMeta)
        &&& self.wal == holds_kind(entries, FileKind::Wal)
        &&& table_list(self.ssts@) == tables_in(dir, entries)
    }
}

proof fn lemma_holds_kind(entries: Seq<DirEntry>, i: int, kind: FileKind)
    requires
        0 <= i < entries.len(),
    ensures
        holds_kind(entries.subrange(0, i + 1), kind) == (holds_kind(entries.subrange(0, i), kind) || kind_of(
            entries[i].name@,
            entries[i].is_dir,
        ) == kind),
{
    let head = entries.subrange(0, i);
    let more = entries.subrange(0, i + 1);
    if holds_kind(more, kind) {
        let k = choose|k: int| 0 <= k < more.len() && #[trigger] kind_of(more[k].name@, more[k].is_dir) == kind;
        if k < i {
            assert(kind_of(head[k].name@, head[k].is_dir) == kind);
        }
    }
    if holds_kind(head, kind) {
        let k = choose|k: int| 0 <= k < head.len() && #[trigger] kind_of(head[k].name@, head[k].is_dir) == kind;
        assert(kind_of(more[k].name@, more[k].is_dir) == kind);
    }
    if kind_of(entries[i].name@, entries[i].is_dir) == kind {
        assert(kind_of(more[i].name@, more[i].is_dir) == kind);
    }
}

/// Puts a table among others, by id.
pub fn put_table(ssts: &mut Vec<SstEntry>, entry: SstEntry)
    ensures
        table_list(final(ssts)@) == with_table(table_list(old(ssts)@), entry.listed()),
    decreases old(ssts)@.len(),
{
    let n: usize = ssts.len();
    let ghost view = table_list(ssts@);
    let ghost table = entry.listed();
    if n == 0 || ssts[n - 1].id <= entry.id {
        ssts.push(entry);
        assert(table_list(ssts@) =~= view.push(table));
    } else {
        match ssts.pop() {
            None => {},
            Some(last) => {
                assert(table_list(ssts@) =~= view.drop_last());
                let ghost top = last.listed();
                put_table(ssts, entry);
                let ghost rest = table_list(ssts@);
                ssts.push(last);
                assert(table_list(ssts@) =~= rest.push(top));
            },
        }
    }
}

/// Tells the entries of `dir` apart in one pass, and warns of the strays.
pub fn inventory(dir: &str, entries: &Vec<DirEntry>, report: &mut VerifyReport) -> (inv: Inventory)
    ensures
        inv.lists(dir@, entries@),
        final(report).tally() == old(report).tally().with(Seq::empty(), strays_in(dir@, entries@)),
{
    let mut inv = Inventory {
        store_meta: false,
        generation_meta: false,
        generation_dirs: false,
        crypto_meta: false,
        wal: false,
        ssts: Vec::new(),
    };
    let mut i: usize = 0;
    let ghost start = report.tally();
    proof {
        assert(entries@.subrange(0, 0) =~= Seq::<DirEntry>::empty());
        assert(table_list(inv.ssts@) =~= Seq::<Listed>::empty());
        assert(start.warnings + Seq::<Finding>::empty() =~= start.warnings);
        assert(start.errors + Seq::<Finding>::empty() =~= start.errors);
    }
    while i < entries.len()
        invariant
            i <= entries@.len(),
            inv.lists(dir@, entries@.subrange(0, i as int)),
            report.tally() == start.with(Seq::empty(), strays_in(dir@, entries@.subrange(0, i as int))),
        decreases entries@.len() - i,
    {
        let ghost more = entries@.subrange(0, i + 1);
        let ghost strays = strays_in(dir@, entries@.subrange(0, i as int));
        proof {
            assert(more.drop_last() =~= entries@.subrange(0, i as int));
            assert(more.last() == entries@[i as int]);
            lemma_holds_kind(entries@, i as int, FileKind::StoreMeta);
            lemma_holds_kind(entries@, i as int, FileKind::GenerationMeta);
            lemma_holds_kind(entries@, i as int, FileKind::GenerationDir);
            lemma_holds_kind(entries@, i as int, FileKind::CryptoMeta);
            lemma_holds_kind(entries@, i as int, FileKind::Wal);
        }
        let path = sst_block::join(dir, entries[i].name.as_str());
        match classify(&entries[i]) {
            FileKind::GenerationDir => {
                inv.generation_dirs = true;
            },
            FileKind::OtherDir => {
                report.warning(
                    IssueKind::UnknownFile,
                    path.as_str(),
                    String::from_str("unexpected subdirectory in a store"),
                );
            },
            FileKind::StoreMeta => {
                inv.store_meta = true;
            },
            FileKind::GenerationMeta => {
                inv.generation_meta = true;
            },
            FileKind::CryptoMeta => {
                inv.crypto_meta = true;
            },
            FileKind::Wal => {
                inv.wal = true;
            },
            FileKind::Owned => {},
            FileKind::Temporary => {
                report.warning(
                    IssueKind::OrphanTmpFile,
                    path.as_str(),
                    String::from_str(
                        "orphan left by a crash between write and rename — ignored by the engine, safe to reclaim",
                    ),
                );
            },
            FileKind::Sst(id) => {
                put_table(&mut inv.ssts, SstEntry { id, path, len: entries[i].len });
            },
            FileKind::Unknown => {
                report.warning(
                    IssueKind::UnknownFile,
                    path.as_str(),
                    String::from_str("file the engine did not write and does not recognize"),
                );
            },
        }
        proof {
            assert(report.tally().warnings =~= start.warnings + strays_in(dir@, more));
        }
        i = i + 1;
    }
    assert(entries@.subrange(0, i as int) =~= entries@);
    inv
}

} // verus!
