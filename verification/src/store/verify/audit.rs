//! The audit of a whole store.
//!
//! Root first, then the active generation, the key, the log, the tables, the
//! manifest, and, where asked for, the reserved keyspaces. Each step is stated
//! for every answer that the files may give.
use super::checks::{audits_blocks, check_sst_blocks, check_sst_layout, layout_errors};
use super::{
    flat, found_if, holds_kind, inventory, issue, no_tally, sst_error_kind, strays_in, table_error_kind, table_list,
    tables_in, FileKind, Finding, Inventory, IssueKind, Listed, SstEntry, Tally, VerifyMode, VerifyReport,
};
use crate::error::EngineError;
use crate::key::Key;
use crate::store::engine::write::{apply_records, record_rows, WalRecord};
use crate::store::files;
use crate::store::files::{
    generation_dir_name, gives_crypto, gives_list, gives_manifest, tells_dir, tells_file, DirEntry, KeyMode, ReadFault,
    SstManifest, StoreAudit, StoreMeta, WalScan, STORE_FORMAT_VERSION,
};
use crate::store::layers;
use crate::store::layers::{lists, pairs_view};
use crate::store::rows::{live, put_rows, Row, RowMap, Slot};
use crate::store::sst_block;
use crate::store::sst_block::read::loads;
use crate::store::sst_block::{joined, sst_name, BlockSstFile};
use crate::store::trace::Traced;
use crate::store::verify_logical;
use crate::store::verify_logical::{checks_logic, FtsPrefixes, IndexCodec};
use crate::store::Value;
use crate::text;
use crate::text::dec_text;
use vstd::prelude::*;

verus! {

/// The audit ends with a report that says `t`.
pub open spec fn closes(r: Result<VerifyReport, EngineError>, t: Tally) -> bool {
    r matches Ok(report) && report.closes(t)
}

/// What is left to say in the end: the logical checks, over the live entries
/// of the tables and the log, unless physical errors make them worthless.
pub open spec fn ends<F: StoreAudit + IndexCodec>(
    files: &F,
    prefixes: FtsPrefixes,
    mode: VerifyMode,
    dir: Seq<char>,
    kv: Map<Seq<u8>, Slot>,
    log: Seq<Row>,
    t: Tally,
    r: Result<VerifyReport, EngineError>,
) -> bool {
    if mode != VerifyMode::FullLogical {
        closes(r, t)
    } else if t.errors.len() > 0 {
        closes(
            r,
            t.with_warning(
                IssueKind::LogicalChecksSkipped,
                dir,
                "logical checks skipped: physical errors above make the merged key-value view untrustworthy — repair the physical layer first, then re-verify"@,
            ),
        )
    } else {
        exists|entries: Vec<(Key, Value)>, u: Tally|
            {
                &&& lists(pairs_view(entries@), live(put_rows(kv, log)))
                &&& #[trigger] checks_logic(files, prefixes, entries@, dir, t, u)
                &&& closes(r, u)
            }
    }
}

fn end_audit<F: StoreAudit + IndexCodec>(
    files: &F,
    prefixes: &FtsPrefixes,
    mode: VerifyMode,
    dir: &str,
    kv: RowMap,
    log: &Vec<WalRecord>,
    report: VerifyReport,
) -> (r: Result<VerifyReport, EngineError>)
    requires
        kv.wf(),
    ensures
        ends(files, *prefixes, mode, dir@, kv@, record_rows(log@), report.tally(), r),
{
    let mut report = report;
    let mut kv = kv;
    let ghost start = report.tally();
    if mode != VerifyMode::FullLogical {
        return Ok(report.finalize());
    }
    if report.errors.len() > 0 {
        report.warning(
            IssueKind::LogicalChecksSkipped,
            dir,
            String::from_str(
                "logical checks skipped: physical errors above make the merged key-value view untrustworthy — repair the physical layer first, then re-verify",
            ),
        );
        return Ok(report.finalize());
    }
    apply_records(&mut kv, log);
    let entries = layers::collect_live(&kv);
    verify_logical::check_logical(files, prefixes, &entries, dir, &mut report);
    assert(checks_logic(files, *prefixes, entries@, dir@, start, report.tally()));
    Ok(report.finalize())
}

/// The diagnosis of a live table that is not on disk.
pub open spec fn missing_text(id: u64) -> Seq<char> {
    "manifest.meta lists SST "@ + dec_text(id as nat) + " as live, but no such file exists on disk"@
}

/// Some table on disk has the id.
pub open spec fn is_on_disk(tables: Seq<Listed>, id: u64) -> bool {
    exists|i: int| 0 <= i < tables.len() && (#[trigger] tables[i]).id == id
}

/// The live tables that are not on disk.
pub open spec fn missing_errors(dir: Seq<char>, tables: Seq<Listed>, ids: Seq<u64>) -> spec_fn(int) -> Seq<Finding> {
    |i: int|
        found_if(
            !is_on_disk(tables, ids[i]),
            issue(IssueKind::LiveSstMissing, joined(dir, sst_name(ids[i])), missing_text(ids[i])),
        )
}

/// What holding the manifest against the directory does, if the file may be
/// given as `m`.
pub open spec fn confronted(dir: Seq<char>, tables: Seq<Listed>, m: Result<SstManifest, ReadFault>, t: Tally) -> Tally {
    let path = joined(dir, "manifest.meta"@);
    match m {
        Err(ReadFault::Unreadable(why)) => t.with_file().with_error(IssueKind::Io, path, why@),
        Err(ReadFault::Undecodable(e)) => t.with_file().with_error(IssueKind::SstManifestCorrupt, path, e.text()),
        Ok(manifest) => t.with_file().with(
            flat(manifest.live_sst_ids@.len(), missing_errors(dir, tables, manifest.live_sst_ids@)),
            Seq::empty(),
        ),
    }
}

/// What the manifest adds to an audit: only the deepest one looks at it, and
/// its absence is no finding.
pub open spec fn audits_manifest<F: StoreAudit>(
    files: &F,
    mode: VerifyMode,
    dir: Seq<char>,
    tables: Seq<Listed>,
    t: Tally,
    u: Tally,
) -> bool {
    if mode != VerifyMode::FullLogical {
        u == t
    } else {
        exists|there: bool|
            #[trigger] tells_file(files, joined(dir, "manifest.meta"@), there) && if !there {
                u == t
            } else {
                exists|m: Result<SstManifest, ReadFault>|
                    #[trigger] gives_manifest(files, dir, m) && u == confronted(dir, tables, m, t)
            }
    }
}

fn table_is_on_disk(ssts: &Vec<SstEntry>, id: u64) -> (r: bool)
    ensures
        r == is_on_disk(table_list(ssts@), id),
{
    let ghost tables = table_list(ssts@);
    let mut i: usize = 0;
    while i < ssts.len()
        invariant
            tables == table_list(ssts@),
            i <= ssts@.len(),
            forall|j: int| 0 <= j < i ==> (#[trigger] tables[j]).id != id,
        decreases ssts@.len() - i,
    {
        assert(tables[i as int] == ssts@[i as int].listed());
        if ssts[i].id == id {
            return true;
        }
        i = i + 1;
    }
    false
}

fn confront(dir: &str, ssts: &Vec<SstEntry>, m: Result<SstManifest, ReadFault>, report: &mut VerifyReport)
    ensures
        final(report).tally() == confronted(dir@, table_list(ssts@), m, old(report).tally()),
{
    let path = sst_block::join(dir, "manifest.meta");
    report.count_file();
    match m {
        Err(ReadFault::Unreadable(why)) => {
            report.error(IssueKind::Io, path.as_str(), why);
        },
        Err(ReadFault::Undecodable(e)) => {
            report.error(IssueKind::SstManifestCorrupt, path.as_str(), e.message());
        },
        Ok(manifest) => {
            let ghost start = report.tally();
            let ghost ids = manifest.live_sst_ids@;
            let ghost f = missing_errors(dir@, table_list(ssts@), ids);
            let mut i: usize = 0;
            proof {
                assert(start.errors + Seq::<Finding>::empty() =~= start.errors);
                assert(start.warnings + Seq::<Finding>::empty() =~= start.warnings);
            }
            while i < manifest.live_sst_ids.len()
                invariant
                    ids == manifest.live_sst_ids@,
                    f == missing_errors(dir@, table_list(ssts@), ids),
                    i <= ids.len(),
                    report.tally() == start.with(flat(i as nat, f), Seq::empty()),
                decreases ids.len() - i,
            {
                let id: u64 = manifest.live_sst_ids[i];
                if !table_is_on_disk(ssts, id) {
                    let path = sst_block::sst_path(dir, id);
                    report.error(
                        IssueKind::LiveSstMissing,
                        path.as_str(),
                        String::from_str("manifest.meta lists SST ").concat(text::dec(id).as_str()).concat(
                            " as live, but no such file exists on disk",
                        ),
                    );
                }
                proof {
                    assert(flat((i + 1) as nat, f) == flat(i as nat, f) + f(i as int));
                    assert(report.tally().errors =~= start.errors + flat((i + 1) as nat, f));
                    assert(report.tally().warnings =~= start.warnings + Seq::<Finding>::empty());
                }
                i = i + 1;
            }
        },
    }
}

fn audit_manifest<F: StoreAudit>(
    files: &F,
    mode: VerifyMode,
    dir: &str,
    ssts: &Vec<SstEntry>,
    report: &mut VerifyReport,
)
    ensures
        audits_manifest(files, mode, dir@, table_list(ssts@), old(report).tally(), final(report).tally()),
{
    if mode != VerifyMode::FullLogical {
        return;
    }
    let path = sst_block::join(dir, "manifest.meta");
    let p: &str = path.as_str();
    let there = files.is_file(p);
    assert(call_ensures(F::is_file, (files, p), there));
    assert(tells_file(files, joined(dir@, "manifest.meta"@), there));
    if there {
        let m = files.read_manifest(dir);
        assert(call_ensures(F::read_manifest, (files, dir), m));
        assert(gives_manifest(files, dir@, m));
        confront(dir, ssts, m, report);
    }
}

/// What the audit of one table does.
pub open spec fn audits_table<F: StoreAudit>(
    files: &F,
    mode: VerifyMode,
    lens: (u64, u64),
    table: Listed,
    t: Tally,
    kv: Map<Seq<u8>, Slot>,
    u: Tally,
    collected: Map<Seq<u8>, Slot>,
) -> bool {
    exists|l: Result<BlockSstFile, EngineError>|
        #[trigger] loads(files, table.path, table.id, table.len, lens.0, lens.1, l) && match l {
            Err(e) => u == t.with_file().with_error(table_error_kind(e), table.path, e.text()) && collected == kv,
            Ok(sst) => {
                let a = t.with_file().with(
                    flat(
                        sst.block_index@.len(),
                        layout_errors(sst.block_index@, sst.file_bytes, lens.0, table.path),
                    ),
                    Seq::empty(),
                );
                if mode == VerifyMode::Quick {
                    u == a && collected == kv
                } else {
                    audits_blocks(
                        files,
                        &sst,
                        table.path,
                        mode == VerifyMode::FullLogical,
                        a,
                        kv,
                        u,
                        collected,
                    )
                }
            },
        }
}

/// What the audit of the first `n` tables does, oldest first.
pub open spec fn audits_tables<F: StoreAudit>(
    files: &F,
    mode: VerifyMode,
    lens: (u64, u64),
    tables: Seq<Listed>,
    n: int,
    t: Tally,
    u: Tally,
    collected: Map<Seq<u8>, Slot>,
) -> bool
    decreases n,
{
    if n <= 0 {
        u == t && collected == Map::<Seq<u8>, Slot>::empty()
    } else {
        exists|m: Tally, kv: Map<Seq<u8>, Slot>|
            audits_tables(files, mode, lens, tables, n - 1, t, m, kv) && #[trigger] audits_table(
                files,
                mode,
                lens,
                tables[n - 1],
                m,
                kv,
                u,
                collected,
            )
    }
}

fn audit_table<F: StoreAudit>(
    files: &F,
    mode: VerifyMode,
    lens: (u64, u64),
    entry: &SstEntry,
    report: &mut VerifyReport,
    kv: &mut RowMap,
)
    requires
        old(kv).wf(),
    ensures
        final(kv).wf(),
        audits_table(
            files,
            mode,
            lens,
            entry.listed(),
            old(report).tally(),
            old(kv)@,
            final(report).tally(),
            final(kv)@,
        ),
{
    report.count_file();
    let path: &str = entry.path.as_str();
    let l = BlockSstFile::load(files, entry.path.clone(), entry.id, entry.len, lens.0, lens.1);
    let ghost table = entry.listed();
    assert(loads(files, table.path, table.id, table.len, lens.0, lens.1, l));
    match l {
        Err(e) => {
            report.error(sst_error_kind(&e), path, e.message());
        },
        Ok(sst) => {
            proof {
                sst_block::read::lemma_loaded_is_wf(files, path@, entry.id, entry.len, lens.0, lens.1, sst);
            }
            check_sst_layout(&sst, path, lens.0, report);
            if mode != VerifyMode::Quick {
                let deep = mode == VerifyMode::FullLogical;
                check_sst_blocks(files, &sst, path, report, deep, kv);
            }
        },
    }
}

fn audit_tables<F: StoreAudit>(
    files: &F,
    mode: VerifyMode,
    lens: (u64, u64),
    ssts: &Vec<SstEntry>,
    report: &mut VerifyReport,
) -> (kv: RowMap)
    ensures
        kv.wf(),
        audits_tables(
            files,
            mode,
            lens,
            table_list(ssts@),
            ssts@.len() as int,
            old(report).tally(),
            final(report).tally(),
            kv@,
        ),
{
    let mut kv = RowMap::new();
    let ghost start = report.tally();
    let ghost tables = table_list(ssts@);
    let mut i: usize = 0;
    while i < ssts.len()
        invariant
            i <= ssts@.len(),
            tables == table_list(ssts@),
            kv.wf(),
            audits_tables(files, mode, lens, tables, i as int, start, report.tally(), kv@),
        decreases ssts@.len() - i,
    {
        let ghost m = report.tally();
        let ghost before = kv@;
        audit_table(files, mode, lens, &ssts[i], report, &mut kv);
        proof {
            let n = i + 1;
            assert(tables[n - 1] == ssts@[i as int].listed());
            assert(audits_tables(files, mode, lens, tables, n - 1, start, m, before));
            assert(audits_table(files, mode, lens, tables[n - 1], m, before, report.tally(), kv@));
        }
        i = i + 1;
    }
    kv
}

/// `e` says that the log cannot be scanned without the store's identity.
pub open spec fn is_identity_error(e: EngineError, dir: Seq<char>) -> bool {
    e matches EngineError::CorruptStoreMeta { path, reason } && path@ == joined(dir, "store.meta"@) && reason@
        == "store.meta has no store_id — cannot reconstruct the WAL AAD (ADR-044 §4); reopen the store for writing once to upgrade it"@
}

/// `e` says that the log is older than its epoch record.
pub open spec fn is_epoch_error(e: EngineError, dir: Seq<char>, version: u32) -> bool {
    e matches EngineError::UnsupportedFormatVersion { path, expected, found } && path@ == joined(dir, "wal.log"@)
        && expected == version && found == 0
}

/// What scanning the log gives: it takes the store's identity and the log's
/// epoch.
pub open spec fn scans_log<F: StoreAudit>(
    files: &F,
    dir: Seq<char>,
    store_id: Option<u128>,
    s: Result<WalScan, EngineError>,
) -> bool {
    match store_id {
        None => s matches Err(e) && is_identity_error(e, dir),
        Some(id) => exists|d: &str, ep: Result<Option<u64>, EngineError>|
            d@ == dir && #[trigger] call_ensures(F::log_epoch, (files, d), ep) && match ep {
                Err(e) => s == Err::<WalScan, EngineError>(e),
                Ok(None) => exists|version: u32|
                    #[trigger] call_ensures(F::log_record_version, (files,), version) && (s matches Err(e)
                        && is_epoch_error(e, dir, version)),
                Ok(Some(epoch)) => call_ensures(F::scan_log, (files, d, id, epoch), s),
            },
    }
}

/// The warning of a torn tail.
pub open spec fn torn_text(n: u64) -> Seq<char> {
    dec_text(n as nat)
        + " trailing bytes do not form a complete record — expected after a crash mid-append; the next open recovers by truncating them"@
}

/// What a scan of the log says.
pub open spec fn log_tally(dir: Seq<char>, s: Result<WalScan, EngineError>, t: Tally) -> Tally {
    let path = joined(dir, "wal.log"@);
    match s {
        Err(e) => t.with_file().with_error(IssueKind::WalCorrupt, path, e.text()),
        Ok(scan) => {
            let a = t.with_file().with_records(scan.records@.len());
            if scan.torn_tail_bytes > 0 {
                a.with_warning(IssueKind::WalTornTail, path, torn_text(scan.torn_tail_bytes))
            } else {
                a
            }
        },
    }
}

/// What the audit of the log does: a torn tail is a warning, and the
/// operations are kept for the logical checks.
pub open spec fn audits_log<F: StoreAudit>(
    files: &F,
    dir: Seq<char>,
    there: bool,
    store_id: Option<u128>,
    t: Tally,
    u: Tally,
    log: Seq<WalRecord>,
) -> bool {
    if !there {
        u == t && log == Seq::<WalRecord>::empty()
    } else {
        exists|s: Result<WalScan, EngineError>|
            {
                &&& #[trigger] scans_log(files, dir, store_id, s)
                &&& u == log_tally(dir, s, t)
                &&& log == match s {
                    Ok(scan) => scan.records@,
                    Err(e) => Seq::<WalRecord>::empty(),
                }
            }
    }
}

fn scan_log<F: StoreAudit>(files: &F, dir: &str, store_id: Option<u128>) -> (s: Result<WalScan, EngineError>)
    ensures
        scans_log(files, dir@, store_id, s),
{
    match store_id {
        None => Err(
            EngineError::CorruptStoreMeta {
                path: sst_block::join(dir, "store.meta"),
                reason: String::from_str(
                    "store.meta has no store_id — cannot reconstruct the WAL AAD (ADR-044 §4); reopen the store for writing once to upgrade it",
                ),
            },
        ),
        Some(id) => {
            let ep = files.log_epoch(dir);
            assert(call_ensures(F::log_epoch, (files, dir), ep));
            match ep {
                Err(e) => Err(e),
                Ok(None) => {
                    let version: u32 = files.log_record_version();
                    assert(call_ensures(F::log_record_version, (files,), version));
                    Err(
                        EngineError::UnsupportedFormatVersion {
                            path: sst_block::join(dir, "wal.log"),
                            expected: version,
                            found: 0,
                        },
                    )
                },
                Ok(Some(epoch)) => files.scan_log(dir, id, epoch),
            }
        },
    }
}

fn audit_log<F: StoreAudit>(
    files: &F,
    dir: &str,
    there: bool,
    store_id: Option<u128>,
    report: &mut VerifyReport,
) -> (log: Vec<WalRecord>)
    ensures
        audits_log(files, dir@, there, store_id, old(report).tally(), final(report).tally(), log@),
{
    if !there {
        return Vec::new();
    }
    let path = sst_block::join(dir, "wal.log");
    report.count_file();
    let s = scan_log(files, dir, store_id);
    assert(scans_log(files, dir@, store_id, s));
    match s {
        Err(e) => {
            report.error(IssueKind::WalCorrupt, path.as_str(), e.message());
            Vec::new()
        },
        Ok(scan) => {
            report.count_records(scan.records.len());
            if scan.torn_tail_bytes > 0 {
                report.warning(
                    IssueKind::WalTornTail,
                    path.as_str(),
                    text::dec(scan.torn_tail_bytes).concat(
                        " trailing bytes do not form a complete record — expected after a crash mid-append; the next open recovers by truncating them",
                    ),
                );
            }
            scan.records
        },
    }
}

/// What the audit of a data directory does once its key is settled: the log,
/// the tables, the manifest, the end.
pub open spec fn audits_data<F: StoreAudit + IndexCodec>(
    files: &F,
    prefixes: FtsPrefixes,
    mode: VerifyMode,
    store_id: Option<u128>,
    dir: Seq<char>,
    entries: Seq<DirEntry>,
    encrypted: bool,
    t: Tally,
    r: Result<VerifyReport, EngineError>,
) -> bool {
    let tables = tables_in(dir, entries);
    exists|lens: (u64, u64), a: Tally, log: Seq<WalRecord>, b: Tally, kv: Map<Seq<u8>, Slot>, c: Tally|
        {
            &&& #[trigger] call_ensures(F::section_lens, (files, encrypted), lens)
            &&& #[trigger] audits_log(files, dir, holds_kind(entries, FileKind::Wal), store_id, t, a, log)
            &&& #[trigger] audits_tables(files, mode, lens, tables, tables.len() as int, a, b, kv)
            &&& #[trigger] audits_manifest(files, mode, dir, tables, b, c)
            &&& ends(files, prefixes, mode, dir, kv, record_rows(log), c, r)
        }
}

fn audit_data<F: StoreAudit + IndexCodec>(
    files: &F,
    prefixes: &FtsPrefixes,
    mode: VerifyMode,
    store_id: Option<u128>,
    dir: &str,
    Ghost(entries): Ghost<Seq<DirEntry>>,
    inv: &Inventory,
    encrypted: bool,
    report: VerifyReport,
) -> (r: Result<VerifyReport, EngineError>)
    requires
        inv.lists(dir@, entries),
    ensures
        audits_data(files, *prefixes, mode, store_id, dir@, entries, encrypted, report.tally(), r),
{
    let mut report = report;
    let ghost t = report.tally();
    let ghost tables = tables_in(dir@, entries);
    let lens = files.section_lens(encrypted);
    assert(call_ensures(F::section_lens, (files, encrypted), lens));
    let log = audit_log(files, dir, inv.wal, store_id, &mut report);
    let ghost a = report.tally();
    assert(audits_log(files, dir@, holds_kind(entries, FileKind::Wal), store_id, t, a, log@));
    let kv = audit_tables(files, mode, lens, &inv.ssts, &mut report);
    let ghost b = report.tally();
    let ghost collected = kv@;
    assert(audits_tables(files, mode, lens, tables, tables.len() as int, a, b, collected));
    audit_manifest(files, mode, dir, &inv.ssts, &mut report);
    let ghost c = report.tally();
    assert(audits_manifest(files, mode, dir@, tables, b, c));
    let r = end_audit(files, prefixes, mode, dir, kv, &log, report);
    assert(ends(files, *prefixes, mode, dir@, collected, record_rows(log@), c, r));
    r
}

/// A key with the way it was supplied.
pub type SuppliedKey<'a> = Option<(&'a [u8], KeyMode)>;

/// What the audit does about the key: a missing one, or one too many, is an
/// error of the call, and so is a wrong one; a corrupt record is a finding,
/// and ends the audit.
pub open spec fn audits_crypto<F: StoreAudit + IndexCodec>(
    files: &F,
    prefixes: FtsPrefixes,
    key: SuppliedKey<'_>,
    mode: VerifyMode,
    store_id: Option<u128>,
    dir: Seq<char>,
    generation: u64,
    entries: Seq<DirEntry>,
    t: Tally,
    r: Result<VerifyReport, EngineError>,
) -> bool {
    let sealed = holds_kind(entries, FileKind::CryptoMeta);
    if generation != 0 && !sealed {
        closes(
            r,
            t.with_error(
                IssueKind::CryptoMetaCorrupt,
                joined(dir, "crypto.meta"@),
                "published generation is missing crypto.meta"@,
            ),
        )
    } else {
        match (sealed, key) {
            (true, None) => r matches Err(EngineError::MissingEncryptionKey { path }) && path@ == dir,
            (false, Some(_)) => r matches Err(EngineError::PlaintextStoreKeySupplied { path }) && path@ == dir,
            (false, None) => audits_data(files, prefixes, mode, store_id, dir, entries, false, t, r),
            (true, Some((bytes, how))) => exists|l: Result<(), EngineError>|
                #[trigger] gives_crypto(files, dir, bytes@, how, bound_generation(generation), l) && match l {
                    Ok(()) => audits_data(
                        files,
                        prefixes,
                        mode,
                        store_id,
                        dir,
                        entries,
                        true,
                        t.with_file(),
                        r,
                    ),
                    Err(EngineError::CorruptCryptoMeta { path, reason }) => closes(
                        r,
                        t.with_file().with_error(IssueKind::CryptoMetaCorrupt, path@, reason@),
                    ),
                    Err(e) => r == Err::<VerifyReport, EngineError>(e),
                },
        }
    }
}

/// The generation that a key record must be bound to; generation zero binds
/// none.
pub open spec fn bound_generation(generation: u64) -> Option<u64> {
    if generation == 0 {
        None
    } else {
        Some(generation)
    }
}

fn audit_crypto<F: StoreAudit + IndexCodec>(
    files: &F,
    prefixes: &FtsPrefixes,
    key: SuppliedKey<'_>,
    mode: VerifyMode,
    store_id: Option<u128>,
    dir: &str,
    generation: u64,
    Ghost(entries): Ghost<Seq<DirEntry>>,
    inv: &Inventory,
    report: VerifyReport,
) -> (r: Result<VerifyReport, EngineError>)
    requires
        inv.lists(dir@, entries),
    ensures
        audits_crypto(
            files,
            *prefixes,
            key,
            mode,
            store_id,
            dir@,
            generation,
            entries,
            report.tally(),
            r,
        ),
{
    let mut report = report;
    if generation != 0 && !inv.crypto_meta {
        let path = sst_block::join(dir, "crypto.meta");
        report.error(
            IssueKind::CryptoMetaCorrupt,
            path.as_str(),
            String::from_str("published generation is missing crypto.meta"),
        );
        return Ok(report.finalize());
    }
    match (inv.crypto_meta, key) {
        (true, None) => Err(EngineError::MissingEncryptionKey { path: String::from_str(dir) }),
        (false, Some(_)) => Err(EngineError::PlaintextStoreKeySupplied { path: String::from_str(dir) }),
        (false, None) => audit_data(
            files,
            prefixes,
            mode,
            store_id,
            dir,
            Ghost(entries),
            inv,
            false,
            report,
        ),
        (true, Some((bytes, how))) => {
            report.count_file();
            let bound: Option<u64> = if generation == 0 {
                None
            } else {
                Some(generation)
            };
            let l = files.load_crypto(dir, bytes, how, bound);
            assert(call_ensures(F::load_crypto, (files, dir, bytes, how, bound), l));
            assert(gives_crypto(files, dir@, bytes@, how, bound_generation(generation), l));
            match l {
                Ok(()) => audit_data(
                    files,
                    prefixes,
                    mode,
                    store_id,
                    dir,
                    Ghost(entries),
                    inv,
                    true,
                    report,
                ),
                Err(EngineError::CorruptCryptoMeta { path, reason }) => {
                    report.error(IssueKind::CryptoMetaCorrupt, path.as_str(), reason);
                    Ok(report.finalize())
                },
                Err(e) => Err(e),
            }
        },
    }
}

/// What the audit does about the generation pointer. Once it is there, only
/// the directory it names is looked at.
pub open spec fn audits_generation<F: StoreAudit + IndexCodec>(
    files: &F,
    prefixes: FtsPrefixes,
    key: SuppliedKey<'_>,
    mode: VerifyMode,
    store_id: Option<u128>,
    entries: Seq<DirEntry>,
    t: Tally,
    r: Result<VerifyReport, EngineError>,
) -> bool {
    let path = "generation.meta"@;
    let u = t.with_file();
    if !holds_kind(entries, FileKind::GenerationMeta) {
        audits_crypto(files, prefixes, key, mode, store_id, Seq::empty(), 0, entries, t, r)
    } else {
        exists|g: Result<u64, ReadFault>|
            #[trigger] call_ensures(F::read_generation, (files,), g) && match g {
                Err(ReadFault::Unreadable(why)) => closes(r, u.with_error(IssueKind::Io, path, why@)),
                Err(ReadFault::Undecodable(e)) => if e is UnsupportedFormatVersion {
                    closes(
                        r,
                        u.with_error(
                            IssueKind::StoreFormatUnsupported,
                            path,
                            "generation.meta version is not supported by this build"@,
                        ),
                    )
                } else {
                    closes(r, u.with_error(IssueKind::GenerationMetaCorrupt, path, e.text()))
                },
                Ok(generation) => audits_active(
                    files,
                    prefixes,
                    key,
                    mode,
                    store_id,
                    generation,
                    u,
                    r,
                ),
            }
    }
}

/// What the audit of the active generation does.
pub open spec fn audits_active<F: StoreAudit + IndexCodec>(
    files: &F,
    prefixes: FtsPrefixes,
    key: SuppliedKey<'_>,
    mode: VerifyMode,
    store_id: Option<u128>,
    generation: u64,
    t: Tally,
    r: Result<VerifyReport, EngineError>,
) -> bool {
    let path = "generation.meta"@;
    let dir = generation_dir_name(generation);
    if generation == 0 {
        closes(
            r,
            t.with_error(
                IssueKind::GenerationMetaCorrupt,
                path,
                "generation.meta must point to a non-zero gen-N directory"@,
            ),
        )
    } else {
        exists|there: bool|
            #[trigger] tells_dir(files, dir, there) && if !there {
                closes(
                    r,
                    t.with_error(
                        IssueKind::GenerationMetaCorrupt,
                        path,
                        "active generation directory "@ + dir + " is missing"@,
                    ),
                )
            } else {
                exists|l: Result<Vec<DirEntry>, EngineError>|
                    #[trigger] gives_list(files, dir, l) && match l {
                        Err(e) => r == Err::<VerifyReport, EngineError>(e),
                        Ok(entries) => audits_crypto(
                            files,
                            prefixes,
                            key,
                            mode,
                            store_id,
                            dir,
                            generation,
                            entries@,
                            t.with(Seq::empty(), strays_in(dir, entries@)),
                            r,
                        ),
                    }
            }
    }
}

fn audit_active<F: StoreAudit + IndexCodec>(
    files: &F,
    prefixes: &FtsPrefixes,
    key: SuppliedKey<'_>,
    mode: VerifyMode,
    store_id: Option<u128>,
    generation: u64,
    report: VerifyReport,
) -> (r: Result<VerifyReport, EngineError>)
    ensures
        audits_active(files, *prefixes, key, mode, store_id, generation, report.tally(), r),
{
    let mut report = report;
    if generation == 0 {
        report.error(
            IssueKind::GenerationMetaCorrupt,
            "generation.meta",
            String::from_str("generation.meta must point to a non-zero gen-N directory"),
        );
        return Ok(report.finalize());
    }
    let name = files::generation_dir(generation);
    let dir: &str = name.as_str();
    let there = files.is_dir(dir);
    assert(call_ensures(F::is_dir, (files, dir), there));
    assert(tells_dir(files, dir@, there));
    if !there {
        report.error(
            IssueKind::GenerationMetaCorrupt,
            "generation.meta",
            String::from_str("active generation directory ").concat(dir).concat(" is missing"),
        );
        return Ok(report.finalize());
    }
    let l = files.list(dir);
    assert(call_ensures(F::list, (files, dir), l));
    assert(gives_list(files, dir@, l));
    match l {
        Err(e) => Err(e),
        Ok(entries) => {
            let inv = inventory(dir, &entries, &mut report);
            audit_crypto(
                files,
                prefixes,
                key,
                mode,
                store_id,
                dir,
                generation,
                Ghost(entries@),
                &inv,
                report,
            )
        },
    }
}

fn audit_generation<F: StoreAudit + IndexCodec>(
    files: &F,
    prefixes: &FtsPrefixes,
    key: SuppliedKey<'_>,
    mode: VerifyMode,
    store_id: Option<u128>,
    Ghost(entries): Ghost<Seq<DirEntry>>,
    inv: &Inventory,
    report: VerifyReport,
) -> (r: Result<VerifyReport, EngineError>)
    requires
        inv.lists(Seq::empty(), entries),
    ensures
        audits_generation(files, *prefixes, key, mode, store_id, entries, report.tally(), r),
{
    let mut report = report;
    if !inv.generation_meta {
        let root: &str = "";
        proof {
            reveal_strlit("");
            assert(root@ =~= Seq::<char>::empty());
        }
        return audit_crypto(files, prefixes, key, mode, store_id, root, 0, Ghost(entries), inv, report);
    }
    report.count_file();
    let g = files.read_generation();
    assert(call_ensures(F::read_generation, (files,), g));
    match g {
        Err(ReadFault::Unreadable(why)) => {
            report.error(IssueKind::Io, "generation.meta", why);
            Ok(report.finalize())
        },
        Err(ReadFault::Undecodable(e)) => {
            match e {
                EngineError::UnsupportedFormatVersion { .. } => {
                    report.error(
                        IssueKind::StoreFormatUnsupported,
                        "generation.meta",
                        String::from_str("generation.meta version is not supported by this build"),
                    );
                },
                _ => {
                    report.error(IssueKind::GenerationMetaCorrupt, "generation.meta", e.message());
                },
            }
            Ok(report.finalize())
        },
        Ok(generation) => audit_active(files, prefixes, key, mode, store_id, generation, report),
    }
}

/// The diagnosis of a store written under another format.
pub open spec fn format_text(found: u32) -> Seq<char> {
    "store format version "@ + dec_text(found as nat) + " (this build understands "@ + dec_text(
        STORE_FORMAT_VERSION as nat,
    ) + ")"@
}

/// A directory without `store.meta` holds parts of a store all the same.
pub open spec fn holds_artifacts(entries: Seq<DirEntry>) -> bool {
    ||| holds_kind(entries, FileKind::Wal)
    ||| tables_in(Seq::empty(), entries).len() > 0
    ||| holds_kind(entries, FileKind::CryptoMeta)
    ||| holds_kind(entries, FileKind::GenerationMeta)
    ||| holds_kind(entries, FileKind::GenerationDir)
}

/// What the audit does with the entries of the root: an empty directory is
/// healthy, parts without `store.meta` are of another format, and so is a
/// record of another version, which ends the audit.
pub open spec fn audits_root<F: StoreAudit + IndexCodec>(
    files: &F,
    prefixes: FtsPrefixes,
    key: SuppliedKey<'_>,
    mode: VerifyMode,
    entries: Seq<DirEntry>,
    r: Result<VerifyReport, EngineError>,
) -> bool {
    let t = no_tally().with(Seq::empty(), strays_in(Seq::empty(), entries));
    let path = "store.meta"@;
    if !holds_kind(entries, FileKind::StoreMeta) {
        if holds_artifacts(entries) {
            closes(
                r,
                t.with_error(
                    IssueKind::StoreFormatUnsupported,
                    path,
                    "store artifacts exist but store.meta is absent — a store from before ADR-039, which this build does not read"@,
                ),
            )
        } else {
            closes(r, t)
        }
    } else {
        exists|m: Result<StoreMeta, ReadFault>|
            #[trigger] call_ensures(F::read_store_meta, (files,), m) && match m {
                Err(ReadFault::Unreadable(why)) => audits_generation(
                    files,
                    prefixes,
                    key,
                    mode,
                    None,
                    entries,
                    t.with_file().with_error(IssueKind::Io, path, why@),
                    r,
                ),
                Err(ReadFault::Undecodable(e)) => audits_generation(
                    files,
                    prefixes,
                    key,
                    mode,
                    None,
                    entries,
                    t.with_file().with_error(IssueKind::StoreMetaCorrupt, path, e.text()),
                    r,
                ),
                Ok(meta) => if meta.store_format_version != STORE_FORMAT_VERSION {
                    closes(
                        r,
                        t.with_file().with_error(
                            IssueKind::StoreFormatUnsupported,
                            path,
                            format_text(meta.store_format_version),
                        ),
                    )
                } else {
                    audits_generation(
                        files,
                        prefixes,
                        key,
                        mode,
                        meta.store_id,
                        entries,
                        t.with_file(),
                        r,
                    )
                },
            }
    }
}

fn audit_root<F: StoreAudit + IndexCodec>(
    files: &F,
    prefixes: &FtsPrefixes,
    key: SuppliedKey<'_>,
    mode: VerifyMode,
    entries: &Vec<DirEntry>,
) -> (r: Result<VerifyReport, EngineError>)
    ensures
        audits_root(files, *prefixes, key, mode, entries@, r),
{
    let mut report = VerifyReport::new();
    let root: &str = "";
    proof {
        reveal_strlit("");
        assert(root@ =~= Seq::<char>::empty());
    }
    let inv = inventory(root, entries, &mut report);
    if !inv.store_meta {
        if inv.wal || inv.ssts.len() > 0 || inv.crypto_meta || inv.generation_meta || inv.generation_dirs {
            report.error(
                IssueKind::StoreFormatUnsupported,
                "store.meta",
                String::from_str(
                    "store artifacts exist but store.meta is absent — a store from before ADR-039, which this build does not read",
                ),
            );
        }
        assert(table_list(inv.ssts@).len() == inv.ssts@.len());
        return Ok(report.finalize());
    }
    report.count_file();
    let m = files.read_store_meta();
    assert(call_ensures(F::read_store_meta, (files,), m));
    match m {
        Err(ReadFault::Unreadable(why)) => {
            report.error(IssueKind::Io, "store.meta", why);
            audit_generation(files, prefixes, key, mode, None, Ghost(entries@), &inv, report)
        },
        Err(ReadFault::Undecodable(e)) => {
            report.error(IssueKind::StoreMetaCorrupt, "store.meta", e.message());
            audit_generation(files, prefixes, key, mode, None, Ghost(entries@), &inv, report)
        },
        Ok(meta) => {
            if meta.store_format_version != STORE_FORMAT_VERSION {
                report.error(
                    IssueKind::StoreFormatUnsupported,
                    "store.meta",
                    String::from_str("store format version ").concat(
                        text::dec(meta.store_format_version as u64).as_str(),
                    ).concat(" (this build understands ").concat(
                        text::dec(STORE_FORMAT_VERSION as u64).as_str(),
                    ).concat(")"),
                );
                return Ok(report.finalize());
            }
            audit_generation(files, prefixes, key, mode, meta.store_id, Ghost(entries@), &inv, report)
        },
    }
}

/// What an audit does.
pub open spec fn audits<F: StoreAudit + IndexCodec>(
    files: &F,
    prefixes: FtsPrefixes,
    key: SuppliedKey<'_>,
    mode: VerifyMode,
    r: Result<VerifyReport, EngineError>,
) -> bool {
    exists|there: bool|
        #[trigger] tells_dir(files, Seq::empty(), there) && if !there {
            r matches Err(EngineError::Io { path, reason }) && path@.len() == 0 && reason@
                == "store directory does not exist"@
        } else {
            exists|k: Result<bool, EngineError>|
                #[trigger] call_ensures(F::lock_shared, (files,), k) && match k {
                    Err(e) => r == Err::<VerifyReport, EngineError>(e),
                    Ok(false) => r matches Err(EngineError::StoreLocked { path }) && path@.len() == 0,
                    Ok(true) => exists|l: Result<Vec<DirEntry>, EngineError>|
                        #[trigger] gives_list(files, Seq::empty(), l) && match l {
                            Err(e) => r == Err::<VerifyReport, EngineError>(e),
                            Ok(entries) => audits_root(files, prefixes, key, mode, entries@, r),
                        },
                }
        }
}

fn verify_store_with_key_mode<F: StoreAudit + IndexCodec>(
    files: &mut Traced<F>,
    prefixes: &FtsPrefixes,
    key: SuppliedKey<'_>,
    mode: VerifyMode,
) -> (r: Result<VerifyReport, EngineError>)
    ensures
        *final(files) == *old(files),
        audits(&old(files).spec_files(), *prefixes, key, mode, r),
{
    let files = files.files();
    let root: &str = "";
    proof {
        reveal_strlit("");
        assert(root@ =~= Seq::<char>::empty());
    }
    let there = files.is_dir(root);
    assert(call_ensures(F::is_dir, (files, root), there));
    assert(tells_dir(files, Seq::empty(), there));
    if !there {
        return Err(
            EngineError::Io {
                path: String::from_str(root),
                reason: String::from_str("store directory does not exist"),
            },
        );
    }
    let k = files.lock_shared();
    assert(call_ensures(F::lock_shared, (files,), k));
    match k {
        Err(e) => Err(e),
        Ok(false) => Err(EngineError::StoreLocked { path: String::from_str(root) }),
        Ok(true) => {
            let l = files.list(root);
            assert(call_ensures(F::list, (files, root), l));
            assert(gives_list(files, Seq::empty(), l));
            match l {
                Err(e) => Err(e),
                Ok(entries) => audit_root(files, prefixes, key, mode, &entries),
            }
        },
    }
}

/// Audits a store, opened with a raw key where it is encrypted. No file is
/// changed.
pub fn verify_store<F: StoreAudit + IndexCodec>(
    files: &mut Traced<F>,
    prefixes: &FtsPrefixes,
    key: Option<&[u8]>,
    mode: VerifyMode,
) -> (r: Result<VerifyReport, EngineError>)
    ensures
        *final(files) == *old(files),
        audits(
            &old(files).spec_files(),
            *prefixes,
            match key {
                Some(bytes) => Some((bytes, KeyMode::RawKey)),
                None => None,
            },
            mode,
            r,
        ),
{
    match key {
        Some(bytes) => verify_store_with_key_mode(files, prefixes, Some((bytes, KeyMode::RawKey)), mode),
        None => verify_store_with_key_mode(files, prefixes, None, mode),
    }
}

/// Audits a store, opened with a passphrase where it is encrypted: the bytes
/// are never taken for a raw key. No file is changed.
pub fn verify_store_with_passphrase<F: StoreAudit + IndexCodec>(
    files: &mut Traced<F>,
    prefixes: &FtsPrefixes,
    passphrase: Option<&[u8]>,
    mode: VerifyMode,
) -> (r: Result<VerifyReport, EngineError>)
    ensures
        *final(files) == *old(files),
        audits(
            &old(files).spec_files(),
            *prefixes,
            match passphrase {
                Some(bytes) => Some((bytes, KeyMode::Passphrase)),
                None => None,
            },
            mode,
            r,
        ),
{
    match passphrase {
        Some(bytes) => verify_store_with_key_mode(files, prefixes, Some((bytes, KeyMode::Passphrase)), mode),
        None => verify_store_with_key_mode(files, prefixes, None, mode),
    }
}

} // verus!
