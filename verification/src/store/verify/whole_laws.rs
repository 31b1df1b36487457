//! What a healthy report means of a whole store, and what every report tells.
use super::audit::{
    audits, audits_active, audits_crypto, audits_data, audits_generation, audits_log, audits_manifest, audits_root,
    audits_table, audits_tables, closes, confronted, ends, is_on_disk, log_tally, missing_errors, scans_log,
    SuppliedKey,
};
use super::checks::BlockReads;
use super::complete_laws::{
    is_whole_block, is_whole_table, tells_block, tells_error, tells_of, tells_table,
    what_is_wrong_with_a_table_is_told,
};
use super::{
    classify, findings, flat, with_table, holds_kind, kind_of, no_tally, strays_in, tables_in, FileKind, Finding, IssueKind,
    Listed, Tally, VerifyMode, VerifyReport,
};
use crate::bytes::{bytes_lt, has_prefix, lemma_lt_irreflexive};
use crate::error::EngineError;
use crate::key::Key;
use crate::store::engine::replay_laws::{lemma_overlays, overlays};
use crate::store::engine::write::{record_rows, WalRecord};
use crate::store::files::{
    generation_dir_name, generation_of, gives_crypto, gives_list, gives_manifest, tells_dir, tells_file, DirEntry,
    ReadFault, SstManifest, StoreAudit, StoreMeta, WalScan, STORE_FORMAT_VERSION,
};
use crate::store::layers::{lists, pairs_view};
use crate::store::rows::{live, put_rows, Slot};
use crate::store::sst_block::read::{loads, reads_block};
use crate::store::sst_block::{joined, sst_id_of, sst_name, BlockSstFile};
use crate::store::verify_logical::cause_laws::{
    dims_differ, in_use, is_breached, is_in_order, lacks_neighbor, links_hold, logical_errors_have_their_causes, stats_lie,
    texts_hold, uses_from,
};
use crate::store::verify_logical::parse::{parses, place_of, PlaceV, IDX_PREFIX};
use crate::store::verify_logical::parse_laws::{
    a_place_has_one_key, a_view_holds_what_the_entries_hold, document_taken, edge_taken, entity_taken,
    is_document_row, is_edge_row, is_entity_row, is_mapping_row, is_node_row, is_posting_row, is_record_row,
    keys_differ, mapping_taken, node_taken, posting_taken, record_taken, single_taken,
};
use crate::store::verify_logical::{
    checks_logic, logical_errors, logical_warnings, FtsPrefixes, IndexCodec, ViewV,
};
use crate::store::Value;
use vstd::prelude::*;

verus! {

/// Each of some findings is among others.
pub open spec fn is_among(some: Seq<Finding>, all: Seq<Finding>) -> bool {
    forall|k: int| 0 <= k < some.len() ==> all.contains(#[trigger] some[k])
}

proof fn lemma_among(a: Seq<Finding>, b: Seq<Finding>, all: Seq<Finding>)
    requires
        is_among(a + b, all),
    ensures
        is_among(a, all),
        is_among(b, all),
{
    assert forall|k: int| 0 <= k < a.len() implies all.contains(#[trigger] a[k]) by {
        assert((a + b)[k] == a[k]);
    }
    assert forall|k: int| 0 <= k < b.len() implies all.contains(#[trigger] b[k]) by {
        assert((a + b)[a.len() + k] == b[k]);
    }
}

proof fn lemma_tells_among(some: Seq<Finding>, all: Seq<Finding>, path: Seq<char>)
    requires
        is_among(some, all),
    ensures
        forall|kind: IssueKind| #[trigger] tells_of(some, kind, path) ==> tells_of(all, kind, path),
        forall|e: EngineError| #[trigger] tells_error(some, e, path) ==> tells_error(all, e, path),
{
    assert forall|kind: IssueKind| #[trigger] tells_of(some, kind, path) implies tells_of(all, kind, path) by {
        let k = choose|k: int| 0 <= k < some.len() && (#[trigger] some[k]).kind == kind && some[k].path == path;
        assert(all.contains(some[k]));
        let j = choose|j: int| 0 <= j < all.len() && all[j] == some[k];
        assert(all[j].kind == kind);
    }
    assert forall|e: EngineError| #[trigger] tells_error(some, e, path) implies tells_error(all, e, path) by {
        let k = choose|k: int|
            0 <= k < some.len() && super::complete_laws::blames(e, (#[trigger] some[k]).kind) && some[k].path == path;
        assert(all.contains(some[k]));
        let j = choose|j: int| 0 <= j < all.len() && all[j] == some[k];
        assert(super::complete_laws::blames(e, all[j].kind));
    }
}

/// The answers that an audit got of one table.
pub struct TableAnswers {
    pub loaded: Result<BlockSstFile, EngineError>,
    pub opened: Result<(), String>,
    pub reads: BlockReads,
}

/// The answers to what is asked of each table, with what is told of it among
/// `errors`.
pub open spec fn tables_told<F: StoreAudit>(
    files: &F,
    mode: VerifyMode,
    lens: (u64, u64),
    tables: Seq<Listed>,
    answers: Seq<TableAnswers>,
    found: Seq<Seq<Finding>>,
    errors: Seq<Finding>,
) -> bool {
    &&& answers.len() == tables.len()
    &&& found.len() == tables.len()
    &&& forall|i: int|
        0 <= i < tables.len() ==> is_among(#[trigger] found[i], errors) && tells_table(
            found[i],
            files,
            mode,
            lens,
            tables[i],
            answers[i].loaded,
            answers[i].opened,
            answers[i].reads,
        )
}

proof fn lemma_tables<F: StoreAudit>(
    files: &F,
    mode: VerifyMode,
    lens: (u64, u64),
    tables: Seq<Listed>,
    n: int,
    t: Tally,
    u: Tally,
    collected: Map<Seq<u8>, Slot>,
) -> (r: (Seq<TableAnswers>, Seq<Seq<Finding>>))
    requires
        0 <= n <= tables.len(),
        audits_tables(files, mode, lens, tables, n, t, u, collected),
    ensures
        tables_told(files, mode, lens, tables.take(n), r.0, r.1, u.errors),
        is_among(t.errors, u.errors),
        u.warnings == t.warnings,
    decreases n,
{
    if n == 0 {
        assert(is_among(t.errors, u.errors));
        (Seq::empty(), Seq::empty())
    } else {
        let (m, kv) = choose|m: Tally, kv: Map<Seq<u8>, Slot>|
            audits_tables(files, mode, lens, tables, n - 1, t, m, kv) && #[trigger] audits_table(
                files,
                mode,
                lens,
                tables[n - 1],
                m,
                kv,
                u,
                collected,
            );
        let (answers, found) = lemma_tables(files, mode, lens, tables, n - 1, t, m, kv);
        let (last, l, o, reads) = what_is_wrong_with_a_table_is_told(
            files,
            mode,
            lens,
            tables[n - 1],
            m,
            kv,
            u,
            collected,
        );
        assert(is_among(m.errors, u.errors)) by {
            assert forall|k: int| 0 <= k < m.errors.len() implies u.errors.contains(#[trigger] m.errors[k]) by {
                assert(u.errors[k] == m.errors[k]);
            }
        }
        assert(is_among(last, u.errors)) by {
            assert forall|k: int| 0 <= k < last.len() implies u.errors.contains(#[trigger] last[k]) by {
                assert(u.errors[m.errors.len() + k] == last[k]);
            }
        }
        lemma_among_through(t.errors, m.errors, u.errors);
        let more = answers.push(TableAnswers { loaded: l, opened: o, reads });
        let told = found.push(last);
        let shown = tables.take(n);
        assert forall|i: int| 0 <= i < shown.len() implies is_among(#[trigger] told[i], u.errors) && tells_table(
            told[i],
            files,
            mode,
            lens,
            shown[i],
            more[i].loaded,
            more[i].opened,
            more[i].reads,
        ) by {
            if i < n - 1 {
                assert(told[i] == found[i]);
                assert(tables.take(n - 1)[i] == shown[i]);
                assert(is_among(found[i], m.errors));
                lemma_among_through(found[i], m.errors, u.errors);
            }
        }
        (more, told)
    }
}

proof fn lemma_among_through(a: Seq<Finding>, b: Seq<Finding>, c: Seq<Finding>)
    requires
        is_among(a, b),
        is_among(b, c),
    ensures
        is_among(a, c),
{
    assert forall|k: int| 0 <= k < a.len() implies c.contains(#[trigger] a[k]) by {
        assert(b.contains(a[k]));
        let j = choose|j: int| 0 <= j < b.len() && b[j] == a[k];
        assert(c.contains(b[j]));
    }
}

/// What the log says of itself is told: corrupt as an error, torn as a warning.
pub open spec fn log_told(
    dir: Seq<char>,
    s: Result<WalScan, EngineError>,
    errors: Seq<Finding>,
    warnings: Seq<Finding>,
) -> bool {
    let path = joined(dir, "wal.log"@);
    match s {
        Err(e) => tells_of(errors, IssueKind::WalCorrupt, path),
        Ok(scan) => scan.torn_tail_bytes > 0 ==> tells_of(warnings, IssueKind::WalTornTail, path),
    }
}

/// What is wrong with the manifest is told: that it cannot be read, that it
/// does not decode, or which of its tables is not on disk.
pub open spec fn manifest_told(
    dir: Seq<char>,
    tables: Seq<Listed>,
    m: Result<SstManifest, ReadFault>,
    errors: Seq<Finding>,
) -> bool {
    let path = joined(dir, "manifest.meta"@);
    match m {
        Err(ReadFault::Unreadable(why)) => tells_of(errors, IssueKind::Io, path),
        Err(ReadFault::Undecodable(e)) => tells_of(errors, IssueKind::SstManifestCorrupt, path),
        Ok(manifest) => forall|i: int|
            0 <= i < manifest.live_sst_ids@.len() ==> is_listed_id(tables, #[trigger] manifest.live_sst_ids@[i])
                || tells_of(
                errors,
                IssueKind::LiveSstMissing,
                joined(dir, sst_name(manifest.live_sst_ids@[i])),
            ),
    }
}

/// Some listed table has an id.
pub open spec fn is_listed_id(tables: Seq<Listed>, id: u64) -> bool {
    exists|k: int| 0 <= k < tables.len() && (#[trigger] tables[k]).id == id
}

proof fn lemma_manifest(
    dir: Seq<char>,
    tables: Seq<Listed>,
    m: Result<SstManifest, ReadFault>,
    t: Tally,
)
    ensures
        manifest_told(dir, tables, m, confronted(dir, tables, m, t).errors),
        is_among(t.errors, confronted(dir, tables, m, t).errors),
        confronted(dir, tables, m, t).warnings == t.warnings,
{
    let u = confronted(dir, tables, m, t);
    let path = joined(dir, "manifest.meta"@);
    let n = t.errors.len();
    assert forall|k: int| 0 <= k < n implies u.errors.contains(#[trigger] t.errors[k]) by {
        assert(u.errors[k] == t.errors[k]);
    }
    assert(u.warnings =~= t.warnings);
    match m {
        Err(ReadFault::Unreadable(why)) => {
            assert(u.errors[n as int].kind == IssueKind::Io && u.errors[n as int].path == path);
        },
        Err(ReadFault::Undecodable(e)) => {
            assert(u.errors[n as int].kind == IssueKind::SstManifestCorrupt && u.errors[n as int].path == path);
        },
        Ok(manifest) => {
            let ids = manifest.live_sst_ids@;
            let f = missing_errors(dir, tables, ids);
            let found = flat(ids.len(), f);
            assert forall|i: int| 0 <= i < ids.len() implies is_listed_id(tables, #[trigger] ids[i]) || tells_of(
                u.errors,
                IssueKind::LiveSstMissing,
                joined(dir, sst_name(ids[i])),
            ) by {
                if !is_listed_id(tables, ids[i]) {
                    assert(!is_on_disk(tables, ids[i]));
                    let j = lemma_flat_at(ids.len(), f, i, 0);
                    assert(u.errors[n + j] == found[j]);
                    assert(u.errors[n + j].kind == IssueKind::LiveSstMissing);
                }
            }
        },
    }
}

/// What one part adds is somewhere in what all add.
proof fn lemma_flat_at(n: nat, f: spec_fn(int) -> Seq<Finding>, i: int, k: int) -> (j: int)
    requires
        0 <= i < n,
        0 <= k < f(i).len(),
    ensures
        0 <= j < flat(n, f).len(),
        flat(n, f)[j] == f(i)[k],
    decreases n,
{
    let m = (n - 1) as nat;
    if i == m {
        flat(m, f).len() + k
    } else {
        lemma_flat_at(m, f, i, k)
    }
}

/// What an audit of a data directory asked, with the answers that it got.
pub struct DataAnswers {
    pub lens: (u64, u64),
    pub tables: Seq<TableAnswers>,
    pub found: Seq<Seq<Finding>>,
    pub log: Option<Result<WalScan, EngineError>>,
    pub manifest: Option<Result<SstManifest, ReadFault>>,
}

/// The answers are such as `files` may give of the directory, and everything
/// that they show to be wrong is told in `report`.
pub open spec fn data_told<F: StoreAudit>(
    files: &F,
    mode: VerifyMode,
    store_id: Option<u128>,
    dir: Seq<char>,
    entries: Seq<DirEntry>,
    encrypted: bool,
    a: DataAnswers,
    report: VerifyReport,
) -> bool {
    let tables = tables_in(dir, entries);
    let errors = findings(report.errors@);
    &&& call_ensures(F::section_lens, (files, encrypted), a.lens)
    &&& tables_told(files, mode, a.lens, tables, a.tables, a.found, errors)
    &&& a.log is Some == holds_kind(entries, FileKind::Wal)
    &&& a.log matches Some(s) ==> scans_log(files, dir, store_id, s) && log_told(
        dir,
        s,
        errors,
        findings(report.warnings@),
    )
    &&& mode is FullLogical ==> if a.manifest is Some {
        gives_manifest(files, dir, a.manifest->Some_0) && manifest_told(dir, tables, a.manifest->Some_0, errors)
    } else {
        tells_file(files, joined(dir, "manifest.meta"@), false)
    }
}

/// Everything that the files answer of a data directory and that is wrong is
/// told, as what it is and where it is; and a report is healthy exactly if it
/// tells no error.
pub proof fn what_is_wrong_with_a_directory_is_told<F: StoreAudit + IndexCodec>(
    files: &F,
    prefixes: FtsPrefixes,
    mode: VerifyMode,
    store_id: Option<u128>,
    dir: Seq<char>,
    entries: Seq<DirEntry>,
    encrypted: bool,
    t: Tally,
    r: Result<VerifyReport, EngineError>,
) -> (a: DataAnswers)
    requires
        audits_data(files, prefixes, mode, store_id, dir, entries, encrypted, t, r),
    ensures
        r is Ok,
        r->Ok_0.healthy == (r->Ok_0.errors@.len() == 0),
        data_told(files, mode, store_id, dir, entries, encrypted, a, r->Ok_0),
        is_among(t.errors, findings(r->Ok_0.errors@)),
        is_among(t.warnings, findings(r->Ok_0.warnings@)),
{
    let tables = tables_in(dir, entries);
    let there = holds_kind(entries, FileKind::Wal);
    let (lens, la, log, b, kv, c) = choose|
        lens: (u64, u64),
        la: Tally,
        log: Seq<WalRecord>,
        b: Tally,
        kv: Map<Seq<u8>, Slot>,
        c: Tally,
    |
        {
            &&& #[trigger] call_ensures(F::section_lens, (files, encrypted), lens)
            &&& #[trigger] audits_log(files, dir, there, store_id, t, la, log)
            &&& #[trigger] audits_tables(files, mode, lens, tables, tables.len() as int, la, b, kv)
            &&& #[trigger] audits_manifest(files, mode, dir, tables, b, c)
            &&& ends(files, prefixes, mode, dir, kv, record_rows(log), c, r)
        };
    let scan = lemma_log(files, dir, there, store_id, t, la, log);
    let (answers, found) = lemma_tables(files, mode, lens, tables, tables.len() as int, la, b, kv);
    assert(tables.take(tables.len() as int) =~= tables);
    let manifest = lemma_audited_manifest(files, mode, dir, tables, b, c);
    lemma_ends(files, prefixes, mode, dir, kv, record_rows(log), c, r);
    let report = r->Ok_0;
    let errors = findings(report.errors@);
    let warnings = findings(report.warnings@);
    assert(errors.len() == report.errors@.len());
    lemma_among_through(b.errors, c.errors, errors);
    lemma_among_through(la.errors, b.errors, errors);
    lemma_among_through(t.errors, la.errors, errors);
    lemma_among_through(la.warnings, c.warnings, warnings);
    lemma_among_through(t.warnings, la.warnings, warnings);
    let a = DataAnswers { lens, tables: answers, found, log: scan, manifest };
    assert(tables_told(files, mode, lens, tables, answers, found, errors)) by {
        assert forall|i: int| 0 <= i < tables.len() implies is_among(#[trigger] found[i], errors) && tells_table(
            found[i],
            files,
            mode,
            lens,
            tables[i],
            answers[i].loaded,
            answers[i].opened,
            answers[i].reads,
        ) by {
            assert(is_among(found[i], b.errors));
            lemma_among_through(found[i], b.errors, errors);
        }
    }
    lemma_tells_among(la.errors, errors, joined(dir, "wal.log"@));
    lemma_tells_among(la.warnings, warnings, joined(dir, "wal.log"@));
    if let Some(m) = manifest {
        if mode == VerifyMode::FullLogical {
            lemma_manifest_among(dir, tables, m, c.errors, errors);
        }
    }
    a
}

proof fn lemma_manifest_among(
    dir: Seq<char>,
    tables: Seq<Listed>,
    m: Result<SstManifest, ReadFault>,
    some: Seq<Finding>,
    all: Seq<Finding>,
)
    requires
        manifest_told(dir, tables, m, some),
        is_among(some, all),
    ensures
        manifest_told(dir, tables, m, all),
{
    lemma_tells_among(some, all, joined(dir, "manifest.meta"@));
    if let Ok(manifest) = m {
        let ids = manifest.live_sst_ids@;
        assert forall|i: int| 0 <= i < ids.len() implies is_listed_id(tables, #[trigger] ids[i]) || tells_of(
            all,
            IssueKind::LiveSstMissing,
            joined(dir, sst_name(ids[i])),
        ) by {
            lemma_tells_among(some, all, joined(dir, sst_name(ids[i])));
        }
    }
}

proof fn lemma_log<F: StoreAudit>(
    files: &F,
    dir: Seq<char>,
    there: bool,
    store_id: Option<u128>,
    t: Tally,
    u: Tally,
    log: Seq<WalRecord>,
) -> (scan: Option<Result<WalScan, EngineError>>)
    requires
        audits_log(files, dir, there, store_id, t, u, log),
    ensures
        scan is Some == there,
        scan matches Some(s) ==> scans_log(files, dir, store_id, s) && log_told(dir, s, u.errors, u.warnings) && (
        s matches Ok(x) ==> log == x.records@),
        scan is None ==> log.len() == 0,
        is_among(t.errors, u.errors),
        is_among(t.warnings, u.warnings),
{
    let path = joined(dir, "wal.log"@);
    if !there {
        assert(is_among(t.errors, u.errors));
        assert(is_among(t.warnings, u.warnings));
        None
    } else {
        let s = choose|s: Result<WalScan, EngineError>|
            {
                &&& #[trigger] scans_log(files, dir, store_id, s)
                &&& u == log_tally(dir, s, t)
                &&& log == match s {
                    Ok(scan) => scan.records@,
                    Err(e) => Seq::<WalRecord>::empty(),
                }
            };
        assert forall|k: int| 0 <= k < t.errors.len() implies u.errors.contains(#[trigger] t.errors[k]) by {
            assert(u.errors[k] == t.errors[k]);
        }
        assert forall|k: int| 0 <= k < t.warnings.len() implies u.warnings.contains(#[trigger] t.warnings[k]) by {
            assert(u.warnings[k] == t.warnings[k]);
        }
        match s {
            Err(e) => {
                let n = t.errors.len() as int;
                assert(u.errors[n].kind == IssueKind::WalCorrupt && u.errors[n].path == path);
            },
            Ok(scan) => {
                if scan.torn_tail_bytes > 0 {
                    let n = t.warnings.len() as int;
                    assert(u.warnings[n].kind == IssueKind::WalTornTail && u.warnings[n].path == path);
                }
            },
        }
        Some(s)
    }
}

proof fn lemma_audited_manifest<F: StoreAudit>(
    files: &F,
    mode: VerifyMode,
    dir: Seq<char>,
    tables: Seq<Listed>,
    t: Tally,
    u: Tally,
) -> (manifest: Option<Result<SstManifest, ReadFault>>)
    requires
        audits_manifest(files, mode, dir, tables, t, u),
    ensures
        mode is FullLogical ==> if manifest is Some {
            gives_manifest(files, dir, manifest->Some_0) && manifest_told(dir, tables, manifest->Some_0, u.errors)
        } else {
            tells_file(files, joined(dir, "manifest.meta"@), false)
        },
        is_among(t.errors, u.errors),
        u.warnings == t.warnings,
{
    assert(is_among(t.errors, t.errors));
    if mode == VerifyMode::FullLogical {
        let path = joined(dir, "manifest.meta"@);
        if u == t && tells_file(files, path, false) {
            None
        } else {
            let m = choose|m: Result<SstManifest, ReadFault>|
                #[trigger] gives_manifest(files, dir, m) && u == confronted(dir, tables, m, t);
            lemma_manifest(dir, tables, m, t);
            Some(m)
        }
    } else {
        None
    }
}

proof fn lemma_parses_grow<C: IndexCodec>(
    codec: &C,
    prefixes: FtsPrefixes,
    kv: Seq<(Key, Value)>,
    dir: Seq<char>,
    t: Tally,
    u: Tally,
)
    requires
        checks_logic(codec, prefixes, kv, dir, t, u),
    ensures
        is_among(t.errors, u.errors),
        is_among(t.warnings, u.warnings),
{
    crate::store::verify_logical::parse_laws::lemma_checks_grow(codec, prefixes, kv, dir, t, u);
    assert forall|k: int| 0 <= k < t.errors.len() implies u.errors.contains(#[trigger] t.errors[k]) by {
        assert(u.errors[k] == t.errors[k]);
    }
    assert forall|k: int| 0 <= k < t.warnings.len() implies u.warnings.contains(#[trigger] t.warnings[k]) by {
        assert(u.warnings[k] == t.warnings[k]);
    }
}

proof fn lemma_ends<F: StoreAudit + IndexCodec>(
    files: &F,
    prefixes: FtsPrefixes,
    mode: VerifyMode,
    dir: Seq<char>,
    kv: Map<Seq<u8>, Slot>,
    log: Seq<crate::store::rows::Row>,
    t: Tally,
    r: Result<VerifyReport, EngineError>,
)
    requires
        ends(files, prefixes, mode, dir, kv, log, t, r),
    ensures
        r is Ok,
        r->Ok_0.healthy == (r->Ok_0.errors@.len() == 0),
        is_among(t.errors, findings(r->Ok_0.errors@)),
        is_among(t.warnings, findings(r->Ok_0.warnings@)),
{
    let report = r->Ok_0;
    assert(is_among(t.errors, t.errors));
    assert(is_among(t.warnings, t.warnings));
    if mode == VerifyMode::FullLogical {
        if t.errors.len() > 0 {
            let w = findings(report.warnings@);
            assert forall|k: int| 0 <= k < t.warnings.len() implies w.contains(#[trigger] t.warnings[k]) by {
                assert(w[k] == t.warnings[k]);
            }
        } else {
            let (entries, u) = choose|entries: Vec<(Key, Value)>, u: Tally|
                {
                    &&& lists(pairs_view(entries@), live(put_rows(kv, log)))
                    &&& #[trigger] checks_logic(files, prefixes, entries@, dir, t, u)
                    &&& closes(r, u)
                };
            lemma_parses_grow(files, prefixes, entries@, dir, t, u);
        }
    }
    assert(findings(report.errors@).len() == report.errors@.len());
}

/// A block of a listed table that cannot be read makes the report of a full
/// audit unhealthy, whichever block it is, with an error that stands for the
/// failure, in that table's file.
pub proof fn an_unreadable_block_is_told<F: StoreAudit + IndexCodec>(
    files: &F,
    prefixes: FtsPrefixes,
    mode: VerifyMode,
    store_id: Option<u128>,
    dir: Seq<char>,
    entries: Seq<DirEntry>,
    encrypted: bool,
    t: Tally,
    r: Result<VerifyReport, EngineError>,
    i: int,
    block: int,
)
    requires
        audits_data(files, prefixes, mode, store_id, dir, entries, encrypted, t, r),
        !(mode is Quick),
        0 <= i < tables_in(dir, entries).len(),
        forall|lens: (u64, u64), l: Result<BlockSstFile, EngineError>|
            call_ensures(F::section_lens, (files, encrypted), lens) && #[trigger] loads(
                files,
                tables_in(dir, entries)[i].path,
                tables_in(dir, entries)[i].id,
                tables_in(dir, entries)[i].len,
                lens.0,
                lens.1,
                l,
            ) ==> (l matches Ok(sst) && cannot_be_read(files, sst, block)),
        forall|p: &str, o: Result<(), String>|
            p@ == tables_in(dir, entries)[i].path && #[trigger] call_ensures(F::open_table, (files, p), o) ==> o is Ok,
    ensures
        r matches Ok(report) && !report.healthy && tells_unread(
            files,
            findings(report.errors@),
            tables_in(dir, entries)[i].path,
            block,
        ),
{
    let a = what_is_wrong_with_a_directory_is_told(
        files,
        prefixes,
        mode,
        store_id,
        dir,
        entries,
        encrypted,
        t,
        r,
    );
    let report = r->Ok_0;
    let errors = findings(report.errors@);
    let table = tables_in(dir, entries)[i];
    let x = a.tables[i];
    assert(is_among(a.found[i], errors));
    assert(loads(files, table.path, table.id, table.len, a.lens.0, a.lens.1, x.loaded));
    let sst = x.loaded->Ok_0;
    assert(cannot_be_read(files, sst, block));
    let read = x.reads[block];
    assert(reads_block(files, &sst, block, x.reads[block]));
    let e = read->Err_0;
    assert(tells_block(a.found[i], sst, table.path, block, x.reads[block]));
    assert(tells_error(a.found[i], e, table.path));
    lemma_tells_among(a.found[i], errors, table.path);
    assert(reads_block(files, &sst, block, Err(e)));
    assert(errors.len() == report.errors@.len());
}

/// Block `i` is one of the table's, and every read of it fails.
pub open spec fn cannot_be_read<F: StoreAudit>(files: &F, sst: BlockSstFile, i: int) -> bool {
    &&& 0 <= i < sst.block_index@.len()
    &&& forall|x: Result<Vec<(Key, Option<Value>)>, EngineError>| #[trigger]
        reads_block(files, &sst, i, x) ==> x is Err
}

/// Some finding in a file stands for an error that a read of block `i` may
/// give.
pub open spec fn tells_unread<F: StoreAudit>(files: &F, found: Seq<Finding>, path: Seq<char>, i: int) -> bool {
    exists|sst: BlockSstFile, e: EngineError| #[trigger]
        reads_block(files, &sst, i, Err(e)) && tells_error(found, e, path)
}

/// Some entry is a file of a name.
pub open spec fn has_file(entries: Seq<DirEntry>, name: Seq<char>) -> bool {
    exists|i: int| 0 <= i < entries.len() && (#[trigger] entries[i]).name@ == name && !entries[i].is_dir
}

/// An entry is told by its name: each of the engine's own files by the one name
/// that it has, a table by its number, a temporary file by its ending, and a
/// generation by its directory.
pub proof fn an_entry_is_told_by_its_name(entry: &DirEntry, kind: FileKind)
    requires
        call_ensures(classify, (entry,), kind),
    ensures
        kind is StoreMeta <==> !entry.is_dir && entry.name@ == "store.meta"@,
        kind is GenerationMeta <==> !entry.is_dir && entry.name@ == "generation.meta"@,
        kind is CryptoMeta <==> !entry.is_dir && entry.name@ == "crypto.meta"@,
        kind is Wal <==> !entry.is_dir && entry.name@ == "wal.log"@,
        kind is Owned <==> !entry.is_dir && (entry.name@ == ".basemyai.lock"@ || entry.name@ == "manifest.meta"@
            || entry.name@ == "wal_epoch.meta"@),
        kind is GenerationDir || kind is OtherDir <==> entry.is_dir,
        kind is GenerationDir ==> exists|n: u64| generation_of(entry.name@) == Some(n),
        forall|n: u64| entry.is_dir && entry.name@ == #[trigger] generation_dir_name(n) ==> kind is GenerationDir,
        forall|id: u64|
            !entry.is_dir && entry.name@ == #[trigger] sst_name(id) ==> kind == FileKind::Sst(id),
        kind matches FileKind::Sst(id) ==> sst_id_of(entry.name@) == Some(id),
        kind is Temporary ==> !entry.is_dir && exists|stem: Seq<char>| entry.name@ == #[trigger] (stem + ".tmp"@),
{
    reveal_strlit("store.meta");
    reveal_strlit("generation.meta");
    reveal_strlit("crypto.meta");
    reveal_strlit("wal.log");
    reveal_strlit(".basemyai.lock");
    reveal_strlit("manifest.meta");
    reveal_strlit("wal_epoch.meta");
    reveal_strlit(".tmp");
    reveal_strlit(".sst");
    let name = entry.name@;
    assert(name == "store.meta"@ ==> name[0] == 's' && name.len() == 10);
    assert(name == "generation.meta"@ ==> name[0] == 'g');
    assert(name == "crypto.meta"@ ==> name[0] == 'c');
    assert(name == "wal.log"@ ==> name[0] == 'w' && name.len() == 7);
    assert(name == ".basemyai.lock"@ ==> name[0] == '.');
    assert(name == "manifest.meta"@ ==> name[0] == 'm');
    assert(name == "wal_epoch.meta"@ ==> name[0] == 'w' && name.len() == 14);
    assert forall|n: u64| entry.is_dir && entry.name@ == #[trigger] generation_dir_name(
        n,
    ) implies kind is GenerationDir by {
        crate::store::files::a_generation_is_found_by_its_name(n);
    }
    assert forall|id: u64| !entry.is_dir
        && entry.name@ == #[trigger] sst_name(id) implies kind == FileKind::Sst(id) by {
        crate::store::sst_block::a_table_is_found_by_its_name(id);
        let end = name.len() - 4;
        let digits = crate::text::dec20_text(id as nat);
        assert(name == digits + ".sst"@);
        assert(name[name.len() - 1] == ".sst"@[3]);
        assert(name[name.len() - 1] == 't');
        assert("store.meta"@[9] == 'a' && "generation.meta"@[14] == 'a' && "crypto.meta"@[10] == 'a');
        assert("wal.log"@[6] == 'g' && ".basemyai.lock"@[13] == 'k' && "manifest.meta"@[12] == 'a');
        assert("wal_epoch.meta"@[13] == 'a');
        if crate::text::ends_in(name, ".tmp"@) {
            assert(name.subrange(end, name.len() as int)[3] == name[name.len() - 1]);
            assert(".tmp"@[3] == 'p');
        }
    }
    if kind is Temporary {
        let stem = name.subrange(0, name.len() - 4);
        assert(name =~= stem + ".tmp"@);
    }
}

/// Every answer is that of a whole directory: each table is whole, the log
/// scans, and the manifest, where it is looked at and there, lists tables that
/// are there.
pub open spec fn is_whole_data<F: StoreAudit>(
    files: &F,
    mode: VerifyMode,
    store_id: Option<u128>,
    dir: Seq<char>,
    entries: Seq<DirEntry>,
    encrypted: bool,
    a: DataAnswers,
) -> bool {
    let tables = tables_in(dir, entries);
    &&& call_ensures(F::section_lens, (files, encrypted), a.lens)
    &&& a.tables.len() == tables.len()
    &&& forall|i: int|
        0 <= i < tables.len() ==> is_whole_table(
            mode,
            a.lens,
            (#[trigger] a.tables[i]).loaded,
            a.tables[i].opened,
            a.tables[i].reads,
        ) && answers_of(files, mode, a.lens, tables[i], a.tables[i])
    &&& has_file(entries, "wal.log"@) ==> (a.log matches Some(Ok(scan)) && scans_log(files, dir, store_id, Ok(scan)))
    &&& mode is FullLogical ==> match a.manifest {
        None => tells_file(files, joined(dir, "manifest.meta"@), false),
        Some(m) => gives_manifest(files, dir, m) && (m matches Ok(manifest) && forall|i: int|
            0 <= i < manifest.live_sst_ids@.len() ==> is_listed_id(tables, #[trigger] manifest.live_sst_ids@[i])),
    }
}

/// The answers are such as `files` may give of a table.
pub open spec fn answers_of<F: StoreAudit>(
    files: &F,
    mode: VerifyMode,
    lens: (u64, u64),
    table: Listed,
    x: TableAnswers,
) -> bool {
    &&& loads(files, table.path, table.id, table.len, lens.0, lens.1, x.loaded)
    &&& !(mode is Quick) && x.loaded is Ok ==> {
        &&& exists|p: &str| p@ == table.path && #[trigger] call_ensures(F::open_table, (files, p), x.opened)
        &&& x.opened is Ok ==> forall|i: int|
            0 <= i < x.reads.len() ==> reads_block(files, &x.loaded->Ok_0, i, #[trigger] x.reads[i])
    }
}

proof fn lemma_nothing_told(found: Seq<Finding>, path: Seq<char>)
    requires
        found.len() == 0,
    ensures
        forall|kind: IssueKind| !#[trigger] tells_of(found, kind, path),
        forall|e: EngineError| !#[trigger] tells_error(found, e, path),
{
}

proof fn lemma_whole_data<F: StoreAudit>(
    files: &F,
    mode: VerifyMode,
    store_id: Option<u128>,
    dir: Seq<char>,
    entries: Seq<DirEntry>,
    encrypted: bool,
    a: DataAnswers,
    report: VerifyReport,
)
    requires
        data_told(files, mode, store_id, dir, entries, encrypted, a, report),
        report.errors@.len() == 0,
    ensures
        is_whole_data(files, mode, store_id, dir, entries, encrypted, a),
{
    let tables = tables_in(dir, entries);
    let errors = findings(report.errors@);
    assert(errors.len() == 0);
    assert forall|i: int| 0 <= i < tables.len() implies is_whole_table(
        mode,
        a.lens,
        (#[trigger] a.tables[i]).loaded,
        a.tables[i].opened,
        a.tables[i].reads,
    ) && answers_of(files, mode, a.lens, tables[i], a.tables[i]) by {
        let found = a.found[i];
        let x = a.tables[i];
        assert(is_among(a.found[i], errors));
        if found.len() > 0 {
            assert(errors.contains(found[0]));
        }
        lemma_nothing_told(found, tables[i].path);
        let sst = x.loaded->Ok_0;
        assert forall|k: int| 0 <= k < sst.block_index@.len() implies #[trigger] super::complete_laws::is_in_place(
            sst,
            a.lens.0,
            k,
        ) && super::complete_laws::is_in_key_order(sst, k) by {
            assert(super::complete_laws::is_in_key_order(sst, k) || tells_of(
                found,
                IssueKind::SstKeyOrder,
                tables[i].path,
            ));
        }
        if !(mode is Quick) {
            assert forall|k: int| 0 <= k < x.reads.len() implies is_whole_block(sst, k, #[trigger] x.reads[k]) by {
                assert(tells_block(found, sst, tables[i].path, k, x.reads[k]));
            }
        }
    }
    lemma_nothing_told(errors, joined(dir, "wal.log"@));
    lemma_nothing_told(errors, joined(dir, "manifest.meta"@));
    lemma_has_file(entries);
    if let Some(m) = a.manifest {
        if mode is FullLogical {
            if let Ok(manifest) = m {
                let ids = manifest.live_sst_ids@;
                assert forall|i: int| 0 <= i < ids.len() implies is_listed_id(tables, #[trigger] ids[i]) by {
                    lemma_nothing_told(errors, joined(dir, sst_name(ids[i])));
                }
            }
        }
    }
}

/// The files that an audit looks for are found by their names.
proof fn lemma_has_file(entries: Seq<DirEntry>)
    ensures
        holds_kind(entries, FileKind::StoreMeta) == has_file(entries, "store.meta"@),
        holds_kind(entries, FileKind::GenerationMeta) == has_file(entries, "generation.meta"@),
        holds_kind(entries, FileKind::CryptoMeta) == has_file(entries, "crypto.meta"@),
        holds_kind(entries, FileKind::Wal) == has_file(entries, "wal.log"@),
{
    lemma_named(entries, FileKind::StoreMeta, "store.meta"@);
    lemma_named(entries, FileKind::GenerationMeta, "generation.meta"@);
    lemma_named(entries, FileKind::CryptoMeta, "crypto.meta"@);
    lemma_named(entries, FileKind::Wal, "wal.log"@);
}

proof fn lemma_named(entries: Seq<DirEntry>, kind: FileKind, name: Seq<char>)
    requires
        (kind is StoreMeta && name == "store.meta"@) || (kind is GenerationMeta && name == "generation.meta"@) || (
        kind is CryptoMeta && name == "crypto.meta"@) || (kind is Wal && name == "wal.log"@),
    ensures
        holds_kind(entries, kind) == has_file(entries, name),
{
    reveal_strlit("store.meta");
    reveal_strlit("generation.meta");
    reveal_strlit("crypto.meta");
    reveal_strlit("wal.log");
    assert("store.meta"@[0] == 's' && "generation.meta"@[0] == 'g' && "crypto.meta"@[0] == 'c');
    assert("wal.log"@[0] == 'w');
    assert forall|i: int| 0 <= i < entries.len() implies (#[trigger] kind_of(entries[i].name@, entries[i].is_dir) == kind
        <==> entries[i].name@ == name && !entries[i].is_dir) by {}
    if holds_kind(entries, kind) {
        let i = choose|i: int| 0 <= i < entries.len()
            && #[trigger] kind_of(entries[i].name@, entries[i].is_dir) == kind;
        assert(entries[i].name@ == name);
    }
    if has_file(entries, name) {
        let i = choose|i: int| 0 <= i < entries.len() && (#[trigger] entries[i]).name@ == name && !entries[i].is_dir;
        assert(kind_of(entries[i].name@, entries[i].is_dir) == kind);
    }
}

/// A data directory is whole, and sealed exactly if a key is supplied, which
/// then opens its key record.
pub open spec fn is_whole_dir<F: StoreAudit>(
    files: &F,
    supplied: SuppliedKey<'_>,
    mode: VerifyMode,
    store_id: Option<u128>,
    dir: Seq<char>,
    generation: u64,
    entries: Seq<DirEntry>,
) -> bool {
    &&& has_file(entries, "crypto.meta"@) == (supplied is Some)
    &&& generation != 0 ==> supplied is Some
    &&& supplied matches Some((bytes, how)) ==> exists|bound: Option<u64>, l: Result<(), EngineError>|
        #[trigger] gives_crypto(files, dir, bytes@, how, bound, l) && l is Ok && bound == (if generation == 0 {
            None
        } else {
            Some(generation)
        })
    &&& exists|a: DataAnswers| #[trigger]
        is_whole_data(files, mode, store_id, dir, entries, supplied is Some, a)
}

/// The root leads to a whole data directory; or it holds nothing of a store.
pub open spec fn is_whole_root<F: StoreAudit>(
    files: &F,
    supplied: SuppliedKey<'_>,
    mode: VerifyMode,
    entries: Seq<DirEntry>,
) -> bool {
    if !has_file(entries, "store.meta"@) {
        &&& !has_file(entries, "wal.log"@)
        &&& !has_file(entries, "crypto.meta"@)
        &&& !has_file(entries, "generation.meta"@)
        &&& tables_in(Seq::empty(), entries).len() == 0
        &&& !holds_kind(entries, FileKind::GenerationDir)
    } else {
        exists|meta: StoreMeta|
            #[trigger] call_ensures(F::read_store_meta, (files,), Ok(meta)) && meta.store_format_version
                == STORE_FORMAT_VERSION && if !has_file(entries, "generation.meta"@) {
                is_whole_dir(files, supplied, mode, meta.store_id, Seq::empty(), 0, entries)
            } else {
                exists|generation: u64, inner: Vec<DirEntry>|
                    {
                        &&& #[trigger] call_ensures(F::read_generation, (files,), Ok(generation))
                        &&& generation != 0
                        &&& tells_dir(files, generation_dir_name(generation), true)
                        &&& #[trigger] gives_list(files, generation_dir_name(generation), Ok(inner))
                        &&& is_whole_dir(
                            files,
                            supplied,
                            mode,
                            meta.store_id,
                            generation_dir_name(generation),
                            generation,
                            inner@,
                        )
                    }
            }
    }
}

proof fn lemma_whole_dir<F: StoreAudit + IndexCodec>(
    files: &F,
    prefixes: FtsPrefixes,
    supplied: SuppliedKey<'_>,
    mode: VerifyMode,
    store_id: Option<u128>,
    dir: Seq<char>,
    generation: u64,
    entries: Seq<DirEntry>,
    t: Tally,
    r: Result<VerifyReport, EngineError>,
)
    requires
        audits_crypto(files, prefixes, supplied, mode, store_id, dir, generation, entries, t, r),
        r is Ok,
        r->Ok_0.healthy,
    ensures
        t.errors.len() == 0,
        is_whole_dir(files, supplied, mode, store_id, dir, generation, entries),
{
    lemma_has_file(entries);
    let report = r->Ok_0;
    let errors = findings(report.errors@);
    let u = match supplied {
        None => t,
        Some(_) => t.with_file(),
    };
    assert(audits_data(files, prefixes, mode, store_id, dir, entries, supplied is Some, u, r));
    let a = what_is_wrong_with_a_directory_is_told(
        files,
        prefixes,
        mode,
        store_id,
        dir,
        entries,
        supplied is Some,
        u,
        r,
    );
    lemma_whole_data(files, mode, store_id, dir, entries, supplied is Some, a, report);
    assert(errors.len() == 0);
    if t.errors.len() > 0 {
        assert(errors.contains(u.errors[0]));
    }
}

/// A healthy report means a whole store: its root is listed and leads, through
/// a record of this format and the pointer, where there is one, to a directory
/// whose key opens, whose log scans, whose every table loads and is laid out in
/// order, and, of a full audit, whose every block was read and is in key order,
/// counts its tombstones and is admitted by its filter.
pub proof fn a_healthy_report_means_a_whole_store<F: StoreAudit + IndexCodec>(
    files: &F,
    prefixes: FtsPrefixes,
    supplied: SuppliedKey<'_>,
    mode: VerifyMode,
    r: Result<VerifyReport, EngineError>,
)
    requires
        audits(files, prefixes, supplied, mode, r),
        r is Ok,
        r->Ok_0.healthy,
    ensures
        exists|entries: Vec<DirEntry>|
            #[trigger] gives_list(files, Seq::empty(), Ok(entries)) && is_whole_root(
                files,
                supplied,
                mode,
                entries@,
            ),
{
    let report = r->Ok_0;
    assert(findings(report.errors@).len() == report.errors@.len());
    let l = choose|l: Result<Vec<DirEntry>, EngineError>|
        #[trigger] gives_list(files, Seq::empty(), l) && match l {
            Err(e) => false,
            Ok(entries) => audits_root(files, prefixes, supplied, mode, entries@, r),
        };
    let listed = l->Ok_0;
    let entries = listed@;
    assert(gives_list(files, Seq::empty(), Ok(listed)));
    lemma_has_file(entries);
    if holds_kind(entries, FileKind::StoreMeta) {
        let start = no_tally().with(Seq::empty(), strays_in(Seq::empty(), entries)).with_file();
        let path = "store.meta"@;
        let m = choose|m: Result<StoreMeta, ReadFault>|
            #[trigger] call_ensures(F::read_store_meta, (files,), m) && match m {
                Err(ReadFault::Unreadable(why)) => audits_generation(
                    files,
                    prefixes,
                    supplied,
                    mode,
                    None,
                    entries,
                    start.with_error(IssueKind::Io, path, why@),
                    r,
                ),
                Err(ReadFault::Undecodable(e)) => audits_generation(
                    files,
                    prefixes,
                    supplied,
                    mode,
                    None,
                    entries,
                    start.with_error(IssueKind::StoreMetaCorrupt, path, e.text()),
                    r,
                ),
                Ok(meta) => meta.store_format_version == STORE_FORMAT_VERSION && audits_generation(
                    files,
                    prefixes,
                    supplied,
                    mode,
                    meta.store_id,
                    entries,
                    start,
                    r,
                ),
            };
        let id = match m {
            Ok(meta) => meta.store_id,
            Err(_) => None,
        };
        let t = match m {
            Err(ReadFault::Unreadable(why)) => start.with_error(IssueKind::Io, path, why@),
            Err(ReadFault::Undecodable(e)) => start.with_error(IssueKind::StoreMetaCorrupt, path, e.text()),
            Ok(meta) => start,
        };
        assert(audits_generation(files, prefixes, supplied, mode, id, entries, t, r));
        if !holds_kind(entries, FileKind::GenerationMeta) {
            lemma_whole_dir(files, prefixes, supplied, mode, id, Seq::empty(), 0, entries, t, r);
            assert(call_ensures(F::read_store_meta, (files,), Ok(m->Ok_0)));
        } else {
            let u = t.with_file();
            let g = choose|g: Result<u64, ReadFault>|
                #[trigger] call_ensures(F::read_generation, (files,), g) && match g {
                    Err(_) => false,
                    Ok(generation) => audits_active(files, prefixes, supplied, mode, id, generation, u, r),
                };
            let generation = g->Ok_0;
            let dir = generation_dir_name(generation);
            let k = choose|k: Result<Vec<DirEntry>, EngineError>|
                #[trigger] gives_list(files, dir, k) && match k {
                    Err(e) => false,
                    Ok(inner) => audits_crypto(
                        files,
                        prefixes,
                        supplied,
                        mode,
                        id,
                        dir,
                        generation,
                        inner@,
                        u.with(Seq::empty(), strays_in(dir, inner@)),
                        r,
                    ),
                };
            let inner = k->Ok_0;
            let w = u.with(Seq::empty(), strays_in(dir, inner@));
            lemma_whole_dir(files, prefixes, supplied, mode, id, dir, generation, inner@, w, r);
            assert(call_ensures(F::read_store_meta, (files,), Ok(m->Ok_0)));
            assert(call_ensures(F::read_generation, (files,), Ok(generation)));
            assert(gives_list(files, dir, Ok(inner)));
        }
    }
}

/// The keyspaces are sound: records, mappings and nodes belong together, the
/// allocator is above every id in use, dimensions and neighbors agree, documents
/// and postings agree under the agents that own them, and statistics are sums.
pub open spec fn are_sound_keyspaces(v: ViewV) -> bool {
    &&& in_use(v) ==> links_hold(v) && !is_breached(v)
    &&& v.memory_meta matches Some(next) ==> !uses_from(v, next)
    &&& !dims_differ(v)
    &&& !lacks_neighbor(v)
    &&& texts_hold(v)
    &&& !stats_lie(v)
}

/// What the logical checks of a healthy audit looked at: the live entries of
/// the tables with the log over them, and what these hold.
pub struct LogicalAnswers {
    pub tables: Map<Seq<u8>, Slot>,
    pub log: Seq<WalRecord>,
    pub merged: Map<Seq<u8>, Slot>,
    pub entries: Vec<(Key, Value)>,
    pub view: ViewV,
}

/// Every reserved entry parses and has its row in the view, every table of
/// which is in order; and what the view holds is sound.
#[verifier::opaque]
pub open spec fn holds_soundly<C: IndexCodec>(
    codec: &C,
    fts: FtsPrefixes,
    entries: Seq<(Key, Value)>,
    v: ViewV,
) -> bool {
    &&& keys_differ(entries)
    &&& is_in_order(v)
    &&& forall|e: int| 0 <= e < entries.len() ==> has_its_row(codec, fts, #[trigger] entries[e], v)
    &&& are_sound_keyspaces(v)
}

proof fn lemma_sound_view<C: IndexCodec>(
    codec: &C,
    fts: FtsPrefixes,
    kv: Seq<(Key, Value)>,
    map: Map<Seq<u8>, Seq<u8>>,
    dir: Seq<char>,
    t: Tally,
    u: Tally,
) -> (v: ViewV)
    requires
        lists(pairs_view(kv), map),
        checks_logic(codec, fts, kv, dir, t, u),
        u.errors.len() == 0,
    ensures
        holds_soundly(codec, fts, kv, v),
{
    let (v, mid) = choose|v: ViewV, mid: Tally|
        #[trigger] parses(codec, fts, kv, kv.len() as int, dir, t, v, mid) && u == mid.with(
            logical_errors(v, dir),
            logical_warnings(v, dir),
        );
    assert(mid.errors.len() == 0 && logical_errors(v, dir).len() == 0);
    lemma_listed_keys_differ(kv, map);
    a_view_holds_what_the_entries_hold(codec, fts, kv, dir, t, v, mid);
    assert forall|e: int| 0 <= e < kv.len() implies has_its_row(codec, fts, #[trigger] kv[e], v) by {
        lemma_nothing_told(mid.errors, dir);
        lemma_has_its_row(codec, fts, kv[e], v, mid.errors, mid.warnings, dir);
    }
    logical_errors_have_their_causes(v, dir);
    reveal(holds_soundly);
    v
}

proof fn lemma_has_its_row<C: IndexCodec>(
    codec: &C,
    fts: FtsPrefixes,
    entry: (Key, Value),
    v: ViewV,
    errors: Seq<Finding>,
    warnings: Seq<Finding>,
    dir: Seq<char>,
)
    requires
        errors.len() == 0,
        record_taken(codec, fts, entry, v.records, errors, dir),
        mapping_taken(codec, fts, entry, v.vecmap, errors, dir),
        node_taken(codec, fts, entry, v.nodes, errors, dir),
        posting_taken(codec, fts, entry, v.postings, errors, dir),
        document_taken(codec, fts, entry, v.docterms, errors, dir),
        entity_taken(codec, fts, entry, v.entities, errors, dir),
        edge_taken(codec, fts, entry, v.edges, errors, dir),
        single_taken(codec, fts, entry, v, errors, warnings, dir),
    ensures
        has_its_row(codec, fts, entry, v),
{
    lemma_nothing_told(errors, dir);
    a_place_has_one_key(entry.0@, fts);
}

/// A healthy report of the deepest audit means sound keyspaces: every live
/// entry, of the tables with the log over them, was looked at; every reserved
/// one of them parses and decodes; and what they hold is sound.
pub proof fn a_healthy_logical_report_means_sound_keyspaces<F: StoreAudit + IndexCodec>(
    files: &F,
    prefixes: FtsPrefixes,
    store_id: Option<u128>,
    dir: Seq<char>,
    entries: Seq<DirEntry>,
    encrypted: bool,
    t: Tally,
    r: Result<VerifyReport, EngineError>,
) -> (x: LogicalAnswers)
    requires
        audits_data(files, prefixes, VerifyMode::FullLogical, store_id, dir, entries, encrypted, t, r),
        r is Ok,
        r->Ok_0.healthy,
    ensures
        overlays(x.merged, x.tables, x.log),
        lists(pairs_view(x.entries@), live(x.merged)),
        holds_soundly(files, prefixes, x.entries@, x.view),
{
    let mode = VerifyMode::FullLogical;
    let tables = tables_in(dir, entries);
    let (lens, la, log, b, kv, c) = choose|
        lens: (u64, u64),
        la: Tally,
        log: Seq<WalRecord>,
        b: Tally,
        kv: Map<Seq<u8>, Slot>,
        c: Tally,
    |
        {
            &&& #[trigger] call_ensures(F::section_lens, (files, encrypted), lens)
            &&& #[trigger] audits_log(files, dir, holds_kind(entries, FileKind::Wal), store_id, t, la, log)
            &&& #[trigger] audits_tables(files, mode, lens, tables, tables.len() as int, la, b, kv)
            &&& #[trigger] audits_manifest(files, mode, dir, tables, b, c)
            &&& ends(files, prefixes, mode, dir, kv, record_rows(log), c, r)
        };
    lemma_ends(files, prefixes, mode, dir, kv, record_rows(log), c, r);
    let report = r->Ok_0;
    let errors = findings(report.errors@);
    assert(errors.len() == 0);
    if c.errors.len() > 0 {
        assert(errors.contains(c.errors[0]));
    }
    lemma_overlays(kv, log);
    let merged = put_rows(kv, record_rows(log));
    let (listed, u) = choose|listed: Vec<(Key, Value)>, u: Tally|
        {
            &&& lists(pairs_view(listed@), live(merged))
            &&& #[trigger] checks_logic(files, prefixes, listed@, dir, c, u)
            &&& closes(r, u)
        };
    let v = lemma_sound_view(files, prefixes, listed@, live(merged), dir, c, u);
    LogicalAnswers { tables: kv, log, merged, entries: listed, view: v }
}

/// A reserved entry parses, and the view has its row, or, of what heals by
/// itself, may lack it.
pub open spec fn has_its_row<C: IndexCodec>(
    codec: &C,
    fts: FtsPrefixes,
    entry: (Key, Value),
    v: ViewV,
) -> bool {
    has_prefix(entry.0@, IDX_PREFIX@) ==> match place_of(entry.0@, fts) {
        PlaceV::Malformed => false,
        PlaceV::MemoryMeta => v.memory_meta is Some,
        PlaceV::Record { .. } => exists|i: int|
            0 <= i < v.records.len() && is_record_row(codec, fts, entry, #[trigger] v.records[i]),
        PlaceV::VecMap { .. } => exists|i: int|
            0 <= i < v.vecmap.len() && is_mapping_row(codec, fts, entry, #[trigger] v.vecmap[i]),
        PlaceV::Node { .. } => exists|i: int|
            0 <= i < v.nodes.len() && is_node_row(codec, fts, entry, #[trigger] v.nodes[i]),
        PlaceV::Posting { .. } => exists|i: int|
            0 <= i < v.postings.len() && is_posting_row(codec, fts, entry, #[trigger] v.postings[i]),
        PlaceV::DocTerms { .. } => exists|i: int|
            0 <= i < v.docterms.len() && is_document_row(codec, fts, entry, #[trigger] v.docterms[i]),
        PlaceV::Entity { .. } => exists|i: int|
            0 <= i < v.entities.len() && is_entity_row(codec, fts, entry, #[trigger] v.entities[i]),
        PlaceV::Edge { .. } => exists|i: int|
            0 <= i < v.edges.len() && is_edge_row(codec, fts, entry, #[trigger] v.edges[i]),
        PlaceV::VectorMeta => true,
        PlaceV::Stats { .. } => true,
    }
}

proof fn lemma_listed_keys_differ(kv: Seq<(Key, Value)>, map: Map<Seq<u8>, Seq<u8>>)
    requires
        lists(pairs_view(kv), map),
    ensures
        keys_differ(kv),
{
    let view = pairs_view(kv);
    assert forall|i: int, j: int| 0 <= i < j < kv.len() implies (#[trigger] kv[i]).0@ != (#[trigger] kv[j]).0@ by {
        assert(bytes_lt(view[i].0, view[j].0));
        lemma_lt_irreflexive(view[i].0);
    }
}

/// Every file that is named as a table is audited, under its number, its path
/// and its length; no other file is; and they come in the order of their
/// numbers.
pub proof fn every_table_file_is_audited(dir: Seq<char>, entries: Seq<DirEntry>)
    ensures
        forall|i: int|
            0 <= i < entries.len() ==> (kind_of((#[trigger] entries[i]).name@, entries[i].is_dir) matches FileKind::Sst(
                id,
            ) ==> tables_in(dir, entries).contains(
                Listed { id, path: joined(dir, entries[i].name@), len: entries[i].len },
            )),
        forall|k: int| 0 <= k < tables_in(dir, entries).len() ==> is_table_file(dir, entries, #[trigger]
            tables_in(dir, entries)[k]),
        forall|k: int, j: int|
            0 <= k < j < tables_in(dir, entries).len() ==> (#[trigger] tables_in(dir, entries)[k]).id <= (#[trigger]
                tables_in(dir, entries)[j]).id,
        tables_in(dir, entries).len() <= entries.len(),
    decreases entries.len(),
{
    if entries.len() > 0 {
        let head = entries.drop_last();
        let last = entries.last();
        let n = head.len() as int;
        let before = tables_in(dir, head);
        let after = tables_in(dir, entries);
        every_table_file_is_audited(dir, head);
        match kind_of(last.name@, last.is_dir) {
            FileKind::Sst(id) => {
                let table = Listed { id, path: joined(dir, last.name@), len: last.len };
                lemma_with_table(before, table);
                assert forall|k: int| 0 <= k < after.len() implies is_table_file(dir, entries, #[trigger] after[k]) by {
                    assert(after.contains(after[k]));
                    if after[k] == table {
                        assert(names_table(dir, entries[n], after[k]));
                    } else {
                        let j = choose|j: int| 0 <= j < before.len() && before[j] == after[k];
                        assert(is_table_file(dir, head, before[j]));
                        let i = choose|i: int| 0 <= i < head.len() && #[trigger] names_table(dir, head[i], before[j]);
                        assert(names_table(dir, entries[i], after[k]));
                    }
                }
            },
            _ => {
                assert forall|k: int| 0 <= k < after.len() implies is_table_file(dir, entries, #[trigger] after[k]) by {
                    assert(is_table_file(dir, head, before[k]));
                    let i = choose|i: int| 0 <= i < head.len() && #[trigger] names_table(dir, head[i], before[k]);
                    assert(names_table(dir, entries[i], after[k]));
                }
            },
        }
        assert forall|i: int| 0 <= i < entries.len() implies (kind_of(
            (#[trigger] entries[i]).name@,
            entries[i].is_dir,
        ) matches FileKind::Sst(id) ==> after.contains(
            Listed { id, path: joined(dir, entries[i].name@), len: entries[i].len },
        )) by {
            if i < n {
                assert(head[i] == entries[i]);
            }
        }
    }
}

/// A file names a table.
pub open spec fn names_table(dir: Seq<char>, entry: DirEntry, table: Listed) -> bool {
    !entry.is_dir && sst_id_of(entry.name@) == Some(table.id) && table.path == joined(dir, entry.name@) && table.len
        == entry.len
}

/// Some file names a table.
pub open spec fn is_table_file(dir: Seq<char>, entries: Seq<DirEntry>, table: Listed) -> bool {
    exists|i: int| 0 <= i < entries.len() && #[trigger] names_table(dir, entries[i], table)
}

proof fn lemma_with_table(tables: Seq<Listed>, table: Listed)
    requires
        forall|k: int, j: int| 0 <= k < j < tables.len() ==> (#[trigger] tables[k]).id <= (#[trigger] tables[j]).id,
    ensures
        with_table(tables, table).len() == tables.len() + 1,
        with_table(tables, table).contains(table),
        forall|x: Listed| #[trigger] tables.contains(x) ==> with_table(tables, table).contains(x),
        forall|x: Listed| #[trigger] with_table(tables, table).contains(x) ==> x == table || tables.contains(x),
        forall|k: int, j: int|
            0 <= k < j < with_table(tables, table).len() ==> (#[trigger] with_table(tables, table)[k]).id <= (
            #[trigger] with_table(tables, table)[j]).id,
    decreases tables.len(),
{
    let out = with_table(tables, table);
    let n = tables.len() as int;
    if n == 0 || tables.last().id <= table.id {
        assert(out[n] == table);
        assert forall|x: Listed| #[trigger] tables.contains(x) implies out.contains(x) by {
            let i = choose|i: int| 0 <= i < n && tables[i] == x;
            assert(out[i] == x);
        }
        assert forall|x: Listed| #[trigger] out.contains(x) implies x == table || tables.contains(x) by {
            let i = choose|i: int| 0 <= i < out.len() && out[i] == x;
            if i < n {
                assert(tables[i] == x);
            }
        }
        assert forall|k: int, j: int| 0 <= k < j < out.len() implies (#[trigger] out[k]).id <= (#[trigger] out[j]).id by {
            if j == n {
                assert(tables[k].id <= tables[n - 1].id);
            }
        }
    } else {
        let head = tables.drop_last();
        let low = with_table(head, table);
        lemma_with_table(head, table);
        let at = choose|at: int| 0 <= at < low.len() && low[at] == table;
        assert(out[at] == table);
        assert forall|x: Listed| #[trigger] tables.contains(x) implies out.contains(x) by {
            let i = choose|i: int| 0 <= i < n && tables[i] == x;
            if i < n - 1 {
                assert(head[i] == x);
                assert(head.contains(x));
                let k = choose|k: int| 0 <= k < low.len() && low[k] == x;
                assert(out[k] == x);
            } else {
                assert(out[low.len() as int] == x);
            }
        }
        assert forall|x: Listed| #[trigger] out.contains(x) implies x == table || tables.contains(x) by {
            let i = choose|i: int| 0 <= i < out.len() && out[i] == x;
            if i < low.len() {
                assert(low[i] == x);
                assert(low.contains(x));
                if x != table {
                    let k = choose|k: int| 0 <= k < head.len() && head[k] == x;
                    assert(tables[k] == x);
                }
            } else {
                assert(tables[n - 1] == x);
            }
        }
        assert forall|k: int, j: int| 0 <= k < j < out.len() implies (#[trigger] out[k]).id <= (#[trigger] out[j]).id by {
            if j < low.len() {
                assert(low[k].id <= low[j].id);
            } else {
                assert(low.contains(low[k]));
                if low[k] != table {
                    let i = choose|i: int| 0 <= i < head.len() && head[i] == low[k];
                    assert(tables[i].id <= tables[n - 1].id);
                }
            }
        }
    }
}

/// Every stray is told, as a warning of its own file: a temporary file as an
/// orphan, and a file or a directory that no store has as unknown.
pub proof fn every_stray_is_told(dir: Seq<char>, entries: Seq<DirEntry>)
    ensures
        forall|i: int|
            0 <= i < entries.len() ==> {
                let path = joined(dir, (#[trigger] entries[i]).name@);
                let kind = kind_of(entries[i].name@, entries[i].is_dir);
                &&& kind is Temporary ==> tells_of(strays_in(dir, entries), IssueKind::OrphanTmpFile, path)
                &&& kind is Unknown || kind is OtherDir ==> tells_of(
                    strays_in(dir, entries),
                    IssueKind::UnknownFile,
                    path,
                )
            },
        (forall|i: int|
            0 <= i < entries.len() ==> {
                let kind = kind_of((#[trigger] entries[i]).name@, entries[i].is_dir);
                !(kind is Temporary || kind is Unknown || kind is OtherDir)
            }) ==> strays_in(dir, entries).len() == 0,
    decreases entries.len(),
{
    if entries.len() > 0 {
        let head = entries.drop_last();
        let n = head.len() as int;
        let before = strays_in(dir, head);
        let after = strays_in(dir, entries);
        every_stray_is_told(dir, head);
        assert(is_among(before, after)) by {
            assert forall|k: int| 0 <= k < before.len() implies after.contains(#[trigger] before[k]) by {
                assert(after[k] == before[k]);
            }
        }
        assert forall|i: int| 0 <= i < entries.len() implies {
            let path = joined(dir, (#[trigger] entries[i]).name@);
            let kind = kind_of(entries[i].name@, entries[i].is_dir);
            &&& kind is Temporary ==> tells_of(after, IssueKind::OrphanTmpFile, path)
            &&& kind is Unknown || kind is OtherDir ==> tells_of(after, IssueKind::UnknownFile, path)
        } by {
            let path = joined(dir, entries[i].name@);
            if i < n {
                assert(head[i] == entries[i]);
                lemma_tells_among(before, after, path);
            } else {
                let k = before.len() as int;
                if after.len() > before.len() {
                    assert(after[k].path == path);
                    assert(tells_of(after, after[k].kind, path));
                }
            }
        }
        if forall|i: int|
            0 <= i < entries.len() ==> {
                let kind = kind_of((#[trigger] entries[i]).name@, entries[i].is_dir);
                !(kind is Temporary || kind is Unknown || kind is OtherDir)
            } {
            assert forall|i: int| 0 <= i < head.len() implies {
                let kind = kind_of((#[trigger] head[i]).name@, head[i].is_dir);
                !(kind is Temporary || kind is Unknown || kind is OtherDir)
            } by {
                assert(head[i] == entries[i]);
            }
            assert(entries[n] == entries.last());
        }
    }
}

/// The log is scanned as the store's own: under its identity and its epoch.
pub proof fn the_log_is_scanned_as_the_stores_own<F: StoreAudit>(
    files: &F,
    dir: Seq<char>,
    store_id: Option<u128>,
    scan: WalScan,
)
    requires
        scans_log(files, dir, store_id, Ok(scan)),
    ensures
        store_id matches Some(id) && exists|d: &str, epoch: u64|
            d@ == dir && call_ensures(F::log_epoch, (files, d), Ok(Some(epoch))) && #[trigger] call_ensures(
                F::scan_log,
                (files, d, id, epoch),
                Ok(scan),
            ),
{
    let id = store_id->Some_0;
    let s: Result<WalScan, EngineError> = Ok(scan);
    let (d, ep) = choose|d: &str, ep: Result<Option<u64>, EngineError>|
        d@ == dir && #[trigger] call_ensures(F::log_epoch, (files, d), ep) && match ep {
            Err(e) => false,
            Ok(None) => false,
            Ok(Some(epoch)) => call_ensures(F::scan_log, (files, d, id, epoch), s),
        };
    let epoch = ep->Ok_0->Some_0;
    assert(call_ensures(F::log_epoch, (files, d), Ok(Some(epoch))));
    assert(call_ensures(F::scan_log, (files, d, id, epoch), Ok(scan)));
}

/// What the key record says is told: a published generation without one, or a
/// corrupt one, is corrupt; a wrong key is an error of the call.
proof fn lemma_crypto_told<F: StoreAudit + IndexCodec>(
    files: &F,
    prefixes: FtsPrefixes,
    supplied: SuppliedKey<'_>,
    mode: VerifyMode,
    store_id: Option<u128>,
    dir: Seq<char>,
    generation: u64,
    entries: Seq<DirEntry>,
    t: Tally,
    r: Result<VerifyReport, EngineError>,
)
    requires
        audits_crypto(files, prefixes, supplied, mode, store_id, dir, generation, entries, t, r),
        r is Ok,
    ensures
        is_among(t.errors, findings(r->Ok_0.errors@)),
        is_among(t.warnings, findings(r->Ok_0.warnings@)),
        generation != 0 && !has_file(entries, "crypto.meta"@) ==> tells_of(
            findings(r->Ok_0.errors@),
            IssueKind::CryptoMetaCorrupt,
            joined(dir, "crypto.meta"@),
        ),
{
    lemma_has_file(entries);
    let report = r->Ok_0;
    let errors = findings(report.errors@);
    let warnings = findings(report.warnings@);
    let sealed = holds_kind(entries, FileKind::CryptoMeta);
    let n = t.errors.len() as int;
    if generation != 0 && !sealed {
        assert forall|k: int| 0 <= k < t.errors.len() implies errors.contains(#[trigger] t.errors[k]) by {
            assert(errors[k] == t.errors[k]);
        }
        assert(is_among(t.warnings, warnings));
        assert(errors[n].kind == IssueKind::CryptoMetaCorrupt && errors[n].path == joined(dir, "crypto.meta"@));
    } else {
        let u = match supplied {
            None => t,
            Some(_) => t.with_file(),
        };
        if audits_data(files, prefixes, mode, store_id, dir, entries, supplied is Some, u, r) {
            let a = what_is_wrong_with_a_directory_is_told(
                files,
                prefixes,
                mode,
                store_id,
                dir,
                entries,
                supplied is Some,
                u,
                r,
            );
        } else {
            assert forall|k: int| 0 <= k < t.errors.len() implies errors.contains(#[trigger] t.errors[k]) by {
                assert(errors[k] == t.errors[k]);
            }
            assert(warnings == t.warnings);
            assert(is_among(t.warnings, warnings));
        }
    }
}

proof fn lemma_active_told<F: StoreAudit + IndexCodec>(
    files: &F,
    prefixes: FtsPrefixes,
    supplied: SuppliedKey<'_>,
    mode: VerifyMode,
    store_id: Option<u128>,
    generation: u64,
    t: Tally,
    r: Result<VerifyReport, EngineError>,
)
    requires
        audits_active(files, prefixes, supplied, mode, store_id, generation, t, r),
        r is Ok,
    ensures
        is_among(t.errors, findings(r->Ok_0.errors@)),
        generation == 0 ==> tells_of(
            findings(r->Ok_0.errors@),
            IssueKind::GenerationMetaCorrupt,
            "generation.meta"@,
        ),
        tells_of(findings(r->Ok_0.errors@), IssueKind::GenerationMetaCorrupt, "generation.meta"@) || tells_dir(
            files,
            generation_dir_name(generation),
            true,
        ),
{
    let report = r->Ok_0;
    let errors = findings(report.errors@);
    let n = t.errors.len() as int;
    let dir = generation_dir_name(generation);
    if generation != 0 && exists|entries: Vec<DirEntry>|
        #[trigger] gives_list(files, dir, Ok(entries)) && tells_dir(files, dir, true) && audits_crypto(
            files,
            prefixes,
            supplied,
            mode,
            store_id,
            dir,
            generation,
            entries@,
            t.with(Seq::empty(), strays_in(dir, entries@)),
            r,
        ) {
        let entries = choose|entries: Vec<DirEntry>|
            #[trigger] gives_list(files, dir, Ok(entries)) && tells_dir(files, dir, true) && audits_crypto(
                files,
                prefixes,
                supplied,
                mode,
                store_id,
                dir,
                generation,
                entries@,
                t.with(Seq::empty(), strays_in(dir, entries@)),
                r,
            );
        let u = t.with(Seq::empty(), strays_in(dir, entries@));
        assert(u.errors =~= t.errors);
        lemma_crypto_told(files, prefixes, supplied, mode, store_id, dir, generation, entries@, u, r);
    } else {
        assert(errors.len() == n + 1);
        assert forall|k: int| 0 <= k < t.errors.len() implies errors.contains(#[trigger] t.errors[k]) by {
            assert(errors[k] == t.errors[k]);
        }
        assert(errors[n].kind == IssueKind::GenerationMetaCorrupt && errors[n].path == "generation.meta"@);
    }
}

/// What an audit got for the store's record and for the pointer.
pub struct RootAnswers {
    pub meta: Option<Result<StoreMeta, ReadFault>>,
    pub generation: Option<Result<u64, ReadFault>>,
}

/// What is wrong with the store's record and with the pointer is told: that
/// they cannot be read, do not decode, are of another format, or lead nowhere;
/// and parts of a store without a record are of another format.
pub open spec fn root_told<F: StoreAudit>(
    files: &F,
    entries: Seq<DirEntry>,
    a: RootAnswers,
    errors: Seq<Finding>,
) -> bool {
    &&& a.meta is Some == has_file(entries, "store.meta"@)
    &&& a.meta is None && (has_file(entries, "wal.log"@) || has_file(entries, "crypto.meta"@) || has_file(
        entries,
        "generation.meta"@,
    ) || tables_in(Seq::empty(), entries).len() > 0) ==> tells_of(
        errors,
        IssueKind::StoreFormatUnsupported,
        "store.meta"@,
    )
    &&& a.meta matches Some(m) ==> call_ensures(F::read_store_meta, (files,), m) && match m {
        Err(ReadFault::Unreadable(_)) => tells_of(errors, IssueKind::Io, "store.meta"@),
        Err(ReadFault::Undecodable(_)) => tells_of(errors, IssueKind::StoreMetaCorrupt, "store.meta"@),
        Ok(meta) => meta.store_format_version == STORE_FORMAT_VERSION || tells_of(
            errors,
            IssueKind::StoreFormatUnsupported,
            "store.meta"@,
        ),
    }
    &&& a.meta is Some && has_file(entries, "generation.meta"@) ==> a.generation is Some || tells_of(
        errors,
        IssueKind::StoreFormatUnsupported,
        "store.meta"@,
    )
    &&& a.generation matches Some(g) ==> call_ensures(F::read_generation, (files,), g) && match g {
        Err(ReadFault::Unreadable(_)) => tells_of(errors, IssueKind::Io, "generation.meta"@),
        Err(ReadFault::Undecodable(e)) => if e is UnsupportedFormatVersion {
            tells_of(errors, IssueKind::StoreFormatUnsupported, "generation.meta"@)
        } else {
            tells_of(errors, IssueKind::GenerationMetaCorrupt, "generation.meta"@)
        },
        Ok(n) => tells_of(errors, IssueKind::GenerationMetaCorrupt, "generation.meta"@) || (n != 0 && tells_dir(
            files,
            generation_dir_name(n),
            true,
        )),
    }
}

proof fn lemma_generation_told<F: StoreAudit + IndexCodec>(
    files: &F,
    prefixes: FtsPrefixes,
    supplied: SuppliedKey<'_>,
    mode: VerifyMode,
    store_id: Option<u128>,
    entries: Seq<DirEntry>,
    t: Tally,
    r: Result<VerifyReport, EngineError>,
) -> (g: Option<Result<u64, ReadFault>>)
    requires
        audits_generation(files, prefixes, supplied, mode, store_id, entries, t, r),
        r is Ok,
    ensures
        is_among(t.errors, findings(r->Ok_0.errors@)),
        has_file(entries, "generation.meta"@) ==> g is Some,
        g matches Some(x) ==> call_ensures(F::read_generation, (files,), x) && match x {
            Err(ReadFault::Unreadable(_)) => tells_of(findings(r->Ok_0.errors@), IssueKind::Io, "generation.meta"@),
            Err(ReadFault::Undecodable(e)) => if e is UnsupportedFormatVersion {
                tells_of(findings(r->Ok_0.errors@), IssueKind::StoreFormatUnsupported, "generation.meta"@)
            } else {
                tells_of(findings(r->Ok_0.errors@), IssueKind::GenerationMetaCorrupt, "generation.meta"@)
            },
            Ok(n) => tells_of(
                findings(r->Ok_0.errors@),
                IssueKind::GenerationMetaCorrupt,
                "generation.meta"@,
            ) || (n != 0 && tells_dir(files, generation_dir_name(n), true)),
        },
{
    lemma_has_file(entries);
    let report = r->Ok_0;
    let errors = findings(report.errors@);
    if !holds_kind(entries, FileKind::GenerationMeta) {
        lemma_crypto_told(files, prefixes, supplied, mode, store_id, Seq::empty(), 0, entries, t, r);
        None
    } else {
        let u = t.with_file();
        let path = "generation.meta"@;
        let g = choose|g: Result<u64, ReadFault>|
            #[trigger] call_ensures(F::read_generation, (files,), g) && match g {
                Err(ReadFault::Unreadable(why)) => closes(r, u.with_error(IssueKind::Io, path, why@)),
                Err(ReadFault::Undecodable(e)) => if e is UnsupportedFormatVersion {
                    closes(
                        r,
                        u.with_error(
                            IssueKind::StoreFormatUnsupported,
                            path,
                            "generation.meta version is not supported by this build"@,
                        ),
                    )
                } else {
                    closes(r, u.with_error(IssueKind::GenerationMetaCorrupt, path, e.text()))
                },
                Ok(n) => audits_active(files, prefixes, supplied, mode, store_id, n, u, r),
            };
        match g {
            Ok(n) => {
                lemma_active_told(files, prefixes, supplied, mode, store_id, n, u, r);
            },
            Err(_) => {
                let n = t.errors.len() as int;
                assert forall|k: int| 0 <= k < t.errors.len() implies errors.contains(#[trigger] t.errors[k]) by {
                    assert(errors[k] == t.errors[k]);
                }
                assert(errors[n].path == path);
                assert(tells_of(errors, errors[n].kind, path));
            },
        }
        Some(g)
    }
}

/// What is wrong with the root of a store is told, as what it is and of the
/// file that it is in.
pub proof fn what_is_wrong_with_the_root_is_told<F: StoreAudit + IndexCodec>(
    files: &F,
    prefixes: FtsPrefixes,
    supplied: SuppliedKey<'_>,
    mode: VerifyMode,
    entries: Seq<DirEntry>,
    r: Result<VerifyReport, EngineError>,
) -> (a: RootAnswers)
    requires
        audits_root(files, prefixes, supplied, mode, entries, r),
        r is Ok,
    ensures
        root_told(files, entries, a, findings(r->Ok_0.errors@)),
{
    lemma_has_file(entries);
    let report = r->Ok_0;
    let errors = findings(report.errors@);
    let path = "store.meta"@;
    let start = no_tally().with(Seq::empty(), strays_in(Seq::empty(), entries));
    if !holds_kind(entries, FileKind::StoreMeta) {
        if errors.len() > 0 {
            assert(errors[0].kind == IssueKind::StoreFormatUnsupported && errors[0].path == path);
        }
        RootAnswers { meta: None, generation: None }
    } else {
        let u = start.with_file();
        let m = choose|m: Result<StoreMeta, ReadFault>|
            #[trigger] call_ensures(F::read_store_meta, (files,), m) && match m {
                Err(ReadFault::Unreadable(why)) => audits_generation(
                    files,
                    prefixes,
                    supplied,
                    mode,
                    None,
                    entries,
                    u.with_error(IssueKind::Io, path, why@),
                    r,
                ),
                Err(ReadFault::Undecodable(e)) => audits_generation(
                    files,
                    prefixes,
                    supplied,
                    mode,
                    None,
                    entries,
                    u.with_error(IssueKind::StoreMetaCorrupt, path, e.text()),
                    r,
                ),
                Ok(meta) => if meta.store_format_version != STORE_FORMAT_VERSION {
                    closes(
                        r,
                        u.with_error(
                            IssueKind::StoreFormatUnsupported,
                            path,
                            super::audit::format_text(meta.store_format_version),
                        ),
                    )
                } else {
                    audits_generation(files, prefixes, supplied, mode, meta.store_id, entries, u, r)
                },
            };
        let n = u.errors.len() as int;
        match m {
            Err(ReadFault::Unreadable(why)) => {
                let t = u.with_error(IssueKind::Io, path, why@);
                let g = lemma_generation_told(files, prefixes, supplied, mode, None, entries, t, r);
                assert(t.errors[n].kind == IssueKind::Io && t.errors[n].path == path);
                lemma_tells_among(t.errors, errors, path);
                RootAnswers { meta: Some(m), generation: g }
            },
            Err(ReadFault::Undecodable(e)) => {
                let t = u.with_error(IssueKind::StoreMetaCorrupt, path, e.text());
                let g = lemma_generation_told(files, prefixes, supplied, mode, None, entries, t, r);
                assert(t.errors[n].kind == IssueKind::StoreMetaCorrupt && t.errors[n].path == path);
                lemma_tells_among(t.errors, errors, path);
                RootAnswers { meta: Some(m), generation: g }
            },
            Ok(meta) => {
                if meta.store_format_version != STORE_FORMAT_VERSION {
                    assert(errors[n].kind == IssueKind::StoreFormatUnsupported && errors[n].path == path);
                    RootAnswers { meta: Some(m), generation: None }
                } else {
                    let g = lemma_generation_told(
                        files,
                        prefixes,
                        supplied,
                        mode,
                        meta.store_id,
                        entries,
                        u,
                        r,
                    );
                    RootAnswers { meta: Some(m), generation: g }
                }
            },
        }
    }
}

} // verus!
