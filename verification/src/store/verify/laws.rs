//! What every audit keeps to.
use super::audit::{
    audits, audits_active, audits_crypto, audits_data, audits_generation, audits_log, audits_manifest, audits_root,
    audits_table, audits_tables, closes, confronted, ends, missing_errors, SuppliedKey,
};
use super::checks::{
    audits_blocks, block_errors, blocks_tally, denies_some, layout_errors, layout_errors_at, reads_blocks, BlockReads,
};
use super::{
    findings, flat, holds_kind, issue, strays_in, table_error_kind, tables_in, FileKind, IssueKind, Listed, Tally,
    VerifyMode, VerifyReport,
};
use crate::error::EngineError;
use crate::key::Key;
use crate::store::engine::write::{record_rows, WalRecord};
use crate::store::files::{gives_list, gives_manifest, tells_dir, DirEntry, ReadFault, SstManifest, StoreAudit, StoreMeta};
use crate::store::rows::{rows_view, Row, Slot};
use crate::store::sst_block::read::loads;
use crate::store::sst_block::{BlockSstFile, SstBlockIndexEntry};
use crate::store::verify_logical::kinds::{
    lemma_proper_concat, lemma_proper_flat, logical_checks_only_warn_of_what_heals, only_warns, proper,
};
use crate::store::verify_logical::{checks_logic, FtsPrefixes, IndexCodec};
use crate::store::Value;
use vstd::prelude::*;

verus! {

/// What holds of a report, given the blocks counted before: it is healthy
/// exactly if it has no error, no error is of a kind that only warns, and a
/// quick audit counted no block.
pub open spec fn kept(mode: VerifyMode, blocks: u64, r: Result<VerifyReport, EngineError>) -> bool {
    r matches Ok(report) ==> {
        &&& report.healthy == (report.errors@.len() == 0)
        &&& proper(findings(report.errors@))
        &&& mode == VerifyMode::Quick ==> report.blocks_checked == blocks
    }
}

proof fn lemma_tables_keep<F: StoreAudit>(
    files: &F,
    lens: (u64, u64),
    tables: Seq<Listed>,
    n: int,
    t: Tally,
    u: Tally,
    collected: Map<Seq<u8>, Slot>,
)
    requires
        audits_tables(files, VerifyMode::Quick, lens, tables, n, t, u, collected),
    ensures
        u.blocks == t.blocks,
    decreases n,
{
    if n > 0 {
        let (m, kv) = choose|m: Tally, kv: Map<Seq<u8>, Slot>|
            audits_tables(files, VerifyMode::Quick, lens, tables, n - 1, t, m, kv) && #[trigger] audits_table(
                files,
                VerifyMode::Quick,
                lens,
                tables[n - 1],
                m,
                kv,
                u,
                collected,
            );
        lemma_tables_keep(files, lens, tables, n - 1, t, m, kv);
    }
}

proof fn lemma_data_keeps<F: StoreAudit + IndexCodec>(
    files: &F,
    prefixes: FtsPrefixes,
    mode: VerifyMode,
    store_id: Option<u128>,
    dir: Seq<char>,
    entries: Seq<DirEntry>,
    encrypted: bool,
    t: Tally,
    r: Result<VerifyReport, EngineError>,
)
    requires
        proper(t.errors),
        audits_data(files, prefixes, mode, store_id, dir, entries, encrypted, t, r),
    ensures
        kept(mode, t.blocks, r),
{
    let tables = tables_in(dir, entries);
    let (lens, a, log, b, kv, c) = choose|
        lens: (u64, u64),
        a: Tally,
        log: Seq<WalRecord>,
        b: Tally,
        kv: Map<Seq<u8>, Slot>,
        c: Tally,
    |
        {
            &&& #[trigger] call_ensures(F::section_lens, (files, encrypted), lens)
            &&& #[trigger] audits_log(files, dir, holds_kind(entries, FileKind::Wal), store_id, t, a, log)
            &&& #[trigger] audits_tables(files, mode, lens, tables, tables.len() as int, a, b, kv)
            &&& #[trigger] audits_manifest(files, mode, dir, tables, b, c)
            &&& ends(files, prefixes, mode, dir, kv, record_rows(log), c, r)
        };
    if mode == VerifyMode::Quick {
        lemma_tables_keep(files, lens, tables, tables.len() as int, a, b, kv);
    }
    lemma_table_errors(files, mode, lens, tables, tables.len() as int, a, b, kv);
    lemma_manifest_errors(files, mode, dir, tables, b, c);
    if mode == VerifyMode::FullLogical && c.errors.len() == 0 {
        let (live_entries, u) = choose|live_entries: Vec<(Key, Value)>, u: Tally|
            #[trigger] checks_logic(files, prefixes, live_entries@, dir, c, u) && closes(r, u);
        logical_checks_only_warn_of_what_heals(files, prefixes, live_entries@, dir, c, u);
    }
}

proof fn lemma_block_errors(sst: BlockSstFile, path: Seq<char>, reads: BlockReads, t: Tally)
    requires
        proper(t.errors),
    ensures
        proper(blocks_tally(sst, path, reads, t).errors),
    decreases reads.len(),
{
    if reads.len() > 0 {
        let before = blocks_tally(sst, path, reads.drop_last(), t);
        lemma_block_errors(sst, path, reads.drop_last(), t);
        if let Ok(v) = reads.last() {
            let more = block_errors(
                sst,
                path,
                reads.len() - 1,
                rows_view(v@),
                denies_some(sst.bloom, reads.drop_last()),
            );
            assert(proper(more));
            lemma_proper_concat(before.errors, more);
        }
    }
}

proof fn lemma_layout_errors(index: Seq<SstBlockIndexEntry>, file_bytes: u64, header_len: u64, path: Seq<char>)
    ensures
        proper(flat(index.len(), layout_errors(index, file_bytes, header_len, path))),
{
    let f = layout_errors(index, file_bytes, header_len, path);
    assert forall|i: int| 0 <= i < index.len() implies proper(#[trigger] f(i)) by {
        assert(proper(layout_errors_at(index, file_bytes, header_len, path, i)));
    }
    lemma_proper_flat(index.len(), f);
}

proof fn lemma_table_errors<F: StoreAudit>(
    files: &F,
    mode: VerifyMode,
    lens: (u64, u64),
    tables: Seq<Listed>,
    n: int,
    t: Tally,
    u: Tally,
    collected: Map<Seq<u8>, Slot>,
)
    requires
        proper(t.errors),
        audits_tables(files, mode, lens, tables, n, t, u, collected),
    ensures
        proper(u.errors),
    decreases n,
{
    if n > 0 {
        let (m, kv) = choose|m: Tally, kv: Map<Seq<u8>, Slot>|
            audits_tables(files, mode, lens, tables, n - 1, t, m, kv) && #[trigger] audits_table(
                files,
                mode,
                lens,
                tables[n - 1],
                m,
                kv,
                u,
                collected,
            );
        lemma_table_errors(files, mode, lens, tables, n - 1, t, m, kv);
        lemma_one_table_errors(files, mode, lens, tables[n - 1], m, kv, u, collected);
    }
}

proof fn lemma_one_table_errors<F: StoreAudit>(
    files: &F,
    mode: VerifyMode,
    lens: (u64, u64),
    table: Listed,
    t: Tally,
    kv: Map<Seq<u8>, Slot>,
    u: Tally,
    collected: Map<Seq<u8>, Slot>,
)
    requires
        proper(t.errors),
        audits_table(files, mode, lens, table, t, kv, u, collected),
    ensures
        proper(u.errors),
{
    let full = mode == VerifyMode::FullLogical;
    let l = choose|l: Result<BlockSstFile, EngineError>|
        #[trigger] loads(files, table.path, table.id, table.len, lens.0, lens.1, l) && match l {
            Err(e) => u == t.with_file().with_error(table_error_kind(e), table.path, e.text()),
            Ok(sst) => {
                let a = t.with_file().with(
                    flat(
                        sst.block_index@.len(),
                        layout_errors(sst.block_index@, sst.file_bytes, lens.0, table.path),
                    ),
                    Seq::empty(),
                );
                if mode == VerifyMode::Quick {
                    u == a
                } else {
                    audits_blocks(files, &sst, table.path, full, a, kv, u, collected)
                }
            },
        };
    if let Ok(sst) = l {
        let a = t.with_file().with(
            flat(
                sst.block_index@.len(),
                layout_errors(sst.block_index@, sst.file_bytes, lens.0, table.path),
            ),
            Seq::empty(),
        );
        lemma_layout_errors(sst.block_index@, sst.file_bytes, lens.0, table.path);
        assert(proper(a.errors));
        if mode != VerifyMode::Quick {
            lemma_audited_block_errors(files, &sst, table.path, full, a, kv, u, collected);
        }
    }
}

proof fn lemma_audited_block_errors<F: StoreAudit>(
    files: &F,
    sst: &BlockSstFile,
    path: Seq<char>,
    collect: bool,
    t: Tally,
    kv: Map<Seq<u8>, Slot>,
    u: Tally,
    collected: Map<Seq<u8>, Slot>,
)
    requires
        proper(t.errors),
        audits_blocks(files, sst, path, collect, t, kv, u, collected),
    ensures
        proper(u.errors),
{
    if !proper(u.errors) {
        let reads = choose|reads: BlockReads|
            #[trigger] reads_blocks(files, sst, reads) && u == blocks_tally(*sst, path, reads, t);
        lemma_block_errors(*sst, path, reads, t);
    }
}

proof fn lemma_manifest_errors<F: StoreAudit>(
    files: &F,
    mode: VerifyMode,
    dir: Seq<char>,
    tables: Seq<Listed>,
    t: Tally,
    u: Tally,
)
    requires
        proper(t.errors),
        audits_manifest(files, mode, dir, tables, t, u),
    ensures
        proper(u.errors),
{
    if u != t {
        let m = choose|m: Result<SstManifest, ReadFault>|
            #[trigger] gives_manifest(files, dir, m) && u == confronted(dir, tables, m, t);
        if let Ok(manifest) = m {
            let f = missing_errors(dir, tables, manifest.live_sst_ids@);
            assert forall|i: int| 0 <= i < manifest.live_sst_ids@.len() implies proper(#[trigger] f(i)) by {}
            lemma_proper_flat(manifest.live_sst_ids@.len(), f);
        }
    }
}

proof fn lemma_crypto_keeps<F: StoreAudit + IndexCodec>(
    files: &F,
    prefixes: FtsPrefixes,
    key: SuppliedKey<'_>,
    mode: VerifyMode,
    store_id: Option<u128>,
    dir: Seq<char>,
    generation: u64,
    entries: Seq<DirEntry>,
    t: Tally,
    r: Result<VerifyReport, EngineError>,
)
    requires
        proper(t.errors),
        audits_crypto(files, prefixes, key, mode, store_id, dir, generation, entries, t, r),
    ensures
        kept(mode, t.blocks, r),
{
    if audits_data(files, prefixes, mode, store_id, dir, entries, false, t, r) {
        lemma_data_keeps(files, prefixes, mode, store_id, dir, entries, false, t, r);
    }
    if audits_data(files, prefixes, mode, store_id, dir, entries, true, t.with_file(), r) {
        lemma_data_keeps(files, prefixes, mode, store_id, dir, entries, true, t.with_file(), r);
    }
}

proof fn lemma_active_keeps<F: StoreAudit + IndexCodec>(
    files: &F,
    prefixes: FtsPrefixes,
    key: SuppliedKey<'_>,
    mode: VerifyMode,
    store_id: Option<u128>,
    generation: u64,
    t: Tally,
    r: Result<VerifyReport, EngineError>,
)
    requires
        proper(t.errors),
        audits_active(files, prefixes, key, mode, store_id, generation, t, r),
    ensures
        kept(mode, t.blocks, r),
{
    let dir = crate::store::files::generation_dir_name(generation);
    if generation != 0 {
        let there = choose|there: bool|
            #[trigger] tells_dir(files, dir, there) && (there ==> exists|l: Result<Vec<DirEntry>, EngineError>|
                #[trigger] gives_list(files, dir, l) && match l {
                    Err(e) => r == Err::<VerifyReport, EngineError>(e),
                    Ok(entries) => audits_crypto(
                        files,
                        prefixes,
                        key,
                        mode,
                        store_id,
                        dir,
                        generation,
                        entries@,
                        t.with(Seq::empty(), strays_in(dir, entries@)),
                        r,
                    ),
                }) && (!there ==> kept(mode, t.blocks, r));
        if there {
            let l = choose|l: Result<Vec<DirEntry>, EngineError>|
                #[trigger] gives_list(files, dir, l) && match l {
                    Err(e) => r == Err::<VerifyReport, EngineError>(e),
                    Ok(entries) => audits_crypto(
                        files,
                        prefixes,
                        key,
                        mode,
                        store_id,
                        dir,
                        generation,
                        entries@,
                        t.with(Seq::empty(), strays_in(dir, entries@)),
                        r,
                    ),
                };
            if let Ok(entries) = l {
                lemma_crypto_keeps(
                    files,
                    prefixes,
                    key,
                    mode,
                    store_id,
                    dir,
                    generation,
                    entries@,
                    t.with(Seq::empty(), strays_in(dir, entries@)),
                    r,
                );
            }
        }
    }
}

proof fn lemma_generation_keeps<F: StoreAudit + IndexCodec>(
    files: &F,
    prefixes: FtsPrefixes,
    key: SuppliedKey<'_>,
    mode: VerifyMode,
    store_id: Option<u128>,
    entries: Seq<DirEntry>,
    t: Tally,
    r: Result<VerifyReport, EngineError>,
)
    requires
        proper(t.errors),
        audits_generation(files, prefixes, key, mode, store_id, entries, t, r),
    ensures
        kept(mode, t.blocks, r),
{
    let u = t.with_file();
    if !holds_kind(entries, FileKind::GenerationMeta) {
        lemma_crypto_keeps(files, prefixes, key, mode, store_id, Seq::empty(), 0, entries, t, r);
    } else {
        let g = choose|g: Result<u64, ReadFault>|
            #[trigger] call_ensures(F::read_generation, (files,), g) && match g {
                Err(_) => kept(mode, t.blocks, r),
                Ok(generation) => audits_active(files, prefixes, key, mode, store_id, generation, u, r),
            };
        if let Ok(generation) = g {
            lemma_active_keeps(files, prefixes, key, mode, store_id, generation, u, r);
        }
    }
}

proof fn lemma_root_keeps<F: StoreAudit + IndexCodec>(
    files: &F,
    prefixes: FtsPrefixes,
    key: SuppliedKey<'_>,
    mode: VerifyMode,
    entries: Seq<DirEntry>,
    r: Result<VerifyReport, EngineError>,
)
    requires
        audits_root(files, prefixes, key, mode, entries, r),
    ensures
        kept(mode, 0, r),
{
    if holds_kind(entries, FileKind::StoreMeta) {
        let m = choose|m: Result<StoreMeta, ReadFault>|
            #[trigger] call_ensures(F::read_store_meta, (files,), m) && (kept(mode, 0, r) || exists|
                store_id: Option<u128>,
                t: Tally,
            |
                t.blocks == 0 && proper(t.errors) && #[trigger] audits_generation(
                    files,
                    prefixes,
                    key,
                    mode,
                    store_id,
                    entries,
                    t,
                    r,
                ));
        if !kept(mode, 0, r) {
            let (store_id, t) = choose|store_id: Option<u128>, t: Tally|
                t.blocks == 0 && proper(t.errors) && #[trigger] audits_generation(
                    files,
                    prefixes,
                    key,
                    mode,
                    store_id,
                    entries,
                    t,
                    r,
                );
            lemma_generation_keeps(files, prefixes, key, mode, store_id, entries, t, r);
        }
    }
}

proof fn lemma_audit_keeps<F: StoreAudit + IndexCodec>(
    files: &F,
    prefixes: FtsPrefixes,
    key: SuppliedKey<'_>,
    mode: VerifyMode,
    r: Result<VerifyReport, EngineError>,
)
    requires
        audits(files, prefixes, key, mode, r),
    ensures
        kept(mode, 0, r),
{
    if r is Ok {
        let entries = choose|entries: Seq<DirEntry>| #[trigger] audits_root(files, prefixes, key, mode, entries, r);
        lemma_root_keeps(files, prefixes, key, mode, entries, r);
    }
}

/// A report is healthy exactly if it holds no error: a warning never makes a
/// store unhealthy.
pub proof fn health_is_the_absence_of_errors<F: StoreAudit + IndexCodec>(
    files: &F,
    prefixes: FtsPrefixes,
    key: SuppliedKey<'_>,
    mode: VerifyMode,
    report: VerifyReport,
)
    requires
        audits(files, prefixes, key, mode, Ok(report)),
    ensures
        report.healthy == (report.errors@.len() == 0),
{
    lemma_audit_keeps(files, prefixes, key, mode, Ok(report));
}

/// Some findings only ever warn: a torn tail of the log, an orphaned temporary
/// file, a file that is not the engine's, metadata of the vector index that
/// does not match it, a graph edge without an end, and the note that the
/// logical checks were skipped. None of them is ever among the errors.
pub proof fn some_findings_only_warn<F: StoreAudit + IndexCodec>(
    files: &F,
    prefixes: FtsPrefixes,
    key: SuppliedKey<'_>,
    mode: VerifyMode,
    report: VerifyReport,
)
    requires
        audits(files, prefixes, key, mode, Ok(report)),
    ensures
        forall|i: int| 0 <= i < report.errors@.len() ==> !only_warns((#[trigger] report.errors@[i]).kind),
{
    lemma_audit_keeps(files, prefixes, key, mode, Ok(report));
    assert forall|i: int| 0 <= i < report.errors@.len() implies !only_warns((#[trigger] report.errors@[i]).kind) by {
        assert(!only_warns(findings(report.errors@)[i].kind));
    }
}

/// A quick audit reads no data block.
pub proof fn a_quick_audit_reads_no_block<F: StoreAudit + IndexCodec>(
    files: &F,
    prefixes: FtsPrefixes,
    key: SuppliedKey<'_>,
    report: VerifyReport,
)
    requires
        audits(files, prefixes, key, VerifyMode::Quick, Ok(report)),
    ensures
        report.blocks_checked == 0,
{
    lemma_audit_keeps(files, prefixes, key, VerifyMode::Quick, Ok(report));
}

/// A directory that is there, that no writer holds and that has no entries is
/// healthy in every mode, whatever the key, and nothing in it was checked.
pub proof fn an_empty_directory_is_healthy<F: StoreAudit + IndexCodec>(
    files: &F,
    prefixes: FtsPrefixes,
    key: SuppliedKey<'_>,
    mode: VerifyMode,
    r: Result<VerifyReport, EngineError>,
)
    requires
        forall|there: bool| #[trigger] tells_dir(files, Seq::empty(), there) ==> there,
        forall|k: Result<bool, EngineError>| #[trigger]
            call_ensures(F::lock_shared, (files,), k) ==> k == Ok::<bool, EngineError>(true),
        forall|l: Result<Vec<DirEntry>, EngineError>| #[trigger]
            gives_list(files, Seq::empty(), l) ==> (l matches Ok(entries) && entries@.len() == 0),
        audits(files, prefixes, key, mode, r),
    ensures
        r matches Ok(report) && report.healthy && report.files_checked == 0 && report.errors@.len() == 0
            && report.warnings@.len() == 0,
{
    let l = choose|l: Result<Vec<DirEntry>, EngineError>|
        #[trigger] gives_list(files, Seq::empty(), l) && match l {
            Err(e) => r == Err::<VerifyReport, EngineError>(e),
            Ok(entries) => audits_root(files, prefixes, key, mode, entries@, r),
        };
    let entries = l->Ok_0@;
    assert(audits_root(files, prefixes, key, mode, entries, r));
    assert(tables_in(Seq::empty(), entries).len() == 0);
    assert(strays_in(Seq::empty(), entries).len() == 0);
}

/// Physical errors end an audit before the keyspaces are looked at: the
/// deepest audit then reports those errors and no other, and says so.
pub proof fn physical_errors_end_the_audit<F: StoreAudit + IndexCodec>(
    files: &F,
    prefixes: FtsPrefixes,
    dir: Seq<char>,
    kv: Map<Seq<u8>, Slot>,
    log: Seq<Row>,
    t: Tally,
    r: Result<VerifyReport, EngineError>,
)
    requires
        ends(files, prefixes, VerifyMode::FullLogical, dir, kv, log, t, r),
        t.errors.len() > 0,
    ensures
        r matches Ok(report) && !report.healthy && findings(report.errors@) == t.errors && exists|detail: Seq<char>|
            findings(report.warnings@) == t.warnings.push(
                #[trigger] issue(IssueKind::LogicalChecksSkipped, dir, detail),
            ),
{
}

} // verus!
