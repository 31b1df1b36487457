//! When a quick audit has one outcome.
use super::audit::{
    audits, audits_active, audits_crypto, audits_data, audits_generation, audits_log, audits_manifest, audits_root,
    audits_table, audits_tables, closes, scans_log, SuppliedKey,
};
use super::checks::layout_errors;
use super::quick_laws::{a_quick_audit_is_blind_to_payloads, answers_alike};
use super::{
    flat, holds_kind, strays_in, table_error_kind, tables_in, FileKind, Listed, Tally, VerifyMode, VerifyReport,
};
use crate::error::EngineError;
use crate::store::engine::write::WalRecord;
use crate::store::files::{
    generation_dir_name, gives_crypto, gives_list, tells_dir, DirEntry, KeyMode, ReadFault, StoreAudit, StoreMeta,
    WalScan,
};
use crate::store::rows::Slot;
use crate::store::sst_block::read::loads;
use crate::store::sst_block::BlockSstFile;
use crate::store::verify_logical::{FtsPrefixes, IndexCodec};
use vstd::prelude::*;

verus! {

/// Two loads of a table came out alike: with the same index and length, or
/// with errors of one kind that say the same.
pub open spec fn same_load(a: Result<BlockSstFile, EngineError>, b: Result<BlockSstFile, EngineError>) -> bool {
    match (a, b) {
        (Ok(f), Ok(g)) => f.block_index@ == g.block_index@ && f.file_bytes == g.file_bytes,
        (Err(d), Err(e)) => table_error_kind(d) == table_error_kind(e) && d.text() == e.text(),
        _ => false,
    }
}

/// Two scans of a log came out alike.
pub open spec fn same_scan(a: Result<WalScan, EngineError>, b: Result<WalScan, EngineError>) -> bool {
    match (a, b) {
        (Ok(s), Ok(t)) => s.records@.len() == t.records@.len() && s.torn_tail_bytes == t.torn_tail_bytes,
        (Err(d), Err(e)) => d.text() == e.text(),
        _ => false,
    }
}

/// Asked the same about a store, its data blocks aside, `files` answers the
/// same.
pub open spec fn is_settled<F: StoreAudit>(files: &F) -> bool {
    &&& forall|path: Seq<char>, a: bool, b: bool| #[trigger]
        tells_dir(files, path, a) && #[trigger] tells_dir(files, path, b) ==> a == b
    &&& forall|a: Result<bool, EngineError>, b: Result<bool, EngineError>| #[trigger]
        call_ensures(F::lock_shared, (files,), a) && #[trigger] call_ensures(F::lock_shared, (files,), b) ==> a == b
    &&& forall|dir: Seq<char>, a: Result<Vec<DirEntry>, EngineError>, b: Result<Vec<DirEntry>, EngineError>| #[trigger]
        gives_list(files, dir, a) && #[trigger] gives_list(files, dir, b) ==> a == b
    &&& forall|a: Result<StoreMeta, ReadFault>, b: Result<StoreMeta, ReadFault>| #[trigger]
        call_ensures(F::read_store_meta, (files,), a) && #[trigger] call_ensures(F::read_store_meta, (files,), b) ==> a
            == b
    &&& forall|a: Result<u64, ReadFault>, b: Result<u64, ReadFault>| #[trigger]
        call_ensures(F::read_generation, (files,), a) && #[trigger] call_ensures(F::read_generation, (files,), b) ==> a
            == b
    &&& forall|
        dir: Seq<char>,
        key: Seq<u8>,
        mode: KeyMode,
        generation: Option<u64>,
        a: Result<(), EngineError>,
        b: Result<(), EngineError>,
    | #[trigger]
        gives_crypto(files, dir, key, mode, generation, a) && #[trigger] gives_crypto(
            files,
            dir,
            key,
            mode,
            generation,
            b,
        ) ==> a == b
    &&& forall|encrypted: bool, a: (u64, u64), b: (u64, u64)| #[trigger]
        call_ensures(F::section_lens, (files, encrypted), a) && #[trigger] call_ensures(
            F::section_lens,
            (files, encrypted),
            b,
        ) ==> a == b
    &&& forall|dir: Seq<char>, id: Option<u128>, a: Result<WalScan, EngineError>, b: Result<WalScan, EngineError>| #[trigger]
        scans_log(files, dir, id, a) && #[trigger] scans_log(files, dir, id, b) ==> same_scan(a, b)
    &&& forall|
        path: Seq<char>,
        id: u64,
        len: u64,
        h: u64,
        f: u64,
        a: Result<BlockSstFile, EngineError>,
        b: Result<BlockSstFile, EngineError>,
    | #[trigger]
        loads(files, path, id, len, h, f, a) && #[trigger] loads(files, path, id, len, h, f, b) ==> same_load(a, b)
}

/// Two audits came out alike: with reports that say the same, or with errors
/// that do.
pub open spec fn same_report(a: Result<VerifyReport, EngineError>, b: Result<VerifyReport, EngineError>) -> bool {
    match (a, b) {
        (Ok(x), Ok(y)) => x.tally() == y.tally() && x.healthy == y.healthy,
        (Err(d), Err(e)) => d.text() == e.text(),
        _ => false,
    }
}

proof fn lemma_tables_settled<F: StoreAudit>(
    files: &F,
    lens: (u64, u64),
    tables: Seq<Listed>,
    n: int,
    t: Tally,
    a: Tally,
    ka: Map<Seq<u8>, Slot>,
    b: Tally,
    kb: Map<Seq<u8>, Slot>,
)
    requires
        is_settled(files),
        audits_tables(files, VerifyMode::Quick, lens, tables, n, t, a, ka),
        audits_tables(files, VerifyMode::Quick, lens, tables, n, t, b, kb),
    ensures
        a == b,
    decreases n,
{
    if n > 0 {
        let table = tables[n - 1];
        let (m, kv) = choose|m: Tally, kv: Map<Seq<u8>, Slot>|
            audits_tables(files, VerifyMode::Quick, lens, tables, n - 1, t, m, kv) && #[trigger] audits_table(
                files,
                VerifyMode::Quick,
                lens,
                tables[n - 1],
                m,
                kv,
                a,
                ka,
            );
        let (o, kw) = choose|o: Tally, kw: Map<Seq<u8>, Slot>|
            audits_tables(files, VerifyMode::Quick, lens, tables, n - 1, t, o, kw) && #[trigger] audits_table(
                files,
                VerifyMode::Quick,
                lens,
                tables[n - 1],
                o,
                kw,
                b,
                kb,
            );
        lemma_tables_settled(files, lens, tables, n - 1, t, m, kv, o, kw);
        let x = choose|x: Result<BlockSstFile, EngineError>|
            #[trigger] loads(files, table.path, table.id, table.len, lens.0, lens.1, x) && match x {
                Err(e) => a == m.with_file().with_error(table_error_kind(e), table.path, e.text()),
                Ok(sst) => a == m.with_file().with(
                    flat(
                        sst.block_index@.len(),
                        layout_errors(sst.block_index@, sst.file_bytes, lens.0, table.path),
                    ),
                    Seq::empty(),
                ),
            };
        let y = choose|y: Result<BlockSstFile, EngineError>|
            #[trigger] loads(files, table.path, table.id, table.len, lens.0, lens.1, y) && match y {
                Err(e) => b == m.with_file().with_error(table_error_kind(e), table.path, e.text()),
                Ok(sst) => b == m.with_file().with(
                    flat(
                        sst.block_index@.len(),
                        layout_errors(sst.block_index@, sst.file_bytes, lens.0, table.path),
                    ),
                    Seq::empty(),
                ),
            };
        assert(same_load(x, y));
    }
}

proof fn lemma_data_settled<F: StoreAudit + IndexCodec>(
    files: &F,
    prefixes: FtsPrefixes,
    store_id: Option<u128>,
    dir: Seq<char>,
    entries: Seq<DirEntry>,
    encrypted: bool,
    t: Tally,
    r: Result<VerifyReport, EngineError>,
    s: Result<VerifyReport, EngineError>,
)
    requires
        is_settled(files),
        audits_data(files, prefixes, VerifyMode::Quick, store_id, dir, entries, encrypted, t, r),
        audits_data(files, prefixes, VerifyMode::Quick, store_id, dir, entries, encrypted, t, s),
    ensures
        same_report(r, s),
{
    let quick = VerifyMode::Quick;
    let tables = tables_in(dir, entries);
    let n = tables.len() as int;
    let there = holds_kind(entries, FileKind::Wal);
    let (lens, x, log, y, kv, z) = choose|
        lens: (u64, u64),
        x: Tally,
        log: Seq<WalRecord>,
        y: Tally,
        kv: Map<Seq<u8>, Slot>,
        z: Tally,
    |
        {
            &&& #[trigger] call_ensures(F::section_lens, (files, encrypted), lens)
            &&& #[trigger] audits_log(files, dir, there, store_id, t, x, log)
            &&& #[trigger] audits_tables(files, quick, lens, tables, n, x, y, kv)
            &&& #[trigger] audits_manifest(files, quick, dir, tables, y, z)
            &&& closes(r, z)
        };
    let (lens2, x2, log2, y2, kv2, z2) = choose|
        lens: (u64, u64),
        x: Tally,
        log: Seq<WalRecord>,
        y: Tally,
        kv: Map<Seq<u8>, Slot>,
        z: Tally,
    |
        {
            &&& #[trigger] call_ensures(F::section_lens, (files, encrypted), lens)
            &&& #[trigger] audits_log(files, dir, there, store_id, t, x, log)
            &&& #[trigger] audits_tables(files, quick, lens, tables, n, x, y, kv)
            &&& #[trigger] audits_manifest(files, quick, dir, tables, y, z)
            &&& closes(s, z)
        };
    assert(lens == lens2);
    assert(x == x2);
    lemma_tables_settled(files, lens, tables, n, x, y, kv, y2, kv2);
}

proof fn lemma_crypto_settled<F: StoreAudit + IndexCodec>(
    files: &F,
    prefixes: FtsPrefixes,
    key: SuppliedKey<'_>,
    store_id: Option<u128>,
    dir: Seq<char>,
    generation: u64,
    entries: Seq<DirEntry>,
    t: Tally,
    r: Result<VerifyReport, EngineError>,
    s: Result<VerifyReport, EngineError>,
)
    requires
        is_settled(files),
        audits_crypto(files, prefixes, key, VerifyMode::Quick, store_id, dir, generation, entries, t, r),
        audits_crypto(files, prefixes, key, VerifyMode::Quick, store_id, dir, generation, entries, t, s),
    ensures
        same_report(r, s),
{
    if audits_data(files, prefixes, VerifyMode::Quick, store_id, dir, entries, false, t, r) && audits_data(
        files,
        prefixes,
        VerifyMode::Quick,
        store_id,
        dir,
        entries,
        false,
        t,
        s,
    ) {
        lemma_data_settled(files, prefixes, store_id, dir, entries, false, t, r, s);
    } else if audits_data(files, prefixes, VerifyMode::Quick, store_id, dir, entries, true, t.with_file(), r)
        && audits_data(files, prefixes, VerifyMode::Quick, store_id, dir, entries, true, t.with_file(), s) {
        lemma_data_settled(files, prefixes, store_id, dir, entries, true, t.with_file(), r, s);
    }
}

proof fn lemma_active_settled<F: StoreAudit + IndexCodec>(
    files: &F,
    prefixes: FtsPrefixes,
    key: SuppliedKey<'_>,
    store_id: Option<u128>,
    generation: u64,
    t: Tally,
    r: Result<VerifyReport, EngineError>,
    s: Result<VerifyReport, EngineError>,
)
    requires
        is_settled(files),
        audits_active(files, prefixes, key, VerifyMode::Quick, store_id, generation, t, r),
        audits_active(files, prefixes, key, VerifyMode::Quick, store_id, generation, t, s),
    ensures
        same_report(r, s),
{
    let dir = generation_dir_name(generation);
    if !same_report(r, s) {
        let entries = choose|entries: Seq<DirEntry>| #[trigger]
            audits_crypto(
                files,
                prefixes,
                key,
                VerifyMode::Quick,
                store_id,
                dir,
                generation,
                entries,
                t.with(Seq::empty(), strays_in(dir, entries)),
                r,
            ) && audits_crypto(
                files,
                prefixes,
                key,
                VerifyMode::Quick,
                store_id,
                dir,
                generation,
                entries,
                t.with(Seq::empty(), strays_in(dir, entries)),
                s,
            );
        lemma_crypto_settled(
            files,
            prefixes,
            key,
            store_id,
            dir,
            generation,
            entries,
            t.with(Seq::empty(), strays_in(dir, entries)),
            r,
            s,
        );
    }
}

proof fn lemma_generation_settled<F: StoreAudit + IndexCodec>(
    files: &F,
    prefixes: FtsPrefixes,
    key: SuppliedKey<'_>,
    store_id: Option<u128>,
    entries: Seq<DirEntry>,
    t: Tally,
    r: Result<VerifyReport, EngineError>,
    s: Result<VerifyReport, EngineError>,
)
    requires
        is_settled(files),
        audits_generation(files, prefixes, key, VerifyMode::Quick, store_id, entries, t, r),
        audits_generation(files, prefixes, key, VerifyMode::Quick, store_id, entries, t, s),
    ensures
        same_report(r, s),
{
    let u = t.with_file();
    if !holds_kind(entries, FileKind::GenerationMeta) {
        lemma_crypto_settled(files, prefixes, key, store_id, Seq::empty(), 0, entries, t, r, s);
    } else if !same_report(r, s) {
        let generation = choose|generation: u64| #[trigger]
            audits_active(files, prefixes, key, VerifyMode::Quick, store_id, generation, u, r) && audits_active(
                files,
                prefixes,
                key,
                VerifyMode::Quick,
                store_id,
                generation,
                u,
                s,
            );
        lemma_active_settled(files, prefixes, key, store_id, generation, u, r, s);
    }
}

proof fn lemma_root_settled<F: StoreAudit + IndexCodec>(
    files: &F,
    prefixes: FtsPrefixes,
    key: SuppliedKey<'_>,
    entries: Seq<DirEntry>,
    r: Result<VerifyReport, EngineError>,
    s: Result<VerifyReport, EngineError>,
)
    requires
        is_settled(files),
        audits_root(files, prefixes, key, VerifyMode::Quick, entries, r),
        audits_root(files, prefixes, key, VerifyMode::Quick, entries, s),
    ensures
        same_report(r, s),
{
    if holds_kind(entries, FileKind::StoreMeta) && !same_report(r, s) {
        let (store_id, t) = choose|store_id: Option<u128>, t: Tally| #[trigger]
            audits_generation(files, prefixes, key, VerifyMode::Quick, store_id, entries, t, r) && audits_generation(
                files,
                prefixes,
                key,
                VerifyMode::Quick,
                store_id,
                entries,
                t,
                s,
            );
        lemma_generation_settled(files, prefixes, key, store_id, entries, t, r, s);
    }
}

/// Where the answers are settled, a quick audit has one outcome.
pub proof fn a_settled_quick_audit_has_one_outcome<F: StoreAudit + IndexCodec>(
    files: &F,
    prefixes: FtsPrefixes,
    key: SuppliedKey<'_>,
    r: Result<VerifyReport, EngineError>,
    s: Result<VerifyReport, EngineError>,
)
    requires
        is_settled(files),
        audits(files, prefixes, key, VerifyMode::Quick, r),
        audits(files, prefixes, key, VerifyMode::Quick, s),
    ensures
        same_report(r, s),
{
    if !same_report(r, s) {
        let entries = choose|entries: Seq<DirEntry>| #[trigger]
            audits_root(files, prefixes, key, VerifyMode::Quick, entries, r) && audits_root(
                files,
                prefixes,
                key,
                VerifyMode::Quick,
                entries,
                s,
            );
        lemma_root_settled(files, prefixes, key, entries, r, s);
    }
}

/// Damage to data blocks is invisible to a quick audit: two stores that answer
/// alike in everything else, and always the same, get reports that say the
/// same, with the same counters, and no block was checked in either.
pub proof fn block_damage_is_invisible_to_a_quick_audit<F: StoreAudit + IndexCodec, G: StoreAudit + IndexCodec>(
    a: &F,
    b: &G,
    prefixes: FtsPrefixes,
    key: SuppliedKey<'_>,
    r: Result<VerifyReport, EngineError>,
    s: Result<VerifyReport, EngineError>,
)
    requires
        answers_alike(a, b),
        is_settled(b),
        audits(a, prefixes, key, VerifyMode::Quick, r),
        audits(b, prefixes, key, VerifyMode::Quick, s),
    ensures
        same_report(r, s),
        r matches Ok(report) ==> report.blocks_checked == 0,
        s matches Ok(report) ==> report.blocks_checked == 0,
{
    a_quick_audit_is_blind_to_payloads(a, b, prefixes, key, r);
    a_settled_quick_audit_has_one_outcome(b, prefixes, key, r, s);
    if let Ok(report) = r {
        super::laws::a_quick_audit_reads_no_block(a, prefixes, key, report);
    }
    if let Ok(report) = s {
        super::laws::a_quick_audit_reads_no_block(b, prefixes, key, report);
    }
}

} // verus!
