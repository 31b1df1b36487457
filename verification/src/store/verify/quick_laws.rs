//! What a quick audit cannot see.
use super::audit::{
    audits, audits_active, audits_crypto, audits_data, audits_generation, audits_log, audits_manifest, audits_root,
    audits_table, audits_tables, closes, scans_log, SuppliedKey,
};
use super::{holds_kind, strays_in, tables_in, FileKind, Listed, Tally, VerifyMode, VerifyReport};
use crate::error::EngineError;
use crate::store::engine::write::WalRecord;
use crate::store::files::{
    generation_dir_name, gives_crypto, gives_list, tells_dir, DirEntry, KeyMode, ReadFault, StoreAudit, StoreMeta, WalScan,
};
use crate::store::rows::Slot;
use crate::store::sst_block::read::loads;
use crate::store::sst_block::BlockSstFile;
use crate::store::verify_logical::{FtsPrefixes, IndexCodec};
use vstd::prelude::*;

verus! {

/// Whatever `a` may answer about a store, its data blocks aside, `b` may
/// answer too: its directories, its records, its key, its log, and the header,
/// the index, the filter and the footer of each table.
pub open spec fn answers_alike<F: StoreAudit, G: StoreAudit>(a: &F, b: &G) -> bool {
    &&& forall|path: Seq<char>, r: bool| #[trigger] tells_dir(a, path, r) ==> tells_dir(b, path, r)
    &&& forall|r: Result<bool, EngineError>| #[trigger]
        call_ensures(F::lock_shared, (a,), r) ==> call_ensures(G::lock_shared, (b,), r)
    &&& forall|dir: Seq<char>, r: Result<Vec<DirEntry>, EngineError>| #[trigger]
        gives_list(a, dir, r) ==> gives_list(b, dir, r)
    &&& forall|r: Result<StoreMeta, ReadFault>| #[trigger]
        call_ensures(F::read_store_meta, (a,), r) ==> call_ensures(G::read_store_meta, (b,), r)
    &&& forall|r: Result<u64, ReadFault>| #[trigger]
        call_ensures(F::read_generation, (a,), r) ==> call_ensures(G::read_generation, (b,), r)
    &&& forall|dir: Seq<char>, key: Seq<u8>, mode: KeyMode, generation: Option<u64>, r: Result<(), EngineError>| #[trigger]
        gives_crypto(a, dir, key, mode, generation, r) ==> gives_crypto(b, dir, key, mode, generation, r)
    &&& forall|encrypted: bool, r: (u64, u64)| #[trigger]
        call_ensures(F::section_lens, (a, encrypted), r) ==> call_ensures(G::section_lens, (b, encrypted), r)
    &&& forall|dir: Seq<char>, id: Option<u128>, r: Result<WalScan, EngineError>| #[trigger]
        scans_log(a, dir, id, r) ==> scans_log(b, dir, id, r)
    &&& forall|path: Seq<char>, id: u64, len: u64, h: u64, f: u64, r: Result<BlockSstFile, EngineError>| #[trigger]
        loads(a, path, id, len, h, f, r) ==> loads(b, path, id, len, h, f, r)
}

proof fn lemma_tables_alike<F: StoreAudit, G: StoreAudit>(
    a: &F,
    b: &G,
    lens: (u64, u64),
    tables: Seq<Listed>,
    n: int,
    t: Tally,
    u: Tally,
    collected: Map<Seq<u8>, Slot>,
)
    requires
        answers_alike(a, b),
        audits_tables(a, VerifyMode::Quick, lens, tables, n, t, u, collected),
    ensures
        audits_tables(b, VerifyMode::Quick, lens, tables, n, t, u, collected),
    decreases n,
{
    if n > 0 {
        let (m, kv) = choose|m: Tally, kv: Map<Seq<u8>, Slot>|
            audits_tables(a, VerifyMode::Quick, lens, tables, n - 1, t, m, kv) && #[trigger] audits_table(
                a,
                VerifyMode::Quick,
                lens,
                tables[n - 1],
                m,
                kv,
                u,
                collected,
            );
        lemma_tables_alike(a, b, lens, tables, n - 1, t, m, kv);
        assert(audits_table(b, VerifyMode::Quick, lens, tables[n - 1], m, kv, u, collected));
    }
}

proof fn lemma_data_alike<F: StoreAudit + IndexCodec, G: StoreAudit + IndexCodec>(
    a: &F,
    b: &G,
    prefixes: FtsPrefixes,
    store_id: Option<u128>,
    dir: Seq<char>,
    entries: Seq<DirEntry>,
    encrypted: bool,
    t: Tally,
    r: Result<VerifyReport, EngineError>,
)
    requires
        answers_alike(a, b),
        audits_data(a, prefixes, VerifyMode::Quick, store_id, dir, entries, encrypted, t, r),
    ensures
        audits_data(b, prefixes, VerifyMode::Quick, store_id, dir, entries, encrypted, t, r),
{
    let tables = tables_in(dir, entries);
    let there = holds_kind(entries, FileKind::Wal);
    let quick = VerifyMode::Quick;
    let (lens, x, log, y, kv, z) = choose|
        lens: (u64, u64),
        x: Tally,
        log: Seq<WalRecord>,
        y: Tally,
        kv: Map<Seq<u8>, Slot>,
        z: Tally,
    |
        {
            &&& #[trigger] call_ensures(F::section_lens, (a, encrypted), lens)
            &&& #[trigger] audits_log(a, dir, there, store_id, t, x, log)
            &&& #[trigger] audits_tables(a, quick, lens, tables, tables.len() as int, x, y, kv)
            &&& #[trigger] audits_manifest(a, quick, dir, tables, y, z)
            &&& closes(r, z)
        };
    lemma_tables_alike(a, b, lens, tables, tables.len() as int, x, y, kv);
    assert(call_ensures(G::section_lens, (b, encrypted), lens));
    assert(audits_log(b, dir, there, store_id, t, x, log));
    assert(audits_manifest(b, quick, dir, tables, y, z));
}

proof fn lemma_crypto_alike<F: StoreAudit + IndexCodec, G: StoreAudit + IndexCodec>(
    a: &F,
    b: &G,
    prefixes: FtsPrefixes,
    key: SuppliedKey<'_>,
    store_id: Option<u128>,
    dir: Seq<char>,
    generation: u64,
    entries: Seq<DirEntry>,
    t: Tally,
    r: Result<VerifyReport, EngineError>,
)
    requires
        answers_alike(a, b),
        audits_crypto(a, prefixes, key, VerifyMode::Quick, store_id, dir, generation, entries, t, r),
    ensures
        audits_crypto(b, prefixes, key, VerifyMode::Quick, store_id, dir, generation, entries, t, r),
{
    if audits_data(a, prefixes, VerifyMode::Quick, store_id, dir, entries, false, t, r) {
        lemma_data_alike(a, b, prefixes, store_id, dir, entries, false, t, r);
    }
    if audits_data(a, prefixes, VerifyMode::Quick, store_id, dir, entries, true, t.with_file(), r) {
        lemma_data_alike(a, b, prefixes, store_id, dir, entries, true, t.with_file(), r);
    }
}

proof fn lemma_active_alike<F: StoreAudit + IndexCodec, G: StoreAudit + IndexCodec>(
    a: &F,
    b: &G,
    prefixes: FtsPrefixes,
    key: SuppliedKey<'_>,
    store_id: Option<u128>,
    generation: u64,
    t: Tally,
    r: Result<VerifyReport, EngineError>,
)
    requires
        answers_alike(a, b),
        audits_active(a, prefixes, key, VerifyMode::Quick, store_id, generation, t, r),
    ensures
        audits_active(b, prefixes, key, VerifyMode::Quick, store_id, generation, t, r),
{
    let dir = generation_dir_name(generation);
    if generation != 0 {
        assert forall|entries: Seq<DirEntry>|
            #[trigger] audits_crypto(
                a,
                prefixes,
                key,
                VerifyMode::Quick,
                store_id,
                dir,
                generation,
                entries,
                t.with(Seq::empty(), strays_in(dir, entries)),
                r,
            ) implies audits_crypto(
            b,
            prefixes,
            key,
            VerifyMode::Quick,
            store_id,
            dir,
            generation,
            entries,
            t.with(Seq::empty(), strays_in(dir, entries)),
            r,
        ) by {
            lemma_crypto_alike(
                a,
                b,
                prefixes,
                key,
                store_id,
                dir,
                generation,
                entries,
                t.with(Seq::empty(), strays_in(dir, entries)),
                r,
            );
        }
    }
}

proof fn lemma_generation_alike<F: StoreAudit + IndexCodec, G: StoreAudit + IndexCodec>(
    a: &F,
    b: &G,
    prefixes: FtsPrefixes,
    key: SuppliedKey<'_>,
    store_id: Option<u128>,
    entries: Seq<DirEntry>,
    t: Tally,
    r: Result<VerifyReport, EngineError>,
)
    requires
        answers_alike(a, b),
        audits_generation(a, prefixes, key, VerifyMode::Quick, store_id, entries, t, r),
    ensures
        audits_generation(b, prefixes, key, VerifyMode::Quick, store_id, entries, t, r),
{
    if !holds_kind(entries, FileKind::GenerationMeta) {
        lemma_crypto_alike(a, b, prefixes, key, store_id, Seq::empty(), 0, entries, t, r);
    } else {
        assert forall|generation: u64| #[trigger]
            audits_active(
                a,
                prefixes,
                key,
                VerifyMode::Quick,
                store_id,
                generation,
                t.with_file(),
                r,
            ) implies audits_active(
            b,
            prefixes,
            key,
            VerifyMode::Quick,
            store_id,
            generation,
            t.with_file(),
            r,
        ) by {
            lemma_active_alike(a, b, prefixes, key, store_id, generation, t.with_file(), r);
        }
    }
}

proof fn lemma_root_alike<F: StoreAudit + IndexCodec, G: StoreAudit + IndexCodec>(
    a: &F,
    b: &G,
    prefixes: FtsPrefixes,
    key: SuppliedKey<'_>,
    entries: Seq<DirEntry>,
    r: Result<VerifyReport, EngineError>,
)
    requires
        answers_alike(a, b),
        audits_root(a, prefixes, key, VerifyMode::Quick, entries, r),
    ensures
        audits_root(b, prefixes, key, VerifyMode::Quick, entries, r),
{
    assert forall|store_id: Option<u128>, t: Tally| #[trigger]
        audits_generation(a, prefixes, key, VerifyMode::Quick, store_id, entries, t, r) implies audits_generation(
        b,
        prefixes,
        key,
        VerifyMode::Quick,
        store_id,
        entries,
        t,
        r,
    ) by {
        lemma_generation_alike(a, b, prefixes, key, store_id, entries, t, r);
    }
}

/// A quick audit does not see the data blocks: two disks that answer alike in
/// everything else get the same report, whatever their blocks hold.
pub proof fn a_quick_audit_is_blind_to_payloads<F: StoreAudit + IndexCodec, G: StoreAudit + IndexCodec>(
    a: &F,
    b: &G,
    prefixes: FtsPrefixes,
    key: SuppliedKey<'_>,
    r: Result<VerifyReport, EngineError>,
)
    requires
        answers_alike(a, b),
        audits(a, prefixes, key, VerifyMode::Quick, r),
    ensures
        audits(b, prefixes, key, VerifyMode::Quick, r),
{
    assert forall|entries: Seq<DirEntry>| #[trigger]
        audits_root(a, prefixes, key, VerifyMode::Quick, entries, r) implies audits_root(
        b,
        prefixes,
        key,
        VerifyMode::Quick,
        entries,
        r,
    ) by {
        lemma_root_alike(a, b, prefixes, key, entries, r);
    }
}

} // verus!
