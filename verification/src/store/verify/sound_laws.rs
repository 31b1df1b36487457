//! What an audit finds in a sound store: nothing.
use super::audit::{
    audits, audits_active, audits_crypto, audits_data, audits_generation, audits_log, audits_manifest, audits_root,
    audits_table, audits_tables, bound_generation, closes, confronted, ends, is_on_disk, log_tally, missing_errors,
    scans_log, SuppliedKey,
};
use super::key_laws::is_supplied;
use super::table_laws::{audits_clean, lemma_flat_none};
use super::{holds_kind, no_tally, strays_in, tables_in, FileKind, Finding, Listed, Tally, VerifyMode, VerifyReport};
use crate::error::EngineError;
use crate::key::Key;
use crate::store::engine::key_laws::{a_full_rotation_puts_the_new_key_on_record, key_after, pointer_after};
use crate::store::engine::replay_laws::{gives_back_ops, lemma_gives_back_ops};
use crate::store::engine::rotate::rotates;
use crate::store::engine::write::{record_rows, WalRecord};
use crate::store::engine::Engine;
use crate::store::files::{
    generation_dir_name, gives_crypto, gives_list, gives_manifest, tells_dir, Argon2idProfile, DirEntry, KeyMode, KeyV,
    ReadFault, SstManifest, StoreAudit, StoreMeta, StoreRoot, WalScan, STORE_FORMAT_VERSION,
};
use crate::store::layers::{layered, lists, pairs_view};
use crate::store::rows::{live, put_rows, Row, Slot};
use crate::store::trace::Step;
use crate::store::verify_logical::{checks_logic, FtsPrefixes, IndexCodec};
use crate::store::Value;
use vstd::prelude::*;

verus! {

/// The log replays whole as `log`, with nothing torn off.
pub open spec fn sound_log<F: StoreAudit>(files: &F, dir: Seq<char>, store_id: Option<u128>, log: Seq<Row>) -> bool {
    forall|s: Result<WalScan, EngineError>| #[trigger]
        scans_log(files, dir, store_id, s) ==> (s matches Ok(scan) && scan.torn_tail_bytes == 0 && gives_back_ops(
            scan.records@,
            log,
        ))
}

/// The manifest, if there is one, decodes and lists tables that are on disk.
pub open spec fn sound_manifest<F: StoreAudit>(files: &F, dir: Seq<char>, tables: Seq<Listed>) -> bool {
    forall|m: Result<SstManifest, ReadFault>| #[trigger]
        gives_manifest(files, dir, m) ==> (m matches Ok(manifest) && forall|i: int|
            0 <= i < manifest.live_sst_ids@.len() ==> is_on_disk(tables, #[trigger] manifest.live_sst_ids@[i]))
}

/// The logical checks find nothing in the live entries of `map`.
pub open spec fn sound_logic<C: IndexCodec>(
    codec: &C,
    prefixes: FtsPrefixes,
    dir: Seq<char>,
    map: Map<Seq<u8>, Slot>,
) -> bool {
    forall|entries: Vec<(Key, Value)>, t: Tally, u: Tally|
        lists(pairs_view(entries@), live(map)) && #[trigger] checks_logic(codec, prefixes, entries@, dir, t, u)
            ==> u.errors == t.errors && u.warnings == t.warnings
}

/// The data directory is sound: its tables, of the rows `runs`, audit clean,
/// its log is whole, its manifest holds, and where the keyspaces are looked at,
/// nothing is found.
pub open spec fn sound_data<F: StoreAudit + IndexCodec>(
    files: &F,
    prefixes: FtsPrefixes,
    mode: VerifyMode,
    store_id: Option<u128>,
    dir: Seq<char>,
    entries: Seq<DirEntry>,
    encrypted: bool,
    tables_rows: Seq<Seq<Row>>,
    log: Seq<Row>,
) -> bool {
    let tables = tables_in(dir, entries);
    &&& tables_rows.len() == tables.len()
    &&& forall|lens: (u64, u64), i: int|
        #[trigger] call_ensures(F::section_lens, (files, encrypted), lens) && 0 <= i < tables.len() ==> audits_clean(
            files,
            mode,
            lens,
            #[trigger] tables[i],
            tables_rows[i],
        )
    &&& if holds_kind(entries, FileKind::Wal) {
        sound_log(files, dir, store_id, log)
    } else {
        log.len() == 0
    }
    &&& sound_manifest(files, dir, tables)
    &&& mode == VerifyMode::FullLogical ==> sound_logic(files, prefixes, dir, put_rows(layered(tables_rows), log))
}

/// The audit ends with the errors and the warnings of `t`, and no more.
pub open spec fn ends_as(r: Result<VerifyReport, EngineError>, t: Tally) -> bool {
    exists|u: Tally| #[trigger] closes(r, u) && u.errors == t.errors && u.warnings == t.warnings
}

proof fn lemma_tables_sound<F: StoreAudit>(
    files: &F,
    mode: VerifyMode,
    lens: (u64, u64),
    tables: Seq<Listed>,
    n: int,
    t: Tally,
    u: Tally,
    collected: Map<Seq<u8>, Slot>,
    tables_rows: Seq<Seq<Row>>,
)
    requires
        0 <= n <= tables.len(),
        tables_rows.len() == tables.len(),
        forall|i: int| 0 <= i < tables.len() ==> audits_clean(files, mode, lens, #[trigger] tables[i], tables_rows[i]),
        audits_tables(files, mode, lens, tables, n, t, u, collected),
    ensures
        u.errors == t.errors,
        u.warnings == t.warnings,
        mode == VerifyMode::FullLogical ==> collected == layered(tables_rows.take(n)),
    decreases n,
{
    if n == 0 {
        assert(tables_rows.take(0) =~= Seq::<Seq<Row>>::empty());
    } else {
        let (m, kv) = choose|m: Tally, kv: Map<Seq<u8>, Slot>|
            audits_tables(files, mode, lens, tables, n - 1, t, m, kv) && #[trigger] audits_table(
                files,
                mode,
                lens,
                tables[n - 1],
                m,
                kv,
                u,
                collected,
            );
        lemma_tables_sound(files, mode, lens, tables, n - 1, t, m, kv, tables_rows);
        assert(audits_clean(files, mode, lens, tables[n - 1], tables_rows[n - 1]));
        assert(tables_rows.take(n).drop_last() =~= tables_rows.take(n - 1));
        assert(tables_rows.take(n).last() == tables_rows[n - 1]);
    }
}

proof fn lemma_manifest_sound<F: StoreAudit>(
    files: &F,
    mode: VerifyMode,
    dir: Seq<char>,
    tables: Seq<Listed>,
    t: Tally,
    u: Tally,
)
    requires
        sound_manifest(files, dir, tables),
        audits_manifest(files, mode, dir, tables, t, u),
    ensures
        u.errors == t.errors,
        u.warnings == t.warnings,
{
    if u != t {
        let m = choose|m: Result<SstManifest, ReadFault>|
            #[trigger] gives_manifest(files, dir, m) && u == confronted(dir, tables, m, t);
        let ids = m->Ok_0.live_sst_ids@;
        let f = missing_errors(dir, tables, ids);
        assert forall|i: int| 0 <= i < ids.len() implies (#[trigger] f(i)).len() == 0 by {
            assert(is_on_disk(tables, ids[i]));
        }
        lemma_flat_none(ids.len(), f);
        assert(t.errors + Seq::<Finding>::empty() =~= t.errors);
        assert(t.warnings + Seq::<Finding>::empty() =~= t.warnings);
    }
}

proof fn lemma_data_sound<F: StoreAudit + IndexCodec>(
    files: &F,
    prefixes: FtsPrefixes,
    mode: VerifyMode,
    store_id: Option<u128>,
    dir: Seq<char>,
    entries: Seq<DirEntry>,
    encrypted: bool,
    t: Tally,
    r: Result<VerifyReport, EngineError>,
    tables_rows: Seq<Seq<Row>>,
    log: Seq<Row>,
)
    requires
        sound_data(files, prefixes, mode, store_id, dir, entries, encrypted, tables_rows, log),
        audits_data(files, prefixes, mode, store_id, dir, entries, encrypted, t, r),
        t.errors.len() == 0,
    ensures
        ends_as(r, t),
{
    let tables = tables_in(dir, entries);
    let there = holds_kind(entries, FileKind::Wal);
    let (lens, a, records, b, kv, c) = choose|
        lens: (u64, u64),
        a: Tally,
        records: Seq<WalRecord>,
        b: Tally,
        kv: Map<Seq<u8>, Slot>,
        c: Tally,
    |
        {
            &&& #[trigger] call_ensures(F::section_lens, (files, encrypted), lens)
            &&& #[trigger] audits_log(files, dir, there, store_id, t, a, records)
            &&& #[trigger] audits_tables(files, mode, lens, tables, tables.len() as int, a, b, kv)
            &&& #[trigger] audits_manifest(files, mode, dir, tables, b, c)
            &&& ends(files, prefixes, mode, dir, kv, record_rows(records), c, r)
        };
    assert(a.errors == t.errors && a.warnings == t.warnings && record_rows(records) == log) by {
        if there {
            let s = choose|s: Result<WalScan, EngineError>|
                {
                    &&& #[trigger] scans_log(files, dir, store_id, s)
                    &&& a == log_tally(dir, s, t)
                    &&& records == match s {
                        Ok(scan) => scan.records@,
                        Err(e) => Seq::<WalRecord>::empty(),
                    }
                };
            lemma_gives_back_ops(records, log);
        } else {
            assert(record_rows(records) =~= log);
        }
    }
    assert forall|i: int| 0 <= i < tables.len() implies audits_clean(
        files,
        mode,
        lens,
        #[trigger] tables[i],
        tables_rows[i],
    ) by {}
    lemma_tables_sound(files, mode, lens, tables, tables.len() as int, a, b, kv, tables_rows);
    assert(tables_rows.take(tables.len() as int) =~= tables_rows);
    lemma_manifest_sound(files, mode, dir, tables, b, c);
    if mode == VerifyMode::FullLogical {
        let (live_entries, u) = choose|live_entries: Vec<(Key, Value)>, u: Tally|
            {
                &&& lists(pairs_view(live_entries@), live(put_rows(kv, record_rows(records))))
                &&& #[trigger] checks_logic(files, prefixes, live_entries@, dir, c, u)
                &&& closes(r, u)
            };
        assert(closes(r, u));
    } else {
        assert(closes(r, c));
    }
}

/// The key is taken where the directory is sealed, and none is supplied where
/// it is not.
pub open spec fn sound_key<F: StoreAudit>(
    files: &F,
    supplied: SuppliedKey<'_>,
    dir: Seq<char>,
    generation: u64,
    entries: Seq<DirEntry>,
) -> bool {
    &&& holds_kind(entries, FileKind::CryptoMeta) == (supplied is Some)
    &&& generation != 0 ==> supplied is Some
    &&& supplied matches Some((bytes, mode)) ==> forall|l: Result<(), EngineError>| #[trigger]
        gives_crypto(files, dir, bytes@, mode, bound_generation(generation), l) ==> l is Ok
}

proof fn lemma_crypto_sound<F: StoreAudit + IndexCodec>(
    files: &F,
    prefixes: FtsPrefixes,
    supplied: SuppliedKey<'_>,
    mode: VerifyMode,
    store_id: Option<u128>,
    dir: Seq<char>,
    generation: u64,
    entries: Seq<DirEntry>,
    t: Tally,
    r: Result<VerifyReport, EngineError>,
    tables_rows: Seq<Seq<Row>>,
    log: Seq<Row>,
)
    requires
        sound_key(files, supplied, dir, generation, entries),
        sound_data(files, prefixes, mode, store_id, dir, entries, supplied is Some, tables_rows, log),
        audits_crypto(files, prefixes, supplied, mode, store_id, dir, generation, entries, t, r),
        t.errors.len() == 0,
    ensures
        ends_as(r, t),
{
    match supplied {
        None => {
            lemma_data_sound(files, prefixes, mode, store_id, dir, entries, false, t, r, tables_rows, log);
        },
        Some((bytes, how)) => {
            let u = t.with_file();
            lemma_data_sound(files, prefixes, mode, store_id, dir, entries, true, u, r, tables_rows, log);
        },
    }
}

/// A directory is listed without strays, as a sound one.
pub open spec fn sound_dir<F: StoreAudit + IndexCodec>(
    files: &F,
    prefixes: FtsPrefixes,
    supplied: SuppliedKey<'_>,
    mode: VerifyMode,
    store_id: u128,
    dir: Seq<char>,
    generation: u64,
    tables_rows: Seq<Seq<Row>>,
    log: Seq<Row>,
) -> bool {
    forall|l: Result<Vec<DirEntry>, EngineError>| #[trigger]
        gives_list(files, dir, l) ==> (l matches Ok(entries) && {
            &&& strays_in(dir, entries@).len() == 0
            &&& sound_key(files, supplied, dir, generation, entries@)
            &&& sound_data(
                files,
                prefixes,
                mode,
                Some(store_id),
                dir,
                entries@,
                supplied is Some,
                tables_rows,
                log,
            )
        })
}

/// The root is there, held by no writer, and holds the record of this format
/// and no strays; a pointer is there exactly for a later generation, and names
/// it.
pub open spec fn sound_root<F: StoreAudit>(files: &F, store_id: u128, generation: u64) -> bool {
    &&& forall|there: bool| #[trigger] tells_dir(files, Seq::empty(), there) ==> there
    &&& forall|k: Result<bool, EngineError>| #[trigger]
        call_ensures(F::lock_shared, (files,), k) ==> k == Ok::<bool, EngineError>(true)
    &&& forall|l: Result<Vec<DirEntry>, EngineError>| #[trigger]
        gives_list(files, Seq::empty(), l) ==> (l matches Ok(entries) && {
            &&& strays_in(Seq::empty(), entries@).len() == 0
            &&& holds_kind(entries@, FileKind::StoreMeta)
            &&& holds_kind(entries@, FileKind::GenerationMeta) == (generation != 0)
        })
    &&& forall|m: Result<StoreMeta, ReadFault>| #[trigger]
        call_ensures(F::read_store_meta, (files,), m) ==> (m matches Ok(meta) && meta.store_format_version
            == STORE_FORMAT_VERSION && meta.store_id == Some(store_id))
    &&& forall|g: Result<u64, ReadFault>| #[trigger]
        call_ensures(F::read_generation, (files,), g) && generation != 0 ==> (g matches Ok(n) && n == generation)
    &&& forall|there: bool| #[trigger]
        tells_dir(files, generation_dir_name(generation), there) && generation != 0 ==> there
}

/// Where the data of a generation lies.
pub open spec fn data_dir(generation: u64) -> Seq<char> {
    if generation == 0 {
        Seq::empty()
    } else {
        generation_dir_name(generation)
    }
}

/// A sound store audits healthy in every mode, without an error and without a
/// warning.
pub proof fn a_sound_store_audits_healthy<F: StoreAudit + IndexCodec>(
    files: &F,
    prefixes: FtsPrefixes,
    supplied: SuppliedKey<'_>,
    mode: VerifyMode,
    store_id: u128,
    generation: u64,
    tables_rows: Seq<Seq<Row>>,
    log: Seq<Row>,
    r: Result<VerifyReport, EngineError>,
)
    requires
        sound_root(files, store_id, generation),
        sound_dir(files, prefixes, supplied, mode, store_id, data_dir(generation), generation, tables_rows, log),
        audits(files, prefixes, supplied, mode, r),
    ensures
        r matches Ok(report) && report.healthy && report.errors@.len() == 0 && report.warnings@.len() == 0,
{
    let dir = data_dir(generation);
    let l = choose|l: Result<Vec<DirEntry>, EngineError>|
        #[trigger] gives_list(files, Seq::empty(), l) && match l {
            Err(e) => r == Err::<VerifyReport, EngineError>(e),
            Ok(entries) => audits_root(files, prefixes, supplied, mode, entries@, r),
        };
    let entries = l->Ok_0@;
    let t = no_tally().with(Seq::empty(), strays_in(Seq::empty(), entries)).with_file();
    let id = Some(store_id);
    assert(audits_generation(files, prefixes, supplied, mode, id, entries, t, r));
    if generation == 0 {
        lemma_crypto_sound(files, prefixes, supplied, mode, id, dir, 0, entries, t, r, tables_rows, log);
    } else {
        let u = t.with_file();
        assert(audits_active(files, prefixes, supplied, mode, id, generation, u, r));
        let k = choose|k: Result<Vec<DirEntry>, EngineError>|
            #[trigger] gives_list(files, dir, k) && match k {
                Err(e) => r == Err::<VerifyReport, EngineError>(e),
                Ok(inner) => audits_crypto(
                    files,
                    prefixes,
                    supplied,
                    mode,
                    id,
                    dir,
                    generation,
                    inner@,
                    u.with(Seq::empty(), strays_in(dir, inner@)),
                    r,
                ),
            };
        let inner = k->Ok_0@;
        let v = u.with(Seq::empty(), strays_in(dir, inner));
        lemma_crypto_sound(files, prefixes, supplied, mode, id, dir, generation, inner, v, r, tables_rows, log);
    }
    let u = choose|u: Tally| #[trigger] closes(r, u) && u.errors.len() == 0 && u.warnings.len() == 0;
    let report = r->Ok_0;
    assert(super::findings(report.errors@).len() == 0);
    assert(super::findings(report.warnings@).len() == 0);
}

/// A directory is listed with a key record, which every key but `key` fails to
/// open, as a wrong one.
pub open spec fn opens_for<F: StoreAudit>(files: &F, dir: Seq<char>, key: KeyV) -> bool {
    &&& forall|l: Result<Vec<DirEntry>, EngineError>| #[trigger]
        gives_list(files, dir, l) ==> (l matches Ok(entries) && holds_kind(entries@, FileKind::CryptoMeta))
    &&& forall|bytes: Seq<u8>, mode: KeyMode, generation: Option<u64>, l: Result<(), EngineError>|
        #[trigger] gives_crypto(files, dir, bytes, mode, generation, l) && !(bytes == key.bytes && mode == key.mode)
            ==> (l matches Err(e) && e is WrongEncryptionKey)
}

/// An audit of a sealed store fails, without a report, where the key is missing
/// or is another one: the same bytes in the other mode are another one.
pub proof fn another_key_fails_the_audit<F: StoreAudit + IndexCodec>(
    files: &F,
    prefixes: FtsPrefixes,
    supplied: SuppliedKey<'_>,
    mode: VerifyMode,
    store_id: u128,
    generation: u64,
    key: KeyV,
    r: Result<VerifyReport, EngineError>,
)
    requires
        sound_root(files, store_id, generation),
        opens_for(files, data_dir(generation), key),
        !is_supplied(supplied, key),
        audits(files, prefixes, supplied, mode, r),
    ensures
        r matches Err(e) && if supplied is Some {
            e is WrongEncryptionKey
        } else {
            e is MissingEncryptionKey
        },
{
    let dir = data_dir(generation);
    let l = choose|l: Result<Vec<DirEntry>, EngineError>|
        #[trigger] gives_list(files, Seq::empty(), l) && match l {
            Err(e) => r == Err::<VerifyReport, EngineError>(e),
            Ok(entries) => audits_root(files, prefixes, supplied, mode, entries@, r),
        };
    let entries = l->Ok_0@;
    let t = no_tally().with(Seq::empty(), strays_in(Seq::empty(), entries)).with_file();
    let id = Some(store_id);
    assert(audits_generation(files, prefixes, supplied, mode, id, entries, t, r));
    if generation == 0 {
        assert(audits_crypto(files, prefixes, supplied, mode, id, dir, 0, entries, t, r));
    } else {
        assert(audits_active(files, prefixes, supplied, mode, id, generation, t.with_file(), r));
    }
}

/// After a full rotation under a passphrase a sound store audits healthy with
/// that passphrase, without an error and without a warning, and the same bytes
/// as a raw key are a wrong key.
pub proof fn a_rotated_store_audits_healthy_with_its_passphrase_alone<F: StoreRoot, D: StoreAudit + IndexCodec>(
    files: &F,
    t0: Seq<Step>,
    t1: Seq<Step>,
    before: Engine,
    after: Engine,
    passphrase: Seq<u8>,
    profile: Argon2idProfile,
    fsyncs: u64,
    rotated: Result<(), EngineError>,
    disk: &D,
    prefixes: FtsPrefixes,
    bytes: &[u8],
    mode: VerifyMode,
    store_id: u128,
    tables_rows: Seq<Seq<Row>>,
    log: Seq<Row>,
    with_passphrase: Result<VerifyReport, EngineError>,
    with_key: Result<VerifyReport, EngineError>,
)
    requires
        rotates(files, t0, t1, before, after, passphrase, KeyMode::Passphrase, profile, fsyncs, rotated),
        rotated is Ok,
        bytes@ == passphrase,
        pointer_after(None, t1, 0) matches Some(generation)
            && key_after(None, t1, 0, after.dir@) matches Some(key) ==> opens_for(
            disk,
            data_dir(generation),
            key,
        ),
        pointer_after(None, t1, 0) matches Some(generation) ==> sound_root(disk, store_id, generation) && sound_dir(
            disk,
            prefixes,
            Some((bytes, KeyMode::Passphrase)),
            mode,
            store_id,
            data_dir(generation),
            generation,
            tables_rows,
            log,
        ),
        audits(disk, prefixes, Some((bytes, KeyMode::Passphrase)), mode, with_passphrase),
        audits(disk, prefixes, Some((bytes, KeyMode::RawKey)), mode, with_key),
    ensures
        with_passphrase matches Ok(report) && report.healthy && report.warnings@.len() == 0,
        with_key matches Err(e) && e is WrongEncryptionKey,
{
    a_full_rotation_puts_the_new_key_on_record(
        files,
        t0,
        t1,
        before,
        after,
        passphrase,
        KeyMode::Passphrase,
        profile,
        fsyncs,
        rotated,
        None,
        None,
        0,
    );
    let key = KeyV { bytes: passphrase, mode: KeyMode::Passphrase, profile };
    a_sound_store_audits_healthy(
        disk,
        prefixes,
        Some((bytes, KeyMode::Passphrase)),
        mode,
        store_id,
        after.generation_id,
        tables_rows,
        log,
        with_passphrase,
    );
    another_key_fails_the_audit(
        disk,
        prefixes,
        Some((bytes, KeyMode::RawKey)),
        mode,
        store_id,
        after.generation_id,
        key,
        with_key,
    );
}

} // verus!
