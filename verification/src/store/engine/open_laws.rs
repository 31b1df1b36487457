//! When a store opens, and what it then answers.
use super::answer_laws::is_true;
use super::durable::{durable, log_after, manifest_after, runs, Call, Origin};
use super::laws::{contents, get_answers_from_the_store};
use super::open::{binds, gates, is_active, resolves, settles_key, unlocks, ActiveDir};
use super::read::gets;
use super::recover::{
    confronts, confronts_with, first_lost, ids_used_up, loads_each, loads_tables, opens, opens_data, opens_locked,
    opens_log, opens_tables, sst_tables, LiveTables, Recovered,
};
use super::recovery_laws::{
    lemma_loaded_ids, lists_once, log_replays, manifest_lists, reopening_serves_the_same_after_any_calls, tables_load,
};
use super::write::WalRecord;
use super::{Engine, StoreFiles};
use crate::error::EngineError;
use crate::store::files::{
    gives_crypto, gives_list, gives_manifest, tells_present, DirEntry, ReadFault, SstManifest, StoreMeta, StoreRoot,
    UserKey, STORE_FORMAT_VERSION,
};
use crate::store::options::EngineOptions;
use crate::store::rows::{slot_view, Row};
use crate::store::sst_block::read::loads;
use crate::store::sst_block::{joined, BlockSstFile};
use crate::store::trace::{locked, made_root, opened_log, replayed_log, Step};
use crate::store::verify::Listed;
use crate::store::version::ids_of;
use crate::store::Value;
use std::sync::Arc;
use vstd::prelude::*;

verus! {

/// A step that opening asks for succeeded. A removal may fail.
pub open spec fn is_answered(step: Step) -> bool {
    match step {
        Step::CreateRoot { r } => r is Ok,
        Step::Lock { r } => r matches Ok(free) && free,
        Step::WriteStoreMeta { meta, r } => r is Ok,
        Step::CreateCrypto { dir, key, generation, r } => r is Ok,
        Step::PublishManifest { dir, generation, live, r } => r is Ok,
        Step::OpenLog { dir, r } => r is Ok,
        Step::ReplayLog { dir, r } => r is Ok,
        _ => true,
    }
}

/// Every step of `t` succeeded.
pub open spec fn all_answered(t: Seq<Step>) -> bool {
    forall|i: int| 0 <= i < t.len() ==> is_answered(#[trigger] t[i])
}

/// The store's record is there and is of this format.
pub open spec fn has_record<F: StoreRoot>(disk: &F) -> bool {
    &&& forall|there: bool| #[trigger] tells_present(disk, "store.meta"@, there) ==> there
    &&& forall|m: Result<StoreMeta, ReadFault>| #[trigger]
        call_ensures(F::read_store_meta, (disk,), m) ==> (m matches Ok(meta) && meta.store_format_version
            == STORE_FORMAT_VERSION && meta.store_id is Some)
}

/// The data directory is sealed exactly if `key` is a key, and that opens it.
pub open spec fn takes_key<F: StoreRoot>(disk: &F, dir: Seq<char>, generation: u64, key: Option<&UserKey>) -> bool {
    &&& generation != 0 ==> key is Some
    &&& forall|sealed: bool| #[trigger] tells_present(disk, joined(dir, "crypto.meta"@), sealed) ==> sealed == (key is Some)
    &&& forall|l: Result<(), EngineError>| #[trigger]
        gives_crypto(disk, dir, key->Some_0.bytes@, key->Some_0.mode, binds(key->Some_0.mode, generation), l)
            && key is Some ==> l is Ok
}

/// Every table of the data directory can be listed and loaded.
pub open spec fn has_tables<F: StoreRoot>(disk: &F, dir: Seq<char>) -> bool {
    &&& forall|l: Result<Vec<DirEntry>, EngineError>| #[trigger]
        gives_list(disk, dir, l) ==> (l matches Ok(entries) && !ids_used_up(sst_tables(dir, entries@)))
    &&& forall|
        l: Result<Vec<DirEntry>, EngineError>,
        encrypted: bool,
        lens: (u64, u64),
        i: int,
        r: Result<BlockSstFile, EngineError>,
    |
        #[trigger] gives_list(disk, dir, l) && l is Ok && #[trigger] call_ensures(
            F::section_lens,
            (disk, encrypted),
            lens,
        ) && 0 <= i < sst_tables(dir, l->Ok_0@).len() && #[trigger] loads(
            disk,
            sst_tables(dir, l->Ok_0@)[i].path,
            sst_tables(dir, l->Ok_0@)[i].id,
            sst_tables(dir, l->Ok_0@)[i].len,
            lens.0,
            lens.1,
            r,
        ) ==> r is Ok
}

/// The manifest is there, and the tables that it lists too.
pub open spec fn has_manifest<F: StoreRoot>(disk: &F, dir: Seq<char>) -> bool {
    &&& forall|there: bool| #[trigger] tells_present(disk, joined(dir, "manifest.meta"@), there) ==> there
    &&& forall|m: Result<SstManifest, ReadFault>| #[trigger] gives_manifest(disk, dir, m) ==> m is Ok
    &&& forall|m: Result<SstManifest, ReadFault>, l: Result<Vec<DirEntry>, EngineError>, i: int|
        #[trigger] gives_manifest(disk, dir, m) && #[trigger] gives_list(disk, dir, l) && m is Ok && l is Ok && 0 <= i
            < m->Ok_0.live_sst_ids@.len() ==> is_listed(
            sst_tables(dir, l->Ok_0@),
            #[trigger] m->Ok_0.live_sst_ids@[i],
        )
}

/// Some table is listed under `id`.
pub open spec fn is_listed(tables: Seq<Listed>, id: u64) -> bool {
    exists|k: int| 0 <= k < tables.len() && (#[trigger] tables[k]).id == id
}

/// Nothing of the store is missing or cannot be read.
pub open spec fn is_intact<F: StoreRoot>(disk: &F, dir: Seq<char>, generation: u64, key: Option<&UserKey>) -> bool {
    &&& has_record(disk)
    &&& forall|a: Result<ActiveDir, EngineError>| #[trigger] resolves(disk, a) ==> is_active(a, dir, generation)
    &&& takes_key(disk, dir, generation, key)
    &&& has_tables(disk, dir)
    &&& has_manifest(disk, dir)
}

proof fn lemma_last_is_answered(t: Seq<Step>, step: Step)
    requires
        all_answered(t.push(step)),
    ensures
        is_answered(step),
{
    assert(t.push(step)[t.len() as int] == step);
}

proof fn lemma_log_opens<F: StoreRoot>(
    disk: &F,
    t0: Seq<Step>,
    t1: Seq<Step>,
    options: EngineOptions,
    known: Recovered,
    r: Result<Engine, EngineError>,
)
    requires
        opens_log(disk, t0, t1, options, known, r),
        all_answered(t1),
    ensures
        r is Ok,
{
    let dir = known.active.dir@;
    let (o, a) = choose|o: Result<u64, EngineError>, a: Seq<Step>|
        #[trigger] opened_log(t0, a, dir, o) && match o {
            Err(e) => t1 == a,
            Ok(len) => exists|l: Result<Vec<WalRecord>, EngineError>, b: Seq<Step>|
                #[trigger] replayed_log(a, b, dir, l) && match l {
                    Err(e) => t1 == b,
                    Ok(log) => r is Ok,
                },
        };
    if o is Err {
        lemma_last_is_answered(t0, Step::OpenLog { dir, r: o });
    } else {
        let (l, b) = choose|l: Result<Vec<WalRecord>, EngineError>, b: Seq<Step>|
            #[trigger] replayed_log(a, b, dir, l) && match l {
                Err(e) => t1 == b,
                Ok(log) => r is Ok,
            };
        if l is Err {
            lemma_last_is_answered(a, Step::ReplayLog { dir, r: l });
        }
    }
}

proof fn lemma_tables_open<F: StoreRoot>(
    disk: &F,
    t0: Seq<Step>,
    t1: Seq<Step>,
    options: EngineOptions,
    store_id: u128,
    active: ActiveDir,
    encrypted: bool,
    lens: (u64, u64),
    l: Result<Vec<DirEntry>, EngineError>,
    found: Seq<Arc<BlockSstFile>>,
    r: Result<Engine, EngineError>,
)
    requires
        has_tables(disk, active.dir@),
        has_manifest(disk, active.dir@),
        gives_list(disk, active.dir@, l),
        l is Ok,
        found.len() == sst_tables(active.dir@, l->Ok_0@).len(),
        loads_each(disk, lens, sst_tables(active.dir@, l->Ok_0@), found),
        opens_tables(
            disk,
            t0,
            t1,
            options,
            store_id,
            active,
            encrypted,
            sst_tables(active.dir@, l->Ok_0@),
            found,
            r,
        ),
        all_answered(t1),
    ensures
        r is Ok,
{
    let dir = active.dir@;
    let tables = sst_tables(dir, l->Ok_0@);
    let (c, m) = choose|c: Result<LiveTables, EngineError>, m: Seq<Step>|
        #[trigger] confronts(disk, t0, m, dir, found, c) && match c {
            Err(e) => t1 == m,
            Ok(live) => exists|k: Recovered| #[trigger] opens_log(disk, m, t1, options, k, r),
        };
    let man = choose|man: Result<SstManifest, ReadFault>|
        #[trigger] gives_manifest(disk, dir, man) && man is Ok && confronts_with(t0, m, dir, found, man->Ok_0, c);
    let live = man->Ok_0.live_sst_ids@;
    lemma_loaded_ids(disk, lens, tables, found);
    assert forall|i: int| !first_lost(found, live, i) by {
        if 0 <= i < live.len() {
            assert(is_listed(tables, live[i]));
            let k = choose|k: int| 0 <= k < tables.len() && (#[trigger] tables[k]).id == live[i];
            assert(found[k].id == live[i]);
            assert(ids_of(found)[k] == live[i]);
        }
    }
    let k = choose|k: Recovered| #[trigger] opens_log(disk, m, t1, options, k, r);
    lemma_log_opens(disk, m, t1, options, k, r);
}

proof fn lemma_data_opens<F: StoreRoot>(
    disk: &F,
    t0: Seq<Step>,
    t1: Seq<Step>,
    options: EngineOptions,
    store_id: u128,
    active: ActiveDir,
    encrypted: bool,
    r: Result<Engine, EngineError>,
)
    requires
        has_tables(disk, active.dir@),
        has_manifest(disk, active.dir@),
        opens_data(disk, t0, t1, options, store_id, active, encrypted, r),
        all_answered(t1),
    ensures
        r is Ok,
{
    let dir = active.dir@;
    let (lens, l) = choose|lens: (u64, u64), l: Result<Vec<DirEntry>, EngineError>|
        {
            &&& #[trigger] call_ensures(F::section_lens, (disk, encrypted), lens)
            &&& #[trigger] gives_list(disk, dir, l)
            &&& match l {
                Err(e) => true,
                Ok(entries) => exists|t: Result<Vec<Arc<BlockSstFile>>, EngineError>|
                    #[trigger] loads_tables(disk, lens, sst_tables(dir, entries@), t) && match t {
                        Err(e) => true,
                        Ok(found) => opens_tables(
                            disk,
                            t0,
                            t1,
                            options,
                            store_id,
                            active,
                            encrypted,
                            sst_tables(dir, entries@),
                            found@,
                            r,
                        ),
                    },
            }
        };
    let tables = sst_tables(dir, l->Ok_0@);
    let t = choose|t: Result<Vec<Arc<BlockSstFile>>, EngineError>|
        #[trigger] loads_tables(disk, lens, tables, t) && match t {
            Err(e) => true,
            Ok(found) => opens_tables(
                disk,
                t0,
                t1,
                options,
                store_id,
                active,
                encrypted,
                tables,
                found@,
                r,
            ),
        };
    match t {
        Err(e) => {
            let found = choose|found: Seq<Arc<BlockSstFile>>| #[trigger]
                loads_each(disk, lens, tables, found) && found.len() < tables.len() && loads(
                    disk,
                    tables[found.len() as int].path,
                    tables[found.len() as int].id,
                    tables[found.len() as int].len,
                    lens.0,
                    lens.1,
                    Err(e),
                );
            let i = found.len() as int;
            let x: Result<BlockSstFile, EngineError> = Err(e);
            assert(loads(disk, tables[i].path, tables[i].id, tables[i].len, lens.0, lens.1, x));
            assert(x is Ok);
        },
        Ok(found) => {
            lemma_tables_open(
                disk,
                t0,
                t1,
                options,
                store_id,
                active,
                encrypted,
                lens,
                l,
                found@,
                r,
            );
        },
    }
}

/// An intact store opens, whatever the options, where every step that is asked
/// for succeeds.
pub proof fn an_intact_store_opens<F: StoreRoot>(
    disk: &F,
    t0: Seq<Step>,
    t1: Seq<Step>,
    options: EngineOptions,
    dir: Seq<char>,
    generation: u64,
    key: Option<&UserKey>,
    r: Result<Engine, EngineError>,
)
    requires
        is_intact(disk, dir, generation, key),
        opens(disk, t0, t1, options, key, r),
        all_answered(t1),
    ensures
        r is Ok,
{
    let (c, a) = choose|c: Result<(), EngineError>, a: Seq<Step>|
        #[trigger] made_root(t0, a, c) && match c {
            Err(e) => t1 == a,
            Ok(()) => exists|k: Result<bool, EngineError>, b: Seq<Step>|
                #[trigger] locked(a, b, k) && match k {
                    Err(e) => t1 == b,
                    Ok(false) => t1 == b,
                    Ok(true) => opens_locked(disk, b, t1, options, key, r),
                },
        };
    if c is Err {
        lemma_last_is_answered(t0, Step::CreateRoot { r: c });
    } else {
        let (k, b) = choose|k: Result<bool, EngineError>, b: Seq<Step>|
            #[trigger] locked(a, b, k) && match k {
                Err(e) => t1 == b,
                Ok(false) => t1 == b,
                Ok(true) => opens_locked(disk, b, t1, options, key, r),
            };
        if !(k matches Ok(free) && free) {
            lemma_last_is_answered(a, Step::Lock { r: k });
        }
        let (g, m) = choose|g: Result<u128, EngineError>, m: Seq<Step>|
            #[trigger] gates(disk, b, m, g) && match g {
                Err(e) => true,
                Ok(store_id) => exists|x: Result<ActiveDir, EngineError>|
                    #[trigger] resolves(disk, x) && match x {
                        Err(e) => true,
                        Ok(active) => exists|s: Result<bool, EngineError>, n: Seq<Step>|
                            #[trigger] settles_key(disk, m, n, active.dir@, active.generation, key, s) && match s {
                                Err(e) => true,
                                Ok(encrypted) => opens_data(
                                    disk,
                                    n,
                                    t1,
                                    options,
                                    store_id,
                                    active,
                                    encrypted,
                                    r,
                                ),
                            },
                    },
            };
        let x = choose|x: Result<ActiveDir, EngineError>|
            #[trigger] resolves(disk, x) && match x {
                Err(e) => true,
                Ok(active) => exists|s: Result<bool, EngineError>, n: Seq<Step>|
                    #[trigger] settles_key(disk, m, n, active.dir@, active.generation, key, s) && match s {
                        Err(e) => true,
                        Ok(encrypted) => opens_data(disk, n, t1, options, g->Ok_0, active, encrypted, r),
                    },
            };
        let active = x->Ok_0;
        let (s, n) = choose|s: Result<bool, EngineError>, n: Seq<Step>|
            #[trigger] settles_key(disk, m, n, active.dir@, active.generation, key, s) && match s {
                Err(e) => true,
                Ok(encrypted) => opens_data(disk, n, t1, options, g->Ok_0, active, encrypted, r),
            };
        assert(s is Ok) by {
            if key is Some {
                assert(unlocks(disk, dir, generation, key, s));
            }
        }
        lemma_data_opens(disk, n, t1, options, g->Ok_0, active, s->Ok_0, r);
    }
}

/// After any puts, deletes, batches, flushes and merges, flushed or not, a
/// store that is dropped opens again, with the same key and any options, where
/// nothing of it is missing; and every lookup then gives what it gave before.
pub proof fn a_reopened_store_answers_the_same<F: StoreFiles, D: StoreRoot>(
    files: &F,
    origin: Origin,
    t0: Seq<Step>,
    t: Seq<Step>,
    first: Engine,
    before: Engine,
    calls: Seq<Call>,
    disk: &D,
    s0: Seq<Step>,
    s1: Seq<Step>,
    options: EngineOptions,
    generation: u64,
    key: Option<&UserKey>,
    r: Result<Engine, EngineError>,
    tables: Seq<Seq<Seq<Row>>>,
)
    requires
        durable(first, origin, t0),
        runs(files, t0, t, first, before, calls),
        is_true(files, before, tables),
        opens(disk, s0, s1, options, key, r),
        all_answered(s1),
        is_intact(disk, before.dir@, generation, key),
        log_replays(s1, before.dir@, log_after(origin.log, t, origin.from, first.dir@)),
        lists_once(disk, before.dir@),
        manifest_lists(disk, before.dir@, manifest_after(origin.ids, t, origin.from, first.dir@)),
        tables_load(disk, before.dir@, before.current.ssts@, tables),
    ensures
        r matches Ok(after) && is_true(disk, after, tables) && contents(tables, after.memtable.spec_rows()) == contents(
            tables,
            before.memtable.spec_rows(),
        ) && forall|
            k: Seq<u8>,
            earlier: Engine,
            w: Option<Value>,
            later: Engine,
            v: Option<Value>,
        |
            #[trigger] gets(files, before, earlier, k, Ok(w)) && #[trigger] gets(disk, after, later, k, Ok(v))
                ==> slot_view(v) == slot_view(w),
{
    an_intact_store_opens(disk, s0, s1, options, before.dir@, generation, key, r);
    let after = r->Ok_0;
    let (store_id, active, encrypted, m) = super::recovery_laws::lemma_opened(disk, s0, s1, options, key, after);
    super::recovery_laws::lemma_opened_dir(disk, m, s1, options, store_id, active, encrypted, after);
    lemma_opened_in(disk, s0, s1, options, before.dir@, generation, key, after);
    reopening_serves_the_same_after_any_calls(
        files,
        origin,
        t0,
        t,
        first,
        before,
        calls,
        disk,
        s0,
        s1,
        options,
        key,
        after,
        tables,
    );
    assert forall|k: Seq<u8>, earlier: Engine, w: Option<Value>, later: Engine, v: Option<Value>|
        #[trigger] gets(files, before, earlier, k, Ok(w))
            && #[trigger] gets(disk, after, later, k, Ok(v)) implies slot_view(
        v,
    ) == slot_view(w) by {
        get_answers_from_the_store(files, before, earlier, tables, k, w);
        get_answers_from_the_store(disk, after, later, tables, k, v);
    }
}

/// A store that was opened is in the directory that it resolves to.
pub proof fn lemma_opened_in<F: StoreRoot>(
    disk: &F,
    t0: Seq<Step>,
    t1: Seq<Step>,
    options: EngineOptions,
    dir: Seq<char>,
    generation: u64,
    key: Option<&UserKey>,
    after: Engine,
)
    requires
        forall|a: Result<ActiveDir, EngineError>| #[trigger] resolves(disk, a) ==> is_active(a, dir, generation),
        opens(disk, t0, t1, options, key, Ok(after)),
    ensures
        after.dir@ == dir,
{
    let (x, n, id, e) = choose|x: Result<ActiveDir, EngineError>, n: Seq<Step>, id: u128, e: bool|
        #[trigger] resolves(disk, x) && x is Ok && #[trigger] opens_data(
            disk,
            n,
            t1,
            options,
            id,
            x->Ok_0,
            e,
            Ok(after),
        );
    super::recovery_laws::lemma_opened_dir(disk, n, t1, options, id, x->Ok_0, e, after);
}

} // verus!
