//! What opening a store brings back.
use super::crash_laws::{lemma_same_log, serves};
use super::durable::{any_calls_keep_the_store_durable, durable, log_after, manifest_after, runs, Call, Origin};
use super::file_laws::{lemma_tables_named, names_table};
use super::io::{lemma_inactive_sweep_grows, sweeps_inactive};
use super::laws::{coherent, contents, get_answers_from_the_store, holds_table, holds_tables, value_of};
use super::open::{gates, resolves, settles_key, ActiveDir};
use super::read::gets;
use super::recover::{
    confronts, confronts_with, first_lost, is_opened, kept_live, loads_each, loads_tables, opens, opens_data, opens_locked,
    opens_log, opens_tables, sst_tables, tables_are_listed_oldest_first, LiveTables, Recovered,
};
use super::replay_laws::{gives_back_ops, lemma_gives_back_ops};
use super::write::{record_rows, WalRecord};
use super::{Engine, StoreFiles};
use crate::error::EngineError;
use crate::store::files::{gives_list, gives_manifest, tells_present, DirEntry, ReadFault, SstManifest, StoreRoot, UserKey};
use crate::store::options::EngineOptions;
use crate::store::rows;
use crate::store::rows::{live, rows_map, slot_view, Row};
use crate::store::sst_block::read::loads;
use crate::store::sst_block::{joined, BlockSstFile};
use crate::store::trace::{opened_log, replayed_log, Step};
use crate::store::verify::Listed;
use crate::store::version::{ids_ascend, ids_of};
use crate::store::Value;
use std::sync::Arc;
use vstd::prelude::*;

verus! {

/// If a step replays the log of `dir`, its records say `rows`.
pub open spec fn replays_as(step: Step, dir: Seq<char>, rows: Seq<Row>) -> bool {
    match step {
        Step::ReplayLog { dir: d, r: Ok(log) } => d == dir ==> gives_back_ops(log@, rows),
        _ => true,
    }
}

/// Among the steps `t`, a replay of the log of `dir` gives `rows`.
pub open spec fn log_replays(t: Seq<Step>, dir: Seq<char>, rows: Seq<Row>) -> bool {
    forall|i: int| 0 <= i < t.len() ==> replays_as(#[trigger] t[i], dir, rows)
}

/// The manifest of `dir` is there and lists `ids`.
pub open spec fn manifest_lists<F: StoreRoot>(files: &F, dir: Seq<char>, ids: Seq<u64>) -> bool {
    &&& forall|there: bool| #[trigger] tells_present(files, joined(dir, "manifest.meta"@), there) ==> there
    &&& forall|m: Result<SstManifest, ReadFault>|
        #[trigger] gives_manifest(files, dir, m) && m is Ok ==> m->Ok_0.live_sst_ids@ == ids
}

/// A table of `dir` that is loaded under the id of one of `ssts` holds the
/// blocks of that one.
pub open spec fn tables_load<F: StoreRoot>(
    files: &F,
    dir: Seq<char>,
    ssts: Seq<Arc<BlockSstFile>>,
    tables: Seq<Seq<Seq<Row>>>,
) -> bool {
    forall|path: Seq<char>, id: u64, len: u64, h: u64, f: u64, r: Result<BlockSstFile, EngineError>, i: int|
        #[trigger] loads(files, path, id, len, h, f, r) && names_table(path, dir, id) && r is Ok && 0 <= i < ssts.len()
            && (
        #[trigger] ssts[i]).id == id ==> holds_table(files, &r->Ok_0, tables[i])
}

/// The tables that are kept are those that are live.
pub proof fn lemma_kept(found: Seq<Arc<BlockSstFile>>, live: Seq<u64>)
    ensures
        forall|i: int|
            0 <= i < kept_live(found, live).len() ==> found.contains(#[trigger] kept_live(found, live)[i])
                && live.contains(kept_live(found, live)[i].id),
        forall|i: int|
            0 <= i < found.len() && live.contains((#[trigger] found[i]).id) ==> kept_live(found, live).contains(
                found[i],
            ),
    decreases found.len(),
{
    if found.len() > 0 {
        let head = found.drop_last();
        let rest = kept_live(head, live);
        let kept = kept_live(found, live);
        lemma_kept(head, live);
        assert forall|i: int| 0 <= i < kept.len() implies found.contains(#[trigger] kept[i]) && live.contains(
            kept[i].id,
        ) by {
            if i < rest.len() {
                assert(kept[i] == rest[i]);
                assert(head.contains(rest[i]));
                let k = choose|k: int| 0 <= k < head.len() && head[k] == rest[i];
                assert(found[k] == kept[i]);
            } else {
                assert(found[found.len() - 1] == kept[i]);
            }
        }
        assert forall|i: int| 0 <= i < found.len() && live.contains((#[trigger] found[i]).id) implies kept.contains(
            found[i],
        ) by {
            if i < head.len() {
                assert(head[i] == found[i]);
                assert(rest.contains(head[i]));
                let k = choose|k: int| 0 <= k < rest.len() && rest[k] == head[i];
                assert(kept[k] == found[i]);
            } else {
                assert(kept[rest.len() as int] == found[i]);
            }
        }
    }
}

/// No two files of `dir` are named after one table.
pub open spec fn lists_once<F: StoreRoot>(files: &F, dir: Seq<char>) -> bool {
    forall|l: Result<Vec<DirEntry>, EngineError>, i: int, j: int|
        #[trigger] gives_list(files, dir, l) && l is Ok && 0 <= i < j < sst_tables(dir, l->Ok_0@).len() ==> (
        #[trigger] sst_tables(dir, l->Ok_0@)[i]).id != (#[trigger] sst_tables(dir, l->Ok_0@)[j]).id
}

/// What is kept of tables in strict order is in strict order.
proof fn lemma_kept_ascends(found: Seq<Arc<BlockSstFile>>, live: Seq<u64>)
    requires
        ids_ascend(found),
    ensures
        ids_ascend(kept_live(found, live)),
        forall|i: int|
            0 <= i < kept_live(found, live).len() ==> found.len() > 0 && (#[trigger] kept_live(found, live)[i]).id
                <= found.last().id,
    decreases found.len(),
{
    if found.len() > 0 {
        let head = found.drop_last();
        let rest = kept_live(head, live);
        let kept = kept_live(found, live);
        assert forall|i: int, j: int| 0 <= i < j < head.len() implies (#[trigger] head[i]).id < (
        #[trigger] head[j]).id by {
            assert(found[i].id < found[j].id);
        }
        lemma_kept_ascends(head, live);
        if head.len() > 0 {
            assert(found[head.len() - 1].id < found[found.len() - 1].id);
        }
        assert forall|i: int| 0 <= i < kept.len() implies (#[trigger] kept[i]).id <= found.last().id by {
            if i < rest.len() {
                assert(kept[i] == rest[i]);
            }
        }
        assert forall|i: int, j: int| 0 <= i < j < kept.len() implies (#[trigger] kept[i]).id < (
        #[trigger] kept[j]).id by {
            assert(kept[i] == rest[i]);
            if j < rest.len() {
                assert(rest[i].id < rest[j].id);
            } else {
                assert(rest[i].id <= head.last().id);
            }
        }
    }
}

/// The numbers ascend strictly.
spec fn strictly_ascending(ids: Seq<u64>) -> bool {
    forall|i: int, j: int| 0 <= i < j < ids.len() ==> #[trigger] ids[i] < #[trigger] ids[j]
}

/// Strictly ascending numbers are told by which they are.
proof fn lemma_same_ids(a: Seq<u64>, b: Seq<u64>)
    requires
        strictly_ascending(a),
        strictly_ascending(b),
        forall|x: u64| #[trigger] a.contains(x) <==> b.contains(x),
    ensures
        a == b,
    decreases a.len(),
{
    if a.len() == 0 {
        if b.len() > 0 {
            assert(b.contains(b[0]));
            assert(a.contains(b[0]));
        }
        assert(a =~= b);
    } else {
        assert(a.contains(a[a.len() - 1]));
        assert(b.contains(a.last()));
        let j = choose|j: int| 0 <= j < b.len() && b[j] == a.last();
        assert(b.contains(b[b.len() - 1]));
        assert(a.contains(b.last()));
        let i = choose|i: int| 0 <= i < a.len() && a[i] == b.last();
        if j < b.len() - 1 {
            assert(b[j] < b[b.len() - 1]);
            if i < a.len() - 1 {
                assert(a[i] < a[a.len() - 1]);
            }
        }
        assert(a.last() == b.last());
        let a0 = a.drop_last();
        let b0 = b.drop_last();
        assert forall|x: u64| #[trigger] a0.contains(x) <==> b0.contains(x) by {
            if a0.contains(x) {
                let k = choose|k: int| 0 <= k < a0.len() && a0[k] == x;
                assert(a[k] == x && a[k] < a[a.len() - 1]);
                assert(a.contains(x));
                let m = choose|m: int| 0 <= m < b.len() && b[m] == x;
                assert(b0[m] == x);
            }
            if b0.contains(x) {
                let k = choose|k: int| 0 <= k < b0.len() && b0[k] == x;
                assert(b[k] == x && b[k] < b[b.len() - 1]);
                assert(b.contains(x));
                assert(a.contains(x));
                let m = choose|m: int| 0 <= m < a.len() && a[m] == x;
                assert(a0[m] == x);
            }
        }
        lemma_same_ids(a0, b0);
        assert(a =~= a0.push(a.last()));
        assert(b =~= b0.push(b.last()));
    }
}

/// What is kept of loaded tables, all live ones being there, are the tables
/// that are live, in order.
proof fn lemma_kept_ids(found: Seq<Arc<BlockSstFile>>, kept: Seq<Arc<BlockSstFile>>, ssts: Seq<Arc<BlockSstFile>>)
    requires
        kept == kept_live(found, ids_of(ssts)),
        ids_ascend(kept),
        ids_ascend(ssts),
        forall|i: int| 0 <= i < ssts.len() ==> ids_of(found).contains((#[trigger] ssts[i]).id),
    ensures
        ids_of(kept) == ids_of(ssts),
{
    let live = ids_of(ssts);
    let ids = ids_of(kept);
    lemma_kept(found, live);
    assert forall|x: u64| #[trigger] ids.contains(x) <==> live.contains(x) by {
        if ids.contains(x) {
            let k = choose|k: int| 0 <= k < ids.len() && ids[k] == x;
            assert(kept[k].id == x);
        }
        if live.contains(x) {
            let i = choose|i: int| 0 <= i < live.len() && live[i] == x;
            assert(ssts[i].id == x);
            assert(ids_of(found).contains(x));
            let k = choose|k: int| 0 <= k < found.len() && ids_of(found)[k] == x;
            assert(found[k].id == x);
            assert(kept.contains(found[k]));
            let m = choose|m: int| 0 <= m < kept.len() && kept[m] == found[k];
            assert(ids[m] == x);
        }
    }
    assert forall|i: int, j: int| 0 <= i < j < ids.len() implies #[trigger] ids[i] < #[trigger] ids[j] by {
        assert(kept[i].id < kept[j].id);
    }
    assert forall|i: int, j: int| 0 <= i < j < live.len() implies #[trigger] live[i] < #[trigger] live[j] by {
        assert(ssts[i].id < ssts[j].id);
    }
    lemma_same_ids(ids, live);
}

/// What an opened data directory was loaded from.
proof fn lemma_opened_data<F: StoreRoot>(
    files: &F,
    t0: Seq<Step>,
    t1: Seq<Step>,
    options: EngineOptions,
    store_id: u128,
    active: ActiveDir,
    encrypted: bool,
    after: Engine,
    ids: Seq<u64>,
    log: Seq<Row>,
) -> (r: ((u64, u64), Seq<Listed>, Seq<Arc<BlockSstFile>>))
    requires
        opens_data(files, t0, t1, options, store_id, active, encrypted, Ok(after)),
        manifest_lists(files, active.dir@, ids),
        log_replays(t1, active.dir@, log),
    ensures
        after.wf(),
        after.dir@ == active.dir@,
        after.block_cache@.len() == 0,
        r.2.len() == r.1.len(),
        loads_each(files, r.0, r.1, r.2),
        exists|l: Result<Vec<DirEntry>, EngineError>| #[trigger]
            gives_list(files, active.dir@, l) && l is Ok && r.1 == sst_tables(active.dir@, l->Ok_0@),
        after.current.ssts@ == kept_live(r.2, ids),
        forall|i: int| 0 <= i < ids.len() ==> ids_of(r.2).contains(#[trigger] ids[i]),
        after.memtable@ == rows_map(log),
{
    let (lens, l) = choose|lens: (u64, u64), l: Result<Vec<DirEntry>, EngineError>|
        {
            &&& #[trigger] call_ensures(F::section_lens, (files, encrypted), lens)
            &&& #[trigger] gives_list(files, active.dir@, l)
            &&& match l {
                Err(e) => false,
                Ok(entries) => exists|t: Result<Vec<Arc<BlockSstFile>>, EngineError>|
                    #[trigger] loads_tables(files, lens, sst_tables(active.dir@, entries@), t) && match t {
                        Err(e) => false,
                        Ok(found) => opens_tables(
                            files,
                            t0,
                            t1,
                            options,
                            store_id,
                            active,
                            encrypted,
                            sst_tables(active.dir@, entries@),
                            found@,
                            Ok(after),
                        ),
                    },
            }
        };
    let listed = sst_tables(active.dir@, l->Ok_0@);
    let t = choose|t: Result<Vec<Arc<BlockSstFile>>, EngineError>|
        #[trigger] loads_tables(files, lens, listed, t) && match t {
            Err(e) => false,
            Ok(found) => opens_tables(files, t0, t1, options, store_id, active, encrypted, listed, found@, Ok(after)),
        };
    let found = t->Ok_0@;
    let (c, m) = choose|c: Result<LiveTables, EngineError>, m: Seq<Step>|
        #[trigger] confronts(files, t0, m, active.dir@, found, c) && match c {
            Err(e) => false,
            Ok(live) => exists|k: Recovered|
                k.live == live && k.active == active && #[trigger] opens_log(files, m, t1, options, k, Ok(after)),
        };
    let k = choose|k: Recovered|
        k.live == c->Ok_0 && k.active == active && #[trigger] opens_log(files, m, t1, options, k, Ok(after));
    let man = choose|man: Result<SstManifest, ReadFault>|
        #[trigger] gives_manifest(files, active.dir@, man) && man is Ok && confronts_with(
            t0,
            m,
            active.dir@,
            found,
            man->Ok_0,
            c,
        );
    assert(man->Ok_0.live_sst_ids@ == ids);
    assert forall|i: int| 0 <= i < ids.len() implies ids_of(found).contains(#[trigger] ids[i]) by {
        lemma_nothing_lost(found, ids, i);
    }
    lemma_opened_log(files, m, t1, options, k, after, log);
    (lens, listed, found)
}

/// The memtable of an opened engine is what its log, as one of the steps
/// replayed it, says.
pub proof fn lemma_replayed<F: StoreRoot>(
    files: &F,
    t0: Seq<Step>,
    t1: Seq<Step>,
    options: EngineOptions,
    k: Recovered,
    after: Engine,
) -> (log: Vec<WalRecord>)
    requires
        opens_log(files, t0, t1, options, k, Ok(after)),
    ensures
        exists|i: int| 0 <= i < t1.len() && #[trigger] t1[i] == (Step::ReplayLog { dir: k.active.dir@, r: Ok(log) }),
        after.memtable@ == rows_map(record_rows(log@)),
{
    let dir = k.active.dir@;
    let (o, a) = choose|o: Result<u64, EngineError>, a: Seq<Step>|
        #[trigger] opened_log(t0, a, dir, o) && match o {
            Err(e) => false,
            Ok(len) => exists|x: Result<Vec<WalRecord>, EngineError>, b: Seq<Step>|
                #[trigger] replayed_log(a, b, dir, x) && match x {
                    Err(e) => false,
                    Ok(replayed) => exists|failures: u64|
                        #[trigger] sweeps_inactive(files, b, t1, k.active.generation, 0, failures) && is_opened(
                            after,
                            options,
                            k,
                            len,
                            replayed@,
                            failures,
                        ),
                },
        };
    let (x, b) = choose|x: Result<Vec<WalRecord>, EngineError>, b: Seq<Step>|
        #[trigger] replayed_log(a, b, dir, x) && match x {
            Err(e) => false,
            Ok(replayed) => exists|failures: u64|
                #[trigger] sweeps_inactive(files, b, t1, k.active.generation, 0, failures) && is_opened(
                    after,
                    options,
                    k,
                    o->Ok_0,
                    replayed@,
                    failures,
                ),
        };
    let failures = choose|failures: u64|
        #[trigger] sweeps_inactive(files, b, t1, k.active.generation, 0, failures) && is_opened(
            after,
            options,
            k,
            o->Ok_0,
            x->Ok_0@,
            failures,
        );
    lemma_inactive_sweep_grows(files, b, t1, k.active.generation, 0, failures);
    let at = a.len() as int;
    assert(t1.take(b.len() as int)[at] == t1[at]);
    assert(t1[at] == Step::ReplayLog { dir, r: x });
    x->Ok_0
}


/// The memtable of an opened store is what its log was replayed as.
pub proof fn lemma_opened_log<F: StoreRoot>(
    files: &F,
    t0: Seq<Step>,
    t1: Seq<Step>,
    options: EngineOptions,
    k: Recovered,
    after: Engine,
    log: Seq<Row>,
)
    requires
        opens_log(files, t0, t1, options, k, Ok(after)),
        log_replays(t1, k.active.dir@, log),
    ensures
        after.memtable@ == rows_map(log),
{
    let records = lemma_replayed(files, t0, t1, options, k, after);
    let i = choose|i: int| 0 <= i < t1.len() && #[trigger] t1[i] == (Step::ReplayLog {
        dir: k.active.dir@,
        r: Ok(records),
    });
    assert(replays_as(t1[i], k.active.dir@, log));
    lemma_gives_back_ops(records@, log);
}

/// Where no live table is the first that is lost, none is lost.
pub proof fn lemma_nothing_lost(found: Seq<Arc<BlockSstFile>>, live: Seq<u64>, i: int)
    requires
        forall|k: int| !first_lost(found, live, k),
        0 <= i < live.len(),
    ensures
        ids_of(found).contains(live[i]),
    decreases i,
{
    assert forall|j: int| 0 <= j < i implies ids_of(found).contains(#[trigger] live[j]) by {
        lemma_nothing_lost(found, live, j);
    }
    assert(!first_lost(found, live, i));
}

/// The data directory that an opened store was loaded from.
pub proof fn lemma_opened<F: StoreRoot>(
    files: &F,
    t0: Seq<Step>,
    t1: Seq<Step>,
    options: EngineOptions,
    key: Option<&UserKey>,
    after: Engine,
) -> (r: (u128, ActiveDir, bool, Seq<Step>))
    requires
        opens(files, t0, t1, options, key, Ok(after)),
    ensures
        opens_data(files, r.3, t1, options, r.0, r.1, r.2, Ok(after)),
{
    let b = choose|b: Seq<Step>| #[trigger] opens_locked(files, b, t1, options, key, Ok(after));
    let (g, m) = choose|g: Result<u128, EngineError>, m: Seq<Step>|
        #[trigger] gates(files, b, m, g) && match g {
            Err(e) => false,
            Ok(store_id) => exists|a: Result<ActiveDir, EngineError>|
                #[trigger] resolves(files, a) && match a {
                    Err(e) => false,
                    Ok(active) => exists|s: Result<bool, EngineError>, n: Seq<Step>|
                        #[trigger] settles_key(files, m, n, active.dir@, active.generation, key, s) && match s {
                            Err(e) => false,
                            Ok(encrypted) => opens_data(
                                files,
                                n,
                                t1,
                                options,
                                store_id,
                                active,
                                encrypted,
                                Ok(after),
                            ),
                        },
                },
        };
    let a = choose|a: Result<ActiveDir, EngineError>|
        #[trigger] resolves(files, a) && match a {
            Err(e) => false,
            Ok(active) => exists|s: Result<bool, EngineError>, n: Seq<Step>|
                #[trigger] settles_key(files, m, n, active.dir@, active.generation, key, s) && match s {
                    Err(e) => false,
                    Ok(encrypted) => opens_data(files, n, t1, options, g->Ok_0, active, encrypted, Ok(after)),
                },
        };
    let active = a->Ok_0;
    let (s, n) = choose|s: Result<bool, EngineError>, n: Seq<Step>|
        #[trigger] settles_key(files, m, n, active.dir@, active.generation, key, s) && match s {
            Err(e) => false,
            Ok(encrypted) => opens_data(files, n, t1, options, g->Ok_0, active, encrypted, Ok(after)),
        };
    (g->Ok_0, active, s->Ok_0, n)
}

/// An opened store is in the directory that it was loaded from.
pub proof fn lemma_opened_dir<F: StoreRoot>(
    files: &F,
    t0: Seq<Step>,
    t1: Seq<Step>,
    options: EngineOptions,
    store_id: u128,
    active: ActiveDir,
    encrypted: bool,
    after: Engine,
)
    requires
        opens_data(files, t0, t1, options, store_id, active, encrypted, Ok(after)),
    ensures
        after.dir@ == active.dir@,
{
    let (m, k) = choose|m: Seq<Step>, k: Recovered|
        k.active == active && #[trigger] opens_log(files, m, t1, options, k, Ok(after));
}

/// Loaded tables have the ids that they are listed under.
pub proof fn lemma_loaded_ids<F: StoreRoot>(
    files: &F,
    lens: (u64, u64),
    listed: Seq<Listed>,
    found: Seq<Arc<BlockSstFile>>,
)
    requires
        loads_each(files, lens, listed, found),
    ensures
        forall|i: int| 0 <= i < found.len() ==> (#[trigger] found[i]).id == listed[i].id,
{
    assert forall|i: int| 0 <= i < found.len() implies (#[trigger] found[i]).id == listed[i].id by {
        crate::store::sst_block::read::lemma_loaded_is_wf(
            files,
            listed[i].path,
            listed[i].id,
            listed[i].len,
            lens.0,
            lens.1,
            *found[i],
        );
    }
}

/// Opening a store serves what is on disk of it: where the log replays as
/// `log`, the manifest lists `ssts`, no two files are named after one table, and
/// each of these loads as what it holds,
/// the opened store holds those tables and the log over them, and its cache is
/// true of them.
pub proof fn opening_serves_what_is_on_disk<F: StoreRoot>(
    files: &F,
    t0: Seq<Step>,
    t1: Seq<Step>,
    options: EngineOptions,
    key: Option<&UserKey>,
    after: Engine,
    log: Seq<Row>,
    ssts: Seq<Arc<BlockSstFile>>,
    tables: Seq<Seq<Seq<Row>>>,
)
    requires
        ids_ascend(ssts),
        tables.len() == ssts.len(),
        opens(files, t0, t1, options, key, Ok(after)),
        log_replays(t1, after.dir@, log),
        lists_once(files, after.dir@),
        manifest_lists(files, after.dir@, ids_of(ssts)),
        tables_load(files, after.dir@, ssts, tables),
    ensures
        after.wf(),
        ids_of(after.current.ssts@) == ids_of(ssts),
        after.memtable@ == rows_map(log),
        holds_tables(files, after.current.ssts@, tables),
        coherent(after.block_cache@, after.current.ssts@, tables),
        contents(tables, after.memtable.spec_rows()) == contents(tables, log),
{
    let (store_id, active, encrypted, m) = lemma_opened(files, t0, t1, options, key, after);
    lemma_opened_dir(files, m, t1, options, store_id, active, encrypted, after);
    let (lens, listed, found) = lemma_opened_data(
        files,
        m,
        t1,
        options,
        store_id,
        active,
        encrypted,
        after,
        ids_of(ssts),
        log,
    );
    let kept = after.current.ssts@;
    assert forall|i: int| 0 <= i < ssts.len() implies ids_of(found).contains((#[trigger] ssts[i]).id) by {
        assert(ids_of(ssts)[i] == ssts[i].id);
    }
    assert forall|i: int, j: int| 0 <= i < j < found.len() implies (#[trigger] found[i]).id < (
    #[trigger] found[j]).id by {
        let l = choose|l: Result<Vec<DirEntry>, EngineError>| #[trigger]
            gives_list(files, active.dir@, l) && l is Ok && listed == sst_tables(active.dir@, l->Ok_0@);
        tables_are_listed_oldest_first(active.dir@, l->Ok_0@);
        lemma_loaded_ids(files, lens, listed, found);
        assert(listed[i].id <= listed[j].id);
        assert(listed[i].id != listed[j].id);
    }
    lemma_kept_ascends(found, ids_of(ssts));
    lemma_kept_ids(found, kept, ssts);
    assert(kept.len() == ids_of(kept).len() && ssts.len() == ids_of(ssts).len());
    let l = choose|l: Result<Vec<DirEntry>, EngineError>| #[trigger]
        gives_list(files, active.dir@, l) && l is Ok && listed == sst_tables(active.dir@, l->Ok_0@);
    lemma_tables_named(active.dir@, l->Ok_0@);
    lemma_kept(found, ids_of(ssts));
    assert forall|i: int| 0 <= i < kept.len() implies holds_table(files, &*kept[i], #[trigger] tables[i]) by {
        assert(ids_of(kept)[i] == ids_of(ssts)[i]);
        assert(kept[i].id == ssts[i].id);
        assert(found.contains(kept[i]));
        let k = choose|k: int| 0 <= k < found.len() && found[k] == kept[i];
        let r: Result<BlockSstFile, EngineError> = Ok(*found[k]);
        assert(loads(files, listed[k].path, listed[k].id, listed[k].len, lens.0, lens.1, r));
        crate::store::sst_block::read::lemma_loaded_is_wf(
            files,
            listed[k].path,
            listed[k].id,
            listed[k].len,
            lens.0,
            lens.1,
            *found[k],
        );
        assert(ssts[i].id == listed[k].id);
    }
    after.memtable.iteration_is_sorted();
    lemma_same_log(tables, log, after.memtable.spec_rows());
}

/// Reopening a store serves what it served: after any puts, deletes, batches,
/// flushes and merges since it was opened, whether or not each succeeded, a
/// store that is opened on what those left on disk has the same contents, a
/// cache that is true of them, and answers every lookup from them. `disk` is what opens it: its log replays as
/// what the steps `t` left of it, its manifest lists what they left, and the
/// tables that it lists load as what they hold.
pub proof fn reopening_serves_the_same_after_any_calls<F: StoreFiles, D: StoreRoot>(
    files: &F,
    origin: Origin,
    t0: Seq<Step>,
    t: Seq<Step>,
    first: Engine,
    before: Engine,
    calls: Seq<Call>,
    disk: &D,
    s0: Seq<Step>,
    s1: Seq<Step>,
    options: EngineOptions,
    key: Option<&UserKey>,
    after: Engine,
    tables: Seq<Seq<Seq<Row>>>,
)
    requires
        durable(first, origin, t0),
        runs(files, t0, t, first, before, calls),
        before.wf(),
        ids_ascend(before.current.ssts@),
        tables.len() == before.current.ssts@.len(),
        opens(disk, s0, s1, options, key, Ok(after)),
        log_replays(s1, after.dir@, log_after(origin.log, t, origin.from, first.dir@)),
        lists_once(disk, after.dir@),
        manifest_lists(disk, after.dir@, manifest_after(origin.ids, t, origin.from, first.dir@)),
        tables_load(disk, after.dir@, before.current.ssts@, tables),
    ensures
        after.wf(),
        ids_of(after.current.ssts@) == ids_of(before.current.ssts@),
        after.memtable@ == before.memtable@,
        holds_tables(disk, after.current.ssts@, tables),
        coherent(after.block_cache@, after.current.ssts@, tables),
        contents(tables, after.memtable.spec_rows()) == contents(tables, before.memtable.spec_rows()),
        forall|k: Seq<u8>, later: Engine, v: Option<Value>| #[trigger]
            gets(disk, after, later, k, Ok(v)) ==> slot_view(v) == value_of(
                contents(tables, before.memtable.spec_rows()),
                k,
            ),
{
    any_calls_keep_the_store_durable(files, origin, t0, t, first, before, calls);
    let log = log_after(origin.log, t, origin.from, first.dir@);
    opening_serves_what_is_on_disk(disk, s0, s1, options, key, after, log, before.current.ssts@, tables);
    before.memtable.iteration_is_sorted();
    after.memtable.iteration_is_sorted();
    rows::lemma_sorted_rows_unique(after.memtable.spec_rows(), before.memtable.spec_rows());
    assert forall|k: Seq<u8>, later: Engine, v: Option<Value>| #[trigger] gets(disk, after, later, k, Ok(v)) implies slot_view(
        v,
    ) == value_of(contents(tables, before.memtable.spec_rows()), k) by {
        get_answers_from_the_store(disk, after, later, tables, k, v);
    }
}

/// Whatever steps a crash left, a store that is opened on them serves what is
/// on disk after them.
pub proof fn reopening_after_a_crash_serves_what_was_left<F: StoreRoot>(
    origin: Origin,
    t: Seq<Step>,
    dir: Seq<char>,
    ssts: Seq<Arc<BlockSstFile>>,
    tables: Seq<Seq<Seq<Row>>>,
    want: Map<Seq<u8>, Seq<u8>>,
    disk: &F,
    s0: Seq<Step>,
    s1: Seq<Step>,
    options: EngineOptions,
    key: Option<&UserKey>,
    after: Engine,
)
    requires
        serves(origin, t, dir, ssts, tables, want),
        opens(disk, s0, s1, options, key, Ok(after)),
        log_replays(s1, after.dir@, log_after(origin.log, t, origin.from, dir)),
        lists_once(disk, after.dir@),
        manifest_lists(disk, after.dir@, manifest_after(origin.ids, t, origin.from, dir)),
        tables_load(disk, after.dir@, ssts, tables),
    ensures
        holds_tables(disk, after.current.ssts@, tables),
        coherent(after.block_cache@, after.current.ssts@, tables),
        live(contents(tables, after.memtable.spec_rows())) == want,
{
    let log = log_after(origin.log, t, origin.from, dir);
    opening_serves_what_is_on_disk(disk, s0, s1, options, key, after, log, ssts, tables);
}

/// What an opened store holds in memory is what it found on disk: with that as
/// the origin, it is durable.
pub proof fn an_opened_store_is_durable<F: StoreRoot>(
    files: &F,
    t0: Seq<Step>,
    t1: Seq<Step>,
    options: EngineOptions,
    key: Option<&UserKey>,
    engine: Engine,
    log: Seq<Row>,
)
    requires
        opens(files, t0, t1, options, key, Ok(engine)),
        log_replays(t1, engine.dir@, log),
    ensures
        durable(
            engine,
            Origin { log, ids: ids_of(engine.current.ssts@), from: t1.len() as int },
            t1,
        ),
{
    let (store_id, active, encrypted, m) = lemma_opened(files, t0, t1, options, key, engine);
    lemma_opened_dir(files, m, t1, options, store_id, active, encrypted, engine);
    let (n, k) = choose|n: Seq<Step>, k: Recovered|
        k.active == active && #[trigger] opens_log(files, n, t1, options, k, Ok(engine));
    lemma_opened_log(files, n, t1, options, k, engine, log);
}

} // verus!
