//! What an opened store was found to be, and which stores are refused.
use super::open::{
    binds, gates, is_active, resolves, resolves_root, resolves_to, seals, settles_key, temporary_bytes,
    tells_artifacts, unlocks, ActiveDir,
};
use super::open_laws::{all_answered, is_answered};
use super::recover::{
    confronts, confronts_with, id_after, ids_used_up, kept_live, loads_each, loads_tables, opens, opens_data,
    opens_locked, opens_log, opens_tables, sst_tables, tables_are_listed_oldest_first, LiveTables, Recovered,
};
use super::recovery_laws::{lemma_kept, lemma_loaded_ids};
use super::Engine;
use crate::error::EngineError;
use crate::store::files::{
    generation_dir_name, generation_of, gives_crypto, gives_list, gives_manifest, has_sst_extension, tells_dir,
    tells_present, DirEntry, KeyMode, ReadFault, SstManifest, StoreMeta, StoreRoot, UserKey, STORE_FORMAT_VERSION,
};
use crate::store::options::EngineOptions;
use crate::store::sst_block::{joined, sst_id_of, BlockSstFile};
use crate::store::trace::{locked, made_root, Step};
use crate::store::verify::whole_laws::is_listed_id;
use crate::store::verify::{with_table, Listed};
use crate::store::version::ids_of;
use crate::text::ends_in;
use std::sync::Arc;
use vstd::prelude::*;

verus! {

/// The parts that an opening that succeeded went through.
proof fn lemma_went_through<F: StoreRoot>(
    files: &F,
    t0: Seq<Step>,
    t1: Seq<Step>,
    options: EngineOptions,
    key: Option<&UserKey>,
    engine: Engine,
) -> (w: (Seq<Step>, Seq<Step>, Seq<Step>, u128, ActiveDir, bool))
    requires
        opens(files, t0, t1, options, key, Ok(engine)),
    ensures
        gates(files, w.0, w.1, Ok(w.3)),
        resolves(files, Ok(w.4)),
        settles_key(files, w.1, w.2, w.4.dir@, w.4.generation, key, Ok(w.5)),
        opens_data(files, w.2, t1, options, w.3, w.4, w.5, Ok(engine)),
{
    let b = choose|b: Seq<Step>| #[trigger] opens_locked(files, b, t1, options, key, Ok(engine));
    let (g, m) = choose|g: Result<u128, EngineError>, m: Seq<Step>|
        #[trigger] gates(files, b, m, g) && match g {
            Err(e) => false,
            Ok(store_id) => exists|a: Result<ActiveDir, EngineError>|
                #[trigger] resolves(files, a) && match a {
                    Err(e) => false,
                    Ok(active) => exists|s: Result<bool, EngineError>, n: Seq<Step>|
                        #[trigger] settles_key(files, m, n, active.dir@, active.generation, key, s) && match s {
                            Err(e) => false,
                            Ok(encrypted) => opens_data(
                                files,
                                n,
                                t1,
                                options,
                                store_id,
                                active,
                                encrypted,
                                Ok(engine),
                            ),
                        },
                },
        };
    let id = g->Ok_0;
    let a = choose|a: Result<ActiveDir, EngineError>|
        #[trigger] resolves(files, a) && match a {
            Err(e) => false,
            Ok(active) => exists|s: Result<bool, EngineError>, n: Seq<Step>|
                #[trigger] settles_key(files, m, n, active.dir@, active.generation, key, s) && match s {
                    Err(e) => false,
                    Ok(encrypted) => opens_data(files, n, t1, options, id, active, encrypted, Ok(engine)),
                },
        };
    let active = a->Ok_0;
    let (s, n) = choose|s: Result<bool, EngineError>, n: Seq<Step>|
        #[trigger] settles_key(files, m, n, active.dir@, active.generation, key, s) && match s {
            Err(e) => false,
            Ok(encrypted) => opens_data(files, n, t1, options, id, active, encrypted, Ok(engine)),
        };
    assert(gates(files, b, m, Ok(id)));
    assert(resolves(files, Ok(active)));
    assert(settles_key(files, m, n, active.dir@, active.generation, key, Ok(s->Ok_0)));
    (b, m, n, id, active, s->Ok_0)
}

/// No part of an older store: no log, no pointer, no generation, no table.
pub open spec fn is_bare<F: StoreRoot>(files: &F) -> bool {
    exists|entries: Vec<DirEntry>|
        {
            &&& #[trigger] gives_list(files, Seq::empty(), Ok(entries))
            &&& tells_present(files, "wal.log"@, false)
            &&& tells_present(files, "generation.meta"@, false)
            &&& forall|i: int|
                0 <= i < entries@.len() ==> !has_sst_extension((#[trigger] entries@[i]).name@) && !(
                entries@[i].is_dir && generation_of(entries@[i].name@) is Some)
        }
}

/// What a store's record was found to say of a store that opened: this format
/// and its identity, or no identity yet; or there is no record, and nothing of
/// an older store.
pub proof fn an_opened_store_is_of_this_format<F: StoreRoot>(
    files: &F,
    t0: Seq<Step>,
    t1: Seq<Step>,
    options: EngineOptions,
    key: Option<&UserKey>,
    engine: Engine,
)
    requires
        opens(files, t0, t1, options, key, Ok(engine)),
    ensures
        ({
            ||| tells_present(files, "store.meta"@, true) && exists|meta: StoreMeta|
                #[trigger] call_ensures(F::read_store_meta, (files,), Ok(meta)) && meta.store_format_version
                    == STORE_FORMAT_VERSION && (meta.store_id == Some(engine.store_id) || meta.store_id is None)
            ||| tells_present(files, "store.meta"@, false) && is_bare(files)
        }),
{
    let (b, m, n, id, active, encrypted) = lemma_went_through(files, t0, t1, options, key, engine);
    lemma_opened_as(files, n, t1, options, id, active, encrypted, engine);
    let there = choose|there: bool|
        #[trigger] tells_present(files, "store.meta"@, there) && if there {
            exists|x: Result<StoreMeta, ReadFault>|
                #[trigger] call_ensures(F::read_store_meta, (files,), x) && match x {
                    Err(fault) => false,
                    Ok(meta) => meta.store_format_version == STORE_FORMAT_VERSION && match meta.store_id {
                        Some(own) => own == id,
                        None => true,
                    },
                }
        } else {
            exists|l: Result<Vec<DirEntry>, EngineError>|
                #[trigger] gives_list(files, Seq::empty(), l) && match l {
                    Err(e) => false,
                    Ok(entries) => tells_artifacts(files, entries@, false),
                }
        };
    if there {
        let x = choose|x: Result<StoreMeta, ReadFault>|
            #[trigger] call_ensures(F::read_store_meta, (files,), x) && match x {
                Err(fault) => false,
                Ok(meta) => meta.store_format_version == STORE_FORMAT_VERSION && match meta.store_id {
                    Some(own) => own == id,
                    None => true,
                },
            };
        assert(call_ensures(F::read_store_meta, (files,), Ok(x->Ok_0)));
    } else {
        let l = choose|l: Result<Vec<DirEntry>, EngineError>|
            #[trigger] gives_list(files, Seq::empty(), l) && match l {
                Err(e) => false,
                Ok(entries) => tells_artifacts(files, entries@, false),
            };
        let entries = l->Ok_0;
        assert(gives_list(files, Seq::empty(), Ok(entries)));
        assert forall|i: int| 0 <= i < entries@.len() implies !has_sst_extension((#[trigger] entries@[i]).name@) && !(
        entries@[i].is_dir && generation_of(entries@[i].name@) is Some) by {
            assert(!super::open::names_table(entries@));
            assert(!super::open::names_generation(entries@, true));
            assert(!has_sst_extension(entries@[i].name@));
        }
    }
}

/// What an opened engine was put together from.
proof fn lemma_opened_as<F: StoreRoot>(
    files: &F,
    t0: Seq<Step>,
    t1: Seq<Step>,
    options: EngineOptions,
    store_id: u128,
    active: ActiveDir,
    encrypted: bool,
    engine: Engine,
) -> (w: ((u64, u64), Vec<DirEntry>, Seq<Arc<BlockSstFile>>, Seq<Step>, LiveTables, Vec<DirEntry>))
    requires
        opens_data(files, t0, t1, options, store_id, active, encrypted, Ok(engine)),
    ensures
        engine.store_id == store_id,
        engine.dir@ == active.dir@,
        engine.generation_id == active.generation,
        engine.encrypted == encrypted,
        engine.options == options,
        gives_list(files, active.dir@, Ok(w.1)),
        loads_each(files, w.0, sst_tables(active.dir@, w.1@), w.2),
        w.2.len() == sst_tables(active.dir@, w.1@).len(),
        !ids_used_up(sst_tables(active.dir@, w.1@)),
        engine.next_sst_id == id_after(sst_tables(active.dir@, w.1@)),
        confronts(files, t0, w.3, active.dir@, w.2, Ok(w.4)),
        engine.current.ssts@ == w.4.ssts@,
        engine.current.manifest_generation == w.4.manifest_generation,
        gives_list(files, active.dir@, Ok(w.5)),
        engine.orphan_bytes_at_open == crate::store::sst_block::capped64(temporary_bytes(w.5@)),
{
    let (lens, l) = choose|lens: (u64, u64), l: Result<Vec<DirEntry>, EngineError>|
        {
            &&& #[trigger] call_ensures(F::section_lens, (files, encrypted), lens)
            &&& #[trigger] gives_list(files, active.dir@, l)
            &&& match l {
                Err(e) => false,
                Ok(entries) => exists|t: Result<Vec<Arc<BlockSstFile>>, EngineError>|
                    #[trigger] loads_tables(files, lens, sst_tables(active.dir@, entries@), t) && match t {
                        Err(e) => false,
                        Ok(found) => opens_tables(
                            files,
                            t0,
                            t1,
                            options,
                            store_id,
                            active,
                            encrypted,
                            sst_tables(active.dir@, entries@),
                            found@,
                            Ok(engine),
                        ),
                    },
            }
        };
    let entries = l->Ok_0;
    let listed = sst_tables(active.dir@, entries@);
    let t = choose|t: Result<Vec<Arc<BlockSstFile>>, EngineError>|
        #[trigger] loads_tables(files, lens, listed, t) && match t {
            Err(e) => false,
            Ok(found) => opens_tables(
                files,
                t0,
                t1,
                options,
                store_id,
                active,
                encrypted,
                listed,
                found@,
                Ok(engine),
            ),
        };
    let found = t->Ok_0@;
    let (c, m) = choose|c: Result<LiveTables, EngineError>, m: Seq<Step>|
        #[trigger] confronts(files, t0, m, active.dir@, found, c) && match c {
            Err(e) => false,
            Ok(live) => exists|x: Result<Vec<DirEntry>, EngineError>|
                #[trigger] gives_list(files, active.dir@, x) && match x {
                    Err(e) => false,
                    Ok(inner) => opens_log(
                        files,
                        m,
                        t1,
                        options,
                        Recovered {
                            active,
                            store_id,
                            encrypted,
                            next_sst_id: id_after(listed),
                            live,
                            orphan_bytes: crate::store::sst_block::capped64(temporary_bytes(inner@)),
                        },
                        Ok(engine),
                    ),
                },
        };
    let live = c->Ok_0;
    let x = choose|x: Result<Vec<DirEntry>, EngineError>|
        #[trigger] gives_list(files, active.dir@, x) && match x {
            Err(e) => false,
            Ok(inner) => opens_log(
                files,
                m,
                t1,
                options,
                Recovered {
                    active,
                    store_id,
                    encrypted,
                    next_sst_id: id_after(listed),
                    live,
                    orphan_bytes: crate::store::sst_block::capped64(temporary_bytes(inner@)),
                },
                Ok(engine),
            ),
        };
    let inner = x->Ok_0;
    assert(gives_list(files, active.dir@, Ok(entries)));
    assert(gives_list(files, active.dir@, Ok(inner)));
    assert(confronts(files, t0, m, active.dir@, found, Ok(live)));
    (lens, entries, found, m, live, inner)
}

/// An opened store lies where its pointer says: without one at the root, as
/// generation zero; with one in the directory of the generation that it names,
/// which is there.
pub proof fn an_opened_store_lies_where_its_pointer_says<F: StoreRoot>(
    files: &F,
    t0: Seq<Step>,
    t1: Seq<Step>,
    options: EngineOptions,
    key: Option<&UserKey>,
    engine: Engine,
)
    requires
        opens(files, t0, t1, options, key, Ok(engine)),
    ensures
        ({
            ||| tells_present(files, "generation.meta"@, false) && engine.dir@.len() == 0 && engine.generation_id == 0
            ||| tells_present(files, "generation.meta"@, true) && engine.generation_id != 0 && engine.dir@ == "gen-"@
                + crate::text::dec_text(engine.generation_id as nat) && tells_dir(files, engine.dir@, true) && exists|
                g: Result<u64, ReadFault>,
            | #[trigger] call_ensures(F::read_generation, (files,), g)
                && g == Ok::<u64, ReadFault>(engine.generation_id)
        }),
        engine.options == options,
{
    let (b, m, n, id, active, encrypted) = lemma_went_through(files, t0, t1, options, key, engine);
    lemma_opened_as(files, n, t1, options, id, active, encrypted, engine);
    let r: Result<ActiveDir, EngineError> = Ok(active);
    let there = choose|there: bool|
        #[trigger] tells_present(files, "generation.meta"@, there) && if !there {
            resolves_root(files, r)
        } else {
            exists|g: Result<u64, ReadFault>|
                #[trigger] call_ensures(F::read_generation, (files,), g) && match g {
                    Err(fault) => false,
                    Ok(generation) => resolves_to(files, generation, r),
                }
        };
    if there {
        let g = choose|g: Result<u64, ReadFault>|
            #[trigger] call_ensures(F::read_generation, (files,), g) && match g {
                Err(fault) => false,
                Ok(generation) => resolves_to(files, generation, r),
            };
        assert(tells_dir(files, generation_dir_name(g->Ok_0), true));
    } else {
        assert(is_active(r, Seq::empty(), 0));
    }
}

/// A store whose record is of another format is refused, with the version that
/// was found and the one that was expected, and nothing is written but what
/// taking the store up takes: its directory and its lock.
pub proof fn a_store_of_another_format_is_refused<F: StoreRoot>(
    files: &F,
    t0: Seq<Step>,
    t1: Seq<Step>,
    options: EngineOptions,
    key: Option<&UserKey>,
    version: u32,
    r: Result<Engine, EngineError>,
)
    requires
        version != STORE_FORMAT_VERSION,
        forall|there: bool| #[trigger] tells_present(files, "store.meta"@, there) ==> there,
        forall|m: Result<StoreMeta, ReadFault>| #[trigger]
            call_ensures(F::read_store_meta, (files,), m) ==> (m matches Ok(meta) && meta.store_format_version == version),
        opens(files, t0, t1, options, key, r),
        all_answered(t1),
    ensures
        r matches Err(EngineError::UnsupportedStoreFormat { path, expected, found }) && expected == STORE_FORMAT_VERSION
            && found == version && path@.len() == 0,
        t1.len() == t0.len() + 2,
{
    let (c, a) = choose|c: Result<(), EngineError>, a: Seq<Step>|
        #[trigger] made_root(t0, a, c) && match c {
            Err(e) => t1 == a,
            Ok(()) => exists|k: Result<bool, EngineError>, b: Seq<Step>|
                #[trigger] locked(a, b, k) && match k {
                    Err(e) => t1 == b,
                    Ok(false) => t1 == b,
                    Ok(true) => opens_locked(files, b, t1, options, key, r),
                },
        };
    if c is Err {
        assert(t1[t0.len() as int] == (Step::CreateRoot { r: c }));
        assert(is_answered(t1[t0.len() as int]));
    } else {
        let (k, b) = choose|k: Result<bool, EngineError>, b: Seq<Step>|
            #[trigger] locked(a, b, k) && match k {
                Err(e) => t1 == b,
                Ok(false) => t1 == b,
                Ok(true) => opens_locked(files, b, t1, options, key, r),
            };
        if !(k matches Ok(true)) {
            assert(t1[a.len() as int] == (Step::Lock { r: k }));
            assert(is_answered(t1[a.len() as int]));
        } else {
            let (g, m) = choose|g: Result<u128, EngineError>, m: Seq<Step>|
                #[trigger] gates(files, b, m, g) && (g is Err ==> t1 == m && r == Err::<Engine, EngineError>(g->Err_0));
            assert(g is Err);
        }
    }
}

/// A file of a directory names a table.
pub open spec fn is_named(entries: Seq<DirEntry>, id: u64) -> bool {
    exists|i: int| 0 <= i < entries.len() && sst_id_of((#[trigger] entries[i]).name@) == Some(id)
}

proof fn lemma_named(dir: Seq<char>, entries: Seq<DirEntry>)
    ensures
        forall|id: u64| #[trigger] is_named(entries, id) <==> is_listed_id(sst_tables(dir, entries), id),
    decreases entries.len(),
{
    let tables = sst_tables(dir, entries);
    if entries.len() > 0 {
        let head = entries.drop_last();
        let last = entries.last();
        let before = sst_tables(dir, head);
        lemma_named(dir, head);
        tables_are_listed_oldest_first(dir, head);
        assert(entries[entries.len() - 1] == last);
        assert forall|id: u64| #[trigger] is_named(entries, id) <==> is_listed_id(tables, id) by {
            assert(is_named(head, id) <==> is_listed_id(before, id));
            if is_named(head, id) {
                let i = choose|i: int| 0 <= i < head.len() && sst_id_of((#[trigger] head[i]).name@) == Some(id);
                assert(sst_id_of(entries[i].name@) == Some(id));
            }
            if is_named(entries, id) && sst_id_of(last.name@) != Some(id) {
                let i = choose|i: int| 0 <= i < entries.len() && sst_id_of((#[trigger] entries[i]).name@) == Some(id);
                assert(sst_id_of(head[i].name@) == Some(id));
            }
            if let Some(own) = sst_id_of(last.name@) {
                let table = Listed { id: own, path: joined(dir, last.name@), len: last.len };
                lemma_placed_ids(before, table, id);
            }
        }
    }
}

proof fn lemma_placed_ids(tables: Seq<Listed>, table: Listed, id: u64)
    ensures
        is_listed_id(with_table(tables, table), id) <==> is_listed_id(tables, id) || table.id == id,
    decreases tables.len(),
{
    let out = with_table(tables, table);
    let n = tables.len() as int;
    if n == 0 || tables.last().id <= table.id {
        assert(out[n] == table);
        if is_listed_id(tables, id) {
            let k = choose|k: int| 0 <= k < n && (#[trigger] tables[k]).id == id;
            assert(out[k].id == id);
        }
        if is_listed_id(out, id) && table.id != id {
            let k = choose|k: int| 0 <= k < out.len() && (#[trigger] out[k]).id == id;
            assert(tables[k].id == id);
        }
    } else {
        let head = tables.drop_last();
        let low = with_table(head, table);
        lemma_placed_ids(head, table, id);
        if is_listed_id(tables, id) {
            let k = choose|k: int| 0 <= k < n && (#[trigger] tables[k]).id == id;
            if k < n - 1 {
                assert(head[k].id == id);
            } else {
                assert(out[low.len() as int].id == id);
            }
        }
        if is_listed_id(low, id) {
            let k = choose|k: int| 0 <= k < low.len() && (#[trigger] low[k]).id == id;
            assert(out[k].id == id);
        }
        if is_listed_id(out, id) {
            let k = choose|k: int| 0 <= k < out.len() && (#[trigger] out[k]).id == id;
            if k < low.len() {
                assert(low[k].id == id);
            } else {
                assert(tables[n - 1].id == id);
            }
        }
        if is_listed_id(head, id) {
            let k = choose|k: int| 0 <= k < head.len() && (#[trigger] head[k]).id == id;
            assert(tables[k].id == id);
        }
    }
}

/// An opened store hands out no id that a file of its directory has, live or
/// not: the next one is the lowest above them all.
pub proof fn an_opened_store_hands_out_fresh_ids<F: StoreRoot>(
    files: &F,
    t0: Seq<Step>,
    t1: Seq<Step>,
    options: EngineOptions,
    key: Option<&UserKey>,
    engine: Engine,
)
    requires
        opens(files, t0, t1, options, key, Ok(engine)),
    ensures
        exists|entries: Vec<DirEntry>|
            {
                &&& #[trigger] gives_list(files, engine.dir@, Ok(entries))
                &&& forall|id: u64| #[trigger] is_named(entries@, id) ==> id < engine.next_sst_id
                &&& engine.next_sst_id > 0 ==> is_named(entries@, (engine.next_sst_id - 1) as u64)
            },
{
    let (b, m, n, id, active, encrypted) = lemma_went_through(files, t0, t1, options, key, engine);
    let w = lemma_opened_as(files, n, t1, options, id, active, encrypted, engine);
    let entries = w.1;
    let tables = sst_tables(active.dir@, entries@);
    lemma_named(active.dir@, entries@);
    tables_are_listed_oldest_first(active.dir@, entries@);
    assert forall|x: u64| #[trigger] is_named(entries@, x) implies x < engine.next_sst_id by {
        let k = choose|k: int| 0 <= k < tables.len() && (#[trigger] tables[k]).id == x;
        if k < tables.len() - 1 {
            assert(tables[k].id <= tables[tables.len() - 1].id);
        }
    }
    if tables.len() > 0 {
        assert(tables[tables.len() - 1].id == engine.next_sst_id - 1);
        assert(is_listed_id(tables, (engine.next_sst_id - 1) as u64));
    }
    assert(gives_list(files, engine.dir@, Ok(entries)));
}

/// An opened store serves the tables of its manifest: every one that it lists,
/// and no other; without a manifest, every table that its directory has, which
/// it then publishes.
pub proof fn an_opened_store_serves_its_manifest<F: StoreRoot>(
    files: &F,
    t0: Seq<Step>,
    t1: Seq<Step>,
    options: EngineOptions,
    key: Option<&UserKey>,
    engine: Engine,
)
    requires
        opens(files, t0, t1, options, key, Ok(engine)),
    ensures
        ({
            let path = joined(engine.dir@, "manifest.meta"@);
            ||| tells_present(files, path, true) && exists|manifest: SstManifest|
                {
                    &&& #[trigger] gives_manifest(files, engine.dir@, Ok(manifest))
                    &&& engine.current.manifest_generation == manifest.manifest_generation
                    &&& forall|id: u64| #[trigger]
                        ids_of(engine.current.ssts@).contains(id) <==> manifest.live_sst_ids@.contains(id)
                }
            ||| tells_present(files, path, false) && engine.current.manifest_generation == 0 && exists|
                entries: Vec<DirEntry>,
            |
                #[trigger] gives_list(files, engine.dir@, Ok(entries)) && forall|id: u64| #[trigger]
                    ids_of(engine.current.ssts@).contains(id) <==> is_named(entries@, id)
        }),
{
    let (b, m, n, id, active, encrypted) = lemma_went_through(files, t0, t1, options, key, engine);
    let w = lemma_opened_as(files, n, t1, options, id, active, encrypted, engine);
    let dir = active.dir@;
    let path = joined(dir, "manifest.meta"@);
    let tables = sst_tables(dir, w.1@);
    let found = w.2;
    let ssts = engine.current.ssts@;
    let kept = w.4;
    let r: Result<LiveTables, EngineError> = Ok(kept);
    lemma_loaded_ids(files, w.0, tables, found);
    let there = choose|there: bool|
        #[trigger] tells_present(files, path, there) && if !there {
            kept.ssts@ == found && kept.manifest_generation == 0
        } else {
            exists|x: Result<SstManifest, ReadFault>|
                #[trigger] gives_manifest(files, dir, x) && match x {
                    Err(fault) => false,
                    Ok(manifest) => confronts_with(n, w.3, dir, found, manifest, r),
                }
        };
    if there {
        let x = choose|x: Result<SstManifest, ReadFault>|
            #[trigger] gives_manifest(files, dir, x) && match x {
                Err(fault) => false,
                Ok(manifest) => confronts_with(n, w.3, dir, found, manifest, r),
            };
        let manifest = x->Ok_0;
        let live = manifest.live_sst_ids@;
        lemma_kept(found, live);
        assert(ssts == kept_live(found, live));
        assert(gives_manifest(files, dir, Ok(manifest)));
        assert forall|own: u64| #[trigger] ids_of(ssts).contains(own) <==> live.contains(own) by {
            if ids_of(ssts).contains(own) {
                let k = choose|k: int| 0 <= k < ids_of(ssts).len() && ids_of(ssts)[k] == own;
                assert(ssts[k].id == own);
                assert(live.contains(ssts[k].id));
            }
            if live.contains(own) {
                let i = choose|i: int| 0 <= i < live.len() && live[i] == own;
                super::recovery_laws::lemma_nothing_lost(found, live, i);
                let k = choose|k: int| 0 <= k < ids_of(found).len() && ids_of(found)[k] == own;
                assert(found[k].id == own);
                assert(ssts.contains(found[k]));
                let j = choose|j: int| 0 <= j < ssts.len() && ssts[j] == found[k];
                assert(ids_of(ssts)[j] == own);
            }
        }
    } else {
        lemma_named(dir, w.1@);
        assert(gives_list(files, engine.dir@, Ok(w.1)));
        assert forall|own: u64| #[trigger] ids_of(ssts).contains(own) <==> is_named(w.1@, own) by {
            if ids_of(ssts).contains(own) {
                let k = choose|k: int| 0 <= k < ids_of(ssts).len() && ids_of(ssts)[k] == own;
                assert(found[k].id == tables[k].id);
                assert(tables[k].id == own);
                assert(is_listed_id(tables, own));
            }
            if is_named(w.1@, own) {
                let k = choose|k: int| 0 <= k < tables.len() && (#[trigger] tables[k]).id == own;
                assert(found[k].id == tables[k].id);
                assert(ids_of(ssts)[k] == own);
            }
        }
    }
}

/// The length of those of the first `n` files that are temporary.
pub open spec fn orphans_counted(entries: Seq<DirEntry>, n: int) -> int
    decreases n,
{
    if n <= 0 {
        0
    } else {
        orphans_counted(entries, n - 1) + if ends_in(entries[n - 1].name@, ".tmp"@) {
            entries[n - 1].len as int
        } else {
            0
        }
    }
}

proof fn lemma_orphans_counted(entries: Seq<DirEntry>, n: int)
    requires
        0 <= n <= entries.len(),
    ensures
        orphans_counted(entries, n) == temporary_bytes(entries.take(n)),
    decreases n,
{
    if n > 0 {
        lemma_orphans_counted(entries, n - 1);
        assert(entries.take(n).drop_last() =~= entries.take(n - 1));
        assert(entries.take(n).last() == entries[n - 1]);
    }
}

/// An opened store knows how much crashes left behind: the length of all the
/// temporary files of its directory, as far as a counter holds it.
pub proof fn an_opened_store_counts_its_orphans<F: StoreRoot>(
    files: &F,
    t0: Seq<Step>,
    t1: Seq<Step>,
    options: EngineOptions,
    key: Option<&UserKey>,
    engine: Engine,
)
    requires
        opens(files, t0, t1, options, key, Ok(engine)),
    ensures
        exists|entries: Vec<DirEntry>|
            #[trigger] gives_list(files, engine.dir@, Ok(entries)) && (engine.orphan_bytes_at_open == orphans_counted(
                entries@,
                entries@.len() as int,
            ) || (engine.orphan_bytes_at_open == u64::MAX && orphans_counted(entries@, entries@.len() as int)
                > u64::MAX)),
{
    let (b, m, n, id, active, encrypted) = lemma_went_through(files, t0, t1, options, key, engine);
    let w = lemma_opened_as(files, n, t1, options, id, active, encrypted, engine);
    let entries = w.5;
    lemma_orphans_counted(entries@, entries@.len() as int);
    assert(entries@.take(entries@.len() as int) =~= entries@);
    assert(gives_list(files, engine.dir@, Ok(entries)));
}

/// A directory without a key record holds no plaintext: no log and no table.
pub open spec fn is_unwritten<F: StoreRoot>(files: &F, dir: Seq<char>) -> bool {
    &&& tells_present(files, joined(dir, "wal.log"@), false)
    &&& exists|entries: Vec<DirEntry>|
        #[trigger] gives_list(files, dir, Ok(entries)) && forall|i: int|
            0 <= i < entries@.len() ==> !has_sst_extension((#[trigger] entries@[i]).name@)
}

/// An opened store is encrypted exactly if a key was supplied. With one, the key
/// opens its key record; or there is none yet, and then no plaintext either. A
/// store with a key record never opens without a key.
pub proof fn an_opened_store_is_encrypted_exactly_if_a_key_was_supplied<F: StoreRoot>(
    files: &F,
    t0: Seq<Step>,
    t1: Seq<Step>,
    options: EngineOptions,
    key: Option<&UserKey>,
    engine: Engine,
)
    requires
        opens(files, t0, t1, options, key, Ok(engine)),
    ensures
        engine.encrypted == (key is Some),
        key is None ==> tells_present(files, joined(engine.dir@, "crypto.meta"@), false) && engine.generation_id == 0,
        key matches Some(k) ==> {
            ||| tells_present(files, joined(engine.dir@, "crypto.meta"@), true) && opens_record(
                files,
                engine.dir@,
                k.bytes@,
                k.mode,
            )
            ||| tells_present(files, joined(engine.dir@, "crypto.meta"@), false) && engine.generation_id == 0
                && is_unwritten(files, engine.dir@)
        },
{
    let (b, m, n, id, active, encrypted) = lemma_went_through(files, t0, t1, options, key, engine);
    lemma_opened_as(files, n, t1, options, id, active, encrypted, engine);
    let dir = active.dir@;
    let path = joined(dir, "crypto.meta"@);
    let r: Result<bool, EngineError> = Ok(encrypted);
    let sealed = choose|sealed: bool|
        #[trigger] tells_present(files, path, sealed) && (active.generation != 0 ==> sealed) && if sealed {
            n == m && unlocks(files, dir, active.generation, key, r)
        } else {
            match key {
                Some(k) => seals(files, m, n, dir, active.generation, k, r),
                None => n == m && r == Ok::<bool, EngineError>(false),
            }
        };
    if let Some(k) = key {
        if sealed {
            let l = choose|l: Result<(), EngineError>|
                #[trigger] gives_crypto(files, dir, k.bytes@, k.mode, binds(k.mode, active.generation), l) && l is Ok;
            assert(opens_record(files, dir, k.bytes@, k.mode));
        } else {
            let (log, l) = choose|log: bool, l: Result<Vec<DirEntry>, EngineError>|
                {
                    &&& #[trigger] tells_present(files, joined(dir, "wal.log"@), log)
                    &&& #[trigger] gives_list(files, dir, l)
                    &&& match l {
                        Err(e) => false,
                        Ok(entries) => !log && !super::open::names_table(entries@) && encrypted,
                    }
                };
            let entries = l->Ok_0;
            assert(gives_list(files, dir, Ok(entries)));
            assert forall|i: int| 0 <= i < entries@.len() implies !has_sst_extension(
                (#[trigger] entries@[i]).name@,
            ) by {
                assert(!super::open::names_table(entries@));
                assert(!has_sst_extension(entries@[i].name@));
            }
        }
    }
}

/// A key may open the key record of a directory.
pub open spec fn opens_record<F: StoreRoot>(files: &F, dir: Seq<char>, bytes: Seq<u8>, mode: KeyMode) -> bool {
    exists|generation: Option<u64>, l: Result<(), EngineError>|
        #[trigger] gives_crypto(files, dir, bytes, mode, generation, l) && l is Ok
}

} // verus!
