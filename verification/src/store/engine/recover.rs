//! Recovery: tables against the manifest, the log into the memtable, and the
//! engine put together.
use super::io;
use super::io::sweeps_inactive;
use super::open;
use super::open::{gates, is_fault, resolves, settles_key, temporary_bytes, ActiveDir};
use super::write::{record_rows, replay, WalRecord};
use super::Engine;
use crate::error::EngineError;
use crate::store::block_cache::{BlockCache, Resident};
use crate::store::files::{
    gives_list, gives_manifest, tells_present, Argon2idProfile, DirEntry, KeyMode, ReadFault, SstManifest, StoreRoot,
    UserKey,
};
use crate::store::options::{is_default, EngineOptions};
use crate::store::rows::rows_map;
use crate::store::sst_block;
use crate::store::sst_block::read::loads;
use crate::store::sst_block::{capped64, joined, sst_id_of, sst_name, BlockSstFile};
use crate::store::stats::{counters_at_open, Counters};
use crate::store::trace::{
    locked, made_root, opened_log, published_manifest, removed_file, replayed_log, Step, Traced,
};
use crate::store::verify::{put_table, table_list, with_table, Listed, SstEntry};
use crate::store::version;
use crate::store::version::{all_wf, ids_in_order, ids_of, Version};
use std::sync::Arc;
use vstd::prelude::*;

verus! {

/// The tables that entries of `dir` name, lowest id first. Other files, the
/// orphans of an interrupted write among them, are passed over.
pub open spec fn sst_tables(dir: Seq<char>, entries: Seq<DirEntry>) -> Seq<Listed>
    decreases entries.len(),
{
    if entries.len() == 0 {
        Seq::empty()
    } else {
        let rest = sst_tables(dir, entries.drop_last());
        match sst_id_of(entries.last().name@) {
            Some(id) => with_table(
                rest,
                Listed { id, path: joined(dir, entries.last().name@), len: entries.last().len },
            ),
            None => rest,
        }
    }
}

/// The tables that entries of `dir` name, lowest id first.
pub fn list_tables(dir: &str, entries: &Vec<DirEntry>) -> (out: Vec<SstEntry>)
    ensures
        table_list(out@) == sst_tables(dir@, entries@),
{
    let mut out: Vec<SstEntry> = Vec::new();
    let mut i: usize = 0;
    proof {
        assert(entries@.subrange(0, 0) =~= Seq::<DirEntry>::empty());
        assert(table_list(out@) =~= Seq::<Listed>::empty());
    }
    while i < entries.len()
        invariant
            i <= entries@.len(),
            table_list(out@) == sst_tables(dir@, entries@.subrange(0, i as int)),
        decreases entries@.len() - i,
    {
        proof {
            let more = entries@.subrange(0, i + 1);
            assert(more.drop_last() =~= entries@.subrange(0, i as int));
            assert(more.last() == entries@[i as int]);
        }
        let name: &str = entries[i].name.as_str();
        if let Some(id) = sst_block::sst_id(name) {
            let path = sst_block::join(dir, name);
            put_table(&mut out, SstEntry { id, path, len: entries[i].len });
        }
        i = i + 1;
    }
    assert(entries@.subrange(0, i as int) =~= entries@);
    out
}

/// Ids do not descend.
pub open spec fn ids_rise(tables: Seq<Listed>) -> bool {
    forall|i: int, j: int| 0 <= i < j < tables.len() ==> (#[trigger] tables[i]).id <= (#[trigger] tables[j]).id
}

proof fn lemma_with_table_rises(tables: Seq<Listed>, table: Listed)
    requires
        ids_rise(tables),
    ensures
        ids_rise(with_table(tables, table)),
        forall|i: int|
            0 <= i < with_table(tables, table).len() ==> (#[trigger] with_table(tables, table)[i]).id <= (if tables.len()
                > 0 && tables.last().id > table.id {
                tables.last().id
            } else {
                table.id
            }),
    decreases tables.len(),
{
    let out = with_table(tables, table);
    if tables.len() == 0 || tables.last().id <= table.id {
        assert forall|i: int, j: int| 0 <= i < j < out.len() implies (#[trigger] out[i]).id <= (#[trigger] out[j]).id by {
            if j == tables.len() {
                if i < tables.len() - 1 {
                    assert(tables[i].id <= tables[tables.len() - 1].id);
                }
            } else {
                assert(tables[i].id <= tables[j].id);
            }
        }
    } else {
        let head = tables.drop_last();
        assert forall|i: int, j: int| 0 <= i < j < head.len() implies (#[trigger] head[i]).id <= (
        #[trigger] head[j]).id by {
            assert(tables[i].id <= tables[j].id);
        }
        lemma_with_table_rises(head, table);
        if head.len() > 0 {
            assert(tables[head.len() - 1].id <= tables[tables.len() - 1].id);
        }
        let rest = with_table(head, table);
        assert forall|i: int, j: int| 0 <= i < j < out.len() implies (#[trigger] out[i]).id <= (#[trigger] out[j]).id by {
            if j == rest.len() {
                assert(out[i] == rest[i]);
            } else {
                assert(rest[i].id <= rest[j].id);
            }
        }
        assert forall|i: int| 0 <= i < out.len() implies (#[trigger] out[i]).id <= tables.last().id by {
            if i < rest.len() {
                assert(out[i] == rest[i]);
            }
        }
    }
}

/// Tables on disk are listed oldest first.
pub proof fn tables_are_listed_oldest_first(dir: Seq<char>, entries: Seq<DirEntry>)
    ensures
        ids_rise(sst_tables(dir, entries)),
    decreases entries.len(),
{
    if entries.len() > 0 {
        tables_are_listed_oldest_first(dir, entries.drop_last());
        if let Some(id) = sst_id_of(entries.last().name@) {
            lemma_with_table_rises(
                sst_tables(dir, entries.drop_last()),
                Listed { id, path: joined(dir, entries.last().name@), len: entries.last().len },
            );
        }
    }
}

/// Loading the first tables may give `found`.
pub open spec fn loads_each<F: StoreRoot>(
    files: &F,
    lens: (u64, u64),
    tables: Seq<Listed>,
    found: Seq<Arc<BlockSstFile>>,
) -> bool {
    &&& found.len() <= tables.len()
    &&& forall|i: int|
        0 <= i < found.len() ==> loads(
            files,
            tables[i].path,
            tables[i].id,
            tables[i].len,
            lens.0,
            lens.1,
            Ok(*#[trigger] found[i]),
        )
}

/// What loading the tables gives: all of them, or the error of the oldest that
/// does not load.
pub open spec fn loads_tables<F: StoreRoot>(
    files: &F,
    lens: (u64, u64),
    tables: Seq<Listed>,
    r: Result<Vec<Arc<BlockSstFile>>, EngineError>,
) -> bool {
    match r {
        Ok(found) => found@.len() == tables.len() && loads_each(files, lens, tables, found@),
        Err(e) => exists|found: Seq<Arc<BlockSstFile>>|
            {
                &&& #[trigger] loads_each(files, lens, tables, found)
                &&& found.len() < tables.len()
                &&& loads(
                    files,
                    tables[found.len() as int].path,
                    tables[found.len() as int].id,
                    tables[found.len() as int].len,
                    lens.0,
                    lens.1,
                    Err(e),
                )
            },
    }
}

/// Loads the metadata of every table.
pub fn load_tables<F: StoreRoot>(files: &F, lens: (u64, u64), ssts: &Vec<SstEntry>) -> (r: Result<
    Vec<Arc<BlockSstFile>>,
    EngineError,
>)
    ensures
        loads_tables(files, lens, table_list(ssts@), r),
{
    let ghost tables = table_list(ssts@);
    let mut found: Vec<Arc<BlockSstFile>> = Vec::new();
    let mut i: usize = 0;
    while i < ssts.len()
        invariant
            tables == table_list(ssts@),
            i <= ssts@.len(),
            found@.len() == i,
            loads_each(files, lens, tables, found@),
        decreases ssts@.len() - i,
    {
        assert(tables[i as int] == ssts@[i as int].listed());
        let l = BlockSstFile::load(files, ssts[i].path.clone(), ssts[i].id, ssts[i].len, lens.0, lens.1);
        match l {
            Err(e) => {
                assert(loads_each(files, lens, tables, found@));
                return Err(e);
            },
            Ok(file) => {
                found.push(Arc::new(file));
            },
        }
        i = i + 1;
    }
    Ok(found)
}

/// A table on disk has the highest id there is.
pub open spec fn ids_used_up(tables: Seq<Listed>) -> bool {
    tables.len() > 0 && tables.last().id == u64::MAX
}

/// The next table id: above every table on disk, an orphan too, so that a new
/// table never takes the file of an old one.
pub open spec fn id_after(tables: Seq<Listed>) -> u64 {
    if tables.len() == 0 {
        0
    } else {
        (tables.last().id + 1) as u64
    }
}

/// `e` says that no id is left for a table.
pub open spec fn is_used_up_error(e: EngineError, dir: Seq<char>) -> bool {
    e matches EngineError::CorruptSstManifest { path, reason } && path@ == joined(dir, "manifest.meta"@) && reason@
        == "table ids on disk leave no id above them"@
}

/// The next table id, or the refusal of tables that leave none.
pub fn next_table_id(dir: &str, ssts: &Vec<SstEntry>) -> (r: Result<u64, EngineError>)
    ensures
        if ids_used_up(table_list(ssts@)) {
            r matches Err(e) && is_used_up_error(e, dir@)
        } else {
            r == Ok::<u64, EngineError>(id_after(table_list(ssts@)))
        },
{
    let ghost tables = table_list(ssts@);
    let n: usize = ssts.len();
    if n == 0 {
        return Ok(0);
    }
    let last: u64 = ssts[n - 1].id;
    assert(tables.last() == ssts@[n - 1].listed());
    if last == u64::MAX {
        return Err(
            EngineError::CorruptSstManifest {
                path: sst_block::join(dir, "manifest.meta"),
                reason: String::from_str("table ids on disk leave no id above them"),
            },
        );
    }
    Ok(last + 1)
}

/// The tables that are live, in order.
pub open spec fn kept_live(found: Seq<Arc<BlockSstFile>>, live: Seq<u64>) -> Seq<Arc<BlockSstFile>>
    decreases found.len(),
{
    if found.len() == 0 {
        Seq::empty()
    } else if live.contains(found.last().id) {
        kept_live(found.drop_last(), live).push(found.last())
    } else {
        kept_live(found.drop_last(), live)
    }
}

/// Live table `i` is the first that is not on disk.
pub open spec fn first_lost(found: Seq<Arc<BlockSstFile>>, live: Seq<u64>, i: int) -> bool {
    &&& 0 <= i < live.len()
    &&& !ids_of(found).contains(live[i])
    &&& forall|j: int| 0 <= j < i ==> ids_of(found).contains(#[trigger] live[j])
}

/// The live tables, and how often they were published.
#[derive(Debug)]
pub struct LiveTables {
    pub ssts: Vec<Arc<BlockSstFile>>,
    pub manifest_generation: u64,
}

/// From `t0` to `t1` the removal of every table that is not live was tried, in
/// order, whatever came of it.
pub open spec fn drops(t0: Seq<Step>, t1: Seq<Step>, found: Seq<Arc<BlockSstFile>>, live: Seq<u64>) -> bool
    decreases found.len(),
{
    if found.len() == 0 {
        t1 == t0
    } else if live.contains(found.last().id) {
        drops(t0, t1, found.drop_last(), live)
    } else {
        exists|m: Seq<Step>, ok: bool|
            drops(t0, m, found.drop_last(), live) && #[trigger] removed_file(m, t1, found.last().path@, ok)
    }
}

/// What a manifest makes of the tables on disk: a live one that is gone is an
/// error, which touches nothing; one that is not listed is an orphan and
/// dropped.
pub open spec fn confronts_with(
    t0: Seq<Step>,
    t1: Seq<Step>,
    dir: Seq<char>,
    found: Seq<Arc<BlockSstFile>>,
    manifest: SstManifest,
    r: Result<LiveTables, EngineError>,
) -> bool {
    let live = manifest.live_sst_ids@;
    if exists|i: int| first_lost(found, live, i) {
        t1 == t0 && (r matches Err(e) && exists|i: int|
            #[trigger] first_lost(found, live, i) && (e matches EngineError::MissingLiveSst { id, path } && id
                == live[i] && path@ == joined(dir, sst_name(live[i]))))
    } else {
        r matches Ok(kept) && {
            &&& kept.ssts@ == kept_live(found, live)
            &&& kept.manifest_generation == manifest.manifest_generation
            &&& drops(t0, t1, found, live)
        }
    }
}

/// What holding the tables on disk against the manifest gives. Without a
/// manifest, one is published that adopts what is there.
pub open spec fn confronts<F: StoreRoot>(
    files: &F,
    t0: Seq<Step>,
    t1: Seq<Step>,
    dir: Seq<char>,
    found: Seq<Arc<BlockSstFile>>,
    r: Result<LiveTables, EngineError>,
) -> bool {
    let path = joined(dir, "manifest.meta"@);
    exists|there: bool|
        #[trigger] tells_present(files, path, there) && if !there {
            exists|p: Result<(), EngineError>|
                #[trigger] published_manifest(t0, t1, dir, 0, ids_of(found), p) && match p {
                    Err(e) => r == Err::<LiveTables, EngineError>(e),
                    Ok(()) => r matches Ok(kept) && kept.ssts@ == found && kept.manifest_generation == 0,
                }
        } else {
            exists|m: Result<SstManifest, ReadFault>|
                #[trigger] gives_manifest(files, dir, m) && match m {
                    Err(fault) => t1 == t0 && (r matches Err(e) && is_fault(e, path, fault)),
                    Ok(manifest) => confronts_with(t0, t1, dir, found, manifest, r),
                }
        }
}

fn ids_of_tables(found: &Vec<Arc<BlockSstFile>>) -> (ids: Vec<u64>)
    ensures
        ids@ == ids_of(found@),
{
    let mut ids: Vec<u64> = Vec::new();
    let mut i: usize = 0;
    assert(ids@ =~= ids_of(found@).subrange(0, 0));
    while i < found.len()
        invariant
            i <= found@.len(),
            ids@ == ids_of(found@).subrange(0, i as int),
        decreases found@.len() - i,
    {
        ids.push(found[i].id);
        assert(ids@ =~= ids_of(found@).subrange(0, i + 1));
        i = i + 1;
    }
    assert(ids@ =~= ids_of(found@));
    ids
}

fn keep_live<F: StoreRoot>(files: &mut Traced<F>, found: &Vec<Arc<BlockSstFile>>, live: &Vec<u64>) -> (kept: Vec<
    Arc<BlockSstFile>,
>)
    ensures
        final(files).spec_files() == old(files).spec_files(),
        kept@ == kept_live(found@, live@),
        drops(old(files).steps(), final(files).steps(), found@, live@),
{
    let ghost t0 = files.steps();
    let mut kept: Vec<Arc<BlockSstFile>> = Vec::new();
    let mut i: usize = 0;
    proof {
        assert(found@.subrange(0, 0) =~= Seq::<Arc<BlockSstFile>>::empty());
        assert(kept@ =~= Seq::<Arc<BlockSstFile>>::empty());
    }
    while i < found.len()
        invariant
            i <= found@.len(),
            files.spec_files() == old(files).spec_files(),
            kept@ == kept_live(found@.subrange(0, i as int), live@),
            drops(t0, files.steps(), found@.subrange(0, i as int), live@),
        decreases found@.len() - i,
    {
        let ghost m = files.steps();
        proof {
            let more = found@.subrange(0, i + 1);
            assert(more.drop_last() =~= found@.subrange(0, i as int));
            assert(more.last() == found@[i as int]);
        }
        if version::has_id(live, found[i].id) {
            kept.push(found[i].clone());
        } else {
            let p: &str = found[i].path.as_str();
            let ok = files.remove_file(p);
            assert(removed_file(m, files.steps(), found@[i as int].path@, ok));
        }
        i = i + 1;
    }
    assert(found@.subrange(0, i as int) =~= found@);
    kept
}

fn confront_with<F: StoreRoot>(
    files: &mut Traced<F>,
    dir: &str,
    found: &Vec<Arc<BlockSstFile>>,
    manifest: SstManifest,
) -> (r: Result<LiveTables, EngineError>)
    ensures
        final(files).spec_files() == old(files).spec_files(),
        confronts_with(old(files).steps(), final(files).steps(), dir@, found@, manifest, r),
{
    let ids = ids_of_tables(found);
    let live = &manifest.live_sst_ids;
    let mut i: usize = 0;
    while i < live.len()
        invariant
            live == &manifest.live_sst_ids,
            ids@ == ids_of(found@),
            i <= live@.len(),
            forall|j: int| 0 <= j < i ==> ids_of(found@).contains(#[trigger] live@[j]),
        decreases live@.len() - i,
    {
        let id: u64 = live[i];
        if !version::has_id(&ids, id) {
            assert(first_lost(found@, live@, i as int));
            return Err(EngineError::MissingLiveSst { id, path: sst_block::sst_path(dir, id) });
        }
        i = i + 1;
    }
    assert forall|k: int| !first_lost(found@, live@, k) by {
        if first_lost(found@, live@, k) {
            assert(ids_of(found@).contains(live@[k]));
        }
    }
    let ssts = keep_live(files, found, live);
    Ok(LiveTables { ssts, manifest_generation: manifest.manifest_generation })
}

/// Holds the tables on disk against the manifest.
pub fn confront_manifest_with_disk<F: StoreRoot>(
    files: &mut Traced<F>,
    dir: &str,
    found: Vec<Arc<BlockSstFile>>,
) -> (r: Result<LiveTables, EngineError>)
    ensures
        final(files).spec_files() == old(files).spec_files(),
        confronts(&old(files).spec_files(), old(files).steps(), final(files).steps(), dir@, found@, r),
{
    let path = sst_block::join(dir, "manifest.meta");
    let p: &str = path.as_str();
    let disk = files.files();
    let there = disk.is_present(p);
    assert(call_ensures(F::is_present, (disk, p), there));
    assert(tells_present(disk, joined(dir@, "manifest.meta"@), there));
    if !there {
        let ids = ids_of_tables(&found);
        let w = files.publish_manifest(dir, 0, &ids);
        assert(published_manifest(old(files).steps(), files.steps(), dir@, 0, ids_of(found@), w));
        return match w {
            Err(e) => Err(e),
            Ok(()) => Ok(LiveTables { ssts: found, manifest_generation: 0 }),
        };
    }
    let m = disk.read_manifest(dir);
    assert(call_ensures(F::read_manifest, (disk, dir), m));
    assert(gives_manifest(disk, dir@, m));
    match m {
        Err(fault) => Err(open::fault_error(p, fault)),
        Ok(manifest) => confront_with(files, dir, &found, manifest),
    }
}

/// What opening the tables read of them.
pub open spec fn bytes_loaded(ssts: Seq<Arc<BlockSstFile>>) -> nat
    decreases ssts.len(),
{
    if ssts.len() == 0 {
        0
    } else {
        bytes_loaded(ssts.drop_last()) + ssts.last().bytes_read_at_open as nat
    }
}

fn sum_loaded(ssts: &Vec<Arc<BlockSstFile>>) -> (n: u64)
    ensures
        n == capped64(bytes_loaded(ssts@)),
{
    let mut total: u64 = 0;
    let mut i: usize = 0;
    assert(ssts@.subrange(0, 0) =~= Seq::<Arc<BlockSstFile>>::empty());
    while i < ssts.len()
        invariant
            i <= ssts@.len(),
            total == capped64(bytes_loaded(ssts@.subrange(0, i as int))),
        decreases ssts@.len() - i,
    {
        proof {
            assert(ssts@.subrange(0, i + 1).drop_last() =~= ssts@.subrange(0, i as int));
        }
        total = total.saturating_add(ssts[i].bytes_read_at_open);
        i = i + 1;
    }
    assert(ssts@.subrange(0, i as int) =~= ssts@);
    total
}

/// What is known of a store once its tables are settled.
#[derive(Debug)]
pub struct Recovered {
    pub active: ActiveDir,
    pub store_id: u128,
    pub encrypted: bool,
    pub next_sst_id: u64,
    pub live: LiveTables,
    pub orphan_bytes: u64,
}

/// `engine` is the engine of what was recovered, its log of `log_len` bytes
/// replayed.
pub open spec fn is_opened(
    engine: Engine,
    options: EngineOptions,
    known: Recovered,
    log_len: u64,
    log: Seq<WalRecord>,
    failures: u64,
) -> bool {
    &&& engine.wf()
    &&& engine.dir@ == known.active.dir@
    &&& engine.generation_id == known.active.generation
    &&& engine.store_id == known.store_id
    &&& engine.encrypted == known.encrypted
    &&& engine.memtable@ == rows_map(record_rows(log))
    &&& engine.current.ssts@ == known.live.ssts@
    &&& engine.current.manifest_generation == known.live.manifest_generation
    &&& engine.next_sst_id == known.next_sst_id
    &&& engine.options == options
    &&& engine.counters == counters_at_open(
        capped64(capped64(bytes_loaded(known.live.ssts@)) as nat + log_len as nat),
    )
    &&& engine.orphan_bytes_at_open == known.orphan_bytes
    &&& engine.generation_remove_failures == failures
    &&& engine.active_snapshots == 0
    &&& engine.point_lookup_full_sst_read == 0
    &&& engine.block_cache@ == Seq::<Resident>::empty()
    &&& engine.block_cache.capacity() == options.block_cache_capacity_bytes
    &&& engine.block_cache.spec_hits() == 0
    &&& engine.block_cache.spec_misses() == 0
}

/// What opening the log and putting the engine together gives.
pub open spec fn opens_log<F: StoreRoot>(
    files: &F,
    t0: Seq<Step>,
    t1: Seq<Step>,
    options: EngineOptions,
    known: Recovered,
    r: Result<Engine, EngineError>,
) -> bool {
    exists|o: Result<u64, EngineError>, a: Seq<Step>|
        #[trigger] opened_log(t0, a, known.active.dir@, o) && match o {
            Err(e) => r == Err::<Engine, EngineError>(e) && t1 == a,
            Ok(len) => exists|l: Result<Vec<WalRecord>, EngineError>, b: Seq<Step>|
                #[trigger] replayed_log(a, b, known.active.dir@, l) && match l {
                    Err(e) => r == Err::<Engine, EngineError>(e) && t1 == b,
                    Ok(log) => exists|failures: u64|
                        #[trigger] sweeps_inactive(files, b, t1, known.active.generation, 0, failures) && (r matches Ok(
                            engine,
                        ) && is_opened(engine, options, known, len, log@, failures)),
                },
        }
}

/// What can be put together: live tables in order, below the next id.
pub open spec fn can_open(known: Recovered) -> bool {
    &&& ids_in_order(known.live.ssts@)
    &&& all_wf(known.live.ssts@)
    &&& forall|i: int|
        0 <= i < known.live.ssts@.len() ==> (#[trigger] known.live.ssts@[i]).id < known.next_sst_id
}

fn open_log<F: StoreRoot>(files: &mut Traced<F>, options: EngineOptions, known: Recovered) -> (r: Result<
    Engine,
    EngineError,
>)
    requires
        can_open(known),
    ensures
        final(files).spec_files() == old(files).spec_files(),
        opens_log(&old(files).spec_files(), old(files).steps(), final(files).steps(), options, known, r),
{
    let ghost t0 = files.steps();
    let ghost given = known;
    let d: &str = known.active.dir.as_str();
    let o = files.open_log(d);
    let ghost a = files.steps();
    assert(opened_log(t0, a, given.active.dir@, o));
    let len: u64 = match o {
        Ok(len) => len,
        Err(e) => {
            return Err(e);
        },
    };
    let l = files.replay_log(d);
    let ghost b = files.steps();
    assert(replayed_log(a, b, given.active.dir@, l));
    let log = match l {
        Ok(log) => log,
        Err(e) => {
            return Err(e);
        },
    };
    let bytes_read: u64 = sum_loaded(&known.live.ssts).saturating_add(len);
    let memtable = replay(&log);
    let block_cache = BlockCache::new(options.block_cache_capacity_bytes);
    let failures: u64 = io::gc_inactive_generations(files, known.active.generation, 0);
    assert(sweeps_inactive(
        &old(files).spec_files(),
        b,
        files.steps(),
        given.active.generation,
        0,
        failures,
    ));
    let current = Version {
        manifest_generation: known.live.manifest_generation,
        ssts: known.live.ssts,
    };
    let engine = Engine {
        dir: known.active.dir,
        generation_id: known.active.generation,
        store_id: known.store_id,
        encrypted: known.encrypted,
        memtable,
        current: Arc::new(current),
        next_sst_id: known.next_sst_id,
        options,
        counters: Counters::at_open(bytes_read),
        orphan_bytes_at_open: known.orphan_bytes,
        generation_remove_failures: failures,
        active_snapshots: 0,
        point_lookup_full_sst_read: 0,
        block_cache,
    };
    assert(is_opened(engine, options, given, len, log@, failures));
    Ok(engine)
}

/// What settling the tables gives, and the rest of the way.
pub open spec fn opens_tables<F: StoreRoot>(
    files: &F,
    t0: Seq<Step>,
    t1: Seq<Step>,
    options: EngineOptions,
    store_id: u128,
    active: ActiveDir,
    encrypted: bool,
    tables: Seq<Listed>,
    found: Seq<Arc<BlockSstFile>>,
    r: Result<Engine, EngineError>,
) -> bool {
    if ids_used_up(tables) {
        t1 == t0 && (r matches Err(e) && is_used_up_error(e, active.dir@))
    } else {
        exists|c: Result<LiveTables, EngineError>, m: Seq<Step>|
            #[trigger] confronts(files, t0, m, active.dir@, found, c) && match c {
                Err(e) => r == Err::<Engine, EngineError>(e) && t1 == m,
                Ok(live) => exists|l: Result<Vec<DirEntry>, EngineError>|
                    #[trigger] gives_list(files, active.dir@, l) && match l {
                        Err(e) => r == Err::<Engine, EngineError>(e) && t1 == m,
                        Ok(entries) => opens_log(
                            files,
                            m,
                            t1,
                            options,
                            Recovered {
                                active,
                                store_id,
                                encrypted,
                                next_sst_id: id_after(tables),
                                live,
                                orphan_bytes: capped64(temporary_bytes(entries@)),
                            },
                            r,
                        ),
                    },
            }
    }
}

/// Tables loaded from a rising listing are in order, and what is kept
/// of them too.
proof fn lemma_loaded_order<F: StoreRoot>(
    files: &F,
    lens: (u64, u64),
    tables: Seq<Listed>,
    found: Seq<Arc<BlockSstFile>>,
)
    requires
        ids_rise(tables),
        !ids_used_up(tables),
        found.len() == tables.len(),
        loads_each(files, lens, tables, found),
    ensures
        ids_in_order(found),
        all_wf(found),
        forall|i: int| 0 <= i < found.len() ==> (#[trigger] found[i]).id < id_after(tables),
{
    assert forall|i: int| 0 <= i < found.len() implies (#[trigger] found[i]).id == tables[i].id && found[i].wf() by {
        sst_block::read::lemma_loaded_is_wf(
            files,
            tables[i].path,
            tables[i].id,
            tables[i].len,
            lens.0,
            lens.1,
            *found[i],
        );
    }
    assert forall|i: int, j: int| 0 <= i < j < found.len() implies (#[trigger] found[i]).id <= (
    #[trigger] found[j]).id by {
        assert(tables[i].id <= tables[j].id);
    }
    assert forall|i: int| 0 <= i < found.len() implies (#[trigger] found[i]).id < id_after(tables) by {
        if i < tables.len() - 1 {
            assert(tables[i].id <= tables[tables.len() - 1].id);
        }
    }
}

proof fn lemma_kept_order(found: Seq<Arc<BlockSstFile>>, live: Seq<u64>, bound: u64)
    requires
        ids_in_order(found),
        all_wf(found),
        forall|i: int| 0 <= i < found.len() ==> (#[trigger] found[i]).id < bound,
    ensures
        ids_in_order(kept_live(found, live)),
        all_wf(kept_live(found, live)),
        forall|i: int| 0 <= i < kept_live(found, live).len() ==> (#[trigger] kept_live(found, live)[i]).id < bound,
        forall|i: int|
            0 <= i < kept_live(found, live).len() ==> found.len() > 0 && (#[trigger] kept_live(found, live)[i]).id
                <= found.last().id,
    decreases found.len(),
{
    if found.len() > 0 {
        let head = found.drop_last();
        let last = found.last();
        assert forall|i: int, j: int| 0 <= i < j < head.len() implies (#[trigger] head[i]).id <= (
        #[trigger] head[j]).id by {
            assert(found[i].id <= found[j].id);
        }
        assert forall|i: int| 0 <= i < head.len() implies (#[trigger] head[i]).wf() && head[i].id < bound by {
            assert(found[i].wf() && found[i].id < bound);
        }
        assert(found[found.len() - 1].wf() && found[found.len() - 1].id < bound);
        lemma_kept_order(head, live, bound);
        let rest = kept_live(head, live);
        let out = kept_live(found, live);
        if head.len() > 0 {
            assert(found[head.len() - 1].id <= found[found.len() - 1].id);
        }
        if live.contains(last.id) {
            assert(out =~= rest.push(last));
        }
        assert forall|i: int| 0 <= i < out.len() implies (#[trigger] out[i]).id <= last.id && out[i].wf() && out[i].id
            < bound by {
            if i < rest.len() {
                assert(out[i] == rest[i]);
            }
        }
        assert forall|i: int, j: int| 0 <= i < j < out.len() implies (#[trigger] out[i]).id <= (
        #[trigger] out[j]).id by {
            if j < rest.len() {
                assert(rest[i].id <= rest[j].id);
            } else {
                assert(out[i] == rest[i]);
                assert(rest[i].id <= head.last().id);
            }
        }
    }
}

fn open_tables<F: StoreRoot>(
    files: &mut Traced<F>,
    options: EngineOptions,
    store_id: u128,
    active: ActiveDir,
    encrypted: bool,
    lens: (u64, u64),
    ssts: &Vec<SstEntry>,
    found: Vec<Arc<BlockSstFile>>,
) -> (r: Result<Engine, EngineError>)
    requires
        ids_rise(table_list(ssts@)),
        found@.len() == ssts@.len(),
        loads_each(&old(files).spec_files(), lens, table_list(ssts@), found@),
    ensures
        final(files).spec_files() == old(files).spec_files(),
        opens_tables(
            &old(files).spec_files(),
            old(files).steps(),
            final(files).steps(),
            options,
            store_id,
            active,
            encrypted,
            table_list(ssts@),
            found@,
            r,
        ),
{
    let ghost first = files.spec_files();
    let ghost t0 = files.steps();
    let ghost tables = table_list(ssts@);
    let ghost all = found@;
    let ghost home = active;
    let next_sst_id: u64 = match next_table_id(active.dir.as_str(), ssts) {
        Ok(id) => id,
        Err(e) => {
            return Err(e);
        },
    };
    proof {
        lemma_loaded_order(&first, lens, tables, all);
    }
    let c = confront_manifest_with_disk(files, active.dir.as_str(), found);
    let ghost m = files.steps();
    assert(confronts(&first, t0, m, home.dir@, all, c));
    let live = match c {
        Ok(live) => live,
        Err(e) => {
            return Err(e);
        },
    };
    proof {
        lemma_confronted_order(&first, t0, m, home.dir@, all, next_sst_id, live);
    }
    let d: &str = active.dir.as_str();
    let disk = files.files();
    let l = disk.list(d);
    assert(call_ensures(F::list, (disk, d), l));
    assert(gives_list(disk, home.dir@, l));
    match l {
        Err(e) => Err(e),
        Ok(entries) => {
            let orphan_bytes: u64 = open::scan_orphan_tmp_bytes(&entries);
            let known = Recovered { active, store_id, encrypted, next_sst_id, live, orphan_bytes };
            open_log(files, options, known)
        },
    }
}

/// What a confrontation keeps is in order.
proof fn lemma_confronted_order<F: StoreRoot>(
    files: &F,
    t0: Seq<Step>,
    t1: Seq<Step>,
    dir: Seq<char>,
    found: Seq<Arc<BlockSstFile>>,
    bound: u64,
    live: LiveTables,
)
    requires
        confronts(files, t0, t1, dir, found, Ok(live)),
        ids_in_order(found),
        all_wf(found),
        forall|i: int| 0 <= i < found.len() ==> (#[trigger] found[i]).id < bound,
    ensures
        ids_in_order(live.ssts@),
        all_wf(live.ssts@),
        forall|i: int| 0 <= i < live.ssts@.len() ==> (#[trigger] live.ssts@[i]).id < bound,
{
    if live.ssts@ != found {
        let m = choose|m: Result<SstManifest, ReadFault>|
            #[trigger] gives_manifest(files, dir, m) && match m {
                Err(fault) => false,
                Ok(manifest) => confronts_with(t0, t1, dir, found, manifest, Ok(live)),
            };
        lemma_kept_order(found, m->Ok_0.live_sst_ids@, bound);
    }
}

/// What opening a data directory gives.
pub open spec fn opens_data<F: StoreRoot>(
    files: &F,
    t0: Seq<Step>,
    t1: Seq<Step>,
    options: EngineOptions,
    store_id: u128,
    active: ActiveDir,
    encrypted: bool,
    r: Result<Engine, EngineError>,
) -> bool {
    exists|lens: (u64, u64), l: Result<Vec<DirEntry>, EngineError>|
        {
            &&& #[trigger] call_ensures(F::section_lens, (files, encrypted), lens)
            &&& #[trigger] gives_list(files, active.dir@, l)
            &&& match l {
                Err(e) => r == Err::<Engine, EngineError>(e) && t1 == t0,
                Ok(entries) => exists|t: Result<Vec<Arc<BlockSstFile>>, EngineError>|
                    #[trigger] loads_tables(files, lens, sst_tables(active.dir@, entries@), t) && match t {
                        Err(e) => r == Err::<Engine, EngineError>(e) && t1 == t0,
                        Ok(found) => opens_tables(
                            files,
                            t0,
                            t1,
                            options,
                            store_id,
                            active,
                            encrypted,
                            sst_tables(active.dir@, entries@),
                            found@,
                            r,
                        ),
                    },
            }
        }
}

fn open_data<F: StoreRoot>(
    files: &mut Traced<F>,
    options: EngineOptions,
    store_id: u128,
    active: ActiveDir,
    encrypted: bool,
) -> (r: Result<Engine, EngineError>)
    ensures
        final(files).spec_files() == old(files).spec_files(),
        opens_data(
            &old(files).spec_files(),
            old(files).steps(),
            final(files).steps(),
            options,
            store_id,
            active,
            encrypted,
            r,
        ),
{
    let disk = files.files();
    let lens = disk.section_lens(encrypted);
    assert(call_ensures(F::section_lens, (disk, encrypted), lens));
    let d: &str = active.dir.as_str();
    let l = disk.list(d);
    assert(call_ensures(F::list, (disk, d), l));
    assert(gives_list(disk, active.dir@, l));
    match l {
        Err(e) => Err(e),
        Ok(entries) => {
            let ssts = list_tables(d, &entries);
            proof {
                tables_are_listed_oldest_first(active.dir@, entries@);
            }
            let t = load_tables(disk, lens, &ssts);
            assert(loads_tables(disk, lens, sst_tables(active.dir@, entries@), t));
            match t {
                Err(e) => Err(e),
                Ok(found) => open_tables(files, options, store_id, active, encrypted, lens, &ssts, found),
            }
        },
    }
}

/// What opening a store behind its lock gives: gate, generation, key, data.
pub open spec fn opens_locked<F: StoreRoot>(
    files: &F,
    t0: Seq<Step>,
    t1: Seq<Step>,
    options: EngineOptions,
    key: Option<&UserKey>,
    r: Result<Engine, EngineError>,
) -> bool {
    exists|g: Result<u128, EngineError>, m: Seq<Step>|
        #[trigger] gates(files, t0, m, g) && match g {
            Err(e) => r == Err::<Engine, EngineError>(e) && t1 == m,
            Ok(store_id) => exists|a: Result<ActiveDir, EngineError>|
                #[trigger] resolves(files, a) && match a {
                    Err(e) => r == Err::<Engine, EngineError>(e) && t1 == m,
                    Ok(active) => exists|s: Result<bool, EngineError>, n: Seq<Step>|
                        #[trigger] settles_key(files, m, n, active.dir@, active.generation, key, s) && match s {
                            Err(e) => r == Err::<Engine, EngineError>(e) && t1 == n,
                            Ok(encrypted) => opens_data(files, n, t1, options, store_id, active, encrypted, r),
                        },
                },
        }
}

fn open_locked<F: StoreRoot>(files: &mut Traced<F>, options: EngineOptions, key: Option<&UserKey>) -> (r: Result<
    Engine,
    EngineError,
>)
    ensures
        final(files).spec_files() == old(files).spec_files(),
        opens_locked(&old(files).spec_files(), old(files).steps(), final(files).steps(), options, key, r),
{
    let ghost first = files.spec_files();
    let ghost t0 = files.steps();
    let g = open::check_or_create_store_meta(files);
    let ghost m = files.steps();
    assert(gates(&first, t0, m, g));
    let store_id: u128 = match g {
        Ok(id) => id,
        Err(e) => {
            return Err(e);
        },
    };
    let a = open::resolve_active_generation(files.files());
    assert(resolves(&first, a));
    let active = match a {
        Ok(active) => active,
        Err(e) => {
            return Err(e);
        },
    };
    let s = open::settle_key(files, active.dir.as_str(), active.generation, key);
    assert(settles_key(&first, m, files.steps(), active.dir@, active.generation, key, s));
    match s {
        Ok(encrypted) => open_data(files, options, store_id, active, encrypted),
        Err(e) => Err(e),
    }
}

/// What opening a store gives. The lock comes before everything else, so that
/// no two openers stamp or sweep one store.
pub open spec fn opens<F: StoreRoot>(
    files: &F,
    t0: Seq<Step>,
    t1: Seq<Step>,
    options: EngineOptions,
    key: Option<&UserKey>,
    r: Result<Engine, EngineError>,
) -> bool {
    exists|c: Result<(), EngineError>, a: Seq<Step>|
        #[trigger] made_root(t0, a, c) && match c {
            Err(e) => r == Err::<Engine, EngineError>(e) && t1 == a,
            Ok(()) => exists|k: Result<bool, EngineError>, b: Seq<Step>|
                #[trigger] locked(a, b, k) && match k {
                    Err(e) => r == Err::<Engine, EngineError>(e) && t1 == b,
                    Ok(false) => t1 == b && (r matches Err(EngineError::StoreLocked { path }) && path@.len() == 0),
                    Ok(true) => opens_locked(files, b, t1, options, key, r),
                },
        }
}

/// What opening a store with a key gives.
pub open spec fn opens_with<F: StoreRoot>(
    files: &F,
    t0: Seq<Step>,
    t1: Seq<Step>,
    options: EngineOptions,
    bytes: Seq<u8>,
    mode: KeyMode,
    profile: Argon2idProfile,
    r: Result<Engine, EngineError>,
) -> bool {
    exists|key: UserKey|
        key.bytes@ == bytes && key.mode == mode && key.profile == profile && #[trigger] opens(
            files,
            t0,
            t1,
            options,
            Some(&key),
            r,
        )
}

impl Engine {
    fn open_inner<F: StoreRoot>(files: &mut Traced<F>, options: EngineOptions, key: Option<&UserKey>) -> (r: Result<
        Engine,
        EngineError,
    >)
        ensures
            final(files).spec_files() == old(files).spec_files(),
            opens(&old(files).spec_files(), old(files).steps(), final(files).steps(), options, key, r),
            r matches Ok(engine) ==> engine.wf(),
    {
        let ghost t0 = files.steps();
        let c = files.create_root();
        let ghost a = files.steps();
        assert(made_root(t0, a, c));
        match c {
            Err(e) => {
                return Err(e);
            },
            Ok(()) => {},
        }
        let k = files.lock_exclusive();
        assert(locked(a, files.steps(), k));
        match k {
            Err(e) => Err(e),
            Ok(false) => {
                let root: &str = "";
                proof {
                    reveal_strlit("");
                }
                Err(EngineError::StoreLocked { path: String::from_str(root) })
            },
            Ok(true) => open_locked(files, options, key),
        }
    }

    /// Opens a plaintext store, made if absent, with default tunables.
    pub fn open<F: StoreRoot>(files: &mut Traced<F>) -> (r: Result<Engine, EngineError>)
        ensures
            final(files).spec_files() == old(files).spec_files(),
            exists|options: EngineOptions|
                is_default(options)
                    && #[trigger] opens(&old(files).spec_files(), old(files).steps(), final(files).steps(), options, None, r),
            r matches Ok(engine) ==> engine.wf(),
    {
        let options = EngineOptions::default();
        Engine::open_inner(files, options, None)
    }

    /// Opens a plaintext store, made if absent.
    pub fn open_with_options<F: StoreRoot>(
        files: &mut Traced<F>,
        options: EngineOptions,
    ) -> (r: Result<Engine, EngineError>)
        ensures
            final(files).spec_files() == old(files).spec_files(),
            opens(&old(files).spec_files(), old(files).steps(), final(files).steps(), options, None, r),
            r matches Ok(engine) ==> engine.wf(),
    {
        Engine::open_inner(files, options, None)
    }

    fn open_with_key<F: StoreRoot>(
        files: &mut Traced<F>,
        bytes: &[u8],
        mode: KeyMode,
        profile: Argon2idProfile,
        options: EngineOptions,
    ) -> (r: Result<Engine, EngineError>)
        ensures
            final(files).spec_files() == old(files).spec_files(),
            opens_with(
                &old(files).spec_files(),
                old(files).steps(),
                final(files).steps(),
                options,
                bytes@,
                mode,
                profile,
                r,
            ),
            r matches Ok(engine) ==> engine.wf(),
    {
        let key = UserKey { bytes: crate::bytes::copy(bytes), mode, profile };
        let r = Engine::open_inner(files, options, Some(&key));
        assert(opens(
            &old(files).spec_files(),
            old(files).steps(),
            files.steps(),
            options,
            Some(&key),
            r,
        ));
        r
    }

    /// Opens an encrypted store, made if absent, with a raw key and default
    /// tunables.
    pub fn open_encrypted<F: StoreRoot>(files: &mut Traced<F>, key: &[u8]) -> (r: Result<Engine, EngineError>)
        ensures
            final(files).spec_files() == old(files).spec_files(),
            exists|options: EngineOptions|
                is_default(options) && #[trigger] opens_with(
                    &old(files).spec_files(),
                    old(files).steps(),
                    final(files).steps(),
                    options,
                    key@,
                    KeyMode::RawKey,
                    Argon2idProfile::Default,
                    r,
                ),
            r matches Ok(engine) ==> engine.wf(),
    {
        let options = EngineOptions::default();
        Engine::open_encrypted_with_options(files, key, options)
    }

    /// Opens an encrypted store, made if absent, with a raw key.
    pub fn open_encrypted_with_options<F: StoreRoot>(
        files: &mut Traced<F>,
        key: &[u8],
        options: EngineOptions,
    ) -> (r: Result<
        Engine,
        EngineError,
    >)
        ensures
            final(files).spec_files() == old(files).spec_files(),
            opens_with(
                &old(files).spec_files(),
                old(files).steps(),
                final(files).steps(),
                options,
                key@,
                KeyMode::RawKey,
                Argon2idProfile::Default,
                r,
            ),
            r matches Ok(engine) ==> engine.wf(),
    {
        Engine::open_with_key(
            files,
            key,
            KeyMode::RawKey,
            Argon2idProfile::Default,
            options,
        )
    }

    /// Opens an encrypted store, made if absent, with a passphrase and default
    /// tunables.
    pub fn open_with_passphrase<F: StoreRoot>(
        files: &mut Traced<F>,
        passphrase: &[u8],
    ) -> (r: Result<Engine, EngineError>)
        ensures
            final(files).spec_files() == old(files).spec_files(),
            exists|options: EngineOptions|
                is_default(options) && #[trigger] opens_with(
                    &old(files).spec_files(),
                    old(files).steps(),
                    final(files).steps(),
                    options,
                    passphrase@,
                    KeyMode::Passphrase,
                    Argon2idProfile::Default,
                    r,
                ),
            r matches Ok(engine) ==> engine.wf(),
    {
        let options = EngineOptions::default();
        Engine::open_with_passphrase_and_options(files, passphrase, options)
    }

    /// Opens an encrypted store with a passphrase; `profile` counts where a
    /// key record has to be made.
    pub fn open_with_passphrase_and_profile<F: StoreRoot>(
        files: &mut Traced<F>,
        passphrase: &[u8],
        profile: Argon2idProfile,
    ) -> (r: Result<Engine, EngineError>)
        ensures
            final(files).spec_files() == old(files).spec_files(),
            exists|options: EngineOptions|
                is_default(options) && #[trigger] opens_with(
                    &old(files).spec_files(),
                    old(files).steps(),
                    final(files).steps(),
                    options,
                    passphrase@,
                    KeyMode::Passphrase,
                    profile,
                    r,
                ),
            r matches Ok(engine) ==> engine.wf(),
    {
        let options = EngineOptions::default();
        Engine::open_with_key(files, passphrase, KeyMode::Passphrase, profile, options)
    }

    /// Opens an encrypted store, made if absent, with a passphrase.
    pub fn open_with_passphrase_and_options<F: StoreRoot>(
        files: &mut Traced<F>,
        passphrase: &[u8],
        options: EngineOptions,
    ) -> (r: Result<Engine, EngineError>)
        ensures
            final(files).spec_files() == old(files).spec_files(),
            opens_with(
                &old(files).spec_files(),
                old(files).steps(),
                final(files).steps(),
                options,
                passphrase@,
                KeyMode::Passphrase,
                Argon2idProfile::Default,
                r,
            ),
            r matches Ok(engine) ==> engine.wf(),
    {
        Engine::open_with_key(
            files,
            passphrase,
            KeyMode::Passphrase,
            Argon2idProfile::Default,
            options,
        )
    }
}

} // verus!
