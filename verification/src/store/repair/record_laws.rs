//! What a rebuild leaves to be read of the primary records: all of them.
use super::rebuild::{applies_staged, rebuilds, IndexBuilder, RebuildReport};
use super::rebuild_laws::{
    acts_sparing, is_primary, lemma_applied_spares, lemma_edit_spares, lemma_flush_spares, lemma_merge_spares,
    lemma_rebuild_runs_sparing, lemma_stage_spares, lemma_written_out_spares, runs_sparing, spares_records,
    stages_no_records,
};
use crate::bytes::has_prefix;
use crate::error::EngineError;
use crate::store::block_cache::BlockCache;
use crate::store::engine::answer_laws::is_true;
use crate::store::engine::cache_laws::{
    a_lookup_caches_live_tables_alone, cached_tables_alone, every_call_caches_live_tables_alone,
};
use crate::store::engine::compact::{
    builds, commits, compacts, edits, flushes, flushes_memtable, publishes_flush, reads_tables, stages, CompactionJob,
};
use crate::store::engine::durable::Call;
use crate::store::engine::laws::{
    coherent, contents, get_answers_from_the_store, holds_table, holds_tables, lemma_look_up, table_layers, value_of,
};
use crate::store::engine::read::{gets, gets_from};
use crate::store::engine::read_back::{
    cache_is_true, flushed_blocks, lemma_compaction, lemma_failed_flush, lemma_flush_cache, lemma_flushed_id,
    lemma_live_answers, lemma_refused_commit, version_of,
};
use crate::store::engine::write::{maybe_flushes, writes};
use crate::store::engine::write_laws::{
    a_compaction_keeps_every_live_entry, a_flush_keeps_the_contents, a_staged_table_holds_its_rows,
    a_write_changes_the_contents, lemma_added_last, lemma_whole_table, merged_rows,
};
use crate::store::engine::{Engine, StoreFiles};
use crate::store::layers::layered;
use crate::store::rows;
use crate::store::rows::{live, put_rows, rows_map, slot_view, without_tombstones, Row, Slot};
use crate::store::sst_block::read::{covers, looks_up, looks_up_in};
use crate::store::sst_block::write::split_blocks;
use crate::store::sst_block::{all_rows, BlockSstFile};
use crate::store::trace::{appended_batch, goes_on, lemma_cut_early, reset, Step};
use crate::store::version::{ids_of, VersionEdit};
use crate::store::Value;
use std::sync::Arc;
use vstd::prelude::*;

verus! {

/// From `t0` to `t1` lies between `a` and `z`.
pub open spec fn lies_in(a: Seq<Step>, z: Seq<Step>, t0: Seq<Step>, t1: Seq<Step>) -> bool {
    goes_on(a, t0) && goes_on(t0, t1) && goes_on(t1, z)
}

/// Every table that was written between `a` and `z` gives its rows when it is
/// read.
pub open spec fn written_tables_read_back<F: StoreFiles>(files: &F, a: Seq<Step>, z: Seq<Step>) -> bool {
    forall|t0: Seq<Step>, t1: Seq<Step>, dir: Seq<char>, id: u64, run: Seq<Row>, block_size: u32, file: BlockSstFile|
        #[trigger] stages(files, t0, t1, dir, id, run, block_size, Ok(file)) && lies_in(a, z, t0, t1) ==> holds_table(
            files,
            &file,
            split_blocks(run, block_size as nat),
        )
}

proof fn lemma_goes_on(t0: Seq<Step>, m: Seq<Step>, t1: Seq<Step>)
    requires
        goes_on(t0, m),
        goes_on(m, t1),
    ensures
        goes_on(t0, t1),
{
    lemma_cut_early(t0, m, t1, 0);
}

/// What `files` gives of the live tables are the blocks of `tables`, what is
/// cached of them too, and nothing else is cached.
pub open spec fn stands<F: StoreFiles>(files: &F, engine: Engine, tables: Seq<Seq<Seq<Row>>>) -> bool {
    is_true(files, engine, tables) && cached_tables_alone(engine)
}

proof fn lemma_cache_is_true<F: StoreFiles>(files: &F, engine: Engine, tables: Seq<Seq<Seq<Row>>>)
    requires
        stands(files, engine, tables),
    ensures
        cache_is_true(engine, tables),
{
    let cache = engine.block_cache@;
    let ids = ids_of(engine.current.ssts@);
    assert forall|c: int| 0 <= c < cache.len() implies (#[trigger] cache[c]).sst_id < engine.next_sst_id by {
        assert(ids.contains(cache[c].sst_id));
        let i = choose|i: int| 0 <= i < ids.len() && ids[i] == cache[c].sst_id;
        assert(engine.current.ssts@[i].id == cache[c].sst_id);
    }
}

/// The table that a flush added gives the memtable's rows.
proof fn lemma_flushed_table<F: StoreFiles>(
    files: &F,
    a: Seq<Step>,
    z: Seq<Step>,
    t0: Seq<Step>,
    t1: Seq<Step>,
    before: Engine,
    after: Engine,
    r: Result<(), EngineError>,
)
    requires
        before.wf(),
        before.next_sst_id < u64::MAX,
        flushes_memtable(files, t0, t1, before, after, r),
        written_tables_read_back(files, a, z),
        lies_in(a, z, t0, t1),
        after.current.ssts@.len() == before.current.ssts@.len() + 1,
    ensures
        holds_table(files, &*after.current.ssts@.last(), flushed_blocks(before)),
{
    let run = before.memtable.spec_rows();
    let size = before.options.block_size;
    let id = before.next_sst_id;
    let reserved = Engine { next_sst_id: (id + 1) as u64, ..before };
    let (s, m) = choose|s: Result<BlockSstFile, EngineError>, m: Seq<Step>|
        {
            &&& #[trigger] stages(files, t0, m, before.dir@, id, run, size, s)
            &&& match s {
                Err(e) => after == reserved,
                Ok(file) => publishes_flush(
                    m,
                    t1,
                    Engine { counters: reserved.counters.with_flush(file.file_bytes), ..reserved },
                    after,
                    file,
                    r,
                ),
            }
        };
    let file = s->Ok_0;
    let counted = Engine { counters: reserved.counters.with_flush(file.file_bytes), ..reserved };
    let (edit, mid, k, d) = choose|edit: VersionEdit, mid: Engine, k: Seq<Step>, d: Result<(), EngineError>|
        {
            &&& edit.added@.len() == 1
            &&& *edit.added@[0] == file
            &&& edit.deleted@.len() == 0
            &&& #[trigger] edits(m, k, counted, mid, edit, d)
            &&& after.current == mid.current
            &&& t1 == k || exists|t: Result<(), EngineError>| #[trigger] reset(k, t1, counted.dir@, t)
        };
    lemma_stage_spares(files, t0, m, before.dir@, id, run, size, s);
    lemma_edit_spares(m, k, counted, mid, edit, d);
    assert(goes_on(k, t1)) by {
        if t1 == k {
            assert(t1.take(k.len() as int) =~= k);
        } else {
            let t = choose|t: Result<(), EngineError>| #[trigger] reset(k, t1, counted.dir@, t);
            assert(t1.take(k.len() as int) =~= k);
        }
    }
    lemma_goes_on(m, k, t1);
    lemma_goes_on(m, t1, z);
    assert(lies_in(a, z, t0, m));
    assert(stages(files, t0, m, before.dir@, id, run, size, Ok(file)));
    a_staged_table_holds_its_rows(files, t0, m, before.dir@, id, run, size, file);
    let added = edit.added@[0];
    assert(edit.added@ =~= seq![added]);
    assert(d is Ok);
    assert(edits(m, k, counted, mid, edit, Ok(())));
    lemma_added_last(m, k, counted, mid, edit, added);
}

/// A merge leaves tables that give the same live entries.
proof fn lemma_merge_stands<F: StoreFiles>(
    files: &F,
    a: Seq<Step>,
    z: Seq<Step>,
    t0: Seq<Step>,
    t1: Seq<Step>,
    before: Engine,
    after: Engine,
    r: Result<(), EngineError>,
    tables: Seq<Seq<Seq<Row>>>,
) -> (next: Seq<Seq<Seq<Row>>>)
    requires
        is_true(files, before, tables),
        cache_is_true(before, tables),
        before.next_sst_id < u64::MAX,
        written_tables_read_back(files, a, z),
        lies_in(a, z, t0, t1),
        compacts(files, t0, t1, before, after, r),
    ensures
        is_true(files, after, next),
        live(contents(next, after.memtable.spec_rows())) == live(contents(tables, before.memtable.spec_rows())),
{
    let ssts = before.current.ssts@;
    let n = ssts.len() as int;
    let id = before.next_sst_id;
    let size = before.options.block_size;
    let reserved = Engine { next_sst_id: (id + 1) as u64, ..before };
    let next = lemma_compaction(files, t0, t1, before, after, r, tables);
    if r is Ok {
        let (job, m) = choose|job: CompactionJob, m: Seq<Step>|
            #[trigger] builds(files, t0, m, *before.current, id, before.dir@, size, Ok(job)) && commits(
                m,
                t1,
                reserved,
                after,
                job,
                r,
            );
        assert(ssts.subrange(0, n) =~= ssts);
        assert(commits(m, t1, reserved, after, job, Ok(())));
        let blocks = a_compaction_keeps_every_live_entry(
            files,
            (t0, m),
            (m, t1),
            version_of(before),
            id,
            before.dir@,
            size,
            job,
            reserved,
            after,
            tables,
        );
        assert(tables.subrange(0, n) =~= tables);
        assert(after.current.ssts@ =~= seq![job.merged]);
        let (found, run, s) = choose|found: Seq<Seq<Row>>, run: Seq<Row>, s: Result<BlockSstFile, EngineError>|
            {
                &&& #[trigger] reads_tables(files, ssts, found)
                &&& rows::sorted(run)
                &&& rows_map(run) == without_tombstones(layered(found))
                &&& #[trigger] stages(files, t0, m, before.dir@, id, run, size, s)
                &&& (s matches Ok(file) && *job.merged == file)
            };
        let file = s->Ok_0;
        let (edit, mid, d) = choose|edit: VersionEdit, mid: Engine, d: Result<(), EngineError>|
            #[trigger] edits(m, t1, reserved, mid, edit, d) && d is Ok && after.current == mid.current
                && after.block_cache == mid.block_cache && after.memtable == mid.memtable && after.next_sst_id
                == mid.next_sst_id;
        lemma_stage_spares(files, t0, m, before.dir@, id, run, size, s);
        lemma_edit_spares(m, t1, reserved, mid, edit, d);
        lemma_goes_on(m, t1, z);
        assert(stages(files, t0, m, before.dir@, id, run, size, Ok(file)));
        assert(lies_in(a, z, t0, m));
        assert(holds_table(files, &file, split_blocks(run, size as nat)));
        a_staged_table_holds_its_rows(files, t0, m, before.dir@, id, run, size, file);
        assert(found =~= table_layers(tables, n)) by {
            assert forall|i: int| 0 <= i < n implies found[i] == all_rows(tables[i]) by {
                assert(holds_table(files, &*ssts[i], tables[i]));
                lemma_whole_table(files, &*ssts[i], tables[i], found[i]);
            }
        }
        rows::lemma_sorted_rows_unique(run, merged_rows(tables));
        assert(holds_tables(files, after.current.ssts@, next));
        next
    } else {
        if !(after == reserved) {
            let (job, m) = choose|job: CompactionJob, m: Seq<Step>| #[trigger]
                commits(m, t1, reserved, after, job, r);
            lemma_refused_commit(m, t1, reserved, after, job, r);
        }
        tables
    }
}

/// A flush, with the merge that may follow it, leaves tables that give the same
/// live entries, whether or not it succeeds.
proof fn lemma_flush_stands<F: StoreFiles>(
    files: &F,
    a: Seq<Step>,
    z: Seq<Step>,
    t0: Seq<Step>,
    t1: Seq<Step>,
    before: Engine,
    after: Engine,
    r: Result<(), EngineError>,
    tables: Seq<Seq<Seq<Row>>>,
) -> (next: Seq<Seq<Seq<Row>>>)
    requires
        is_true(files, before, tables),
        cache_is_true(before, tables),
        before.next_sst_id < u64::MAX - 1,
        written_tables_read_back(files, a, z),
        lies_in(a, z, t0, t1),
        flushes(files, t0, t1, before, after, r),
    ensures
        is_true(files, after, next),
        live(contents(next, after.memtable.spec_rows())) == live(contents(tables, before.memtable.spec_rows())),
{
    let ssts = before.current.ssts@;
    if before.memtable.spec_rows().len() == 0 {
        tables
    } else {
        let (mid, m, f) = choose|mid: Engine, m: Seq<Step>, f: Result<(), EngineError>|
            #[trigger] flushes_memtable(files, t0, m, before, mid, f) && mid.wf() && match f {
                Err(e) => r == Err::<(), EngineError>(e) && after == mid && t1 == m,
                Ok(()) => if mid.options.auto_compact_on_flush && mid.current.ssts@.len()
                    > mid.options.compaction_sst_threshold {
                    compacts(files, m, t1, mid, after, r)
                } else {
                    r is Ok && after == mid && t1 == m
                },
            };
        lemma_written_out_spares(files, t0, m, before, mid, f);
        if t1 == m {
            assert(t1.take(m.len() as int) =~= m);
        } else {
            lemma_merge_spares(files, m, t1, mid, after, r);
        }
        lemma_goes_on(m, t1, z);
        lemma_goes_on(a, t0, m);
        a_flush_keeps_the_contents(files, t0, m, before, mid, f, tables);
        if mid.current == before.current && mid.memtable == before.memtable && f is Err {
            lemma_failed_flush(files, t0, m, before, mid, f);
            tables
        } else {
            let more = tables.push(flushed_blocks(before));
            lemma_flush_cache(files, t0, m, before, mid, f, tables);
            lemma_flushed_table(files, a, z, t0, m, before, mid, f);
            let all = mid.current.ssts@;
            assert forall|i: int| 0 <= i < all.len() implies holds_table(files, &*all[i], #[trigger] more[i]) by {
                if i < ssts.len() {
                    assert(all.drop_last()[i] == ssts[i]);
                    assert(holds_table(files, &*ssts[i], tables[i]));
                }
            }
            if f is Ok && mid.options.auto_compact_on_flush && mid.current.ssts@.len()
                > mid.options.compaction_sst_threshold {
                lemma_flushed_id(files, t0, m, before, mid, f);
                lemma_merge_stands(files, a, z, m, t1, mid, after, r, more)
            } else {
                more
            }
        }
    }
}

/// A primary record reads alike in both.
pub open spec fn same_records(a: Map<Seq<u8>, Slot>, b: Map<Seq<u8>, Slot>) -> bool {
    forall|key: Seq<u8>| #[trigger] is_primary(key) ==> value_of(a, key) == value_of(b, key)
}

proof fn lemma_spared_rows(map: Map<Seq<u8>, Slot>, ops: Seq<Row>)
    requires
        spares_records(ops),
    ensures
        same_records(map, put_rows(map, ops)),
    decreases ops.len(),
{
    if ops.len() > 0 {
        let head = ops.drop_last();
        assert forall|i: int| 0 <= i < head.len() implies !is_primary((#[trigger] head[i]).0) by {
            assert(head[i] == ops[i]);
        }
        lemma_spared_rows(map, head);
        assert(!is_primary(ops[ops.len() - 1].0));
        assert forall|key: Seq<u8>| #[trigger] is_primary(key) implies value_of(map, key) == value_of(
            put_rows(map, ops),
            key,
        ) by {
            assert(value_of(map, key) == value_of(put_rows(map, head), key));
        }
    }
}

/// Applying rows that spare the records leaves tables that give the same
/// records, whether or not it succeeds.
proof fn lemma_applied_stands<F: StoreFiles>(
    files: &F,
    a: Seq<Step>,
    z: Seq<Step>,
    t0: Seq<Step>,
    t1: Seq<Step>,
    before: Engine,
    after: Engine,
    ops: Seq<Row>,
    r: Result<(), EngineError>,
    tables: Seq<Seq<Seq<Row>>>,
) -> (next: Seq<Seq<Seq<Row>>>)
    requires
        stands(files, before, tables),
        spares_records(ops),
        written_tables_read_back(files, a, z),
        lies_in(a, z, t0, t1),
        applies_staged(files, t0, t1, before, after, ops, r),
    ensures
        stands(files, after, next),
        same_records(contents(tables, before.memtable.spec_rows()), contents(next, after.memtable.spec_rows())),
{
    if after == before {
        tables
    } else {
        lemma_cache_is_true(files, before, tables);
        every_call_caches_live_tables_alone(files, t0, t1, before, after, Call::Apply { rows: ops }, r);
        let old_map = contents(tables, before.memtable.spec_rows());
        let (m, w) = choose|m: Seq<Step>, w: Result<u64, EngineError>|
            #[trigger] appended_batch(t0, m, before.dir@, ops, w) && writes(
                files,
                m,
                t1,
                before,
                after,
                w,
                put_rows(before.memtable@, ops),
                r,
            );
        let mid = choose|mid: Engine|
            {
                &&& mid == (Engine {
                    memtable: mid.memtable,
                    counters: before.counters.with_log_record(w->Ok_0),
                    ..before
                })
                &&& mid.memtable.wf()
                &&& mid.memtable@ == put_rows(before.memtable@, ops)
                &&& #[trigger] maybe_flushes(files, m, t1, mid, after, r)
            };
        a_write_changes_the_contents(tables, before.memtable, mid.memtable, ops);
        lemma_spared_rows(old_map, ops);
        assert(is_true(files, mid, tables));
        let next = if mid.memtable.spec_rows().len() >= mid.options.memtable_flush_threshold {
            assert(m.take(t0.len() as int) =~= t0);
            lemma_goes_on(a, t0, m);
            lemma_flush_spares(files, m, t1, mid, after, r);
            lemma_flush_stands(files, a, z, m, t1, mid, after, r, tables)
        } else {
            tables
        };
        let new_map = contents(next, after.memtable.spec_rows());
        assert forall|key: Seq<u8>| #[trigger] is_primary(key) implies value_of(old_map, key) == value_of(
            new_map,
            key,
        ) by {
            lemma_live_answers(new_map, put_rows(old_map, ops), key);
        }
        next
    }
}

/// Lookups leave the cache telling the truth, whether or not they succeed.
proof fn lemma_lookups_stay_true<F: StoreFiles>(
    files: &F,
    ssts: Seq<Arc<BlockSstFile>>,
    tables: Seq<Seq<Seq<Row>>>,
    n: int,
    key: Seq<u8>,
    before: BlockCache,
    after: BlockCache,
    r: Result<Option<Value>, EngineError>,
)
    requires
        holds_tables(files, ssts, tables),
        coherent(before@, ssts, tables),
        n <= ssts.len(),
        gets_from(files, ssts, n, key, before, after, r),
    ensures
        coherent(after@, ssts, tables),
    decreases n,
{
    if n > 0 {
        let file = &*ssts[n - 1];
        let (mid, l) = choose|mid: BlockCache, l: Result<(Option<Option<Value>>, u64), EngineError>|
            #[trigger] looks_up(files, &*ssts[n - 1], key, before, mid, l) && match l {
                Err(e) => after == mid,
                Ok((Some(slot), _)) => after == mid,
                Ok((None, _)) => gets_from(files, ssts, n - 1, key, mid, after, r),
            };
        match l {
            Err(e) => {
                let i = choose|i: int|
                    #[trigger] covers(file.block_index@, i, key) && looks_up_in(files, file, key, i, before, mid, l);
                assert(mid@ == before@);
            },
            Ok((hit, blocks_read)) => {
                lemma_look_up(files, ssts, tables, n - 1, key, before, mid, hit, blocks_read);
                if hit is None {
                    lemma_lookups_stay_true(files, ssts, tables, n - 1, key, mid, after, r);
                }
            },
        }
    }
}

proof fn lemma_looked_up_stands<F: StoreFiles>(
    files: &F,
    before: Engine,
    after: Engine,
    key: Seq<u8>,
    g: Result<Option<Value>, EngineError>,
    tables: Seq<Seq<Seq<Row>>>,
)
    requires
        stands(files, before, tables),
        after.wf(),
        gets(files, before, after, key, g),
    ensures
        stands(files, after, tables),
{
    a_lookup_caches_live_tables_alone(files, before, after, key, g);
    if !before.memtable@.contains_key(key) {
        let ssts = before.current.ssts@;
        lemma_lookups_stay_true(
            files,
            ssts,
            tables,
            ssts.len() as int,
            key,
            before.block_cache,
            after.block_cache,
            g,
        );
    }
}

proof fn lemma_act_goes_on<F: StoreFiles>(files: &F, t0: Seq<Step>, t1: Seq<Step>, before: Engine, after: Engine)
    requires
        acts_sparing(files, t0, t1, before, after),
    ensures
        goes_on(t0, t1),
{
    if t1 == t0 {
        assert(t1.take(t0.len() as int) =~= t0);
    } else {
        let (ops, r) = choose|ops: Seq<Row>, r: Result<(), EngineError>|
            spares_records(ops) && #[trigger] applies_staged(files, t0, t1, before, after, ops, r);
        lemma_applied_spares(files, t0, t1, before, after, ops, r);
    }
}

proof fn lemma_run_stands<F: StoreFiles>(
    files: &F,
    a: Seq<Step>,
    z: Seq<Step>,
    t0: Seq<Step>,
    t1: Seq<Step>,
    before: Engine,
    after: Engine,
    n: nat,
    tables: Seq<Seq<Seq<Row>>>,
) -> (next: Seq<Seq<Seq<Row>>>)
    requires
        stands(files, before, tables),
        written_tables_read_back(files, a, z),
        goes_on(a, t0),
        goes_on(t1, z),
        runs_sparing(files, t0, t1, before, after, n),
    ensures
        goes_on(t0, t1),
        stands(files, after, next),
        same_records(contents(tables, before.memtable.spec_rows()), contents(next, after.memtable.spec_rows())),
    decreases n,
{
    if n == 0 {
        assert(t1.take(t0.len() as int) =~= t0);
        tables
    } else {
        let (mid, m) = choose|mid: Engine, m: Seq<Step>|
            runs_sparing(files, t0, m, before, mid, (n - 1) as nat)
                && #[trigger] acts_sparing(files, m, t1, mid, after);
        lemma_act_goes_on(files, m, t1, mid, after);
        lemma_goes_on(m, t1, z);
        let more = lemma_run_stands(files, a, z, t0, m, before, mid, (n - 1) as nat, tables);
        lemma_goes_on(t0, m, t1);
        lemma_goes_on(a, t0, m);
        let next = if exists|ops: Seq<Row>, r: Result<(), EngineError>|
            spares_records(ops) && #[trigger] applies_staged(files, m, t1, mid, after, ops, r) {
            let (ops, r) = choose|ops: Seq<Row>, r: Result<(), EngineError>|
                spares_records(ops) && #[trigger] applies_staged(files, m, t1, mid, after, ops, r);
            lemma_applied_stands(files, a, z, m, t1, mid, after, ops, r, more)
        } else {
            let (key, g) = choose|key: Seq<u8>, g: Result<Option<Value>, EngineError>| #[trigger]
                gets(files, mid, after, key, g);
            lemma_looked_up_stands(files, mid, after, key, g, more);
            more
        };
        let first = contents(tables, before.memtable.spec_rows());
        let second = contents(more, mid.memtable.spec_rows());
        let third = contents(next, after.memtable.spec_rows());
        assert forall|key: Seq<u8>| #[trigger] is_primary(key) implies value_of(first, key) == value_of(third, key) by {
            assert(value_of(first, key) == value_of(second, key));
            assert(value_of(second, key) == value_of(third, key));
        }
        next
    }
}

/// A rebuild never modifies a primary record, whether or not it succeeds: every
/// lookup of a memory, an entity or an edge gives what it gave before, where
/// what the builder stages and what lies under the full-text prefix are none,
/// and the tables that the rebuild wrote read as they were written.
pub proof fn a_rebuild_keeps_every_primary_record<F: StoreFiles, B: IndexBuilder>(
    files: &F,
    t0: Seq<Step>,
    t1: Seq<Step>,
    builder: &B,
    prefix: Seq<u8>,
    before: Engine,
    after: Engine,
    r: Result<RebuildReport, EngineError>,
    tables: Seq<Seq<Seq<Row>>>,
) -> (next: Seq<Seq<Seq<Row>>>)
    requires
        stands(files, before, tables),
        stages_no_records(builder),
        forall|key: Seq<u8>| #[trigger] has_prefix(key, prefix) ==> !is_primary(key),
        written_tables_read_back(files, t0, t1),
        rebuilds(files, t0, t1, builder, prefix, before, after, r),
    ensures
        stands(files, after, next),
        same_records(contents(tables, before.memtable.spec_rows()), contents(next, after.memtable.spec_rows())),
        forall|key: Seq<u8>, earlier: Engine, w: Option<Value>, later: Engine, v: Option<Value>|
            is_primary(key) && #[trigger] gets(files, before, earlier, key, Ok(w)) && #[trigger] gets(
                files,
                after,
                later,
                key,
                Ok(v),
            ) ==> slot_view(v) == slot_view(w),
{
    lemma_rebuild_runs_sparing(files, t0, t1, builder, prefix, before, after, r);
    let n = choose|n: nat| #[trigger] runs_sparing(files, t0, t1, before, after, n);
    assert(t0.take(t0.len() as int) =~= t0);
    assert(t1.take(t1.len() as int) =~= t1);
    let next = lemma_run_stands(files, t0, t1, t0, t1, before, after, n, tables);
    assert forall|key: Seq<u8>, earlier: Engine, w: Option<Value>, later: Engine, v: Option<Value>|
        is_primary(key) && #[trigger] gets(files, before, earlier, key, Ok(w)) && #[trigger] gets(
            files,
            after,
            later,
            key,
            Ok(v),
        ) implies slot_view(v) == slot_view(w) by {
        get_answers_from_the_store(files, before, earlier, tables, key, w);
        get_answers_from_the_store(files, after, later, next, key, v);
    }
    next
}

} // verus!
