//! What a crash in the middle of a call leaves.
//!
//! A crash cuts the steps of a call short. Whatever their number then, what
//! the log and the manifest hold serves what the store served before the call,
//! or what it serves after it.
use super::compact::{
    builds, commits, compacts, edits, flushes, flushes_memtable, is_next_version, publishes, publishes_flush,
    retirements, stages, CompactionJob,
};
use super::durable::{
    durable, lemma_one_step, lemma_retirements, lemma_written_out_is_durable, log_after, manifest_after, Origin,
};
use super::laws::{contents, holds_table, holds_tables, table_layers};
use super::read_back::{
    cache_is_true, described, flush_reads_back, flushed_blocks, holds_in_place, lemma_compaction, lemma_failed_flush,
    lemma_flush_cache, lemma_flushed_id, write_reads_back,
};
use super::write::{applies, maybe_flushes, writes};
use super::write_laws::{
    a_compaction_keeps_every_live_entry, a_flush_keeps_the_contents, a_write_changes_the_contents, describes_table,
    lemma_layers_push, lemma_put_twice,
};
use super::{Engine, StoreFiles};
use crate::error::EngineError;
use crate::store::layers::layered;
use crate::store::rows;
use crate::store::rows::{live, put_rows, rows_map, Row, Slot};
use crate::store::sst_block::write::{writes_new, WrittenSst};
use crate::store::sst_block::{joined, sst_name, BlockSstFile};
use crate::store::trace::{appended_batch, goes_on, lemma_cut_early, lemma_cut_one, reset, wrote_file, Step};
use crate::store::version::{first_missing, ids_ascend, ids_of, Version, VersionEdit};
use std::sync::Arc;
use vstd::prelude::*;

verus! {

/// What is on disk of `dir` after the steps `t` serves `want`: the manifest
/// lists `ssts`, whose blocks are `tables`, and the log lies over them.
pub open spec fn serves(
    origin: Origin,
    t: Seq<Step>,
    dir: Seq<char>,
    ssts: Seq<Arc<BlockSstFile>>,
    tables: Seq<Seq<Seq<Row>>>,
    want: Map<Seq<u8>, Seq<u8>>,
) -> bool {
    &&& ids_ascend(ssts)
    &&& ids_of(ssts) == manifest_after(origin.ids, t, origin.from, dir)
    &&& described(ssts, tables)
    &&& live(contents(tables, log_after(origin.log, t, origin.from, dir))) == want
}

/// Logs that say the same lie alike over tables.
pub proof fn lemma_same_log(tables: Seq<Seq<Seq<Row>>>, a: Seq<Row>, b: Seq<Row>)
    requires
        rows_map(a) == rows_map(b),
    ensures
        contents(tables, a) == contents(tables, b),
{
    let below = layered(table_layers(tables, tables.len() as int));
    rows::lemma_put_rows_overlay(below, a);
    rows::lemma_put_rows_overlay(below, b);
}

/// What is on disk of an engine serves what the engine serves.
proof fn lemma_serves(origin: Origin, t: Seq<Step>, engine: Engine, tables: Seq<Seq<Seq<Row>>>)
    requires
        engine.wf(),
        ids_ascend(engine.current.ssts@),
        durable(engine, origin, t),
        described(engine.current.ssts@, tables),
    ensures
        serves(
            origin,
            t,
            engine.dir@,
            engine.current.ssts@,
            tables,
            live(contents(tables, engine.memtable.spec_rows())),
        ),
{
    engine.memtable.iteration_is_sorted();
    lemma_same_log(
        tables,
        log_after(origin.log, t, origin.from, engine.dir@),
        engine.memtable.spec_rows(),
    );
}

/// A prefix of giving tables up touches neither the log nor the manifest.
proof fn lemma_cut_retirements(
    origin: Origin,
    t: Seq<Step>,
    ssts: Seq<Arc<BlockSstFile>>,
    deleted: Seq<u64>,
    dir: Seq<char>,
    n: int,
)
    requires
        0 <= origin.from <= t.len(),
        t.len() <= n <= t.len() + retirements(ssts, deleted).len(),
    ensures
        log_after(origin.log, (t + retirements(ssts, deleted)).take(n), origin.from, dir) == log_after(
            origin.log,
            t,
            origin.from,
            dir,
        ),
        manifest_after(origin.ids, (t + retirements(ssts, deleted)).take(n), origin.from, dir) == manifest_after(
            origin.ids,
            t,
            origin.from,
            dir,
        ),
    decreases ssts.len(),
{
    let all = retirements(ssts, deleted);
    if n == t.len() + all.len() {
        lemma_retirements(origin, t, ssts, deleted, dir);
        assert((t + all).take(n) =~= t + all);
    } else {
        let rest = retirements(ssts.drop_last(), deleted);
        lemma_cut_retirements(origin, t, ssts.drop_last(), deleted, dir, n);
        assert((t + all).take(n) =~= (t + rest).take(n));
    }
}

/// An edit that is cut short leaves the log, and the manifest as it was or as
/// it becomes.
proof fn lemma_cut_edit(
    origin: Origin,
    t0: Seq<Step>,
    t1: Seq<Step>,
    before: Engine,
    after: Engine,
    edit: VersionEdit,
    r: Result<(), EngineError>,
    n: int,
)
    requires
        durable(before, origin, t0),
        edits(t0, t1, before, after, edit, r),
        t0.len() <= n <= t1.len(),
    ensures
        goes_on(t0, t1),
        log_after(origin.log, t1.take(n), origin.from, before.dir@) == log_after(
            origin.log,
            t0,
            origin.from,
            before.dir@,
        ),
        ({
            let ids = manifest_after(origin.ids, t1.take(n), origin.from, before.dir@);
            ids == ids_of(before.current.ssts@) || ids == ids_of(after.current.ssts@)
        }),
{
    if exists|i: int| first_missing(ids_of(before.current.ssts@), edit.deleted@, i) {
        assert(t1.take(n) =~= t0);
    } else {
        let gone = retirements(before.current.ssts@, edit.deleted@);
        let (next, m, p) = choose|next: Version, m: Seq<Step>, p: Result<(), EngineError>|
            {
                &&& is_next_version(*before.current, edit, next)
                &&& #[trigger] publishes(t0, m, before.dir@, next, p)
                &&& match p {
                    Err(e) => after == before && t1 == m,
                    Ok(()) => *after.current == next && t1 == m + gone,
                }
            };
        let step = Step::PublishManifest {
            dir: before.dir@,
            generation: next.manifest_generation,
            live: ids_of(next.ssts@),
            r: p,
        };
        lemma_one_step(origin, t0, step, before.dir@);
        if n <= m.len() {
            lemma_cut_one(t0, step, n);
            assert(t1.take(n) =~= m.take(n));
        } else {
            lemma_cut_retirements(origin, m, before.current.ssts@, edit.deleted@, before.dir@, n);
        }
        assert(t1.take(t0.len() as int) =~= t0);
    }
}

/// An edit takes no step back.
proof fn lemma_grows(
    t0: Seq<Step>,
    t1: Seq<Step>,
    before: Engine,
    after: Engine,
    edit: VersionEdit,
    r: Result<(), EngineError>,
)
    requires
        edits(t0, t1, before, after, edit, r),
    ensures
        t0.len() <= t1.len(),
{
    if !(exists|i: int| first_missing(ids_of(before.current.ssts@), edit.deleted@, i)) {
        let (next, m, p) = choose|next: Version, m: Seq<Step>, p: Result<(), EngineError>|
            #[trigger] publishes(t0, m, before.dir@, next, p) && (t1 == m || t1 == m + retirements(
                before.current.ssts@,
                edit.deleted@,
            ));
    }
}

/// A table that is written and not listed changes nothing.
proof fn lemma_cut_stage<F: StoreFiles>(
    files: &F,
    origin: Origin,
    t0: Seq<Step>,
    t1: Seq<Step>,
    engine: Engine,
    dir: Seq<char>,
    id: u64,
    run: Seq<Row>,
    block_size: u32,
    r: Result<BlockSstFile, EngineError>,
    n: int,
)
    requires
        durable(engine, origin, t0),
        stages(files, t0, t1, dir, id, run, block_size, r),
        t0.len() <= n <= t1.len(),
    ensures
        goes_on(t0, t1),
        log_after(origin.log, t1.take(n), origin.from, engine.dir@) == log_after(
            origin.log,
            t0,
            origin.from,
            engine.dir@,
        ),
        durable(engine, origin, t1.take(n)),
{
    let w = choose|w: Result<WrittenSst, EngineError>|
        #[trigger] writes_new(files, dir, id, run, block_size, w) && match w {
            Err(e) => t1 == t0,
            Ok(w) => exists|t: Result<(), EngineError>| #[trigger] wrote_file(t0, t1, w.file.path@, w.bytes@, t),
        };
    if let Ok(w) = w {
        let t = choose|t: Result<(), EngineError>| #[trigger] wrote_file(t0, t1, w.file.path@, w.bytes@, t);
        let step = Step::WriteFile { path: w.file.path@, bytes: w.bytes@, r: t };
        lemma_cut_one(t0, step, n);
        lemma_one_step(origin, t0, step, engine.dir@);
    } else {
        assert(t1.take(n) =~= t0);
    }
}

/// A merge that is cut short leaves the log, and the manifest as it was or as
/// it becomes.
proof fn lemma_cut_merge<F: StoreFiles>(
    files: &F,
    origin: Origin,
    t0: Seq<Step>,
    t1: Seq<Step>,
    before: Engine,
    after: Engine,
    r: Result<(), EngineError>,
    n: int,
)
    requires
        durable(before, origin, t0),
        compacts(files, t0, t1, before, after, r),
        t0.len() <= n <= t1.len(),
    ensures
        goes_on(t0, t1),
        after.memtable == before.memtable,
        log_after(origin.log, t1.take(n), origin.from, before.dir@) == log_after(
            origin.log,
            t0,
            origin.from,
            before.dir@,
        ),
        ({
            let ids = manifest_after(origin.ids, t1.take(n), origin.from, before.dir@);
            ids == ids_of(before.current.ssts@) || ids == ids_of(after.current.ssts@)
        }),
{
    let id = before.next_sst_id;
    let size = before.options.block_size;
    let reserved = Engine { next_sst_id: (id + 1) as u64, ..before };
    let (j, m) = choose|j: Result<CompactionJob, EngineError>, m: Seq<Step>|
        {
            &&& #[trigger] builds(files, t0, m, *before.current, id, before.dir@, size, j)
            &&& match j {
                Err(e) => after == reserved && t1 == m,
                Ok(job) => commits(m, t1, reserved, after, job, r),
            }
        };
    let early = if n <= m.len() { n } else { m.len() as int };
    if m == t0 {
        assert(m.take(early) =~= t0);
    } else {
        let (run, s) = choose|run: Seq<Row>, s: Result<BlockSstFile, EngineError>|
            #[trigger] stages(files, t0, m, before.dir@, id, run, size, s);
        lemma_cut_stage(files, origin, t0, m, before, before.dir@, id, run, size, s, early);
        lemma_cut_stage(files, origin, t0, m, before, before.dir@, id, run, size, s, m.len() as int);
    }
    assert(m.take(m.len() as int) =~= m);
    assert(durable(before, origin, m));
    if let Ok(job) = j {
        let (edit, mid, d) = choose|edit: VersionEdit, mid: Engine, d: Result<(), EngineError>|
            #[trigger] edits(m, t1, reserved, mid, edit, d) && after.current == mid.current && after.memtable
                == mid.memtable;
        assert(durable(reserved, origin, m));
        lemma_grows(m, t1, reserved, mid, edit, d);
        let late = if n < m.len() { m.len() as int } else { n };
        lemma_cut_edit(origin, m, t1, reserved, mid, edit, d, late);
        if n < m.len() {
            lemma_cut_early(t0, m, t1, n);
        } else {
            lemma_cut_early(t0, m, t1, m.len() as int);
        }
    }
}

/// A flush that is cut short leaves the log, and the manifest as it was or as
/// it becomes.
proof fn lemma_cut_flush<F: StoreFiles>(
    files: &F,
    origin: Origin,
    t0: Seq<Step>,
    t1: Seq<Step>,
    before: Engine,
    after: Engine,
    r: Result<(), EngineError>,
    n: int,
)
    requires
        durable(before, origin, t0),
        flushes_memtable(files, t0, t1, before, after, r),
        t0.len() <= n,
    ensures
        goes_on(t0, t1),
        n < t1.len() ==> log_after(origin.log, t1.take(n), origin.from, before.dir@) == log_after(
            origin.log,
            t0,
            origin.from,
            before.dir@,
        ),
        n < t1.len() ==> ({
            let ids = manifest_after(origin.ids, t1.take(n), origin.from, before.dir@);
            ids == ids_of(before.current.ssts@) || ids == ids_of(after.current.ssts@)
        }),
{
    let run = before.memtable.spec_rows();
    let size = before.options.block_size;
    let id = before.next_sst_id;
    let dir = before.dir@;
    let reserved = Engine { next_sst_id: (id + 1) as u64, ..before };
    let (s, m) = choose|s: Result<BlockSstFile, EngineError>, m: Seq<Step>|
        {
            &&& #[trigger] stages(files, t0, m, dir, id, run, size, s)
            &&& match s {
                Err(e) => after == reserved && t1 == m,
                Ok(file) => publishes_flush(
                    m,
                    t1,
                    Engine { counters: reserved.counters.with_flush(file.file_bytes), ..reserved },
                    after,
                    file,
                    r,
                ),
            }
        };
    lemma_stage_grows(files, t0, m, dir, id, run, size, s);
    let early = if n <= m.len() { n } else { m.len() as int };
    lemma_cut_stage(files, origin, t0, m, before, dir, id, run, size, s, early);
    lemma_cut_stage(files, origin, t0, m, before, dir, id, run, size, s, m.len() as int);
    assert(m.take(m.len() as int) =~= m);
    if let Ok(file) = s {
        let counted = Engine { counters: reserved.counters.with_flush(file.file_bytes), ..reserved };
        let (edit, mid, k, d) = choose|edit: VersionEdit, mid: Engine, k: Seq<Step>, d: Result<(), EngineError>|
            {
                &&& #[trigger] edits(m, k, counted, mid, edit, d)
                &&& after.current == mid.current
                &&& match d {
                    Err(e) => t1 == k,
                    Ok(()) => exists|t: Result<(), EngineError>| #[trigger] reset(k, t1, dir, t),
                }
            };
        assert(durable(counted, origin, m));
        lemma_grows(m, k, counted, mid, edit, d);
        let late = if n < m.len() {
            m.len() as int
        } else if n <= k.len() {
            n
        } else {
            k.len() as int
        };
        lemma_cut_edit(origin, m, k, counted, mid, edit, d, late);
        if d is Ok {
            let t = choose|t: Result<(), EngineError>| #[trigger] reset(k, t1, dir, t);
            lemma_cut_one(k, Step::ResetLog { dir, r: t }, k.len() as int);
        } else {
            assert(t1.take(k.len() as int) =~= k);
        }
        assert(goes_on(k, t1));
        lemma_cut_early(m, k, t1, late);
        lemma_cut_early(t0, m, t1, early);
    }
}

/// Writing a table takes no step back.
pub proof fn lemma_stage_grows<F: StoreFiles>(
    files: &F,
    t0: Seq<Step>,
    t1: Seq<Step>,
    dir: Seq<char>,
    id: u64,
    run: Seq<Row>,
    block_size: u32,
    r: Result<BlockSstFile, EngineError>,
)
    requires
        stages(files, t0, t1, dir, id, run, block_size, r),
    ensures
        t0.len() <= t1.len(),
{
    let w = choose|w: Result<WrittenSst, EngineError>|
        #[trigger] writes_new(files, dir, id, run, block_size, w) && match w {
            Err(e) => t1 == t0,
            Ok(w) => exists|t: Result<(), EngineError>| #[trigger] wrote_file(t0, t1, w.file.path@, w.bytes@, t),
        };
}

/// What holds a table describes it.
proof fn lemma_described<F: StoreFiles>(files: &F, ssts: Seq<Arc<BlockSstFile>>, tables: Seq<Seq<Seq<Row>>>)
    requires
        holds_tables(files, ssts, tables),
    ensures
        described(ssts, tables),
{
    assert forall|i: int| 0 <= i < ssts.len() implies describes_table(&*ssts[i], #[trigger] tables[i]) by {
        assert(holds_table(files, &*ssts[i], tables[i]));
    }
}

/// A crash in a merge of all tables loses nothing: after any of its steps the
/// disk serves what it served before, from the old tables or from the merged
/// one.
pub proof fn a_crash_in_a_merge_loses_nothing<F: StoreFiles>(
    files: &F,
    origin: Origin,
    t0: Seq<Step>,
    t1: Seq<Step>,
    before: Engine,
    after: Engine,
    r: Result<(), EngineError>,
    tables: Seq<Seq<Seq<Row>>>,
    n: int,
) -> (at: (Seq<Arc<BlockSstFile>>, Seq<Seq<Seq<Row>>>))
    requires
        before.wf(),
        before.next_sst_id < u64::MAX,
        holds_tables(files, before.current.ssts@, tables),
        cache_is_true(before, tables),
        durable(before, origin, t0),
        compacts(files, t0, t1, before, after, r),
        t0.len() <= n <= t1.len(),
    ensures
        goes_on(t0, t1),
        serves(
            origin,
            t1.take(n),
            before.dir@,
            at.0,
            at.1,
            live(contents(tables, before.memtable.spec_rows())),
        ),
{
    lemma_cut_merge(files, origin, t0, t1, before, after, r, n);
    let t = t1.take(n);
    let log = log_after(origin.log, t, origin.from, before.dir@);
    before.memtable.iteration_is_sorted();
    let rows = before.memtable.spec_rows();
    if manifest_after(origin.ids, t, origin.from, before.dir@) == ids_of(before.current.ssts@) {
        lemma_same_log(tables, log, rows);
        lemma_described(files, before.current.ssts@, tables);
        (before.current.ssts@, tables)
    } else {
        let next = lemma_compaction(files, t0, t1, before, after, r, tables);
        lemma_same_log(next, log, rows);
        (after.current.ssts@, next)
    }
}

/// A crash in the commit of a merge that was prepared earlier loses nothing:
/// after any of its steps the disk serves what it served before, from the old
/// tables, or from the merged one and those flushed since.
pub proof fn a_crash_in_a_commit_loses_nothing<F: StoreFiles>(
    files: &F,
    origin: Origin,
    built: (Seq<Step>, Seq<Step>),
    t0: Seq<Step>,
    t1: Seq<Step>,
    input: Version,
    id: u64,
    dir: Seq<char>,
    block_size: u32,
    job: CompactionJob,
    before: Engine,
    after: Engine,
    r: Result<(), EngineError>,
    tables: Seq<Seq<Seq<Row>>>,
    n: int,
) -> (at: (Seq<Arc<BlockSstFile>>, Seq<Seq<Seq<Row>>>))
    requires
        before.wf(),
        holds_tables(files, before.current.ssts@, tables),
        durable(before, origin, t0),
        builds(files, built.0, built.1, input, id, dir, block_size, Ok(job)),
        commits(t0, t1, before, after, job, r),
        input.ssts@.len() <= before.current.ssts@.len(),
        before.current.ssts@.subrange(0, input.ssts@.len() as int) == input.ssts@,
        forall|i: int| 0 <= i < input.ssts@.len() ==> (#[trigger] before.current.ssts@[i]).id < id,
        forall|i: int|
            input.ssts@.len() <= i < before.current.ssts@.len() ==> id < (#[trigger] before.current.ssts@[i]).id,
        t0.len() <= n <= t1.len(),
    ensures
        goes_on(t0, t1),
        serves(
            origin,
            t1.take(n),
            before.dir@,
            at.0,
            at.1,
            live(contents(tables, before.memtable.spec_rows())),
        ),
{
    let ssts = before.current.ssts@;
    let (edit, mid, d) = choose|edit: VersionEdit, mid: Engine, d: Result<(), EngineError>|
        #[trigger] edits(t0, t1, before, mid, edit, d) && after.current == mid.current && (d is Ok <==> r is Ok) && (
        d is Err ==> after == before);
    lemma_cut_edit(origin, t0, t1, before, mid, edit, d, n);
    lemma_described(files, ssts, tables);
    let t = t1.take(n);
    let log = log_after(origin.log, t, origin.from, before.dir@);
    let rows = before.memtable.spec_rows();
    before.memtable.iteration_is_sorted();
    if manifest_after(origin.ids, t, origin.from, before.dir@) == ids_of(ssts) {
        lemma_same_log(tables, log, rows);
        (ssts, tables)
    } else {
        assert(commits(t0, t1, before, after, job, Ok(())));
        let k = input.ssts@.len() as int;
        let blocks = a_compaction_keeps_every_live_entry(
            files,
            built,
            (t0, t1),
            input,
            id,
            dir,
            block_size,
            job,
            before,
            after,
            tables,
        );
        let next = seq![blocks] + tables.subrange(k, tables.len() as int);
        let kept = after.current.ssts@;
        lemma_same_log(next, log, rows);
        assert forall|i: int| 0 <= i < kept.len() implies describes_table(&*kept[i], #[trigger] next[i]) by {
            if i > 0 {
                assert(kept[i] == ssts[k + i - 1]);
                assert(next[i] == tables[k + i - 1]);
                assert(describes_table(&*ssts[k + i - 1], tables[k + i - 1]));
            }
        }
        (kept, next)
    }
}

/// A crash in a flush loses nothing: after any of its steps, and any of those
/// of the merge that may follow, the disk serves what it served before.
pub proof fn a_crash_in_a_flush_loses_nothing<F: StoreFiles>(
    files: &F,
    origin: Origin,
    t0: Seq<Step>,
    t1: Seq<Step>,
    before: Engine,
    after: Engine,
    r: Result<(), EngineError>,
    tables: Seq<Seq<Seq<Row>>>,
    n: int,
) -> (at: (Seq<Arc<BlockSstFile>>, Seq<Seq<Seq<Row>>>))
    requires
        before.wf(),
        before.next_sst_id < u64::MAX - 1,
        holds_tables(files, before.current.ssts@, tables),
        cache_is_true(before, tables),
        flush_reads_back(files, before),
        durable(before, origin, t0),
        flushes(files, t0, t1, before, after, r),
        t0.len() <= n <= t1.len(),
    ensures
        goes_on(t0, t1),
        serves(
            origin,
            t1.take(n),
            before.dir@,
            at.0,
            at.1,
            live(contents(tables, before.memtable.spec_rows())),
        ),
{
    let ssts = before.current.ssts@;
    let rows = before.memtable.spec_rows();
    let dir = before.dir@;
    lemma_described(files, ssts, tables);
    if rows.len() == 0 {
        assert(t1.take(n) =~= t0);
        assert(t1.take(t0.len() as int) =~= t0);
        lemma_serves(origin, t0, before, tables);
        (ssts, tables)
    } else {
        let (mid, m, f) = choose|mid: Engine, m: Seq<Step>, f: Result<(), EngineError>|
            #[trigger] flushes_memtable(files, t0, m, before, mid, f) && mid.wf() && match f {
                Err(e) => after == mid && t1 == m,
                Ok(()) => if mid.options.auto_compact_on_flush && mid.current.ssts@.len()
                    > mid.options.compaction_sst_threshold {
                    compacts(files, m, t1, mid, after, r)
                } else {
                    after == mid && t1 == m
                },
            };
        let merges = f is Ok && mid.options.auto_compact_on_flush && mid.current.ssts@.len()
            > mid.options.compaction_sst_threshold;
        a_flush_keeps_the_contents(files, t0, m, before, mid, f, tables);
        lemma_written_out_is_durable(files, origin, t0, m, before, mid, f);
        lemma_cut_flush(files, origin, t0, m, before, mid, f, n);
        lemma_flushed_id(files, t0, m, before, mid, f);
        let stayed = mid.current == before.current && mid.memtable == before.memtable && f is Err;
        let more = if stayed { tables } else { tables.push(flushed_blocks(before)) };
        if stayed {
            lemma_failed_flush(files, t0, m, before, mid, f);
        } else {
            lemma_flush_cache(files, t0, m, before, mid, f, tables);
            assert(holds_tables(files, mid.current.ssts@, more)) by {
                let all = mid.current.ssts@;
                assert forall|i: int| 0 <= i < all.len() implies holds_table(files, &*all[i], #[trigger] more[i]) by {
                    if i < ssts.len() {
                        assert(all.drop_last()[i] == ssts[i]);
                        assert(holds_table(files, &*ssts[i], tables[i]));
                    }
                }
            }
        }
        lemma_described(files, mid.current.ssts@, more);
        if merges {
            lemma_cut_merge(files, origin, m, t1, mid, after, r, m.len() as int);
        } else {
            assert(t1.take(m.len() as int) =~= m);
        }
        assert(goes_on(m, t1));
        if n < m.len() {
            lemma_cut_early(t0, m, t1, n);
            before.memtable.iteration_is_sorted();
            let log = log_after(origin.log, t1.take(n), origin.from, dir);
            if manifest_after(origin.ids, t1.take(n), origin.from, dir) == ids_of(ssts) {
                lemma_same_log(tables, log, rows);
                (ssts, tables)
            } else {
                assert(!stayed);
                lemma_same_log(more, log, rows);
                crate::store::sst_block::write::splitting_keeps_every_row(rows, before.options.block_size as nat);
                lemma_layers_push(tables, flushed_blocks(before));
                lemma_put_twice(layered(table_layers(tables, tables.len() as int)), rows);
                (mid.current.ssts@, more)
            }
        } else {
            lemma_cut_early(t0, m, t1, m.len() as int);
            if merges {
                a_crash_in_a_merge_loses_nothing(files, origin, m, t1, mid, after, r, more, n)
            } else {
                assert(t1.take(n) =~= m);
                lemma_serves(origin, m, mid, more);
                (mid.current.ssts@, more)
            }
        }
    }
}

/// The steps after the log record of a write, cut short.
proof fn lemma_cut_write<F: StoreFiles>(
    files: &F,
    origin: Origin,
    t0: Seq<Step>,
    t1: Seq<Step>,
    before: Engine,
    after: Engine,
    ops: Seq<Row>,
    count: u64,
    r: Result<(), EngineError>,
    tables: Seq<Seq<Seq<Row>>>,
    n: int,
) -> (at: (Seq<Arc<BlockSstFile>>, Seq<Seq<Seq<Row>>>))
    requires
        before.wf(),
        before.next_sst_id < u64::MAX - 1,
        holds_tables(files, before.current.ssts@, tables),
        cache_is_true(before, tables),
        write_reads_back(files, before, put_rows(before.memtable@, ops)),
        0 <= origin.from <= t0.len(),
        rows_map(log_after(origin.log, t0, origin.from, before.dir@)) == put_rows(before.memtable@, ops),
        manifest_after(origin.ids, t0, origin.from, before.dir@) == ids_of(before.current.ssts@),
        writes(files, t0, t1, before, after, Ok(count), put_rows(before.memtable@, ops), r),
        t0.len() <= n <= t1.len(),
    ensures
        goes_on(t0, t1),
        serves(
            origin,
            t1.take(n),
            before.dir@,
            at.0,
            at.1,
            live(put_rows(contents(tables, before.memtable.spec_rows()), ops)),
        ),
{
    let map = put_rows(before.memtable@, ops);
    let mid = choose|mid: Engine|
        {
            &&& mid == (Engine { memtable: mid.memtable, counters: before.counters.with_log_record(count), ..before })
            &&& mid.memtable.wf()
            &&& mid.memtable@ == map
            &&& #[trigger] maybe_flushes(files, t0, t1, mid, after, r)
        };
    a_write_changes_the_contents(tables, before.memtable, mid.memtable, ops);
    assert(holds_in_place(before, mid, map));
    assert(durable(mid, origin, t0));
    if mid.memtable.spec_rows().len() >= mid.options.memtable_flush_threshold {
        a_crash_in_a_flush_loses_nothing(files, origin, t0, t1, mid, after, r, tables, n)
    } else {
        assert(t1.take(n) =~= t0);
        assert(t1.take(t0.len() as int) =~= t0);
        lemma_described(files, before.current.ssts@, tables);
        lemma_serves(origin, t0, mid, tables);
        (before.current.ssts@, tables)
    }
}

/// A batch is seen whole or not at all. After any of its steps, those of the
/// flush and the merge that may follow among them, the disk serves what the
/// store served before, or that with every operation of the batch put over it;
/// before the first step it is the former, and once the batch was accepted it
/// is the latter.
pub proof fn a_batch_is_seen_whole_or_not_at_all<F: StoreFiles>(
    files: &F,
    origin: Origin,
    t0: Seq<Step>,
    t1: Seq<Step>,
    before: Engine,
    after: Engine,
    ops: Seq<Row>,
    r: Result<(), EngineError>,
    tables: Seq<Seq<Seq<Row>>>,
    n: int,
) -> (at: (bool, Seq<Arc<BlockSstFile>>, Seq<Seq<Seq<Row>>>))
    requires
        before.wf(),
        before.next_sst_id < u64::MAX - 1,
        holds_tables(files, before.current.ssts@, tables),
        cache_is_true(before, tables),
        write_reads_back(files, before, put_rows(before.memtable@, ops)),
        durable(before, origin, t0),
        applies(files, t0, t1, before, after, ops, r),
        t0.len() <= n <= t1.len(),
    ensures
        goes_on(t0, t1),
        serves(
            origin,
            t1.take(n),
            before.dir@,
            at.1,
            at.2,
            if at.0 {
                live(put_rows(contents(tables, before.memtable.spec_rows()), ops))
            } else {
                live(contents(tables, before.memtable.spec_rows()))
            },
        ),
        n == t0.len() && t1.len() > t0.len() ==> !at.0,
        n == t1.len() && r is Ok ==> at.0,
{
    let ssts = before.current.ssts@;
    lemma_described(files, ssts, tables);
    lemma_serves(origin, t0, before, tables);
    assert(t0.take(t0.len() as int) =~= t0);
    if ops.len() == 0 {
        (true, ssts, tables)
    } else {
        let dir = before.dir@;
        let (m, w) = choose|m: Seq<Step>, w: Result<u64, EngineError>|
            #[trigger] appended_batch(t0, m, dir, ops, w) && writes(
                files,
                m,
                t1,
                before,
                after,
                w,
                put_rows(before.memtable@, ops),
                r,
            );
        let step = Step::AppendBatch { dir, ops, r: w };
        let log = log_after(origin.log, t0, origin.from, dir);
        lemma_one_step(origin, t0, step, dir);
        lemma_cut_one(t0, step, t0.len() as int);
        match w {
            Err(e) => {
                lemma_cut_one(t0, step, n);
                assert(durable(before, origin, m));
                lemma_serves(origin, m, before, tables);
                (false, ssts, tables)
            },
            Ok(count) => {
                rows::lemma_put_rows_concat(Map::empty(), log, ops);
                lemma_write_grows(files, m, t1, before, after, count, put_rows(before.memtable@, ops), r);
                let late = if n < m.len() { m.len() as int } else { n };
                let at = lemma_cut_write(files, origin, m, t1, before, after, ops, count, r, tables, late);
                lemma_cut_early(t0, m, t1, t0.len() as int);
                if n == t0.len() {
                    (false, ssts, tables)
                } else {
                    (true, at.0, at.1)
                }
            },
        }
    }
}

proof fn lemma_write_grows<F: StoreFiles>(
    files: &F,
    t0: Seq<Step>,
    t1: Seq<Step>,
    before: Engine,
    after: Engine,
    count: u64,
    map: Map<Seq<u8>, Slot>,
    r: Result<(), EngineError>,
)
    requires
        writes(files, t0, t1, before, after, Ok(count), map, r),
    ensures
        t0.len() <= t1.len(),
{
    let mid = choose|mid: Engine| #[trigger] maybe_flushes(files, t0, t1, mid, after, r);
    if mid.memtable.spec_rows().len() >= mid.options.memtable_flush_threshold && mid.memtable.spec_rows().len() != 0 {
        let (late, m, f) = choose|late: Engine, m: Seq<Step>, f: Result<(), EngineError>|
            #[trigger] flushes_memtable(files, t0, m, mid, late, f)
                && (t1 == m || compacts(files, m, t1, late, after, r));
        lemma_flush_grows(files, t0, m, mid, late, f);
        if t1 != m {
            let (j, k) = choose|j: Result<CompactionJob, EngineError>, k: Seq<Step>|
                {
                    &&& #[trigger] builds(
                        files,
                        m,
                        k,
                        *late.current,
                        late.next_sst_id,
                        late.dir@,
                        late.options.block_size,
                        j,
                    )
                    &&& match j {
                        Err(e) => t1 == k,
                        Ok(job) => commits(
                            k,
                            t1,
                            Engine { next_sst_id: (late.next_sst_id + 1) as u64, ..late },
                            after,
                            job,
                            r,
                        ),
                    }
                };
            if k != m {
                let (run, s) = choose|run: Seq<Row>, s: Result<BlockSstFile, EngineError>|
                    #[trigger] stages(files, m, k, late.dir@, late.next_sst_id, run, late.options.block_size, s);
                lemma_stage_grows(files, m, k, late.dir@, late.next_sst_id, run, late.options.block_size, s);
            }
            if let Ok(job) = j {
                let reserved = Engine { next_sst_id: (late.next_sst_id + 1) as u64, ..late };
                let (edit, done, d) = choose|edit: VersionEdit, done: Engine, d: Result<(), EngineError>|
                    #[trigger] edits(k, t1, reserved, done, edit, d);
                lemma_grows(k, t1, reserved, done, edit, d);
            }
        }
    }
}

proof fn lemma_flush_grows<F: StoreFiles>(
    files: &F,
    t0: Seq<Step>,
    t1: Seq<Step>,
    before: Engine,
    after: Engine,
    r: Result<(), EngineError>,
)
    requires
        flushes_memtable(files, t0, t1, before, after, r),
    ensures
        t0.len() <= t1.len(),
{
    let run = before.memtable.spec_rows();
    let size = before.options.block_size;
    let id = before.next_sst_id;
    let reserved = Engine { next_sst_id: (id + 1) as u64, ..before };
    let (s, m) = choose|s: Result<BlockSstFile, EngineError>, m: Seq<Step>|
        {
            &&& #[trigger] stages(files, t0, m, before.dir@, id, run, size, s)
            &&& match s {
                Err(e) => t1 == m,
                Ok(file) => publishes_flush(
                    m,
                    t1,
                    Engine { counters: reserved.counters.with_flush(file.file_bytes), ..reserved },
                    after,
                    file,
                    r,
                ),
            }
        };
    lemma_stage_grows(files, t0, m, before.dir@, id, run, size, s);
    if let Ok(file) = s {
        let counted = Engine { counters: reserved.counters.with_flush(file.file_bytes), ..reserved };
        let (edit, mid, k, d) = choose|edit: VersionEdit, mid: Engine, k: Seq<Step>, d: Result<(), EngineError>|
            #[trigger] edits(m, k, counted, mid, edit, d) && (t1 == k || exists|t: Result<(), EngineError>|
                #[trigger] reset(k, t1, counted.dir@, t));
        lemma_grows(m, k, counted, mid, edit, d);
    }
}

/// The steps that `t1` adds to `t0` are the first of three: a table is
/// written; a manifest is published that lists it after `ids`; the log is
/// emptied. Each is made only once the one before it succeeded.
pub open spec fn flush_steps(
    t0: Seq<Step>,
    t1: Seq<Step>,
    dir: Seq<char>,
    ids: Seq<u64>,
    id: u64,
    r: Result<(), EngineError>,
) -> bool {
    let n = t0.len() as int;
    &&& goes_on(t0, t1)
    &&& t1.len() <= n + 3
    &&& r is Ok ==> t1.len() == n + 3
    &&& t1.len() > n ==> (t1[n] matches Step::WriteFile { path, bytes, r: w } && path == joined(dir, sst_name(id)) && (
    t1.len() > n + 1 ==> w is Ok))
    &&& t1.len() > n + 1 ==> (t1[n + 1] matches Step::PublishManifest { dir: d, generation, live: l, r: p } && d == dir
        && (p is Ok ==> l == ids.push(id)) && (t1.len() > n + 2 <==> p is Ok))
    &&& t1.len() > n + 2 ==> (t1[n + 2] matches Step::ResetLog { dir: d, r: x } && d == dir && (x is Ok <==> r is Ok))
}

/// A flush writes its table, then publishes the manifest that lists it, then
/// empties the log, and does nothing else; where one of these fails, what
/// comes after it is not done.
pub proof fn a_flush_writes_then_publishes_then_empties_the_log<F: StoreFiles>(
    files: &F,
    t0: Seq<Step>,
    t1: Seq<Step>,
    before: Engine,
    after: Engine,
    r: Result<(), EngineError>,
)
    requires
        before.wf(),
        flushes_memtable(files, t0, t1, before, after, r),
    ensures
        flush_steps(t0, t1, before.dir@, ids_of(before.current.ssts@), before.next_sst_id, r),
{
    let run = before.memtable.spec_rows();
    let size = before.options.block_size;
    let id = before.next_sst_id;
    let dir = before.dir@;
    let ssts = before.current.ssts@;
    let reserved = Engine { next_sst_id: (id + 1) as u64, ..before };
    let (s, m) = choose|s: Result<BlockSstFile, EngineError>, m: Seq<Step>|
        {
            &&& #[trigger] stages(files, t0, m, dir, id, run, size, s)
            &&& match s {
                Err(e) => r is Err && t1 == m,
                Ok(file) => publishes_flush(
                    m,
                    t1,
                    Engine { counters: reserved.counters.with_flush(file.file_bytes), ..reserved },
                    after,
                    file,
                    r,
                ),
            }
        };
    let w = choose|w: Result<WrittenSst, EngineError>|
        #[trigger] writes_new(files, dir, id, run, size, w) && match w {
            Err(e) => s is Err && m == t0,
            Ok(w) => exists|t: Result<(), EngineError>|
                #[trigger] wrote_file(t0, m, w.file.path@, w.bytes@, t) && match t {
                    Err(e) => s is Err,
                    Ok(()) => s == Ok::<BlockSstFile, EngineError>(w.file),
                },
        };
    assert(goes_on(t0, m)) by {
        assert(m.take(t0.len() as int) =~= t0);
    }
    if let Ok(file) = s {
        let counted = Engine { counters: reserved.counters.with_flush(file.file_bytes), ..reserved };
        let (edit, mid, k, d) = choose|edit: VersionEdit, mid: Engine, k: Seq<Step>, d: Result<(), EngineError>|
            {
                &&& edit.added@.len() == 1
                &&& *edit.added@[0] == file
                &&& edit.deleted@.len() == 0
                &&& #[trigger] edits(m, k, counted, mid, edit, d)
                &&& match d {
                    Err(e) => r is Err && t1 == k,
                    Ok(()) => exists|t: Result<(), EngineError>|
                        #[trigger] reset(k, t1, dir, t) && (t is Ok <==> r is Ok),
                }
            };
        assert forall|i: int| !first_missing(ids_of(ssts), edit.deleted@, i) by {}
        lemma_nothing_retired(ssts, edit.deleted@);
        let (next, q, p) = choose|next: Version, q: Seq<Step>, p: Result<(), EngineError>|
            {
                &&& is_next_version(*counted.current, edit, next)
                &&& #[trigger] publishes(m, q, dir, next, p)
                &&& match p {
                    Err(e) => d is Err && k == q,
                    Ok(()) => d is Ok && *mid.current == next && k == q + retirements(ssts, edit.deleted@),
                }
            };
        assert(k =~= q);
        if p is Ok {
            let added = edit.added@[0];
            assert(edit.added@ =~= seq![added]);
            super::write_laws::lemma_added_last(m, k, counted, mid, edit, added);
            assert(ids_of(mid.current.ssts@) =~= ids_of(ssts).push(id));
        }
        assert(t1.take(t0.len() as int) =~= t0);
    }
}

proof fn lemma_nothing_retired(ssts: Seq<Arc<BlockSstFile>>, deleted: Seq<u64>)
    requires
        deleted.len() == 0,
    ensures
        retirements(ssts, deleted) == Seq::<Step>::empty(),
    decreases ssts.len(),
{
    if ssts.len() > 0 {
        lemma_nothing_retired(ssts.drop_last(), deleted);
    }
}

/// A step that gives up the file of a deleted one among `ssts`.
pub open spec fn gives_up_deleted(step: Step, ssts: Seq<Arc<BlockSstFile>>, deleted: Seq<u64>) -> bool {
    step matches Step::Retire { path } && exists|k: int|
        0 <= k < ssts.len() && (#[trigger] ssts[k]).path@ == path && deleted.contains(ssts[k].id)
}

/// The steps of giving tables up give up the files of deleted ones.
pub proof fn lemma_retired_steps(ssts: Seq<Arc<BlockSstFile>>, deleted: Seq<u64>)
    ensures
        forall|i: int|
            0 <= i < retirements(ssts, deleted).len() ==> gives_up_deleted(
                #[trigger] retirements(ssts, deleted)[i],
                ssts,
                deleted,
            ),
    decreases ssts.len(),
{
    if ssts.len() > 0 {
        let head = ssts.drop_last();
        let all = retirements(ssts, deleted);
        lemma_retired_steps(head, deleted);
        assert forall|i: int| 0 <= i < all.len() implies gives_up_deleted(#[trigger] all[i], ssts, deleted) by {
            if i < retirements(head, deleted).len() {
                assert(all[i] == retirements(head, deleted)[i]);
                let k = choose|k: int|
                    0 <= k < head.len() && Step::Retire { path: (#[trigger] head[k]).path@ } == all[i]
                        && deleted.contains(head[k].id);
                assert(ssts[k] == head[k]);
            } else {
                assert(ssts[ssts.len() - 1] == ssts.last());
            }
        }
    }
}

/// An edit touches nothing where it is refused. Else it publishes the manifest
/// of the version to come, and only once that succeeded does it give up files,
/// those of the tables that it deletes.
pub proof fn an_edit_gives_tables_up_last(
    t0: Seq<Step>,
    t1: Seq<Step>,
    before: Engine,
    after: Engine,
    edit: VersionEdit,
    r: Result<(), EngineError>,
)
    requires
        edits(t0, t1, before, after, edit, r),
    ensures
        goes_on(t0, t1),
        t1.len() == t0.len() ==> r is Err && after == before,
        t1.len() > t0.len() ==> (t1[t0.len() as int] matches Step::PublishManifest { dir, generation, live: l, r: p } && dir
            == before.dir@ && (p is Ok <==> r is Ok) && (p is Ok ==> l == ids_of(after.current.ssts@))
                && (p is Err ==> t1.len()
            == t0.len() + 1)),
        forall|i: int|
            t0.len() < i < t1.len() ==> gives_up_deleted(#[trigger] t1[i], before.current.ssts@, edit.deleted@),
{
    let ssts = before.current.ssts@;
    if exists|i: int| first_missing(ids_of(ssts), edit.deleted@, i) {
        assert(t1.take(t0.len() as int) =~= t0);
    } else {
        let gone = retirements(ssts, edit.deleted@);
        let (next, m, p) = choose|next: Version, m: Seq<Step>, p: Result<(), EngineError>|
            {
                &&& is_next_version(*before.current, edit, next)
                &&& #[trigger] publishes(t0, m, before.dir@, next, p)
                &&& match p {
                    Err(e) => r is Err && after == before && t1 == m,
                    Ok(()) => r is Ok && *after.current == next && t1 == m + gone,
                }
            };
        lemma_retired_steps(ssts, edit.deleted@);
        assert(t1.take(t0.len() as int) =~= t0);
        assert forall|i: int| t0.len() < i < t1.len() implies gives_up_deleted(#[trigger] t1[i], ssts, edit.deleted@) by {
            assert(t1[i] == gone[i - m.len()]);
        }
    }
}

} // verus!
