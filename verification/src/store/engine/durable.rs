//! What is on disk of a store, told from the calls that changed it.
//!
//! A memtable is what its log holds, and the live tables are those that the
//! manifest lists: that holds when a store was opened, and every call keeps
//! it, whether or not it succeeds.
use super::compact::{
    builds, commits, compacts, compacts_now, edits, flushes, flushes_memtable, is_next_version, publishes,
    publishes_flush, retirements, stages, CompactionJob,
};
use super::read_back::version_of;
use super::write::{applies, deletes, maybe_flushes, puts, writes};
use super::{Engine, StoreFiles};
use crate::error::EngineError;
use crate::store::rows;
use crate::store::rows::{put_rows, rows_map, Row, Slot};
use crate::store::sst_block::write::{writes_new, WrittenSst};
use crate::store::sst_block::BlockSstFile;
use crate::store::trace::{appended_batch, appended_delete, appended_put, reset, wrote_file, Step};
use crate::store::version::{first_missing, ids_of, Version, VersionEdit};
use std::sync::Arc;
use vstd::prelude::*;

verus! {

/// What the log of `dir` holds after `step`, having held `rows`. A call that
/// is refused leaves it as it is.
pub open spec fn logged(rows: Seq<Row>, step: Step, dir: Seq<char>) -> Seq<Row> {
    match step {
        Step::AppendPut { dir: d, key, value, r } => if d == dir && r is Ok {
            rows.push((key, Some(value)))
        } else {
            rows
        },
        Step::AppendDelete { dir: d, key, r } => if d == dir && r is Ok {
            rows.push((key, None))
        } else {
            rows
        },
        Step::AppendBatch { dir: d, ops, r } => if d == dir && r is Ok {
            rows + ops
        } else {
            rows
        },
        Step::ResetLog { dir: d, r } => if d == dir && r is Ok {
            Seq::empty()
        } else {
            rows
        },
        _ => rows,
    }
}

/// The tables that the manifest of `dir` lists after `step`, having listed
/// `ids`. A call that is refused leaves it as it is.
pub open spec fn listed(ids: Seq<u64>, step: Step, dir: Seq<char>) -> Seq<u64> {
    match step {
        Step::PublishManifest { dir: d, generation, live, r } => if d == dir && r is Ok {
            live
        } else {
            ids
        },
        _ => ids,
    }
}

/// What the log of `dir` holds after the steps of `t` from step `from` on,
/// having held `rows` before them.
pub open spec fn log_after(rows: Seq<Row>, t: Seq<Step>, from: int, dir: Seq<char>) -> Seq<Row>
    decreases t.len(),
{
    if t.len() == 0 || t.len() <= from {
        rows
    } else {
        logged(log_after(rows, t.drop_last(), from, dir), t.last(), dir)
    }
}

/// The tables that the manifest of `dir` lists after the steps of `t` from
/// step `from` on, having listed `ids` before them.
pub open spec fn manifest_after(ids: Seq<u64>, t: Seq<Step>, from: int, dir: Seq<char>) -> Seq<u64>
    decreases t.len(),
{
    if t.len() == 0 || t.len() <= from {
        ids
    } else {
        listed(manifest_after(ids, t.drop_last(), from, dir), t.last(), dir)
    }
}

/// What a directory held when its changes began to be told: the rows of its
/// log, the tables of its manifest, and the number of steps made until then.
pub struct Origin {
    pub log: Seq<Row>,
    pub ids: Seq<u64>,
    pub from: int,
}

/// The engine is what is on disk after the steps `t`: its memtable is what the
/// log holds, and its live tables are those that the manifest lists.
pub open spec fn durable(engine: Engine, origin: Origin, t: Seq<Step>) -> bool {
    &&& 0 <= origin.from <= t.len()
    &&& engine.memtable@ == rows_map(log_after(origin.log, t, origin.from, engine.dir@))
    &&& ids_of(engine.current.ssts@) == manifest_after(origin.ids, t, origin.from, engine.dir@)
}

/// A call on an engine that may change it, with what it is asked.
pub enum Call {
    Put { key: Seq<u8>, value: Seq<u8> },
    Delete { key: Seq<u8> },
    Apply { rows: Seq<Row> },
    Flush,
    CompactNow,
    Commit { job: CompactionJob },
}

/// What one call does.
pub open spec fn does<F: StoreFiles>(
    files: &F,
    t0: Seq<Step>,
    t1: Seq<Step>,
    before: Engine,
    after: Engine,
    call: Call,
    r: Result<(), EngineError>,
) -> bool {
    match call {
        Call::Put { key, value } => puts(files, t0, t1, before, after, key, value, r),
        Call::Delete { key } => deletes(files, t0, t1, before, after, key, r),
        Call::Apply { rows } => applies(files, t0, t1, before, after, rows, r),
        Call::Flush => flushes(files, t0, t1, before, after, r),
        Call::CompactNow => compacts_now(files, t0, t1, before, after, r),
        Call::Commit { job } => commits(t0, t1, before, after, job, r),
    }
}

/// What calls do, one after the other, whether or not each succeeds.
pub open spec fn runs<F: StoreFiles>(
    files: &F,
    t0: Seq<Step>,
    t1: Seq<Step>,
    before: Engine,
    after: Engine,
    calls: Seq<Call>,
) -> bool
    decreases calls.len(),
{
    if calls.len() == 0 {
        t1 == t0 && after == before
    } else {
        exists|mid: Engine, m: Seq<Step>, r: Result<(), EngineError>|
            runs(files, t0, m, before, mid, calls.drop_last()) && #[trigger] does(
                files,
                m,
                t1,
                mid,
                after,
                calls.last(),
                r,
            )
    }
}

/// What one more step does to the log and the manifest.
pub proof fn lemma_one_step(origin: Origin, t: Seq<Step>, step: Step, dir: Seq<char>)
    requires
        0 <= origin.from <= t.len(),
    ensures
        log_after(origin.log, t.push(step), origin.from, dir) == logged(
            log_after(origin.log, t, origin.from, dir),
            step,
            dir,
        ),
        manifest_after(origin.ids, t.push(step), origin.from, dir) == listed(
            manifest_after(origin.ids, t, origin.from, dir),
            step,
            dir,
        ),
{
    assert(t.push(step).drop_last() =~= t);
}

/// Giving tables up touches neither the log nor the manifest.
pub proof fn lemma_retirements(
    origin: Origin,
    t: Seq<Step>,
    ssts: Seq<Arc<BlockSstFile>>,
    deleted: Seq<u64>,
    dir: Seq<char>,
)
    requires
        0 <= origin.from <= t.len(),
    ensures
        log_after(origin.log, t + retirements(ssts, deleted), origin.from, dir) == log_after(
            origin.log,
            t,
            origin.from,
            dir,
        ),
        manifest_after(origin.ids, t + retirements(ssts, deleted), origin.from, dir) == manifest_after(
            origin.ids,
            t,
            origin.from,
            dir,
        ),
    decreases ssts.len(),
{
    if ssts.len() == 0 {
        assert(t + retirements(ssts, deleted) =~= t);
    } else {
        let rest = retirements(ssts.drop_last(), deleted);
        lemma_retirements(origin, t, ssts.drop_last(), deleted, dir);
        if deleted.contains(ssts.last().id) {
            let step = Step::Retire { path: ssts.last().path@ };
            assert(t + retirements(ssts, deleted) =~= (t + rest).push(step));
            lemma_one_step(origin, t + rest, step, dir);
        }
    }
}

proof fn lemma_edit_is_durable(
    origin: Origin,
    t0: Seq<Step>,
    t1: Seq<Step>,
    before: Engine,
    after: Engine,
    edit: VersionEdit,
    r: Result<(), EngineError>,
)
    requires
        durable(before, origin, t0),
        edits(t0, t1, before, after, edit, r),
    ensures
        durable(after, origin, t1),
        after.dir == before.dir,
{
    if !(exists|i: int| first_missing(ids_of(before.current.ssts@), edit.deleted@, i)) {
        let (next, m, p) = choose|next: Version, m: Seq<Step>, p: Result<(), EngineError>|
            {
                &&& is_next_version(*before.current, edit, next)
                &&& #[trigger] publishes(t0, m, before.dir@, next, p)
                &&& match p {
                    Err(e) => after == before && t1 == m,
                    Ok(()) => *after.current == next && after.memtable == before.memtable && after.dir == before.dir
                        && t1
                        == m + retirements(before.current.ssts@, edit.deleted@),
                }
            };
        let step = Step::PublishManifest {
            dir: before.dir@,
            generation: next.manifest_generation,
            live: ids_of(next.ssts@),
            r: p,
        };
        lemma_one_step(origin, t0, step, before.dir@);
        lemma_retirements(origin, m, before.current.ssts@, edit.deleted@, before.dir@);
    }
}

proof fn lemma_stage_is_durable<F: StoreFiles>(
    files: &F,
    origin: Origin,
    t0: Seq<Step>,
    t1: Seq<Step>,
    engine: Engine,
    dir: Seq<char>,
    id: u64,
    rows: Seq<Row>,
    block_size: u32,
    r: Result<BlockSstFile, EngineError>,
)
    requires
        durable(engine, origin, t0),
        stages(files, t0, t1, dir, id, rows, block_size, r),
    ensures
        durable(engine, origin, t1),
{
    let w = choose|w: Result<WrittenSst, EngineError>|
        #[trigger] writes_new(files, dir, id, rows, block_size, w) && match w {
            Err(e) => t1 == t0,
            Ok(w) => exists|t: Result<(), EngineError>| #[trigger] wrote_file(t0, t1, w.file.path@, w.bytes@, t),
        };
    if let Ok(w) = w {
        let t = choose|t: Result<(), EngineError>| #[trigger] wrote_file(t0, t1, w.file.path@, w.bytes@, t);
        lemma_one_step(origin, t0, Step::WriteFile { path: w.file.path@, bytes: w.bytes@, r: t }, engine.dir@);
    }
}

proof fn lemma_commit_is_durable(
    origin: Origin,
    t0: Seq<Step>,
    t1: Seq<Step>,
    before: Engine,
    after: Engine,
    job: CompactionJob,
    r: Result<(), EngineError>,
)
    requires
        durable(before, origin, t0),
        commits(t0, t1, before, after, job, r),
    ensures
        durable(after, origin, t1),
        after.dir == before.dir,
{
    let (edit, mid, d) = choose|edit: VersionEdit, mid: Engine, d: Result<(), EngineError>|
        #[trigger] edits(t0, t1, before, mid, edit, d) && match d {
            Err(e) => after == mid,
            Ok(()) => after == (Engine {
                counters: mid.counters.with_compaction(job.input_bytes, job.output_bytes),
                ..mid
            }),
        };
    lemma_edit_is_durable(origin, t0, t1, before, mid, edit, d);
}

proof fn lemma_merge_is_durable<F: StoreFiles>(
    files: &F,
    origin: Origin,
    t0: Seq<Step>,
    t1: Seq<Step>,
    before: Engine,
    after: Engine,
    r: Result<(), EngineError>,
)
    requires
        durable(before, origin, t0),
        compacts(files, t0, t1, before, after, r),
    ensures
        durable(after, origin, t1),
        after.dir == before.dir,
{
    let reserved = Engine { next_sst_id: (before.next_sst_id + 1) as u64, ..before };
    let (j, m) = choose|j: Result<CompactionJob, EngineError>, m: Seq<Step>|
        {
            &&& #[trigger] builds(
                files,
                t0,
                m,
                *before.current,
                before.next_sst_id,
                before.dir@,
                before.options.block_size,
                j,
            )
            &&& match j {
                Err(e) => after == reserved && t1 == m,
                Ok(job) => commits(m, t1, reserved, after, job, r),
            }
        };
    lemma_build_is_durable(
        files,
        origin,
        t0,
        m,
        before,
        version_of(before),
        before.next_sst_id,
        before.dir@,
        before.options.block_size,
        j,
    );
    if let Ok(job) = j {
        lemma_commit_is_durable(origin, m, t1, reserved, after, job, r);
    }
}

proof fn lemma_build_is_durable<F: StoreFiles>(
    files: &F,
    origin: Origin,
    t0: Seq<Step>,
    t1: Seq<Step>,
    engine: Engine,
    input: Version,
    id: u64,
    dir: Seq<char>,
    block_size: u32,
    j: Result<CompactionJob, EngineError>,
)
    requires
        durable(engine, origin, t0),
        builds(files, t0, t1, input, id, dir, block_size, j),
    ensures
        durable(engine, origin, t1),
{
    if t1 != t0 {
        let (rows, s) = choose|rows: Seq<Row>, s: Result<BlockSstFile, EngineError>|
            #[trigger] stages(files, t0, t1, dir, id, rows, block_size, s);
        lemma_stage_is_durable(files, origin, t0, t1, engine, dir, id, rows, block_size, s);
    }
}

proof fn lemma_flush_is_durable<F: StoreFiles>(
    files: &F,
    origin: Origin,
    t0: Seq<Step>,
    t1: Seq<Step>,
    before: Engine,
    after: Engine,
    r: Result<(), EngineError>,
)
    requires
        durable(before, origin, t0),
        flushes(files, t0, t1, before, after, r),
    ensures
        durable(after, origin, t1),
        after.dir == before.dir,
{
    if before.memtable.spec_rows().len() != 0 {
        let (mid, m, f) = choose|mid: Engine, m: Seq<Step>, f: Result<(), EngineError>|
            #[trigger] flushes_memtable(files, t0, m, before, mid, f) && match f {
                Err(e) => after == mid && t1 == m,
                Ok(()) => if mid.options.auto_compact_on_flush && mid.current.ssts@.len()
                    > mid.options.compaction_sst_threshold {
                    compacts(files, m, t1, mid, after, r)
                } else {
                    after == mid && t1 == m
                },
            };
        lemma_written_out_is_durable(files, origin, t0, m, before, mid, f);
        if f is Ok && mid.options.auto_compact_on_flush && mid.current.ssts@.len()
            > mid.options.compaction_sst_threshold {
            lemma_merge_is_durable(files, origin, m, t1, mid, after, r);
        }
    }
}

/// Writing the memtable out leaves on disk what it leaves in memory.
pub proof fn lemma_written_out_is_durable<F: StoreFiles>(
    files: &F,
    origin: Origin,
    t0: Seq<Step>,
    t1: Seq<Step>,
    before: Engine,
    after: Engine,
    r: Result<(), EngineError>,
)
    requires
        durable(before, origin, t0),
        flushes_memtable(files, t0, t1, before, after, r),
    ensures
        durable(after, origin, t1),
        after.dir == before.dir,
{
    let run = before.memtable.spec_rows();
    let size = before.options.block_size;
    let reserved = Engine { next_sst_id: (before.next_sst_id + 1) as u64, ..before };
    let (s, m) = choose|s: Result<BlockSstFile, EngineError>, m: Seq<Step>|
        {
            &&& #[trigger] stages(files, t0, m, before.dir@, before.next_sst_id, run, size, s)
            &&& match s {
                Err(e) => after == reserved && t1 == m,
                Ok(file) => publishes_flush(
                    m,
                    t1,
                    Engine { counters: reserved.counters.with_flush(file.file_bytes), ..reserved },
                    after,
                    file,
                    r,
                ),
            }
        };
    lemma_stage_is_durable(files, origin, t0, m, before, before.dir@, before.next_sst_id, run, size, s);
    if let Ok(file) = s {
        let counted = Engine { counters: reserved.counters.with_flush(file.file_bytes), ..reserved };
        let (edit, mid, n, d) = choose|edit: VersionEdit, mid: Engine, n: Seq<Step>, d: Result<(), EngineError>|
            {
                &&& #[trigger] edits(m, n, counted, mid, edit, d)
                &&& match d {
                    Err(e) => after == mid && t1 == n,
                    Ok(()) => exists|t: Result<(), EngineError>|
                        #[trigger] reset(n, t1, counted.dir@, t) && match t {
                            Err(e) => after == mid,
                            Ok(()) => after == (Engine { memtable: after.memtable, ..mid })
                                && after.memtable@ == Map::<Seq<u8>, Slot>::empty(),
                        },
                }
            };
        lemma_edit_is_durable(origin, m, n, counted, mid, edit, d);
        if d is Ok {
            let t = choose|t: Result<(), EngineError>|
                #[trigger] reset(n, t1, counted.dir@, t) && match t {
                    Err(e) => after == mid,
                    Ok(()) => after == (Engine { memtable: after.memtable, ..mid }) && after.memtable@ == Map::<
                        Seq<u8>,
                        Slot,
                    >::empty(),
                };
            lemma_one_step(origin, n, Step::ResetLog { dir: counted.dir@, r: t }, before.dir@);
        }
    }
}

/// A write is durable whose one step on the log is `step`.
proof fn lemma_write_is_durable<F: StoreFiles>(
    files: &F,
    origin: Origin,
    t0: Seq<Step>,
    step: Step,
    t1: Seq<Step>,
    before: Engine,
    after: Engine,
    w: Result<u64, EngineError>,
    ops: Seq<Row>,
    r: Result<(), EngineError>,
)
    requires
        durable(before, origin, t0),
        forall|rows: Seq<Row>|
            #[trigger] logged(rows, step, before.dir@) == (if w is Ok {
                rows + ops
            } else {
                rows
            }),
        forall|ids: Seq<u64>| #[trigger] listed(ids, step, before.dir@) == ids,
        writes(files, t0.push(step), t1, before, after, w, put_rows(before.memtable@, ops), r),
    ensures
        durable(after, origin, t1),
        after.dir == before.dir,
{
    lemma_one_step(origin, t0, step, before.dir@);
    if let Ok(n) = w {
        let log = log_after(origin.log, t0, origin.from, before.dir@);
        rows::lemma_put_rows_concat(Map::empty(), log, ops);
        let map = put_rows(before.memtable@, ops);
        let mid = choose|mid: Engine|
            {
                &&& mid == (Engine { memtable: mid.memtable, counters: before.counters.with_log_record(n), ..before })
                &&& mid.memtable.wf()
                &&& mid.memtable@ == map
                &&& #[trigger] maybe_flushes(files, t0.push(step), t1, mid, after, r)
            };
        assert(durable(mid, origin, t0.push(step)));
        if mid.memtable.spec_rows().len() >= mid.options.memtable_flush_threshold {
            lemma_flush_is_durable(files, origin, t0.push(step), t1, mid, after, r);
        }
    }
}

/// Every call leaves on disk what it leaves in memory, whether or not it
/// succeeds: the memtable is what was logged since the log was last emptied,
/// and the live tables are those of the manifest last published.
pub proof fn every_call_keeps_the_store_durable<F: StoreFiles>(
    files: &F,
    origin: Origin,
    t0: Seq<Step>,
    t1: Seq<Step>,
    before: Engine,
    after: Engine,
    call: Call,
    r: Result<(), EngineError>,
)
    requires
        durable(before, origin, t0),
        does(files, t0, t1, before, after, call, r),
    ensures
        durable(after, origin, t1),
        after.dir == before.dir,
{
    let dir = before.dir@;
    match call {
        Call::Put { key, value } => {
            let (m, w) = choose|m: Seq<Step>, w: Result<u64, EngineError>|
                #[trigger] appended_put(t0, m, dir, key, value, w) && writes(
                    files,
                    m,
                    t1,
                    before,
                    after,
                    w,
                    before.memtable@.insert(key, Some(value)),
                    r,
                );
            let ops: Seq<Row> = seq![(key, Some(value))];
            let step = Step::AppendPut { dir, key, value, r: w };
            lemma_one_op(before.memtable@, key, Some(value));
            assert forall|rows: Seq<Row>| #[trigger] logged(rows, step, dir) == (if w is Ok {
                rows + ops
            } else {
                rows
            }) by {
                assert(rows.push((key, Some(value))) =~= rows + ops);
            }
            lemma_write_is_durable(files, origin, t0, step, t1, before, after, w, ops, r);
        },
        Call::Delete { key } => {
            let (m, w) = choose|m: Seq<Step>, w: Result<u64, EngineError>|
                #[trigger] appended_delete(t0, m, dir, key, w) && writes(
                    files,
                    m,
                    t1,
                    before,
                    after,
                    w,
                    before.memtable@.insert(key, None),
                    r,
                );
            let ops: Seq<Row> = seq![(key, None)];
            let step = Step::AppendDelete { dir, key, r: w };
            lemma_one_op(before.memtable@, key, None);
            assert forall|rows: Seq<Row>| #[trigger] logged(rows, step, dir) == (if w is Ok {
                rows + ops
            } else {
                rows
            }) by {
                assert(rows.push((key, None)) =~= rows + ops);
            }
            lemma_write_is_durable(files, origin, t0, step, t1, before, after, w, ops, r);
        },
        Call::Apply { rows } => {
            if rows.len() != 0 {
                let (m, w) = choose|m: Seq<Step>, w: Result<u64, EngineError>|
                    #[trigger] appended_batch(t0, m, dir, rows, w) && writes(
                        files,
                        m,
                        t1,
                        before,
                        after,
                        w,
                        put_rows(before.memtable@, rows),
                        r,
                    );
                let step = Step::AppendBatch { dir, ops: rows, r: w };
                lemma_write_is_durable(files, origin, t0, step, t1, before, after, w, rows, r);
            }
        },
        Call::Flush => {
            lemma_flush_is_durable(files, origin, t0, t1, before, after, r);
        },
        Call::CompactNow => {
            let (mid, m, f) = choose|mid: Engine, m: Seq<Step>, f: Result<(), EngineError>|
                #[trigger] flushes(files, t0, m, before, mid, f) && match f {
                    Err(e) => after == mid && t1 == m,
                    Ok(()) => if mid.current.ssts@.len() == 0 {
                        after == mid && t1 == m
                    } else {
                        compacts(files, m, t1, mid, after, r)
                    },
                };
            lemma_flush_is_durable(files, origin, t0, m, before, mid, f);
            if f is Ok && mid.current.ssts@.len() != 0 {
                lemma_merge_is_durable(files, origin, m, t1, mid, after, r);
            }
        },
        Call::Commit { job } => {
            lemma_commit_is_durable(origin, t0, t1, before, after, job, r);
        },
    }
}

/// Putting one row puts one key.
pub proof fn lemma_one_op(map: Map<Seq<u8>, Slot>, key: Seq<u8>, slot: Slot)
    ensures
        put_rows(map, seq![(key, slot)]) == map.insert(key, slot),
{
    let ops: Seq<Row> = seq![(key, slot)];
    assert(ops.drop_last() =~= Seq::<Row>::empty());
    assert(put_rows(map, ops.drop_last()) == map);
    assert(ops.last() == (key, slot));
}

/// Any calls, one after the other, leave on disk what they leave in memory.
pub proof fn any_calls_keep_the_store_durable<F: StoreFiles>(
    files: &F,
    origin: Origin,
    t0: Seq<Step>,
    t1: Seq<Step>,
    before: Engine,
    after: Engine,
    calls: Seq<Call>,
)
    requires
        durable(before, origin, t0),
        runs(files, t0, t1, before, after, calls),
    ensures
        durable(after, origin, t1),
        after.dir == before.dir,
    decreases calls.len(),
{
    if calls.len() > 0 {
        let (mid, m, r) = choose|mid: Engine, m: Seq<Step>, r: Result<(), EngineError>|
            runs(files, t0, m, before, mid, calls.drop_last()) && #[trigger] does(
                files,
                m,
                t1,
                mid,
                after,
                calls.last(),
                r,
            );
        any_calls_keep_the_store_durable(files, origin, t0, m, before, mid, calls.drop_last());
        every_call_keeps_the_store_durable(files, origin, m, t1, mid, after, calls.last(), r);
    }
}

} // verus!
