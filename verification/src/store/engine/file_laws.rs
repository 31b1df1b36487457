//! Which files are given up.
//!
//! A table's file is given up once no version lists it, and its id is never
//! handed out again: no file that was given up is that of a live table.
use super::compact::{
    builds, can_commit, commits, compacts, edits, flushes, flushes_memtable, is_next_version, publishes,
    publishes_flush, retirements, stages, CompactionJob,
};
use super::crash_laws::{gives_up_deleted, lemma_retired_steps};
use super::durable::{does, Call};
use super::recover::{
    confronts, confronts_with, loads_tables, opens, opens_log, opens_tables, sst_tables, LiveTables, Recovered,
};
use super::recovery_laws::{lemma_kept, lemma_opened};
use super::write::{maybe_flushes, writes};
use super::{Engine, StoreFiles};
use crate::error::EngineError;
use crate::store::files::{gives_list, DirEntry, SstManifest, StoreRoot, UserKey};
use crate::store::options::EngineOptions;
use crate::store::rows::{Row, Slot};
use crate::store::sst_block::read::{lemma_loaded_is_wf, loads};
use crate::store::sst_block::write::{writes_new, WrittenSst};
use crate::store::sst_block::{a_table_is_found_by_its_name, joined, sst_id_of, sst_name, BlockSstFile};
use crate::store::trace::{appended_batch, appended_delete, appended_put, reset, wrote_file, Step};
use crate::store::verify::{with_table, Listed};
use crate::store::version;
use crate::store::version::{first_missing, ids_of, survivors, Version, VersionEdit};
use std::sync::Arc;
use vstd::prelude::*;

verus! {

/// `path` is a file of `dir` whose name is that of table `id`.
pub open spec fn names_table(path: Seq<char>, dir: Seq<char>, id: u64) -> bool {
    exists|name: Seq<char>| path == joined(dir, name) && #[trigger] sst_id_of(name) == Some(id)
}

/// A path names one table at most.
proof fn lemma_names_one(path: Seq<char>, dir: Seq<char>, a: u64, b: u64)
    requires
        names_table(path, dir, a),
        names_table(path, dir, b),
    ensures
        a == b,
{
    reveal_strlit("/");
    let x = choose|x: Seq<char>| path == joined(dir, x) && #[trigger] sst_id_of(x) == Some(a);
    let y = choose|y: Seq<char>| path == joined(dir, y) && #[trigger] sst_id_of(y) == Some(b);
    if dir.len() > 0 {
        let n = dir.len() + 1;
        assert(x =~= path.subrange(n as int, path.len() as int));
        assert(y =~= path.subrange(n as int, path.len() as int));
    }
}

/// `step`, if it gives a file up, gives up that of a table of `dir` that is
/// none of `ids`, and whose id is below `next`.
pub open spec fn gives_up_past(step: Step, dir: Seq<char>, ids: Seq<u64>, next: u64) -> bool {
    match step {
        Step::Retire { path } => exists|id: u64| #[trigger]
            names_table(path, dir, id) && id < next && !ids.contains(id),
        _ => true,
    }
}

/// The files of the live tables are named after them, and what was given up
/// since step `from` were the files of tables that went.
pub open spec fn tidy(engine: Engine, t: Seq<Step>, from: int) -> bool {
    &&& 0 <= from <= t.len()
    &&& forall|i: int|
        0 <= i < engine.current.ssts@.len() ==> names_table(
            (#[trigger] engine.current.ssts@[i]).path@,
            engine.dir@,
            engine.current.ssts@[i].id,
        )
    &&& forall|j: int|
        from <= j < t.len() ==> gives_up_past(
            #[trigger] t[j],
            engine.dir@,
            ids_of(engine.current.ssts@),
            engine.next_sst_id,
        )
}

/// No step since `from` gave up the file of table `id`.
pub open spec fn is_unretired(t: Seq<Step>, from: int, dir: Seq<char>, id: u64) -> bool {
    forall|j: int|
        from <= j < t.len() ==> (#[trigger] t[j] matches Step::Retire { path } ==> !names_table(path, dir, id))
}

proof fn lemma_fresh_id(engine: Engine, t: Seq<Step>, from: int, id: u64)
    requires
        tidy(engine, t, from),
        id >= engine.next_sst_id,
    ensures
        is_unretired(t, from, engine.dir@, id),
{
    assert forall|j: int| from <= j < t.len() implies (#[trigger] t[j] matches Step::Retire { path } ==> !names_table(
        path,
        engine.dir@,
        id,
    )) by {
        if let Step::Retire { path } = t[j] {
            assert(gives_up_past(t[j], engine.dir@, ids_of(engine.current.ssts@), engine.next_sst_id));
            if names_table(path, engine.dir@, id) {
                let other = choose|other: u64| #[trigger]
                    names_table(path, engine.dir@, other) && other < engine.next_sst_id;
                lemma_names_one(path, engine.dir@, id, other);
            }
        }
    }
}

/// Another step, a higher next id: still tidy.
proof fn lemma_tidy_on(before: Engine, after: Engine, t: Seq<Step>, step: Step, from: int)
    requires
        tidy(before, t, from),
        !(step is Retire),
        after.current == before.current,
        after.dir == before.dir,
        after.next_sst_id >= before.next_sst_id,
    ensures
        tidy(after, t.push(step), from),
{
    lemma_tidy_later(before, after, t, from);
    let t1 = t.push(step);
    assert forall|j: int| from <= j < t1.len() implies gives_up_past(
        #[trigger] t1[j],
        after.dir@,
        ids_of(after.current.ssts@),
        after.next_sst_id,
    ) by {
        if j < t.len() {
            assert(t1[j] == t[j]);
        }
    }
}

proof fn lemma_tidy_later(before: Engine, after: Engine, t: Seq<Step>, from: int)
    requires
        tidy(before, t, from),
        after.current == before.current,
        after.dir == before.dir,
        after.next_sst_id >= before.next_sst_id,
    ensures
        tidy(after, t, from),
{
    let ids = ids_of(before.current.ssts@);
    assert forall|j: int| from <= j < t.len() implies gives_up_past(
        #[trigger] t[j],
        after.dir@,
        ids,
        after.next_sst_id,
    ) by {
        assert(gives_up_past(t[j], before.dir@, ids, before.next_sst_id));
        if let Step::Retire { path } = t[j] {
            let id = choose|id: u64| #[trigger]
                names_table(path, before.dir@, id) && id < before.next_sst_id && !ids.contains(id);
            assert(names_table(path, after.dir@, id));
        }
    }
}

/// What an edit that adds one table, of an id of its own, does.
proof fn lemma_edit_is_tidy(
    t0: Seq<Step>,
    t1: Seq<Step>,
    before: Engine,
    after: Engine,
    edit: VersionEdit,
    d: Result<(), EngineError>,
    from: int,
)
    requires
        before.wf(),
        tidy(before, t0, from),
        edits(t0, t1, before, after, edit, d),
        edit.added@.len() == 1,
        names_table(edit.added@[0].path@, before.dir@, edit.added@[0].id),
        edit.added@[0].id < before.next_sst_id,
        !ids_of(before.current.ssts@).contains(edit.added@[0].id),
        is_unretired(t0, from, before.dir@, edit.added@[0].id),
    ensures
        tidy(after, t1, from),
        after.next_sst_id == before.next_sst_id,
        after.dir == before.dir,
{
    let ssts = before.current.ssts@;
    let dir = before.dir@;
    let added = edit.added@[0];
    if !(exists|i: int| first_missing(ids_of(ssts), edit.deleted@, i)) {
        let gone = retirements(ssts, edit.deleted@);
        let (next, m, p) = choose|next: Version, m: Seq<Step>, p: Result<(), EngineError>|
            {
                &&& is_next_version(*before.current, edit, next)
                &&& #[trigger] publishes(t0, m, dir, next, p)
                &&& match p {
                    Err(e) => after == before && t1 == m,
                    Ok(()) => *after.current == next && t1 == m + gone && after.dir == before.dir && after.next_sst_id
                        == before.next_sst_id,
                }
            };
        let step = Step::PublishManifest {
            dir,
            generation: next.manifest_generation,
            live: ids_of(next.ssts@),
            r: p,
        };
        lemma_tidy_on(before, before, t0, step, from);
        if p is Ok {
            let kept = survivors(ssts, edit.deleted@);
            let all = kept + edit.added@;
            let ids = ids_of(next.ssts@);
            version::lemma_by_id(all);
            version::lemma_survivors(ssts, edit.deleted@);
            lemma_retired_steps(ssts, edit.deleted@);
            assert forall|i: int| 0 <= i < next.ssts@.len() implies ((#[trigger] next.ssts@[i]).id == added.id || (
            ids_of(ssts).contains(next.ssts@[i].id) && !edit.deleted@.contains(next.ssts@[i].id))) && names_table(
                next.ssts@[i].path@,
                dir,
                next.ssts@[i].id,
            ) by {
                version::lemma_same_tables(next.ssts@, all, next.ssts@[i]);
                assert(next.ssts@.contains(next.ssts@[i]));
                let k = choose|k: int| 0 <= k < all.len() && all[k] == next.ssts@[i];
                if k < kept.len() {
                    assert(ssts.contains(kept[k]));
                    let n = choose|n: int| 0 <= n < ssts.len() && ssts[n] == kept[k];
                    assert(ids_of(ssts)[n] == ssts[n].id);
                }
            }
            assert forall|j: int| from <= j < t1.len() implies gives_up_past(
                #[trigger] t1[j],
                dir,
                ids,
                before.next_sst_id,
            ) by {
                if j < t0.len() {
                    assert(t1[j] == t0[j]);
                    assert(gives_up_past(t0[j], dir, ids_of(ssts), before.next_sst_id));
                    if let Step::Retire { path } = t0[j] {
                        let id = choose|id: u64| #[trigger]
                            names_table(path, dir, id) && id < before.next_sst_id && !ids_of(ssts).contains(id);
                        if ids.contains(id) {
                            let i = choose|i: int| 0 <= i < ids.len() && ids[i] == id;
                            assert(next.ssts@[i].id == id);
                        }
                    }
                } else if j >= m.len() {
                    assert(t1[j] == gone[j - m.len()]);
                    assert(gives_up_deleted(gone[j - m.len()], ssts, edit.deleted@));
                    if let Step::Retire { path } = t1[j] {
                        let k = choose|k: int|
                            0 <= k < ssts.len() && (#[trigger] ssts[k]).path@ == path && edit.deleted@.contains(
                                ssts[k].id,
                            );
                        let id = ssts[k].id;
                        assert(names_table(path, dir, id));
                        assert(ids_of(ssts)[k] == id);
                        if ids.contains(id) {
                            let i = choose|i: int| 0 <= i < ids.len() && ids[i] == id;
                            assert(next.ssts@[i].id == id);
                        }
                    }
                }
            }
        }
    }
}

/// A staged table is named after its id, and staging it gives nothing up.
proof fn lemma_stage_is_tidy<F: StoreFiles>(
    files: &F,
    t0: Seq<Step>,
    t1: Seq<Step>,
    engine: Engine,
    id: u64,
    run: Seq<Row>,
    block_size: u32,
    r: Result<BlockSstFile, EngineError>,
    from: int,
)
    requires
        tidy(engine, t0, from),
        stages(files, t0, t1, engine.dir@, id, run, block_size, r),
    ensures
        tidy(engine, t1, from),
        r matches Ok(file) ==> file.id == id && names_table(file.path@, engine.dir@, id),
{
    let dir = engine.dir@;
    let w = choose|w: Result<WrittenSst, EngineError>|
        #[trigger] writes_new(files, dir, id, run, block_size, w) && match w {
            Err(e) => r is Err && t1 == t0,
            Ok(w) => exists|t: Result<(), EngineError>|
                #[trigger] wrote_file(t0, t1, w.file.path@, w.bytes@, t) && (r matches Ok(file) ==> file == w.file),
        };
    if let Ok(w) = w {
        let t = choose|t: Result<(), EngineError>| #[trigger] wrote_file(t0, t1, w.file.path@, w.bytes@, t);
        lemma_tidy_on(engine, engine, t0, Step::WriteFile { path: w.file.path@, bytes: w.bytes@, r: t }, from);
        a_table_is_found_by_its_name(id);
        assert(w.file.path@ == joined(dir, sst_name(id)));
    }
}

proof fn lemma_unused(engine: Engine)
    requires
        engine.wf(),
    ensures
        !ids_of(engine.current.ssts@).contains(engine.next_sst_id),
{
    let ids = ids_of(engine.current.ssts@);
    if ids.contains(engine.next_sst_id) {
        let i = choose|i: int| 0 <= i < ids.len() && ids[i] == engine.next_sst_id;
        assert(engine.current.ssts@[i].id < engine.next_sst_id);
    }
}

proof fn lemma_merge_is_tidy<F: StoreFiles>(
    files: &F,
    t0: Seq<Step>,
    t1: Seq<Step>,
    before: Engine,
    after: Engine,
    r: Result<(), EngineError>,
    from: int,
)
    requires
        before.wf(),
        before.next_sst_id < u64::MAX,
        tidy(before, t0, from),
        compacts(files, t0, t1, before, after, r),
    ensures
        tidy(after, t1, from),
        after.dir == before.dir,
{
    let id = before.next_sst_id;
    let size = before.options.block_size;
    let reserved = Engine { next_sst_id: (id + 1) as u64, ..before };
    let (j, m) = choose|j: Result<CompactionJob, EngineError>, m: Seq<Step>|
        {
            &&& #[trigger] builds(files, t0, m, *before.current, id, before.dir@, size, j)
            &&& match j {
                Err(e) => after == reserved && t1 == m,
                Ok(job) => commits(m, t1, reserved, after, job, r),
            }
        };
    lemma_unused(before);
    if m == t0 && j is Err {
        lemma_tidy_later(before, reserved, t0, from);
    } else {
        let (run, s) = choose|run: Seq<Row>, s: Result<BlockSstFile, EngineError>|
            #[trigger] stages(files, t0, m, before.dir@, id, run, size, s) && (j matches Ok(job) ==> s matches Ok(file)
                && *job.merged == file);
        lemma_stage_is_tidy(files, t0, m, before, id, run, size, s, from);
        lemma_fresh_id(before, m, from, id);
        lemma_tidy_later(before, reserved, m, from);
        if let Ok(job) = j {
            lemma_merge_commits(m, t1, reserved, after, job, r, from);
        }
    }
}

/// A merged table that is named after an id of its own is committed tidily.
proof fn lemma_merge_commits(
    t0: Seq<Step>,
    t1: Seq<Step>,
    before: Engine,
    after: Engine,
    job: CompactionJob,
    r: Result<(), EngineError>,
    from: int,
)
    requires
        before.wf(),
        tidy(before, t0, from),
        commits(t0, t1, before, after, job, r),
        job.merged.id < before.next_sst_id,
        !ids_of(before.current.ssts@).contains(job.merged.id),
        names_table(job.merged.path@, before.dir@, job.merged.id),
        is_unretired(t0, from, before.dir@, job.merged.id),
    ensures
        tidy(after, t1, from),
        after.dir == before.dir,
{
    let (edit, mid, d) = choose|edit: VersionEdit, mid: Engine, d: Result<(), EngineError>|
        {
            &&& edit.added@ == seq![job.merged]
            &&& #[trigger] edits(t0, t1, before, mid, edit, d)
            &&& after.current == mid.current && after.dir == mid.dir && after.next_sst_id == mid.next_sst_id
        };
    lemma_edit_is_tidy(t0, t1, before, mid, edit, d, from);
}

proof fn lemma_written_out_is_tidy<F: StoreFiles>(
    files: &F,
    t0: Seq<Step>,
    t1: Seq<Step>,
    before: Engine,
    after: Engine,
    r: Result<(), EngineError>,
    from: int,
)
    requires
        before.wf(),
        before.next_sst_id < u64::MAX,
        tidy(before, t0, from),
        flushes_memtable(files, t0, t1, before, after, r),
    ensures
        tidy(after, t1, from),
        after.dir == before.dir,
        after.next_sst_id == before.next_sst_id + 1,
{
    let id = before.next_sst_id;
    let run = before.memtable.spec_rows();
    let size = before.options.block_size;
    let reserved = Engine { next_sst_id: (id + 1) as u64, ..before };
    let (s, m) = choose|s: Result<BlockSstFile, EngineError>, m: Seq<Step>|
        {
            &&& #[trigger] stages(files, t0, m, before.dir@, id, run, size, s)
            &&& match s {
                Err(e) => after == reserved && t1 == m,
                Ok(file) => publishes_flush(
                    m,
                    t1,
                    Engine { counters: reserved.counters.with_flush(file.file_bytes), ..reserved },
                    after,
                    file,
                    r,
                ),
            }
        };
    lemma_unused(before);
    lemma_stage_is_tidy(files, t0, m, before, id, run, size, s, from);
    lemma_fresh_id(before, m, from, id);
    lemma_tidy_later(before, reserved, m, from);
    if let Ok(file) = s {
        let counted = Engine { counters: reserved.counters.with_flush(file.file_bytes), ..reserved };
        lemma_tidy_later(before, counted, m, from);
        let (edit, mid, k, d) = choose|edit: VersionEdit, mid: Engine, k: Seq<Step>, d: Result<(), EngineError>|
            {
                &&& edit.added@.len() == 1
                &&& *edit.added@[0] == file
                &&& #[trigger] edits(m, k, counted, mid, edit, d)
                &&& match d {
                    Err(e) => after == mid && t1 == k,
                    Ok(()) => exists|t: Result<(), EngineError>|
                        #[trigger] reset(k, t1, counted.dir@, t) && after.current == mid.current && after.dir == mid.dir
                            && after.next_sst_id == mid.next_sst_id,
                }
            };
        lemma_edit_is_tidy(m, k, counted, mid, edit, d, from);
        if d is Ok {
            let t = choose|t: Result<(), EngineError>| #[trigger] reset(k, t1, counted.dir@, t);
            lemma_tidy_on(mid, after, k, Step::ResetLog { dir: counted.dir@, r: t }, from);
        }
    }
}

proof fn lemma_flush_is_tidy<F: StoreFiles>(
    files: &F,
    t0: Seq<Step>,
    t1: Seq<Step>,
    before: Engine,
    after: Engine,
    r: Result<(), EngineError>,
    from: int,
)
    requires
        before.wf(),
        before.next_sst_id < u64::MAX - 1,
        tidy(before, t0, from),
        flushes(files, t0, t1, before, after, r),
    ensures
        tidy(after, t1, from),
        after.dir == before.dir,
{
    if before.memtable.spec_rows().len() != 0 {
        let (mid, m, f) = choose|mid: Engine, m: Seq<Step>, f: Result<(), EngineError>|
            #[trigger] flushes_memtable(files, t0, m, before, mid, f) && mid.wf() && match f {
                Err(e) => after == mid && t1 == m,
                Ok(()) => if mid.options.auto_compact_on_flush && mid.current.ssts@.len()
                    > mid.options.compaction_sst_threshold {
                    compacts(files, m, t1, mid, after, r)
                } else {
                    after == mid && t1 == m
                },
            };
        lemma_written_out_is_tidy(files, t0, m, before, mid, f, from);
        if f is Ok && mid.options.auto_compact_on_flush && mid.current.ssts@.len()
            > mid.options.compaction_sst_threshold {
            lemma_merge_is_tidy(files, m, t1, mid, after, r, from);
        }
    }
}

/// A write whose one step on the log is `step`.
proof fn lemma_write_is_tidy<F: StoreFiles>(
    files: &F,
    t0: Seq<Step>,
    step: Step,
    t1: Seq<Step>,
    before: Engine,
    after: Engine,
    w: Result<u64, EngineError>,
    map: Map<Seq<u8>, Slot>,
    r: Result<(), EngineError>,
    from: int,
)
    requires
        before.wf(),
        before.next_sst_id < u64::MAX - 1,
        tidy(before, t0, from),
        !(step is Retire),
        writes(files, t0.push(step), t1, before, after, w, map, r),
    ensures
        tidy(after, t1, from),
        after.dir == before.dir,
{
    lemma_tidy_on(before, before, t0, step, from);
    if let Ok(n) = w {
        let mid = choose|mid: Engine|
            {
                &&& mid == (Engine { memtable: mid.memtable, counters: before.counters.with_log_record(n), ..before })
                &&& mid.memtable.wf()
                &&& #[trigger] maybe_flushes(files, t0.push(step), t1, mid, after, r)
            };
        lemma_tidy_later(before, mid, t0.push(step), from);
        if mid.memtable.spec_rows().len() >= mid.options.memtable_flush_threshold {
            lemma_flush_is_tidy(files, t0.push(step), t1, mid, after, r, from);
        }
    }
}

/// No call gives up the file of a table that is live after it, whether or not
/// the call succeeds, nor hands an id out again whose file was given up. A
/// merge that is committed must itself have an id of its own that was not given
/// up.
pub proof fn every_call_keeps_the_files_of_live_tables<F: StoreFiles>(
    files: &F,
    t0: Seq<Step>,
    t1: Seq<Step>,
    before: Engine,
    after: Engine,
    call: Call,
    r: Result<(), EngineError>,
    from: int,
)
    requires
        before.wf(),
        before.next_sst_id < u64::MAX - 2,
        tidy(before, t0, from),
        does(files, t0, t1, before, after, call, r),
        call matches Call::Commit { job } ==> can_commit(before, job) && names_table(
            job.merged.path@,
            before.dir@,
            job.merged.id,
        ) && !ids_of(before.current.ssts@).contains(job.merged.id) && is_unretired(t0, from, before.dir@, job.merged.id),
    ensures
        tidy(after, t1, from),
        after.dir == before.dir,
{
    let dir = before.dir@;
    let held = before.memtable@;
    match call {
        Call::Put { key, value } => {
            let map = held.insert(key, Some(value));
            let (m, w) = choose|m: Seq<Step>, w: Result<u64, EngineError>|
                #[trigger] appended_put(t0, m, dir, key, value, w) && writes(files, m, t1, before, after, w, map, r);
            let step = Step::AppendPut { dir, key, value, r: w };
            lemma_write_is_tidy(files, t0, step, t1, before, after, w, map, r, from);
        },
        Call::Delete { key } => {
            let map = held.insert(key, None);
            let (m, w) = choose|m: Seq<Step>, w: Result<u64, EngineError>|
                #[trigger] appended_delete(t0, m, dir, key, w) && writes(files, m, t1, before, after, w, map, r);
            let step = Step::AppendDelete { dir, key, r: w };
            lemma_write_is_tidy(files, t0, step, t1, before, after, w, map, r, from);
        },
        Call::Apply { rows } => {
            if rows.len() != 0 {
                let map = crate::store::rows::put_rows(held, rows);
                let (m, w) = choose|m: Seq<Step>, w: Result<u64, EngineError>|
                    #[trigger] appended_batch(t0, m, dir, rows, w) && writes(files, m, t1, before, after, w, map, r);
                let step = Step::AppendBatch { dir, ops: rows, r: w };
                lemma_write_is_tidy(files, t0, step, t1, before, after, w, map, r, from);
            }
        },
        Call::Flush => {
            lemma_flush_is_tidy(files, t0, t1, before, after, r, from);
        },
        Call::CompactNow => {
            let (mid, m, f) = choose|mid: Engine, m: Seq<Step>, f: Result<(), EngineError>|
                #[trigger] flushes(files, t0, m, before, mid, f) && mid.wf() && match f {
                    Err(e) => after == mid && t1 == m,
                    Ok(()) => if mid.current.ssts@.len() == 0 {
                        after == mid && t1 == m
                    } else {
                        compacts(files, m, t1, mid, after, r)
                    },
                };
            lemma_flush_is_tidy(files, t0, m, before, mid, f, from);
            if f is Ok && mid.current.ssts@.len() != 0 {
                lemma_flushed_ids(files, t0, m, before, mid, f);
                lemma_merge_is_tidy(files, m, t1, mid, after, r, from);
            }
        },
        Call::Commit { job } => {
            lemma_merge_commits(t0, t1, before, after, job, r, from);
        },
    }
}

/// A flush takes two ids at most.
proof fn lemma_flushed_ids<F: StoreFiles>(
    files: &F,
    t0: Seq<Step>,
    t1: Seq<Step>,
    before: Engine,
    after: Engine,
    r: Result<(), EngineError>,
)
    requires
        before.next_sst_id < u64::MAX - 2,
        flushes(files, t0, t1, before, after, r),
    ensures
        after.next_sst_id < u64::MAX,
{
    if before.memtable.spec_rows().len() != 0 {
        let (mid, m, f) = choose|mid: Engine, m: Seq<Step>, f: Result<(), EngineError>|
            #[trigger] flushes_memtable(files, t0, m, before, mid, f) && (after == mid || compacts(
                files,
                m,
                t1,
                mid,
                after,
                r,
            ));
        super::read_back::lemma_flushed_id(files, t0, m, before, mid, f);
        if after != mid {
            let reserved = Engine { next_sst_id: (mid.next_sst_id + 1) as u64, ..mid };
            if after != reserved {
                let (k, job) = choose|k: Seq<Step>, job: CompactionJob| #[trigger]
                    commits(k, t1, reserved, after, job, r);
                let (edit, done, d) = choose|edit: VersionEdit, done: Engine, d: Result<(), EngineError>|
                    #[trigger] edits(k, t1, reserved, done, edit, d) && after.next_sst_id == done.next_sst_id;
            }
        }
    }
}

/// No file that was given up is that of a live table.
pub proof fn no_live_table_was_given_up(engine: Engine, t: Seq<Step>, from: int, j: int, i: int)
    requires
        tidy(engine, t, from),
        from <= j < t.len(),
        0 <= i < engine.current.ssts@.len(),
    ensures
        t[j] != (Step::Retire { path: engine.current.ssts@[i].path@ }),
{
    let sst = engine.current.ssts@[i];
    let ids = ids_of(engine.current.ssts@);
    if t[j] == (Step::Retire { path: sst.path@ }) {
        assert(gives_up_past(t[j], engine.dir@, ids, engine.next_sst_id));
        let id = choose|id: u64| #[trigger] names_table(sst.path@, engine.dir@, id) && !ids.contains(id);
        lemma_names_one(sst.path@, engine.dir@, id, sst.id);
        assert(ids[i] == sst.id);
    }
}

proof fn lemma_listed_names(tables: Seq<Listed>, table: Listed, dir: Seq<char>)
    requires
        names_table(table.path, dir, table.id),
        forall|i: int| 0 <= i < tables.len() ==> names_table((#[trigger] tables[i]).path, dir, tables[i].id),
    ensures
        forall|i: int|
            0 <= i < with_table(tables, table).len() ==> names_table(
                (#[trigger] with_table(tables, table)[i]).path,
                dir,
                with_table(tables, table)[i].id,
            ),
    decreases tables.len(),
{
    if tables.len() > 0 && tables.last().id > table.id {
        let head = tables.drop_last();
        assert forall|i: int| 0 <= i < head.len() implies names_table((#[trigger] head[i]).path, dir, head[i].id) by {
            assert(head[i] == tables[i]);
        }
        lemma_listed_names(head, table, dir);
    }
    let all = with_table(tables, table);
    assert forall|i: int| 0 <= i < all.len() implies names_table((#[trigger] all[i]).path, dir, all[i].id) by {
        if tables.len() > 0 && tables.last().id > table.id {
            let rest = with_table(tables.drop_last(), table);
            if i < rest.len() {
                assert(all[i] == rest[i]);
            } else {
                assert(all[i] == tables[tables.len() - 1]);
            }
        } else if i < tables.len() {
            assert(all[i] == tables[i]);
        }
    }
}

/// The tables of a listing are named by their files.
pub proof fn lemma_tables_named(dir: Seq<char>, entries: Seq<DirEntry>)
    ensures
        forall|i: int|
            0 <= i < sst_tables(dir, entries).len() ==> names_table(
                (#[trigger] sst_tables(dir, entries)[i]).path,
                dir,
                sst_tables(dir, entries)[i].id,
            ),
    decreases entries.len(),
{
    if entries.len() > 0 {
        let rest = sst_tables(dir, entries.drop_last());
        lemma_tables_named(dir, entries.drop_last());
        if let Some(id) = sst_id_of(entries.last().name@) {
            let table = Listed { id, path: joined(dir, entries.last().name@), len: entries.last().len };
            assert(names_table(table.path, dir, id));
            lemma_listed_names(rest, table, dir);
        }
    }
}

/// The live tables of an opened store are named by their files, and none was
/// given up yet.
pub proof fn an_opened_store_keeps_the_files_of_live_tables<F: StoreRoot>(
    files: &F,
    t0: Seq<Step>,
    t1: Seq<Step>,
    options: EngineOptions,
    key: Option<&UserKey>,
    engine: Engine,
)
    requires
        opens(files, t0, t1, options, key, Ok(engine)),
    ensures
        tidy(engine, t1, t1.len() as int),
{
    let (store_id, active, encrypted, a) = lemma_opened(files, t0, t1, options, key, engine);
    let dir = active.dir@;
    let (lens, l) = choose|lens: (u64, u64), l: Result<Vec<DirEntry>, EngineError>|
        {
            &&& #[trigger] call_ensures(F::section_lens, (files, encrypted), lens)
            &&& #[trigger] gives_list(files, dir, l)
            &&& match l {
                Err(e) => false,
                Ok(entries) => exists|t: Result<Vec<Arc<BlockSstFile>>, EngineError>|
                    #[trigger] loads_tables(files, lens, sst_tables(dir, entries@), t) && match t {
                        Err(e) => false,
                        Ok(found) => opens_tables(
                            files,
                            a,
                            t1,
                            options,
                            store_id,
                            active,
                            encrypted,
                            sst_tables(dir, entries@),
                            found@,
                            Ok(engine),
                        ),
                    },
            }
        };
    let listed = sst_tables(dir, l->Ok_0@);
    let t = choose|t: Result<Vec<Arc<BlockSstFile>>, EngineError>|
        #[trigger] loads_tables(files, lens, listed, t) && match t {
            Err(e) => false,
            Ok(found) => opens_tables(files, a, t1, options, store_id, active, encrypted, listed, found@, Ok(engine)),
        };
    let found = t->Ok_0@;
    let (c, m) = choose|c: Result<LiveTables, EngineError>, m: Seq<Step>|
        #[trigger] confronts(files, a, m, dir, found, c) && match c {
            Err(e) => false,
            Ok(live) => exists|k: Recovered|
                k.live == live && k.active == active && #[trigger] opens_log(files, m, t1, options, k, Ok(engine)),
        };
    let k = choose|k: Recovered|
        k.live == c->Ok_0 && k.active == active && #[trigger] opens_log(files, m, t1, options, k, Ok(engine));
    let kept = engine.current.ssts@;
    assert(kept == c->Ok_0.ssts@);
    assert(engine.dir@ == dir);
    lemma_tables_named(dir, l->Ok_0@);
    assert forall|i: int| 0 <= i < kept.len() implies names_table((#[trigger] kept[i]).path@, dir, kept[i].id) by {
        if kept != found {
            let man = choose|man: SstManifest| #[trigger] confronts_with(a, m, dir, found, man, c);
            lemma_kept(found, man.live_sst_ids@);
        }
        assert(found.contains(kept[i]));
        let n = choose|n: int| 0 <= n < found.len() && found[n] == kept[i];
        let r: Result<BlockSstFile, EngineError> = Ok(*found[n]);
        assert(loads(files, listed[n].path, listed[n].id, listed[n].len, lens.0, lens.1, r));
        lemma_loaded_is_wf(files, listed[n].path, listed[n].id, listed[n].len, lens.0, lens.1, *found[n]);
    }
}

} // verus!
