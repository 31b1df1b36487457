//! What a rebuild leaves alone.
use super::rebuild::{
    applies_staged, deletions, finds_dim, indexed, indexes, indexes_all, is_mapping, mapping_rows, maps_anew,
    maps_records, purges, rebuilds, rebuilds_from, rebuilds_fts, rebuilds_mappings, rebuilds_vectors, scans_prefix,
    IndexBuilder, LoadedV, RebuildReport,
};
use crate::bytes::{bytes_lt, has_prefix, lemma_lt_irreflexive};
use crate::error::EngineError;
use crate::key::{graph_index, memory_index, Key};
use crate::store::batch::Batch;
use crate::store::engine::compact::{
    builds, commits, compacts, edits, flushes, flushes_memtable, publishes, publishes_flush, retirements, stages,
    CompactionJob,
};
use crate::store::engine::crash_laws::{gives_up_deleted, lemma_retired_steps};
use crate::store::engine::durable::{durable, every_call_keeps_the_store_durable, Call, Origin};
use crate::store::engine::read::{gets, scanned, scanned_all, scans};
use crate::store::engine::write::{maybe_flushes, writes};
use crate::store::engine::{Engine, StoreFiles};
use crate::store::layers::{layered, lists, pairs_view};
use crate::store::rows;
use crate::store::rows::{keep_rows, live, mentions, put_rows, Row};
use crate::store::sst_block::scan::{walked, walks_to, wanted_keys, Wanted};
use crate::store::sst_block::write::{writes_new, WrittenSst};
use crate::store::sst_block::{all_rows, BlockSstFile};
use crate::store::trace::{appended_batch, goes_on, lemma_cut_early, reset, wrote_file, Step};
use crate::store::version::{first_missing, ids_of, Version, VersionEdit};
use crate::store::Value;
use vstd::prelude::*;

verus! {

/// The key of a primary record: a memory, an entity or an edge.
pub open spec fn is_primary(key: Seq<u8>) -> bool {
    ||| has_prefix(key, memory_index::RECORD_PREFIX@)
    ||| has_prefix(key, graph_index::ENTITY_PREFIX@)
    ||| has_prefix(key, graph_index::EDGE_PREFIX@)
}

/// No row is of a primary record.
pub open spec fn spares_records(ops: Seq<Row>) -> bool {
    forall|i: int| 0 <= i < ops.len() ==> !is_primary((#[trigger] ops[i]).0)
}

/// A step that puts no primary record into a log, and deletes none.
pub open spec fn is_sparing(step: Step) -> bool {
    match step {
        Step::AppendPut { dir, key, value, r } => !is_primary(key),
        Step::AppendDelete { dir, key, r } => !is_primary(key),
        Step::AppendBatch { dir, ops, r } => spares_records(ops),
        _ => true,
    }
}

/// From `t0` to `t1` no primary record was written or deleted.
pub open spec fn only_spared(t0: Seq<Step>, t1: Seq<Step>) -> bool {
    &&& goes_on(t0, t1)
    &&& forall|i: int| t0.len() <= i < t1.len() ==> is_sparing(#[trigger] t1[i])
}

proof fn lemma_spared_none(t: Seq<Step>)
    ensures
        only_spared(t, t),
{
    assert(t.take(t.len() as int) =~= t);
}

proof fn lemma_spared_one(t: Seq<Step>, step: Step)
    requires
        is_sparing(step),
    ensures
        only_spared(t, t.push(step)),
{
    assert(t.push(step).take(t.len() as int) =~= t);
}

proof fn lemma_spared_on(t0: Seq<Step>, m: Seq<Step>, t1: Seq<Step>)
    requires
        only_spared(t0, m),
        only_spared(m, t1),
    ensures
        only_spared(t0, t1),
{
    lemma_cut_early(t0, m, t1, 0);
    assert forall|i: int| t0.len() <= i < t1.len() implies is_sparing(#[trigger] t1[i]) by {
        if i < m.len() {
            assert(t1.take(m.len() as int)[i] == t1[i]);
        }
    }
}

/// Staging a table writes no record to the log.
pub proof fn lemma_stage_spares<F: StoreFiles>(
    files: &F,
    t0: Seq<Step>,
    t1: Seq<Step>,
    dir: Seq<char>,
    id: u64,
    run: Seq<Row>,
    block_size: u32,
    r: Result<BlockSstFile, EngineError>,
)
    requires
        stages(files, t0, t1, dir, id, run, block_size, r),
    ensures
        only_spared(t0, t1),
{
    let w = choose|w: Result<WrittenSst, EngineError>|
        #[trigger] writes_new(files, dir, id, run, block_size, w) && match w {
            Err(e) => t1 == t0,
            Ok(w) => exists|t: Result<(), EngineError>| #[trigger] wrote_file(t0, t1, w.file.path@, w.bytes@, t),
        };
    match w {
        Err(e) => {
            lemma_spared_none(t0);
        },
        Ok(w) => {
            let t = choose|t: Result<(), EngineError>| #[trigger] wrote_file(t0, t1, w.file.path@, w.bytes@, t);
            lemma_spared_one(t0, Step::WriteFile { path: w.file.path@, bytes: w.bytes@, r: t });
        },
    }
}

/// An edit writes no record to the log.
pub proof fn lemma_edit_spares(
    t0: Seq<Step>,
    t1: Seq<Step>,
    before: Engine,
    after: Engine,
    edit: VersionEdit,
    d: Result<(), EngineError>,
)
    requires
        edits(t0, t1, before, after, edit, d),
    ensures
        only_spared(t0, t1),
{
    let ssts = before.current.ssts@;
    if exists|i: int| first_missing(ids_of(ssts), edit.deleted@, i) {
        lemma_spared_none(t0);
    } else {
        let gone = retirements(ssts, edit.deleted@);
        let (next, m, p) = choose|next: Version, m: Seq<Step>, p: Result<(), EngineError>|
            #[trigger] publishes(t0, m, before.dir@, next, p) && (t1 == m || t1 == m + gone);
        let step = Step::PublishManifest {
            dir: before.dir@,
            generation: next.manifest_generation,
            live: ids_of(next.ssts@),
            r: p,
        };
        lemma_spared_one(t0, step);
        if t1 != m {
            lemma_retired_steps(ssts, edit.deleted@);
            assert(only_spared(m, t1)) by {
                assert(t1.take(m.len() as int) =~= m);
                assert forall|i: int| m.len() <= i < t1.len() implies is_sparing(#[trigger] t1[i]) by {
                    assert(t1[i] == gone[i - m.len()]);
                    assert(gives_up_deleted(gone[i - m.len()], ssts, edit.deleted@));
                }
            }
            lemma_spared_on(t0, m, t1);
        }
    }
}

/// A merge writes no record to the log.
pub proof fn lemma_merge_spares<F: StoreFiles>(
    files: &F,
    t0: Seq<Step>,
    t1: Seq<Step>,
    before: Engine,
    after: Engine,
    r: Result<(), EngineError>,
)
    requires
        compacts(files, t0, t1, before, after, r),
    ensures
        only_spared(t0, t1),
{
    let id = before.next_sst_id;
    let size = before.options.block_size;
    let reserved = Engine { next_sst_id: (id + 1) as u64, ..before };
    let (j, m) = choose|j: Result<CompactionJob, EngineError>, m: Seq<Step>|
        {
            &&& #[trigger] builds(files, t0, m, *before.current, id, before.dir@, size, j)
            &&& match j {
                Err(e) => t1 == m,
                Ok(job) => commits(m, t1, reserved, after, job, r),
            }
        };
    if m == t0 {
        lemma_spared_none(t0);
    } else {
        let (run, s) = choose|run: Seq<Row>, s: Result<BlockSstFile, EngineError>|
            #[trigger] stages(files, t0, m, before.dir@, id, run, size, s);
        lemma_stage_spares(files, t0, m, before.dir@, id, run, size, s);
    }
    if let Ok(job) = j {
        let (edit, mid, d) = choose|edit: VersionEdit, mid: Engine, d: Result<(), EngineError>|
            #[trigger] edits(m, t1, reserved, mid, edit, d);
        lemma_edit_spares(m, t1, reserved, mid, edit, d);
        lemma_spared_on(t0, m, t1);
    }
}

/// A flush writes no record to the log.
pub proof fn lemma_flush_spares<F: StoreFiles>(
    files: &F,
    t0: Seq<Step>,
    t1: Seq<Step>,
    before: Engine,
    after: Engine,
    r: Result<(), EngineError>,
)
    requires
        flushes(files, t0, t1, before, after, r),
    ensures
        only_spared(t0, t1),
{
    if before.memtable.spec_rows().len() == 0 {
        lemma_spared_none(t0);
    } else {
        let (mid, m, f) = choose|mid: Engine, m: Seq<Step>, f: Result<(), EngineError>|
            #[trigger] flushes_memtable(files, t0, m, before, mid, f)
                && (t1 == m || compacts(files, m, t1, mid, after, r));
        lemma_written_out_spares(files, t0, m, before, mid, f);
        if t1 != m {
            lemma_merge_spares(files, m, t1, mid, after, r);
            lemma_spared_on(t0, m, t1);
        }
    }
}

/// Writing the memtable out writes no record to the log.
pub proof fn lemma_written_out_spares<F: StoreFiles>(
    files: &F,
    t0: Seq<Step>,
    t1: Seq<Step>,
    before: Engine,
    after: Engine,
    r: Result<(), EngineError>,
)
    requires
        flushes_memtable(files, t0, t1, before, after, r),
    ensures
        only_spared(t0, t1),
{
    let run = before.memtable.spec_rows();
    let size = before.options.block_size;
    let id = before.next_sst_id;
    let reserved = Engine { next_sst_id: (id + 1) as u64, ..before };
    let (s, m) = choose|s: Result<BlockSstFile, EngineError>, m: Seq<Step>|
        {
            &&& #[trigger] stages(files, t0, m, before.dir@, id, run, size, s)
            &&& match s {
                Err(e) => t1 == m,
                Ok(file) => publishes_flush(
                    m,
                    t1,
                    Engine { counters: reserved.counters.with_flush(file.file_bytes), ..reserved },
                    after,
                    file,
                    r,
                ),
            }
        };
    lemma_stage_spares(files, t0, m, before.dir@, id, run, size, s);
    if let Ok(file) = s {
        let counted = Engine { counters: reserved.counters.with_flush(file.file_bytes), ..reserved };
        let (edit, mid, k, d) = choose|edit: VersionEdit, mid: Engine, k: Seq<Step>, d: Result<(), EngineError>|
            #[trigger] edits(m, k, counted, mid, edit, d) && (t1 == k || exists|t: Result<(), EngineError>|
                #[trigger] reset(k, t1, counted.dir@, t));
        lemma_edit_spares(m, k, counted, mid, edit, d);
        lemma_spared_on(t0, m, k);
        if t1 != k {
            let t = choose|t: Result<(), EngineError>| #[trigger] reset(k, t1, counted.dir@, t);
            lemma_spared_one(k, Step::ResetLog { dir: counted.dir@, r: t });
            lemma_spared_on(t0, k, t1);
        }
    }
}

/// Applying rows that spare the records spares them on disk.
pub proof fn lemma_applied_spares<F: StoreFiles>(
    files: &F,
    t0: Seq<Step>,
    t1: Seq<Step>,
    before: Engine,
    after: Engine,
    ops: Seq<Row>,
    r: Result<(), EngineError>,
)
    requires
        spares_records(ops),
        applies_staged(files, t0, t1, before, after, ops, r),
    ensures
        only_spared(t0, t1),
{
    if before.next_sst_id >= u64::MAX - 1 {
        lemma_spared_none(t0);
    } else {
        if ops.len() == 0 {
            lemma_spared_none(t0);
        } else {
            let (m, w) = choose|m: Seq<Step>, w: Result<u64, EngineError>|
                #[trigger] appended_batch(t0, m, before.dir@, ops, w) && writes(
                    files,
                    m,
                    t1,
                    before,
                    after,
                    w,
                    put_rows(before.memtable@, ops),
                    r,
                );
            lemma_spared_one(t0, Step::AppendBatch { dir: before.dir@, ops, r: w });
            match w {
                Err(e) => {},
                Ok(n) => {
                    let mid = choose|mid: Engine| #[trigger] maybe_flushes(files, m, t1, mid, after, r);
                    if mid.memtable.spec_rows().len() >= mid.options.memtable_flush_threshold {
                        lemma_flush_spares(files, m, t1, mid, after, r);
                    } else {
                        lemma_spared_none(m);
                    }
                    lemma_spared_on(t0, m, t1);
                },
            }
        }
    }
}

/// Applying rows that spare the records spares them on disk, and keeps the
/// store durable.
proof fn lemma_applied<F: StoreFiles>(
    files: &F,
    origin: Origin,
    t0: Seq<Step>,
    t1: Seq<Step>,
    before: Engine,
    after: Engine,
    ops: Seq<Row>,
    r: Result<(), EngineError>,
)
    requires
        durable(before, origin, t0),
        spares_records(ops),
        applies_staged(files, t0, t1, before, after, ops, r),
    ensures
        only_spared(t0, t1),
        durable(after, origin, t1),
{
    lemma_applied_spares(files, t0, t1, before, after, ops, r);
    if before.next_sst_id < u64::MAX - 1 {
        every_call_keeps_the_store_durable(files, origin, t0, t1, before, after, Call::Apply { rows: ops }, r);
    }
}

/// Rows that spare the records are applied, or a lookup is made.
pub open spec fn acts_sparing<F: StoreFiles>(
    files: &F,
    t0: Seq<Step>,
    t1: Seq<Step>,
    before: Engine,
    after: Engine,
) -> bool {
    ||| exists|ops: Seq<Row>, r: Result<(), EngineError>|
        spares_records(ops) && #[trigger] applies_staged(files, t0, t1, before, after, ops, r)
    ||| t1 == t0 && after.wf() && exists|key: Seq<u8>, g: Result<Option<Value>, EngineError>| #[trigger]
        gets(files, before, after, key, g)
}

/// `n` such acts, one after the other.
pub open spec fn runs_sparing<F: StoreFiles>(
    files: &F,
    t0: Seq<Step>,
    t1: Seq<Step>,
    before: Engine,
    after: Engine,
    n: nat,
) -> bool
    decreases n,
{
    if n == 0 {
        after == before && t1 == t0
    } else {
        exists|mid: Engine, m: Seq<Step>|
            runs_sparing(files, t0, m, before, mid, (n - 1) as nat) && #[trigger] acts_sparing(
                files,
                m,
                t1,
                mid,
                after,
            )
    }
}

/// Any number of such acts.
pub open spec fn is_sparing_run<F: StoreFiles>(
    files: &F,
    t0: Seq<Step>,
    t1: Seq<Step>,
    before: Engine,
    after: Engine,
) -> bool {
    exists|n: nat| #[trigger] runs_sparing(files, t0, t1, before, after, n)
}

proof fn lemma_no_run<F: StoreFiles>(files: &F, t: Seq<Step>, engine: Engine)
    ensures
        is_sparing_run(files, t, t, engine, engine),
{
    assert(runs_sparing(files, t, t, engine, engine, 0));
}

proof fn lemma_one_act<F: StoreFiles>(files: &F, t0: Seq<Step>, t1: Seq<Step>, before: Engine, after: Engine)
    requires
        acts_sparing(files, t0, t1, before, after),
    ensures
        is_sparing_run(files, t0, t1, before, after),
{
    assert(runs_sparing(files, t0, t0, before, before, 0));
    assert(runs_sparing(files, t0, t1, before, after, 1));
}

proof fn lemma_run_on<F: StoreFiles>(
    files: &F,
    t0: Seq<Step>,
    m: Seq<Step>,
    t1: Seq<Step>,
    before: Engine,
    mid: Engine,
    after: Engine,
)
    requires
        is_sparing_run(files, t0, m, before, mid),
        is_sparing_run(files, m, t1, mid, after),
    ensures
        is_sparing_run(files, t0, t1, before, after),
{
    let n = choose|n: nat| #[trigger] runs_sparing(files, m, t1, mid, after, n);
    lemma_acts_on(files, t0, m, t1, before, mid, after, n);
}

proof fn lemma_acts_on<F: StoreFiles>(
    files: &F,
    t0: Seq<Step>,
    m: Seq<Step>,
    t1: Seq<Step>,
    before: Engine,
    mid: Engine,
    after: Engine,
    n: nat,
)
    requires
        is_sparing_run(files, t0, m, before, mid),
        runs_sparing(files, m, t1, mid, after, n),
    ensures
        is_sparing_run(files, t0, t1, before, after),
    decreases n,
{
    if n > 0 {
        let (last, k) = choose|last: Engine, k: Seq<Step>|
            runs_sparing(files, m, k, mid, last, (n - 1) as nat) && #[trigger] acts_sparing(files, k, t1, last, after);
        lemma_acts_on(files, t0, m, k, before, mid, last, (n - 1) as nat);
        let l = choose|l: nat| #[trigger] runs_sparing(files, t0, k, before, last, l);
        assert(runs_sparing(files, t0, t1, before, after, l + 1));
    }
}

/// What a scan lists carries the prefix, each key once.
pub proof fn lemma_scanned_keys<F: StoreFiles>(
    files: &F,
    engine: Engine,
    prefix: Seq<u8>,
    entries: Vec<(Key, Value)>,
)
    requires
        scans_prefix(files, engine, prefix, Ok(entries)),
    ensures
        forall|i: int| 0 <= i < entries@.len() ==> has_prefix((#[trigger] entries@[i]).0@, prefix),
        forall|i: int, j: int|
            0 <= i < j < entries@.len() ==> (#[trigger] entries@[i]).0@ != (#[trigger] entries@[j]).0@,
{
    let p = choose|p: &[u8]| p@ == prefix && #[trigger] scans(files, engine, Wanted::Prefix(p), Ok(entries));
    let wanted = Wanted::Prefix(p);
    let keep = wanted_keys(wanted);
    let ssts = engine.current.ssts@;
    let mem = engine.memtable.spec_rows();
    let found = choose|found: Seq<Seq<Row>>|
        #[trigger] scanned_all(files, ssts, wanted, found) && lists(
            pairs_view(entries@),
            live(put_rows(layered(found), keep_rows(mem, keep))),
        );
    let map = put_rows(layered(found), keep_rows(mem, keep));
    assert forall|i: int, j: int| 0 <= i < j < entries@.len() implies (#[trigger] entries@[i]).0@ != (
    #[trigger] entries@[j]).0@ by {
        let view = pairs_view(entries@);
        assert(bytes_lt(view[i].0, view[j].0));
        lemma_lt_irreflexive(view[i].0);
    }
    assert forall|i: int, k: int| 0 <= i < found.len() && 0 <= k < found[i].len() implies keep(
        (#[trigger] found[i][k]).0,
    ) by {
        assert(scanned(files, &*ssts[i], wanted, found[i]));
        let n = choose|n: u64| #[trigger] walks_to(files, &*ssts[i], wanted, None, found[i], false, n);
        let (from, blocks) = choose|from: int, blocks: Seq<Seq<Row>>| #[trigger]
            walked(files, &*ssts[i], wanted, None, from, blocks, found[i]);
        rows::lemma_keep_rows(all_rows(blocks), keep);
    }
    rows::lemma_keep_rows(mem, keep);
    assert forall|i: int| 0 <= i < entries@.len() implies has_prefix((#[trigger] entries@[i]).0@, prefix) by {
        let key = pairs_view(entries@)[i].0;
        assert(live(map).contains_key(key));
        rows::lemma_put_rows_dom(layered(found), keep_rows(mem, keep), key);
        if mentions(keep_rows(mem, keep), key) {
            let n = choose|n: int| 0 <= n < keep_rows(mem, keep).len() && #[trigger] keep_rows(mem, keep)[n].0 == key;
            assert(keep(keep_rows(mem, keep)[n].0));
        } else {
            lemma_layered_keys(found, keep, key);
        }
        assert(keep(key));
    }
}

proof fn lemma_layered_keys(found: Seq<Seq<Row>>, keep: spec_fn(Seq<u8>) -> bool, key: Seq<u8>)
    requires
        forall|i: int, k: int| 0 <= i < found.len() && 0 <= k < found[i].len() ==> keep((#[trigger] found[i][k]).0),
        layered(found).contains_key(key),
    ensures
        keep(key),
    decreases found.len(),
{
    if found.len() > 0 {
        let head = found.drop_last();
        let last = found.last();
        rows::lemma_put_rows_dom(layered(head), last, key);
        if mentions(last, key) {
            let k = choose|k: int| 0 <= k < last.len() && #[trigger] last[k].0 == key;
            assert(keep(found[found.len() - 1][k].0));
        } else {
            assert forall|i: int, k: int| 0 <= i < head.len() && 0 <= k < head[i].len() implies keep(
                (#[trigger] head[i][k]).0,
            ) by {
                assert(head[i] == found[i]);
                assert(keep(found[i][k].0));
            }
            lemma_layered_keys(head, keep, key);
        }
    }
}

proof fn lemma_mapping_is_not_primary(key: Seq<u8>)
    requires
        has_prefix(key, memory_index::VECMAP_PREFIX@) || key == memory_index::META_KEY@,
    ensures
        !is_primary(key),
{
    assert(memory_index::VECMAP_PREFIX@[11] == 0x76 && memory_index::VECMAP_PREFIX@[4] == 0x6d);
    assert(memory_index::META_KEY@[11] == 0x6d && memory_index::META_KEY@[4] == 0x6d);
    assert(memory_index::RECORD_PREFIX@[11] == 0x72);
    assert(graph_index::ENTITY_PREFIX@[4] == 0x67);
    assert(graph_index::EDGE_PREFIX@[4] == 0x67);
    if has_prefix(key, memory_index::VECMAP_PREFIX@) {
        assert(key.subrange(0, 18)[11] == key[11]);
        assert(key.subrange(0, 18)[4] == key[4]);
    }
    if has_prefix(key, memory_index::RECORD_PREFIX@) {
        assert(key.subrange(0, 15)[11] == key[11]);
    }
    if has_prefix(key, graph_index::ENTITY_PREFIX@) {
        assert(key.subrange(0, graph_index::ENTITY_PREFIX@.len() as int)[4] == key[4]);
    }
    if has_prefix(key, graph_index::EDGE_PREFIX@) {
        assert(key.subrange(0, graph_index::EDGE_PREFIX@.len() as int)[4] == key[4]);
    }
}

proof fn lemma_mapping_rows_spare<B: IndexBuilder>(
    builder: &B,
    records: Seq<LoadedV>,
    entries: Seq<(Key, Value)>,
    mapped: Seq<Row>,
    allocator: Seq<u8>,
)
    requires
        forall|i: int| 0 <= i < entries.len() ==> has_prefix(
            (#[trigger] entries[i]).0@,
            memory_index::VECMAP_PREFIX@,
        ),
        maps_records(builder, records, records.len() as int, mapped),
    ensures
        spares_records(mapping_rows(entries, mapped, allocator)),
{
    let ops = mapping_rows(entries, mapped, allocator);
    let d = deletions(entries).len() as int;
    assert forall|i: int| 0 <= i < ops.len() implies !is_primary((#[trigger] ops[i]).0) by {
        if i < d {
            assert(ops[i].0 == entries[i].0@);
        } else if d < i && i < d + 1 + mapped.len() {
            let n = i - d - 1;
            assert(ops[i] == mapped[n]);
            assert(is_mapping(builder, records[n], mapped[n]));
            let key = memory_index::vecmap_key_bytes(records[n].vec_id);
            assert(key.subrange(0, memory_index::VECMAP_PREFIX@.len() as int) =~= memory_index::VECMAP_PREFIX@);
        }
        lemma_mapping_is_not_primary(ops[i].0);
    }
}

proof fn lemma_mappings_spare<F: StoreFiles, B: IndexBuilder>(
    files: &F,
    t0: Seq<Step>,
    t1: Seq<Step>,
    builder: &B,
    records: Seq<LoadedV>,
    before: Engine,
    after: Engine,
    r: Result<(), EngineError>,
)
    requires
        rebuilds_mappings(files, t0, t1, builder, records, before, after, r),
    ensures
        is_sparing_run(files, t0, t1, before, after),
{
    if after == before && t1 == t0 {
        lemma_no_run(files, t0, before);
    } else {
        let (entries, nodes, stored) = choose|
            entries: Vec<(Key, Value)>,
            nodes: Vec<(Key, Value)>,
            stored: Vec<(Key, Value)>,
        |
            #[trigger] scans_prefix(files, before, memory_index::VECMAP_PREFIX@, Ok(entries)) && #[trigger] maps_anew(
                files,
                t0,
                t1,
                builder,
                records,
                entries@,
                nodes@,
                stored@,
                before,
                after,
                r,
            );
        let (mapped, v) = choose|mapped: Seq<Row>, v: Vec<u8>| #[trigger]
            maps_records(builder, records, records.len() as int, mapped) && #[trigger] applies_staged(
                files,
                t0,
                t1,
                before,
                after,
                mapping_rows(entries@, mapped, v@),
                r,
            );
        let ops = mapping_rows(entries@, mapped, v@);
        lemma_scanned_keys(files, before, memory_index::VECMAP_PREFIX@, entries);
        lemma_mapping_rows_spare(builder, records, entries@, mapped, v@);
        assert(acts_sparing(files, t0, t1, before, after));
        lemma_one_act(files, t0, t1, before, after);
    }
}

/// What is staged spares the records.
pub open spec fn stages_no_records<B: IndexBuilder>(builder: &B) -> bool {
    &&& forall|engine: &Engine, agent: &str, vec_id: u64, content: &str, batch: Batch| #[trigger]
        call_ensures(B::stage_document, (builder, engine, agent, vec_id, content), Ok(batch)) ==> spares_records(batch@)
    &&& forall|engine: &Engine, dim: usize, batch: Batch| #[trigger]
        call_ensures(B::stage_vectors, (builder, engine, dim), Ok(batch)) ==> spares_records(batch@)
}

proof fn lemma_document_spares<F: StoreFiles, B: IndexBuilder>(
    files: &F,
    t0: Seq<Step>,
    t1: Seq<Step>,
    builder: &B,
    rec: LoadedV,
    before: Engine,
    after: Engine,
    r: Result<(), EngineError>,
)
    requires
        stages_no_records(builder),
        indexes(files, t0, t1, builder, rec, before, after, r),
    ensures
        is_sparing_run(files, t0, t1, before, after),
{
    if after == before && t1 == t0 {
        lemma_no_run(files, t0, before);
    } else {
        let (a, c, batch) = choose|a: &str, c: &str, batch: Batch|
            #[trigger] call_ensures(B::stage_document, (builder, &before, a, rec.vec_id, c), Ok(batch))
                && applies_staged(
                files,
                t0,
                t1,
                before,
                after,
                batch@,
                r,
            );
        assert(acts_sparing(files, t0, t1, before, after));
        lemma_one_act(files, t0, t1, before, after);
    }
}

proof fn lemma_documents_spare<F: StoreFiles, B: IndexBuilder>(
    files: &F,
    t0: Seq<Step>,
    t1: Seq<Step>,
    builder: &B,
    records: Seq<LoadedV>,
    n: int,
    before: Engine,
    after: Engine,
)
    requires
        stages_no_records(builder),
        indexed(files, t0, t1, builder, records, n, before, after),
    ensures
        is_sparing_run(files, t0, t1, before, after),
    decreases n,
{
    if n <= 0 {
        lemma_no_run(files, t0, before);
    } else {
        let (mid, m, r) = choose|mid: Engine, m: Seq<Step>, r: Result<(), EngineError>|
            r is Ok && indexed(files, t0, m, builder, records, n - 1, before, mid) && #[trigger] indexes(
                files,
                m,
                t1,
                builder,
                records[n - 1],
                mid,
                after,
                r,
            );
        lemma_documents_spare(files, t0, m, builder, records, n - 1, before, mid);
        lemma_document_spares(files, m, t1, builder, records[n - 1], mid, after, r);
        lemma_run_on(files, t0, m, t1, before, mid, after);
    }
}

proof fn lemma_texts_spare<F: StoreFiles, B: IndexBuilder>(
    files: &F,
    t0: Seq<Step>,
    t1: Seq<Step>,
    builder: &B,
    prefix: Seq<u8>,
    records: Seq<LoadedV>,
    before: Engine,
    after: Engine,
    r: Result<(), EngineError>,
)
    requires
        stages_no_records(builder),
        forall|key: Seq<u8>| #[trigger] has_prefix(key, prefix) ==> !is_primary(key),
        rebuilds_fts(files, t0, t1, builder, prefix, records, before, after, r),
    ensures
        is_sparing_run(files, t0, t1, before, after),
{
    let (mid, m, p) = choose|mid: Engine, m: Seq<Step>, p: Result<(), EngineError>|
        #[trigger] purges(files, t0, m, prefix, before, mid, p) && match p {
            Err(e) => after == mid && t1 == m,
            Ok(()) => indexes_all(files, m, t1, builder, records, mid, after, r),
        };
    if mid == before && m == t0 {
        lemma_no_run(files, t0, before);
    } else {
        let entries = choose|entries: Vec<(Key, Value)>|
            #[trigger] scans_prefix(files, before, prefix, Ok(entries)) && applies_staged(
                files,
                t0,
                m,
                before,
                mid,
                deletions(entries@),
                p,
            );
        lemma_scanned_keys(files, before, prefix, entries);
        let ops = deletions(entries@);
        assert forall|i: int| 0 <= i < ops.len() implies !is_primary((#[trigger] ops[i]).0) by {
            assert(has_prefix(entries@[i].0@, prefix));
        }
        assert(acts_sparing(files, t0, m, before, mid));
        lemma_one_act(files, t0, m, before, mid);
    }
    if p is Ok {
        match r {
            Ok(_) => {
                lemma_documents_spare(
                    files,
                    m,
                    t1,
                    builder,
                    records,
                    records.len() as int,
                    mid,
                    after,
                );
            },
            Err(e) => {
                let (n, last, k) = choose|n: int, last: Engine, k: Seq<Step>|
                    {
                        &&& 0 <= n < records.len()
                        &&& indexed(files, m, k, builder, records, n, mid, last)
                        &&& #[trigger] indexes(files, k, t1, builder, records[n], last, after, Err(e))
                    };
                lemma_documents_spare(files, m, k, builder, records, n, mid, last);
                lemma_document_spares(files, k, t1, builder, records[n], last, after, Err(e));
                lemma_run_on(files, m, k, t1, mid, last, after);
            },
        }
        lemma_run_on(files, t0, m, t1, before, mid, after);
    }
}

proof fn lemma_vectors_spare<F: StoreFiles, B: IndexBuilder>(
    files: &F,
    t0: Seq<Step>,
    t1: Seq<Step>,
    builder: &B,
    before: Engine,
    after: Engine,
    r: Result<bool, EngineError>,
)
    requires
        stages_no_records(builder),
        rebuilds_vectors(files, t0, t1, builder, before, after, r),
    ensures
        is_sparing_run(files, t0, t1, before, after),
{
    let (mid, d) = choose|mid: Engine, d: Result<Option<usize>, EngineError>|
        #[trigger] finds_dim(files, builder, before, mid, d) && match d {
            Err(e) => after == mid && t1 == t0,
            Ok(None) => after == mid && t1 == t0,
            Ok(Some(dim)) => exists|b: Result<Batch, EngineError>|
                #[trigger] call_ensures(B::stage_vectors, (builder, &mid, dim), b) && match b {
                    Err(e) => after == mid && t1 == t0,
                    Ok(batch) => exists|a: Result<(), EngineError>| #[trigger]
                        applies_staged(files, t0, t1, mid, after, batch@, a),
                },
        };
    assert(acts_sparing(files, t0, t0, before, mid));
    lemma_one_act(files, t0, t0, before, mid);
    if after == mid && t1 == t0 {
    } else {
        let dim = d->Ok_0->Some_0;
        let batch = choose|batch: Batch|
            #[trigger] call_ensures(B::stage_vectors, (builder, &mid, dim), Ok(batch))
                && exists|a: Result<(), EngineError>|
                #[trigger] applies_staged(files, t0, t1, mid, after, batch@, a);
        let a = choose|a: Result<(), EngineError>| #[trigger] applies_staged(files, t0, t1, mid, after, batch@, a);
        assert(acts_sparing(files, t0, t1, mid, after));
        lemma_one_act(files, t0, t1, mid, after);
        lemma_run_on(files, t0, t0, t1, before, mid, after);
    }
}

/// A rebuild is a run of acts that spare the records.
pub proof fn lemma_rebuild_runs_sparing<F: StoreFiles, B: IndexBuilder>(
    files: &F,
    t0: Seq<Step>,
    t1: Seq<Step>,
    builder: &B,
    prefix: Seq<u8>,
    before: Engine,
    after: Engine,
    r: Result<RebuildReport, EngineError>,
)
    requires
        stages_no_records(builder),
        forall|key: Seq<u8>| #[trigger] has_prefix(key, prefix) ==> !is_primary(key),
        rebuilds(files, t0, t1, builder, prefix, before, after, r),
    ensures
        is_sparing_run(files, t0, t1, before, after),
{
    if after == before && t1 == t0 {
        lemma_no_run(files, t0, before);
    } else {
        let (records, ids) = choose|records: Seq<LoadedV>, ids: Seq<u64>| #[trigger]
            rebuilds_from(files, t0, t1, builder, prefix, records, ids, before, after, r);
        let (mapped, a, m) = choose|mapped: Engine, a: Seq<Step>, m: Result<(), EngineError>|
            #[trigger] rebuilds_mappings(files, t0, a, builder, records, before, mapped, m) && match m {
                Err(e) => after == mapped && t1 == a,
                Ok(()) => exists|texted: Engine, b: Seq<Step>, t: Result<(), EngineError>|
                    #[trigger] rebuilds_fts(files, a, b, builder, prefix, records, mapped, texted, t) && match t {
                        Err(e) => after == texted && t1 == b,
                        Ok(()) => exists|v: Result<bool, EngineError>| #[trigger]
                            rebuilds_vectors(files, b, t1, builder, texted, after, v),
                    },
            };
        lemma_mappings_spare(files, t0, a, builder, records, before, mapped, m);
        if m is Ok {
            let (texted, b, t) = choose|texted: Engine, b: Seq<Step>, t: Result<(), EngineError>|
                #[trigger] rebuilds_fts(files, a, b, builder, prefix, records, mapped, texted, t) && match t {
                    Err(e) => after == texted && t1 == b,
                    Ok(()) => exists|v: Result<bool, EngineError>| #[trigger]
                        rebuilds_vectors(files, b, t1, builder, texted, after, v),
                };
            lemma_texts_spare(files, a, b, builder, prefix, records, mapped, texted, t);
            lemma_run_on(files, t0, a, b, before, mapped, texted);
            if t is Ok {
                let v = choose|v: Result<bool, EngineError>| #[trigger]
                    rebuilds_vectors(files, b, t1, builder, texted, after, v);
                lemma_vectors_spare(files, b, t1, builder, texted, after, v);
                lemma_run_on(files, t0, b, t1, before, texted, after);
            }
        }
    }
}

proof fn lemma_run_spares<F: StoreFiles>(
    files: &F,
    origin: Origin,
    t0: Seq<Step>,
    t1: Seq<Step>,
    before: Engine,
    after: Engine,
    n: nat,
)
    requires
        durable(before, origin, t0),
        runs_sparing(files, t0, t1, before, after, n),
    ensures
        only_spared(t0, t1),
        durable(after, origin, t1),
    decreases n,
{
    if n == 0 {
        lemma_spared_none(t0);
    } else {
        let (mid, m) = choose|mid: Engine, m: Seq<Step>|
            runs_sparing(files, t0, m, before, mid, (n - 1) as nat)
                && #[trigger] acts_sparing(files, m, t1, mid, after);
        lemma_run_spares(files, origin, t0, m, before, mid, (n - 1) as nat);
        if exists|ops: Seq<Row>, r: Result<(), EngineError>|
            spares_records(ops) && #[trigger] applies_staged(files, m, t1, mid, after, ops, r) {
            let (ops, r) = choose|ops: Seq<Row>, r: Result<(), EngineError>|
                spares_records(ops) && #[trigger] applies_staged(files, m, t1, mid, after, ops, r);
            lemma_applied(files, origin, m, t1, mid, after, ops, r);
            lemma_spared_on(t0, m, t1);
        } else {
            assert(after.same_but_cache(mid));
        }
    }
}

/// A rebuild never writes or deletes a primary record, whether or not it
/// succeeds, where what the builder stages and what lies under the full-text
/// prefix are none; and it leaves on disk what it leaves in memory.
pub proof fn a_rebuild_writes_no_primary_record<F: StoreFiles, B: IndexBuilder>(
    files: &F,
    origin: Origin,
    t0: Seq<Step>,
    t1: Seq<Step>,
    builder: &B,
    prefix: Seq<u8>,
    before: Engine,
    after: Engine,
    r: Result<RebuildReport, EngineError>,
)
    requires
        durable(before, origin, t0),
        stages_no_records(builder),
        forall|key: Seq<u8>| #[trigger] has_prefix(key, prefix) ==> !is_primary(key),
        rebuilds(files, t0, t1, builder, prefix, before, after, r),
    ensures
        only_spared(t0, t1),
        durable(after, origin, t1),
{
    lemma_rebuild_runs_sparing(files, t0, t1, builder, prefix, before, after, r);
    let n = choose|n: nat| #[trigger] runs_sparing(files, t0, t1, before, after, n);
    lemma_run_spares(files, origin, t0, t1, before, after, n);
}

} // verus!
