//! What a call leaves to be read.
//!
//! Each law speaks of a call that succeeded, of lookups before and after it,
//! and of the counters: where the tables that the call writes read back, the
//! engine after it is true again, and answers as the call says.
use super::answer_laws::is_true;
use super::compact::{
    builds, commits, compacts, compacts_now, edits, flushes, flushes_memtable, is_next_version, publishes_flush,
    stages, CompactionJob,
};
use super::laws::{contents, get_answers_from_the_store, holds_tables, value_of};
use super::read::gets;
use super::read_back::{
    cached_below, compacting_leaves_one_table_without_tombstones, flush_reads_back, flushed_merge_reads_back,
    holds_in_place, lemma_flushed, lemma_live_answers, merge_reads_back,
};
use super::write::{applies, deletes, maybe_flushes, puts, writes};
use super::write_laws::a_write_changes_the_contents;
use super::{table_tombstones, Engine, StoreFiles};
use crate::error::EngineError;
use crate::store::rows;
use crate::store::rows::{live, put_rows, rows_map, slot_view, without_tombstones, Row, Slot};
use crate::store::sst_block::roundtrip::a_written_table_counts_its_tombstones;
use crate::store::sst_block::write::{tombstones_in, writes_new, WrittenSst};
use crate::store::sst_block::BlockSstFile;
use crate::store::trace::{appended_batch, appended_delete, appended_put, Step};
use crate::store::version::VersionEdit;
use crate::store::Value;
use vstd::prelude::*;

verus! {

/// What the last of `ops` on `key` says, if one is on it.
pub open spec fn last_op(ops: Seq<Row>, key: Seq<u8>) -> Option<Slot>
    decreases ops.len(),
{
    if ops.len() == 0 {
        None
    } else if ops.last().0 == key {
        Some(ops.last().1)
    } else {
        last_op(ops.drop_last(), key)
    }
}

proof fn lemma_last_op(map: Map<Seq<u8>, Slot>, ops: Seq<Row>, key: Seq<u8>)
    ensures
        value_of(put_rows(map, ops), key) == (match last_op(ops, key) {
            Some(slot) => slot,
            None => value_of(map, key),
        }),
    decreases ops.len(),
{
    if ops.len() > 0 {
        lemma_last_op(map, ops.drop_last(), key);
    }
}

/// Whatever tables the flush of a write that leaves `map` in the memtable
/// makes, and the merge that may follow, read as they were written.
pub open spec fn tables_read_back<F: StoreFiles>(
    files: &F,
    before: Engine,
    map: Map<Seq<u8>, Slot>,
    tables: Seq<Seq<Seq<Row>>>,
) -> bool {
    forall|mid: Engine| #[trigger]
        holds_in_place(before, mid, map) ==> flush_reads_back(files, mid)
            && flushed_merge_reads_back(files, mid, tables)
}

/// Lookups after a call answer as lookups before it, with `ops` put over them.
pub open spec fn reads_with<F: StoreFiles>(files: &F, before: Engine, after: Engine, ops: Seq<Row>) -> bool {
    forall|key: Seq<u8>, earlier: Engine, w: Option<Value>, later: Engine, v: Option<Value>|
        #[trigger] gets(files, before, earlier, key, Ok(w)) && #[trigger] gets(files, after, later, key, Ok(v))
            ==> slot_view(v) == (match last_op(ops, key) {
            Some(slot) => slot,
            None => slot_view(w),
        })
}

/// Engines whose contents are told by one another answer alike.
pub proof fn lemma_reads_with<F: StoreFiles>(
    files: &F,
    before: Engine,
    after: Engine,
    ops: Seq<Row>,
    tables: Seq<Seq<Seq<Row>>>,
    next: Seq<Seq<Seq<Row>>>,
)
    requires
        is_true(files, before, tables),
        is_true(files, after, next),
        live(contents(next, after.memtable.spec_rows())) == live(
            put_rows(contents(tables, before.memtable.spec_rows()), ops),
        ),
    ensures
        reads_with(files, before, after, ops),
{
    let old_map = contents(tables, before.memtable.spec_rows());
    let new_map = contents(next, after.memtable.spec_rows());
    assert forall|key: Seq<u8>, earlier: Engine, w: Option<Value>, later: Engine, v: Option<Value>|
        #[trigger] gets(files, before, earlier, key, Ok(w)) && #[trigger] gets(
            files,
            after,
            later,
            key,
            Ok(v),
        ) implies slot_view(v) == (match last_op(ops, key) {
        Some(slot) => slot,
        None => slot_view(w),
    }) by {
        get_answers_from_the_store(files, before, earlier, tables, key, w);
        get_answers_from_the_store(files, after, later, next, key, v);
        lemma_live_answers(new_map, put_rows(old_map, ops), key);
        lemma_last_op(old_map, ops, key);
    }
}

proof fn lemma_write_answers<F: StoreFiles>(
    files: &F,
    t0: Seq<Step>,
    t1: Seq<Step>,
    before: Engine,
    after: Engine,
    ops: Seq<Row>,
    w: Result<u64, EngineError>,
    r: Result<(), EngineError>,
    tables: Seq<Seq<Seq<Row>>>,
) -> (next: Seq<Seq<Seq<Row>>>)
    requires
        is_true(files, before, tables),
        cached_below(before.block_cache@, before.next_sst_id),
        before.next_sst_id < u64::MAX - 2,
        after.wf(),
        tables_read_back(files, before, put_rows(before.memtable@, ops), tables),
        writes(files, t0, t1, before, after, w, put_rows(before.memtable@, ops), r),
        r is Ok,
    ensures
        is_true(files, after, next),
        cached_below(after.block_cache@, after.next_sst_id),
        reads_with(files, before, after, ops),
        live(contents(next, after.memtable.spec_rows())) == live(
            put_rows(contents(tables, before.memtable.spec_rows()), ops),
        ),
        after.counters.wal_records == before.counters.wal_records.wrapping_add(1),
{
    let map = put_rows(before.memtable@, ops);
    let n = w->Ok_0;
    let mid = choose|mid: Engine|
        {
            &&& mid == (Engine { memtable: mid.memtable, counters: before.counters.with_log_record(n), ..before })
            &&& mid.memtable.wf()
            &&& mid.memtable@ == map
            &&& #[trigger] maybe_flushes(files, t0, t1, mid, after, r)
        };
    a_write_changes_the_contents(tables, before.memtable, mid.memtable, ops);
    assert(holds_in_place(before, mid, map));
    if mid.memtable.spec_rows().len() >= mid.options.memtable_flush_threshold {
        let next = lemma_flushed(files, t0, t1, mid, after, r, tables);
        lemma_flush_counts(files, t0, t1, mid, after, r);
        lemma_reads_with(files, before, after, ops, tables, next);
        next
    } else {
        lemma_reads_with(files, before, after, ops, tables, tables);
        tables
    }
}

/// A put that succeeded is read: the key gives the value, every other key what
/// it gave before, and one log record is counted.
pub proof fn a_put_answers<F: StoreFiles>(
    files: &F,
    t0: Seq<Step>,
    t1: Seq<Step>,
    before: Engine,
    after: Engine,
    key: Seq<u8>,
    value: Seq<u8>,
    r: Result<(), EngineError>,
    tables: Seq<Seq<Seq<Row>>>,
) -> (next: Seq<Seq<Seq<Row>>>)
    requires
        is_true(files, before, tables),
        cached_below(before.block_cache@, before.next_sst_id),
        before.next_sst_id < u64::MAX - 2,
        after.wf(),
        tables_read_back(files, before, before.memtable@.insert(key, Some(value)), tables),
        puts(files, t0, t1, before, after, key, value, r),
        r is Ok,
    ensures
        is_true(files, after, next),
        cached_below(after.block_cache@, after.next_sst_id),
        reads_with(files, before, after, seq![(key, Some(value))]),
        live(contents(next, after.memtable.spec_rows())) == live(
            put_rows(contents(tables, before.memtable.spec_rows()), seq![(key, Some(value))]),
        ),
        after.counters.wal_records == before.counters.wal_records.wrapping_add(1),
{
    let ops: Seq<Row> = seq![(key, Some(value))];
    super::durable::lemma_one_op(before.memtable@, key, Some(value));
    let map = before.memtable@.insert(key, Some(value));
    let (m, w) = choose|m: Seq<Step>, w: Result<u64, EngineError>|
        #[trigger] appended_put(t0, m, before.dir@, key, value, w) && writes(files, m, t1, before, after, w, map, r);
    lemma_write_answers(files, m, t1, before, after, ops, w, r, tables)
}

/// A delete that succeeded is read: the key gives no value, every other key
/// what it gave before, and one log record is counted.
pub proof fn a_delete_answers<F: StoreFiles>(
    files: &F,
    t0: Seq<Step>,
    t1: Seq<Step>,
    before: Engine,
    after: Engine,
    key: Seq<u8>,
    r: Result<(), EngineError>,
    tables: Seq<Seq<Seq<Row>>>,
) -> (next: Seq<Seq<Seq<Row>>>)
    requires
        is_true(files, before, tables),
        cached_below(before.block_cache@, before.next_sst_id),
        before.next_sst_id < u64::MAX - 2,
        after.wf(),
        tables_read_back(files, before, before.memtable@.insert(key, None), tables),
        deletes(files, t0, t1, before, after, key, r),
        r is Ok,
    ensures
        is_true(files, after, next),
        cached_below(after.block_cache@, after.next_sst_id),
        reads_with(files, before, after, seq![(key, None)]),
        live(contents(next, after.memtable.spec_rows())) == live(
            put_rows(contents(tables, before.memtable.spec_rows()), seq![(key, None)]),
        ),
        after.counters.wal_records == before.counters.wal_records.wrapping_add(1),
{
    let ops: Seq<Row> = seq![(key, None)];
    super::durable::lemma_one_op(before.memtable@, key, None);
    let map = before.memtable@.insert(key, None);
    let (m, w) = choose|m: Seq<Step>, w: Result<u64, EngineError>|
        #[trigger] appended_delete(t0, m, before.dir@, key, w) && writes(files, m, t1, before, after, w, map, r);
    lemma_write_answers(files, m, t1, before, after, ops, w, r, tables)
}

/// A batch that succeeded is read: a key gives what the last operation on it
/// says, every other key what it gave before. One log record is counted, and
/// none for an empty batch.
pub proof fn a_batch_answers<F: StoreFiles>(
    files: &F,
    t0: Seq<Step>,
    t1: Seq<Step>,
    before: Engine,
    after: Engine,
    ops: Seq<Row>,
    r: Result<(), EngineError>,
    tables: Seq<Seq<Seq<Row>>>,
) -> (next: Seq<Seq<Seq<Row>>>)
    requires
        is_true(files, before, tables),
        cached_below(before.block_cache@, before.next_sst_id),
        before.next_sst_id < u64::MAX - 2,
        after.wf(),
        tables_read_back(files, before, put_rows(before.memtable@, ops), tables),
        applies(files, t0, t1, before, after, ops, r),
        r is Ok,
    ensures
        is_true(files, after, next),
        cached_below(after.block_cache@, after.next_sst_id),
        reads_with(files, before, after, ops),
        live(contents(next, after.memtable.spec_rows())) == live(
            put_rows(contents(tables, before.memtable.spec_rows()), ops),
        ),
        after.counters.wal_records == (if ops.len() == 0 {
            before.counters.wal_records
        } else {
            before.counters.wal_records.wrapping_add(1)
        }),
{
    if ops.len() == 0 {
        lemma_reads_with(files, before, after, ops, tables, tables);
        tables
    } else {
        let (m, w) = choose|m: Seq<Step>, w: Result<u64, EngineError>|
            #[trigger] appended_batch(t0, m, before.dir@, ops, w) && writes(
                files,
                m,
                t1,
                before,
                after,
                w,
                put_rows(before.memtable@, ops),
                r,
            );
        lemma_write_answers(files, m, t1, before, after, ops, w, r, tables)
    }
}

/// What an edit leaves of the counters.
proof fn lemma_edit_counts(
    t0: Seq<Step>,
    t1: Seq<Step>,
    before: Engine,
    after: Engine,
    edit: VersionEdit,
    d: Result<(), EngineError>,
)
    requires
        edits(t0, t1, before, after, edit, d),
    ensures
        after.counters.wal_records == before.counters.wal_records,
        after.counters.compaction_count == before.counters.compaction_count,
{
}

/// What a merge leaves of the counters: one more compaction, where it was
/// committed.
proof fn lemma_merge_counts<F: StoreFiles>(
    files: &F,
    t0: Seq<Step>,
    t1: Seq<Step>,
    before: Engine,
    after: Engine,
    r: Result<(), EngineError>,
)
    requires
        compacts(files, t0, t1, before, after, r),
    ensures
        after.counters.wal_records == before.counters.wal_records,
        r is Ok ==> after.counters.compaction_count == before.counters.compaction_count.wrapping_add(1),
        r is Err ==> after.counters.compaction_count == before.counters.compaction_count,
{
    let reserved = Engine { next_sst_id: (before.next_sst_id + 1) as u64, ..before };
    if !(after == reserved && r is Err) {
        let (m, job) = choose|m: Seq<Step>, job: CompactionJob| #[trigger] commits(m, t1, reserved, after, job, r);
        let (edit, mid, d) = choose|edit: VersionEdit, mid: Engine, d: Result<(), EngineError>|
            #[trigger] edits(m, t1, reserved, mid, edit, d) && match d {
                Err(e) => r is Err && after == mid,
                Ok(()) => r is Ok && after == (Engine {
                    counters: mid.counters.with_compaction(job.input_bytes, job.output_bytes),
                    ..mid
                }),
            };
        lemma_edit_counts(m, t1, reserved, mid, edit, d);
    }
}

/// What a flush leaves of the counters: no log record, and one more
/// compaction where a merge followed.
proof fn lemma_flush_counts<F: StoreFiles>(
    files: &F,
    t0: Seq<Step>,
    t1: Seq<Step>,
    before: Engine,
    after: Engine,
    r: Result<(), EngineError>,
)
    requires
        flushes(files, t0, t1, before, after, r),
    ensures
        after.counters.wal_records == before.counters.wal_records,
        after.counters.compaction_count == before.counters.compaction_count || after.counters.compaction_count
            == before.counters.compaction_count.wrapping_add(1),
        before.memtable.spec_rows().len() == 0 ==> after == before,
{
    if before.memtable.spec_rows().len() != 0 {
        let (mid, m, f) = choose|mid: Engine, m: Seq<Step>, f: Result<(), EngineError>|
            #[trigger] flushes_memtable(files, t0, m, before, mid, f) && match f {
                Err(e) => after == mid && t1 == m,
                Ok(()) => if mid.options.auto_compact_on_flush && mid.current.ssts@.len()
                    > mid.options.compaction_sst_threshold {
                    compacts(files, m, t1, mid, after, r)
                } else {
                    after == mid && t1 == m
                },
            };
        lemma_written_out_counts(files, t0, m, before, mid, f);
        if f is Ok && mid.options.auto_compact_on_flush && mid.current.ssts@.len()
            > mid.options.compaction_sst_threshold {
            lemma_merge_counts(files, m, t1, mid, after, r);
        }
    }
}

proof fn lemma_written_out_counts<F: StoreFiles>(
    files: &F,
    t0: Seq<Step>,
    t1: Seq<Step>,
    before: Engine,
    after: Engine,
    r: Result<(), EngineError>,
)
    requires
        flushes_memtable(files, t0, t1, before, after, r),
    ensures
        after.counters.wal_records == before.counters.wal_records,
        after.counters.compaction_count == before.counters.compaction_count,
{
    let reserved = Engine { next_sst_id: (before.next_sst_id + 1) as u64, ..before };
    let (s, m) = choose|s: Result<BlockSstFile, EngineError>, m: Seq<Step>|
        {
            &&& #[trigger] stages(
                files,
                t0,
                m,
                before.dir@,
                before.next_sst_id,
                before.memtable.spec_rows(),
                before.options.block_size,
                s,
            )
            &&& match s {
                Err(e) => after == reserved,
                Ok(file) => publishes_flush(
                    m,
                    t1,
                    Engine { counters: reserved.counters.with_flush(file.file_bytes), ..reserved },
                    after,
                    file,
                    r,
                ),
            }
        };
    if let Ok(file) = s {
        let counted = Engine { counters: reserved.counters.with_flush(file.file_bytes), ..reserved };
        let (edit, mid, k, d) = choose|edit: VersionEdit, mid: Engine, k: Seq<Step>, d: Result<(), EngineError>|
            #[trigger] edits(m, k, counted, mid, edit, d) && after.counters == mid.counters;
        lemma_edit_counts(m, k, counted, mid, edit, d);
    }
}

proof fn lemma_no_tombstones(run: Seq<Row>)
    requires
        rows::sorted(run),
        forall|i: int| 0 <= i < run.len() ==> (#[trigger] run[i]).1 is Some,
    ensures
        tombstones_in(run) == 0,
    decreases run.len(),
{
    if run.len() > 0 {
        let head = run.drop_last();
        assert forall|i: int| 0 <= i < head.len() implies (#[trigger] head[i]).1 is Some by {
            assert(head[i] == run[i]);
        }
        rows::lemma_drop_last_map(run);
        lemma_no_tombstones(head);
        assert(run[run.len() - 1].1 is Some);
    }
}

/// A staged table without tombstones counts none.
pub proof fn lemma_staged_tombstones<F: StoreFiles>(
    files: &F,
    t0: Seq<Step>,
    t1: Seq<Step>,
    dir: Seq<char>,
    id: u64,
    run: Seq<Row>,
    map: Map<Seq<u8>, Slot>,
    block_size: u32,
    file: BlockSstFile,
)
    requires
        stages(files, t0, t1, dir, id, run, block_size, Ok(file)),
        rows::sorted(run),
        rows_map(run) == without_tombstones(map),
    ensures
        file.tombstones == 0,
{
    let w = choose|w: WrittenSst| #[trigger] writes_new(files, dir, id, run, block_size, Ok(w)) && w.file == file;
    a_written_table_counts_its_tombstones(files, dir, id, run, block_size, w);
    assert forall|i: int| 0 <= i < run.len() implies (#[trigger] run[i]).1 is Some by {
        rows::lemma_sorted_slot(run, i);
    }
    lemma_no_tombstones(run);
}

proof fn lemma_merged_tombstones<F: StoreFiles>(
    files: &F,
    t0: Seq<Step>,
    t1: Seq<Step>,
    before: Engine,
    after: Engine,
    r: Result<(), EngineError>,
)
    requires
        compacts(files, t0, t1, before, after, r),
        r is Ok,
        after.current.ssts@.len() == 1,
    ensures
        table_tombstones(after.current.ssts@) == 0,
{
    let id = before.next_sst_id;
    let size = before.options.block_size;
    let reserved = Engine { next_sst_id: (id + 1) as u64, ..before };
    let (j, m) = choose|j: Result<CompactionJob, EngineError>, m: Seq<Step>|
        {
            &&& #[trigger] builds(files, t0, m, *before.current, id, before.dir@, size, j)
            &&& match j {
                Err(e) => r is Err,
                Ok(job) => commits(m, t1, reserved, after, job, r),
            }
        };
    let job = j->Ok_0;
    let (found, run, s) = choose|found: Seq<Seq<Row>>, run: Seq<Row>, s: Result<BlockSstFile, EngineError>|
        {
            &&& #[trigger] super::compact::reads_tables(files, before.current.ssts@, found)
            &&& rows::sorted(run)
            &&& rows_map(run) == without_tombstones(crate::store::layers::layered(found))
            &&& #[trigger] stages(files, t0, m, before.dir@, id, run, size, s)
            &&& s matches Ok(file) && *job.merged == file
        };
    lemma_staged_tombstones(
        files,
        t0,
        m,
        before.dir@,
        id,
        run,
        crate::store::layers::layered(found),
        size,
        s->Ok_0,
    );
    let (edit, mid, d) = choose|edit: VersionEdit, mid: Engine, d: Result<(), EngineError>|
        edit.added@ == seq![job.merged] && #[trigger] edits(m, t1, reserved, mid, edit, d) && d is Ok && after.current
            == mid.current;
    let all = crate::store::version::survivors(before.current.ssts@, edit.deleted@) + edit.added@;
    let last = after.current.ssts@[0];
    crate::store::version::lemma_by_id(all);
    assert(is_next_version(*before.current, edit, *after.current));
    assert(all.len() == 1);
    assert(all[all.len() - 1] == job.merged);
    crate::store::version::lemma_same_tables(after.current.ssts@, all, last);
    assert(after.current.ssts@.contains(last));
    assert(last == job.merged);
    let none = after.current.ssts@.drop_last();
    assert(none.len() == 0);
    assert(table_tombstones(none) == 0);
}

/// Compacting, where it succeeds, leaves every lookup as it was, an empty
/// memtable, one table or, where there was nothing, none, no tombstone, and one
/// or two more compactions counted, none where there was nothing.
pub proof fn compacting_answers<F: StoreFiles>(
    files: &F,
    t0: Seq<Step>,
    t1: Seq<Step>,
    before: Engine,
    after: Engine,
    r: Result<(), EngineError>,
    tables: Seq<Seq<Seq<Row>>>,
) -> (next: Seq<Seq<Seq<Row>>>)
    requires
        is_true(files, before, tables),
        cached_below(before.block_cache@, before.next_sst_id),
        before.next_sst_id < u64::MAX - 2,
        after.wf(),
        flush_reads_back(files, before),
        flushed_merge_reads_back(files, before, tables),
        compacted_reads_back(files, before),
        compacts_now(files, t0, t1, before, after, r),
        r is Ok,
    ensures
        is_true(files, after, next),
        cached_below(after.block_cache@, after.next_sst_id),
        reads_with(files, before, after, Seq::empty()),
        after.memtable.spec_rows().len() == 0,
        table_tombstones(after.current.ssts@) == 0,
        if before.current.ssts@.len() == 0 && before.memtable.spec_rows().len() == 0 {
            after.current.ssts@.len() == 0 && after.counters.compaction_count == before.counters.compaction_count
        } else {
            after.current.ssts@.len() == 1 && (after.counters.compaction_count
                == before.counters.compaction_count.wrapping_add(1) || after.counters.compaction_count
                == before.counters.compaction_count.wrapping_add(1).wrapping_add(1))
        },
{
    let next = compacting_leaves_one_table_without_tombstones(files, t0, t1, before, after, r, tables);
    let (mid, m, f) = choose|mid: Engine, m: Seq<Step>, f: Result<(), EngineError>|
        #[trigger] flushes(files, t0, m, before, mid, f) && mid.wf() && f is Ok && if mid.current.ssts@.len() == 0 {
            after == mid && t1 == m
        } else {
            compacts(files, m, t1, mid, after, r)
        };
    lemma_flush_counts(files, t0, m, before, mid, f);
    let more = lemma_flushed(files, t0, m, before, mid, f, tables);
    if mid.current.ssts@.len() == 0 {
        assert(table_tombstones(after.current.ssts@) == 0);
        lemma_reads_with(files, before, after, Seq::empty(), tables, more);
        more
    } else {
        lemma_merge_counts(files, m, t1, mid, after, r);
        let last = super::read_back::lemma_compaction(files, m, t1, mid, after, r, more);
        lemma_merged_tombstones(files, m, t1, mid, after, r);
        assert(merge_reads_back(files, mid, more));
        lemma_reads_with(files, before, after, Seq::empty(), tables, last);
        last
    }
}

/// What the merge of a compaction of `before` makes reads back.
pub open spec fn compacted_reads_back<F: StoreFiles>(files: &F, before: Engine) -> bool {
    forall|t0: Seq<Step>, t1: Seq<Step>, mid: Engine, f: Result<(), EngineError>, tables: Seq<Seq<Seq<Row>>>|
        #[trigger] flushes(files, t0, t1, before, mid, f) && #[trigger] holds_tables(files, mid.current.ssts@, tables)
            ==> merge_reads_back(files, mid, tables)
}

} // verus!
