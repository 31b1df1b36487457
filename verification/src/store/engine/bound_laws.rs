//! What the options bound: the memtable, the number of tables, and how far a
//! page reads.
use super::compact::{
    builds, commits, compacts, edits, flushes, flushes_memtable, publishes_flush, stages, CompactionJob,
};
use super::write::{maybe_flushes, writes};
use super::write_laws::lemma_all_deleted;
use super::{Engine, StoreFiles};
use crate::error::EngineError;
use crate::key::Key;
use crate::store::rows;
use crate::store::rows::{keep_rows, rows_view, Row, Slot};
use crate::store::sst_block::scan::{reads_as, walked, walks_to, wanted_keys, Wanted};
use crate::store::sst_block::section_laws::a_block_is_what_its_index_entry_says;
use crate::store::sst_block::{all_rows, BlockSstFile, SstReader};
use crate::store::trace::Step;
use crate::store::version;
use crate::store::version::{ids_of, survivors, VersionEdit};
use crate::store::Value;
use vstd::prelude::*;

verus! {

proof fn lemma_edit_keeps_memtable(
    t0: Seq<Step>,
    t1: Seq<Step>,
    before: Engine,
    after: Engine,
    edit: VersionEdit,
    d: Result<(), EngineError>,
)
    requires
        edits(t0, t1, before, after, edit, d),
    ensures
        after.memtable == before.memtable,
        after.options == before.options,
{
}

proof fn lemma_merge_keeps_memtable<F: StoreFiles>(
    files: &F,
    t0: Seq<Step>,
    t1: Seq<Step>,
    before: Engine,
    after: Engine,
    r: Result<(), EngineError>,
)
    requires
        compacts(files, t0, t1, before, after, r),
    ensures
        after.memtable == before.memtable,
        r is Ok ==> after.current.ssts@.len() == 1,
{
    let id = before.next_sst_id;
    let reserved = Engine { next_sst_id: (id + 1) as u64, ..before };
    let (j, m) = choose|j: Result<CompactionJob, EngineError>, m: Seq<Step>|
        {
            &&& #[trigger] builds(files, t0, m, *before.current, id, before.dir@, before.options.block_size, j)
            &&& match j {
                Err(e) => r == Err::<(), EngineError>(e) && after == reserved && t1 == m,
                Ok(job) => commits(m, t1, reserved, after, job, r),
            }
        };
    if let Ok(job) = j {
        let (edit, mid, d) = choose|edit: VersionEdit, mid: Engine, d: Result<(), EngineError>|
            {
                &&& edit.added@ == seq![job.merged]
                &&& edit.deleted@ == job.deleted@
                &&& #[trigger] edits(m, t1, reserved, mid, edit, d)
                &&& match d {
                    Err(e) => r == Err::<(), EngineError>(e) && after == mid,
                    Ok(()) => r is Ok && after == (Engine {
                        counters: mid.counters.with_compaction(job.input_bytes, job.output_bytes),
                        ..mid
                    }),
                }
            };
        lemma_edit_keeps_memtable(m, t1, reserved, mid, edit, d);
        if r is Ok {
            let ssts = before.current.ssts@;
            assert forall|i: int| 0 <= i < ssts.len() implies job.deleted@.contains((#[trigger] ssts[i]).id) by {
                assert(ids_of(ssts)[i] == ssts[i].id);
            }
            lemma_all_deleted(ssts, job.deleted@);
            version::lemma_by_id(survivors(ssts, edit.deleted@) + edit.added@);
        }
    }
}

proof fn lemma_flush_empties<F: StoreFiles>(
    files: &F,
    t0: Seq<Step>,
    t1: Seq<Step>,
    before: Engine,
    after: Engine,
    r: Result<(), EngineError>,
)
    requires
        flushes(files, t0, t1, before, after, r),
        r is Ok,
    ensures
        after.memtable.spec_rows().len() == 0,
        before.memtable.spec_rows().len() > 0 && before.options.auto_compact_on_flush ==> after.current.ssts@.len() <= 1
            || after.current.ssts@.len() <= before.options.compaction_sst_threshold,
{
    if before.memtable.spec_rows().len() > 0 {
        let (mid, m, f) = choose|mid: Engine, m: Seq<Step>, f: Result<(), EngineError>|
            #[trigger] flushes_memtable(files, t0, m, before, mid, f) && mid.wf() && match f {
                Err(e) => r == Err::<(), EngineError>(e) && after == mid && t1 == m,
                Ok(()) => if mid.options.auto_compact_on_flush && mid.current.ssts@.len()
                    > mid.options.compaction_sst_threshold {
                    compacts(files, m, t1, mid, after, r)
                } else {
                    r is Ok && after == mid && t1 == m
                },
            };
        assert(f is Ok);
        let reserved = Engine { next_sst_id: (before.next_sst_id + 1) as u64, ..before };
        let (s, k) = choose|s: Result<BlockSstFile, EngineError>, k: Seq<Step>|
            {
                &&& #[trigger] stages(
                    files,
                    t0,
                    k,
                    before.dir@,
                    before.next_sst_id,
                    before.memtable.spec_rows(),
                    before.options.block_size,
                    s,
                )
                &&& match s {
                    Err(e) => f == Err::<(), EngineError>(e),
                    Ok(file) => publishes_flush(
                        k,
                        m,
                        Engine { counters: reserved.counters.with_flush(file.file_bytes), ..reserved },
                        mid,
                        file,
                        f,
                    ),
                }
            };
        let counted = Engine { counters: reserved.counters.with_flush(s->Ok_0.file_bytes), ..reserved };
        let (edit, last, q, d) = choose|edit: VersionEdit, last: Engine, q: Seq<Step>, d: Result<(), EngineError>|
            #[trigger] edits(k, q, counted, last, edit, d) && mid.options == last.options && mid.memtable@ == Map::<
                Seq<u8>,
                Slot,
            >::empty();
        lemma_edit_keeps_memtable(k, q, counted, last, edit, d);
        mid.memtable.iteration_is_sorted();
        if mid.memtable.spec_rows().len() > 0 {
            rows::lemma_sorted_slot(mid.memtable.spec_rows(), 0);
        }
        if !(after == mid) {
            lemma_merge_keeps_memtable(files, m, t1, mid, after, r);
        }
    }
}

/// A write that succeeds leaves the memtable below its threshold, if that is
/// not zero: at the threshold it is flushed.
pub proof fn a_write_leaves_the_memtable_below_its_threshold<F: StoreFiles>(
    files: &F,
    t0: Seq<Step>,
    t1: Seq<Step>,
    before: Engine,
    after: Engine,
    w: Result<u64, EngineError>,
    map: Map<Seq<u8>, Slot>,
    r: Result<(), EngineError>,
)
    requires
        writes(files, t0, t1, before, after, w, map, r),
        r is Ok,
    ensures
        after.memtable.spec_rows().len() < before.options.memtable_flush_threshold
            || after.memtable.spec_rows().len() == 0,
{
    let mid = choose|mid: Engine|
        #[trigger] maybe_flushes(files, t0, t1, mid, after, r) && mid.options == before.options;
    if mid.memtable.spec_rows().len() >= mid.options.memtable_flush_threshold {
        lemma_flush_empties(files, t0, t1, mid, after, r);
    }
}

/// Below its threshold a write makes no table: the memtable alone takes it.
pub proof fn a_write_below_the_threshold_makes_no_table<F: StoreFiles>(
    files: &F,
    t0: Seq<Step>,
    t1: Seq<Step>,
    before: Engine,
    after: Engine,
    w: Result<u64, EngineError>,
    map: Map<Seq<u8>, Slot>,
    r: Result<(), EngineError>,
)
    requires
        writes(files, t0, t1, before, after, w, map, r),
        forall|x: crate::store::memtable::Memtable|
            x.wf() && x@ == map ==> (#[trigger] x.spec_rows()).len() < before.options.memtable_flush_threshold,
    ensures
        t1 == t0,
        after.current == before.current,
{
    if w is Ok {
        let mid = choose|mid: Engine|
            #[trigger] maybe_flushes(files, t0, t1, mid, after, r) && mid.options == before.options && mid.current
                == before.current && mid.memtable.wf() && mid.memtable@ == map;
        assert(mid.memtable.spec_rows().len() < before.options.memtable_flush_threshold);
    }
}

/// A flush that succeeds leaves an empty memtable, and, where it may merge, no
/// more tables than the threshold allows, or one.
pub proof fn a_flush_keeps_the_number_of_tables_bounded<F: StoreFiles>(
    files: &F,
    t0: Seq<Step>,
    t1: Seq<Step>,
    before: Engine,
    after: Engine,
    r: Result<(), EngineError>,
)
    requires
        flushes(files, t0, t1, before, after, r),
        r is Ok,
    ensures
        after.memtable.spec_rows().len() == 0,
        before.memtable.spec_rows().len() > 0 && before.options.auto_compact_on_flush ==> after.current.ssts@.len() <= 1
            || after.current.ssts@.len() <= before.options.compaction_sst_threshold,
{
    lemma_flush_empties(files, t0, t1, before, after, r);
}

proof fn lemma_kept_len(all: Seq<Row>, keep: spec_fn(Seq<u8>) -> bool)
    ensures
        keep_rows(all, keep).len() <= all.len(),
    decreases all.len(),
{
    if all.len() > 0 {
        lemma_kept_len(all.drop_last(), keep);
    }
}

/// A walk with a limit reads no block once it has as many rows as the limit: it
/// gives fewer than the limit and one block more.
pub proof fn a_limited_walk_stops_at_its_limit<R: SstReader>(
    reader: &R,
    file: &BlockSstFile,
    wanted: Wanted,
    limit: usize,
    out: Seq<Row>,
    truncated: bool,
    blocks_read: u64,
)
    requires
        walks_to(reader, file, wanted, Some(limit), out, truncated, blocks_read),
    ensures
        out.len() == 0 || exists|i: int|
            0 <= i < file.block_index@.len() && out.len() < limit + (#[trigger] file.block_index@[i]).entry_count,
        truncated ==> out.len() >= limit,
{
    let (from, blocks) = choose|from: int, blocks: Seq<Seq<Row>>|
        {
            &&& #[trigger] walked(reader, file, wanted, Some(limit), from, blocks, out)
            &&& blocks_read == blocks.len()
            &&& truncated ==> out.len() >= limit
        };
    let keep = wanted_keys(wanted);
    if blocks.len() > 0 {
        let head = blocks.drop_last();
        let last = blocks.last();
        let i = from + blocks.len() - 1;
        assert(all_rows(blocks) == all_rows(head) + last);
        rows::lemma_keep_rows_concat(all_rows(head), last, keep);
        lemma_kept_len(last, keep);
        assert(reads_as(reader, file, i, blocks[blocks.len() - 1]));
        let v = choose|v: Vec<(Key, Option<Value>)>|
            #[trigger] crate::store::sst_block::read::reads_block(reader, file, i, Ok(v)) && last == rows_view(v@);
        a_block_is_what_its_index_entry_says(reader, file, i, v);
        assert(last.len() == file.block_index@[i].entry_count);
    } else {
        assert(all_rows(blocks).len() == 0);
        lemma_kept_len(all_rows(blocks), keep);
    }
}

} // verus!
