//! What a read gives back of a write.
//!
//! A write goes to the memtable, may be flushed to a table, and may be merged
//! with other tables, all in one call. Whatever of this happened, and whether
//! or not a later step failed, reading the store afterwards gives back what
//! was written, and of every other key what was there before.
use super::compact::{
    builds, commits, compacts, compacts_now, edits, flushes, flushes_memtable, publishes_flush, stages, CompactionJob,
};
use super::laws::{coherent, contents, holds_table, holds_tables, value_of};
use super::read::gets;
use super::write::{maybe_flushes, writes};
use super::write_laws::{
    a_compaction_keeps_every_live_entry, a_flush_keeps_the_contents, a_write_changes_the_contents, describes_table,
    an_edit_keeps_the_cache_true, merged_blocks,
};
use super::{laws, Engine, StoreFiles};
use crate::error::EngineError;
use crate::store::block_cache::Resident;
use crate::store::rows::{live, put_rows, slot_view, Row, Slot};
use crate::store::sst_block::write::split_blocks;
use crate::store::sst_block::{all_rows, BlockSstFile};
use crate::store::trace::Step;
use crate::store::version::{ids_ascend, Version, VersionEdit};
use crate::store::Value;
use std::sync::Arc;
use vstd::prelude::*;

verus! {

/// `tables` are the blocks of the live tables, as far as the engine keeps them
/// resident.
pub open spec fn described(ssts: Seq<Arc<BlockSstFile>>, tables: Seq<Seq<Seq<Row>>>) -> bool {
    &&& tables.len() == ssts.len()
    &&& forall|i: int| 0 <= i < ssts.len() ==> describes_table(&*ssts[i], #[trigger] tables[i])
}

/// Nothing is cached of a table that is still to come.
pub open spec fn cached_below(cache: Seq<Resident>, next_sst_id: u64) -> bool {
    forall|c: int| 0 <= c < cache.len() ==> (#[trigger] cache[c]).sst_id < next_sst_id
}

/// The cache tells the truth of the tables, and knows none still to come.
pub open spec fn cache_is_true(engine: Engine, tables: Seq<Seq<Seq<Row>>>) -> bool {
    coherent(engine.block_cache@, engine.current.ssts@, tables) && cached_below(
        engine.block_cache@,
        engine.next_sst_id,
    )
}

/// The blocks that a flush of `engine` cuts its memtable into.
pub open spec fn flushed_blocks(engine: Engine) -> Seq<Seq<Row>> {
    split_blocks(engine.memtable.spec_rows(), engine.options.block_size as nat)
}

/// Whatever table a flush of `engine` makes gives the memtable's rows when it
/// is read.
pub open spec fn flush_reads_back<F: StoreFiles>(files: &F, engine: Engine) -> bool {
    forall|t0: Seq<Step>, t1: Seq<Step>, mid: Engine, f: Result<(), EngineError>|
        #[trigger] flushes_memtable(files, t0, t1, engine, mid, f)
            && mid.current.ssts@.len() > engine.current.ssts@.len()
            ==> holds_table(files, &*mid.current.ssts@.last(), flushed_blocks(engine))
}

/// Maps with the same live entries answer alike.
pub proof fn lemma_live_answers(a: Map<Seq<u8>, Slot>, b: Map<Seq<u8>, Slot>, key: Seq<u8>)
    requires
        live(a) == live(b),
    ensures
        value_of(a, key) == value_of(b, key),
{
    assert(live(a).contains_key(key) == live(b).contains_key(key));
    if live(a).contains_key(key) {
        assert(live(a)[key] == live(b)[key]);
    }
}

/// The cache after the one edit of a flush.
pub proof fn lemma_flush_cache<F: StoreFiles>(
    files: &F,
    t0: Seq<Step>,
    t1: Seq<Step>,
    before: Engine,
    after: Engine,
    r: Result<(), EngineError>,
    tables: Seq<Seq<Seq<Row>>>,
)
    requires
        before.wf(),
        before.next_sst_id < u64::MAX,
        ids_ascend(before.current.ssts@),
        cache_is_true(before, tables),
        tables.len() == before.current.ssts@.len(),
        flushes_memtable(files, t0, t1, before, after, r),
        after.current.ssts@.len() == before.current.ssts@.len() + 1,
        after.current.ssts@.drop_last() == before.current.ssts@,
    ensures
        cache_is_true(after, tables.push(flushed_blocks(before))),
        ids_ascend(after.current.ssts@),
{
    let reserved = Engine { next_sst_id: (before.next_sst_id + 1) as u64, ..before };
    let (s, staged) = choose|s: Result<BlockSstFile, EngineError>, m: Seq<Step>|
        {
            &&& #[trigger] stages(
                files,
                t0,
                m,
                before.dir@,
                before.next_sst_id,
                before.memtable.spec_rows(),
                before.options.block_size,
                s,
            )
            &&& match s {
                Err(e) => r == Err::<(), EngineError>(e) && after == reserved && t1 == m,
                Ok(file) => publishes_flush(
                    m,
                    t1,
                    Engine { counters: reserved.counters.with_flush(file.file_bytes), ..reserved },
                    after,
                    file,
                    r,
                ),
            }
        };
    let file = s->Ok_0;
    super::write_laws::a_staged_table_holds_its_rows(
        files,
        t0,
        staged,
        before.dir@,
        before.next_sst_id,
        before.memtable.spec_rows(),
        before.options.block_size,
        file,
    );
    let counted = Engine { counters: reserved.counters.with_flush(file.file_bytes), ..reserved };
    let (edit, mid, m, d) = choose|edit: VersionEdit, mid: Engine, m: Seq<Step>, d: Result<(), EngineError>|
        {
            &&& edit.added@.len() == 1
            &&& *edit.added@[0] == file
            &&& edit.deleted@.len() == 0
            &&& #[trigger] edits(staged, m, counted, mid, edit, d)
            &&& match d {
                Err(e) => r == Err::<(), EngineError>(e) && after == mid,
                Ok(()) => after.current == mid.current && after.block_cache == mid.block_cache && after.next_sst_id
                    == mid.next_sst_id,
            }
        };
    assert(d is Ok);
    let next = tables.push(flushed_blocks(before));
    let ssts = before.current.ssts@;
    let added = edit.added@[0];
    assert(edit.added@ =~= seq![added]);
    super::write_laws::lemma_added_last(staged, m, counted, mid, edit, added);
    let all = mid.current.ssts@;
    assert forall|i: int, j: int| 0 <= i < j < all.len() implies (#[trigger] all[i]).id < (#[trigger] all[j]).id by {
        assert(all[i] == ssts[i]);
        if j < ssts.len() {
            assert(all[j] == ssts[j]);
        }
    }
    assert forall|i: int, j: int|
        0 <= i < next.len() && 0 <= j < tables.len() && #[trigger] mid.current.ssts@[i]
            == #[trigger] counted.current.ssts@[j] implies next[i] == tables[j] by {
        if i < ssts.len() {
            assert(after.current.ssts@.drop_last()[i] == ssts[i]);
            if i < j {
                assert(ssts[i].id < ssts[j].id);
            } else if j < i {
                assert(ssts[j].id < ssts[i].id);
            }
        } else {
            assert(all[j] == ssts[j]);
            assert(all[j].id < all[i].id);
        }
    }
    an_edit_keeps_the_cache_true(staged, m, counted, mid, edit, tables, next);
    super::write_laws::lemma_cache_shrinks(staged, m, counted, mid, edit);
}

/// The version that is current.
pub open spec fn version_of(engine: Engine) -> Version {
    *engine.current
}

/// The tables after a merge of them all, and the cache.
pub proof fn lemma_compaction<F: StoreFiles>(
    files: &F,
    t0: Seq<Step>,
    t1: Seq<Step>,
    before: Engine,
    after: Engine,
    r: Result<(), EngineError>,
    tables: Seq<Seq<Seq<Row>>>,
) -> (next: Seq<Seq<Seq<Row>>>)
    requires
        before.wf(),
        before.next_sst_id < u64::MAX,
        holds_tables(files, before.current.ssts@, tables),
        cache_is_true(before, tables),
        compacts(files, t0, t1, before, after, r),
    ensures
        described(after.current.ssts@, next),
        cache_is_true(after, next),
        r is Err ==> after.current == before.current,
        r is Ok ==> next == seq![merged_blocks(tables, before.options.block_size as nat)] && forall|i: int|
            0 <= i < all_rows(next[0]).len() ==> (#[trigger] all_rows(next[0])[i]).1 is Some,
        live(contents(next, after.memtable.spec_rows())) == live(contents(tables, before.memtable.spec_rows())),
{
    let ssts = before.current.ssts@;
    let n = ssts.len() as int;
    let reserved = Engine { next_sst_id: (before.next_sst_id + 1) as u64, ..before };
    let (j, m) = choose|j: Result<CompactionJob, EngineError>, m: Seq<Step>|
        {
            &&& #[trigger] builds(
                files,
                t0,
                m,
                *before.current,
                before.next_sst_id,
                before.dir@,
                before.options.block_size,
                j,
            )
            &&& match j {
                Err(e) => r == Err::<(), EngineError>(e) && after == reserved && t1 == m,
                Ok(job) => commits(m, t1, reserved, after, job, r),
            }
        };
    assert(described(ssts, tables)) by {
        assert forall|i: int| 0 <= i < n implies describes_table(&*ssts[i], #[trigger] tables[i]) by {
            assert(holds_table(files, &*ssts[i], tables[i]));
        }
    }
    if j is Ok && r is Ok {
        let job = j->Ok_0;
        assert(ssts.subrange(0, n) =~= ssts);
        assert(commits(m, t1, reserved, after, job, Ok(())));
        let blocks = a_compaction_keeps_every_live_entry(
            files,
            (t0, m),
            (m, t1),
            version_of(before),
            before.next_sst_id,
            before.dir@,
            before.options.block_size,
            job,
            reserved,
            after,
            tables,
        );
        assert(tables.subrange(0, n) =~= tables);
        let next = seq![blocks] + tables.subrange(n, n);
        assert(next =~= seq![blocks]);
        assert(after.current.ssts@ =~= seq![job.merged]);
        lemma_merged_cache(m, t1, before, after, job, tables, blocks);
        next
    } else {
        if j is Ok {
            lemma_refused_commit(m, t1, reserved, after, j->Ok_0, r);
        }
        tables
    }
}

/// A merge that is not committed changes nothing.
pub proof fn lemma_refused_commit(
    t0: Seq<Step>,
    t1: Seq<Step>,
    before: Engine,
    after: Engine,
    job: CompactionJob,
    r: Result<(), EngineError>,
)
    requires
        commits(t0, t1, before, after, job, r),
        r is Err,
    ensures
        after == before,
{
    let (edit, mid, d) = choose|edit: VersionEdit, mid: Engine, d: Result<(), EngineError>|
        {
            &&& edit.added@ == seq![job.merged]
            &&& edit.deleted@ == job.deleted@
            &&& #[trigger] edits(t0, t1, before, mid, edit, d)
            &&& match d {
                Err(e) => r == Err::<(), EngineError>(e) && after == mid,
                Ok(()) => false,
            }
        };
}

/// The cache after the edit of a merge of all tables.
proof fn lemma_merged_cache(
    t0: Seq<Step>,
    t1: Seq<Step>,
    before: Engine,
    after: Engine,
    job: CompactionJob,
    tables: Seq<Seq<Seq<Row>>>,
    blocks: Seq<Seq<Row>>,
)
    requires
        before.wf(),
        before.next_sst_id < u64::MAX,
        tables.len() == before.current.ssts@.len(),
        cache_is_true(before, tables),
        job.merged.id == before.next_sst_id,
        commits(t0, t1, Engine { next_sst_id: (before.next_sst_id + 1) as u64, ..before }, after, job, Ok(())),
        after.current.ssts@ == seq![job.merged],
    ensures
        cache_is_true(after, seq![blocks]),
{
    let reserved = Engine { next_sst_id: (before.next_sst_id + 1) as u64, ..before };
    let (edit, mid, d) = choose|edit: VersionEdit, mid: Engine, d: Result<(), EngineError>|
        {
            &&& edit.added@ == seq![job.merged]
            &&& edit.deleted@ == job.deleted@
            &&& #[trigger] edits(t0, t1, reserved, mid, edit, d)
            &&& match d {
                Err(e) => false,
                Ok(()) => after.current == mid.current && after.block_cache == mid.block_cache && after.next_sst_id
                    == mid.next_sst_id,
            }
        };
    let next = seq![blocks];
    assert forall|i: int, k: int|
        0 <= i < next.len() && 0 <= k < tables.len() && #[trigger] mid.current.ssts@[i]
            == #[trigger] reserved.current.ssts@[k] implies next[i] == tables[k] by {
        assert(before.current.ssts@[k].id < before.next_sst_id);
    }
    an_edit_keeps_the_cache_true(t0, t1, reserved, mid, edit, tables, next);
    super::write_laws::lemma_cache_shrinks(t0, t1, reserved, mid, edit);
}

/// A flush, with the merge that may follow it, keeps every live entry, whether
/// or not it succeeds.
pub proof fn a_flush_and_its_merge_keep_every_live_entry<F: StoreFiles>(
    files: &F,
    t0: Seq<Step>,
    t1: Seq<Step>,
    before: Engine,
    after: Engine,
    r: Result<(), EngineError>,
    tables: Seq<Seq<Seq<Row>>>,
) -> (next: Seq<Seq<Seq<Row>>>)
    requires
        before.wf(),
        before.next_sst_id < u64::MAX - 1,
        holds_tables(files, before.current.ssts@, tables),
        cache_is_true(before, tables),
        flush_reads_back(files, before),
        flushes(files, t0, t1, before, after, r),
    ensures
        described(after.current.ssts@, next),
        cache_is_true(after, next),
        live(contents(next, after.memtable.spec_rows())) == live(contents(tables, before.memtable.spec_rows())),
{
    let ssts = before.current.ssts@;
    assert(described(ssts, tables)) by {
        assert forall|i: int| 0 <= i < ssts.len() implies describes_table(&*ssts[i], #[trigger] tables[i]) by {
            assert(holds_table(files, &*ssts[i], tables[i]));
        }
    }
    if before.memtable.spec_rows().len() == 0 {
        tables
    } else {
        let (mid, m, f) = choose|mid: Engine, m: Seq<Step>, f: Result<(), EngineError>|
            #[trigger] flushes_memtable(files, t0, m, before, mid, f) && mid.wf() && match f {
                Err(e) => r == Err::<(), EngineError>(e) && after == mid && t1 == m,
                Ok(()) => if mid.options.auto_compact_on_flush && mid.current.ssts@.len()
                    > mid.options.compaction_sst_threshold {
                    compacts(files, m, t1, mid, after, r)
                } else {
                    r is Ok && after == mid && t1 == m
                },
            };
        a_flush_keeps_the_contents(files, t0, m, before, mid, f, tables);
        if mid.current == before.current && mid.memtable == before.memtable && f is Err {
            lemma_failed_flush(files, t0, m, before, mid, f);
            tables
        } else {
            let more = tables.push(flushed_blocks(before));
            lemma_flush_cache(files, t0, m, before, mid, f, tables);
            assert(holds_tables(files, mid.current.ssts@, more)) by {
                let all = mid.current.ssts@;
                assert forall|i: int| 0 <= i < all.len() implies holds_table(files, &*all[i], #[trigger] more[i]) by {
                    if i < ssts.len() {
                        assert(all.drop_last()[i] == ssts[i]);
                        assert(holds_table(files, &*ssts[i], tables[i]));
                    }
                }
            }
            assert(described(mid.current.ssts@, more)) by {
                let all = mid.current.ssts@;
                assert forall|i: int| 0 <= i < all.len() implies describes_table(&*all[i], #[trigger] more[i]) by {
                    assert(holds_table(files, &*all[i], more[i]));
                }
            }
            if f is Ok && mid.options.auto_compact_on_flush && mid.current.ssts@.len()
                > mid.options.compaction_sst_threshold {
                lemma_flushed_id(files, t0, m, before, mid, f);
                lemma_compaction(files, m, t1, mid, after, r, more)
            } else {
                more
            }
        }
    }
}

/// A flush takes one id.
pub proof fn lemma_flushed_id<F: StoreFiles>(
    files: &F,
    t0: Seq<Step>,
    t1: Seq<Step>,
    before: Engine,
    after: Engine,
    r: Result<(), EngineError>,
)
    requires
        before.next_sst_id < u64::MAX,
        flushes_memtable(files, t0, t1, before, after, r),
    ensures
        after.next_sst_id == before.next_sst_id + 1,
{
    let reserved = Engine { next_sst_id: (before.next_sst_id + 1) as u64, ..before };
    let (s, staged) = choose|s: Result<BlockSstFile, EngineError>, m: Seq<Step>|
        {
            &&& #[trigger] stages(
                files,
                t0,
                m,
                before.dir@,
                before.next_sst_id,
                before.memtable.spec_rows(),
                before.options.block_size,
                s,
            )
            &&& match s {
                Err(e) => r == Err::<(), EngineError>(e) && after == reserved && t1 == m,
                Ok(file) => publishes_flush(
                    m,
                    t1,
                    Engine { counters: reserved.counters.with_flush(file.file_bytes), ..reserved },
                    after,
                    file,
                    r,
                ),
            }
        };
    if let Ok(file) = s {
        let counted = Engine { counters: reserved.counters.with_flush(file.file_bytes), ..reserved };
        let (edit, mid, m, d) = choose|edit: VersionEdit, mid: Engine, m: Seq<Step>, d: Result<(), EngineError>|
            #[trigger] edits(staged, m, counted, mid, edit, d) && after.next_sst_id == mid.next_sst_id;
    }
}

/// A flush that brought no table caches nothing.
pub proof fn lemma_failed_flush<F: StoreFiles>(
    files: &F,
    t0: Seq<Step>,
    t1: Seq<Step>,
    before: Engine,
    after: Engine,
    r: Result<(), EngineError>,
)
    requires
        before.wf(),
        before.next_sst_id < u64::MAX,
        flushes_memtable(files, t0, t1, before, after, r),
        after.current == before.current,
    ensures
        after.block_cache == before.block_cache,
        after.next_sst_id > before.next_sst_id,
{
    lemma_flushed_id(files, t0, t1, before, after, r);
    let reserved = Engine { next_sst_id: (before.next_sst_id + 1) as u64, ..before };
    let (s, staged) = choose|s: Result<BlockSstFile, EngineError>, m: Seq<Step>|
        {
            &&& #[trigger] stages(
                files,
                t0,
                m,
                before.dir@,
                before.next_sst_id,
                before.memtable.spec_rows(),
                before.options.block_size,
                s,
            )
            &&& match s {
                Err(e) => r == Err::<(), EngineError>(e) && after == reserved && t1 == m,
                Ok(file) => publishes_flush(
                    m,
                    t1,
                    Engine { counters: reserved.counters.with_flush(file.file_bytes), ..reserved },
                    after,
                    file,
                    r,
                ),
            }
        };
    if let Ok(file) = s {
        let counted = Engine { counters: reserved.counters.with_flush(file.file_bytes), ..reserved };
        let (edit, mid, m, d) = choose|edit: VersionEdit, mid: Engine, m: Seq<Step>, d: Result<(), EngineError>|
            {
                &&& edit.added@.len() == 1
                &&& edit.deleted@.len() == 0
                &&& #[trigger] edits(staged, m, counted, mid, edit, d)
                &&& after.current == mid.current
                &&& after.block_cache == mid.block_cache
            };
        let generation = counted.current.manifest_generation;
        assert(generation.wrapping_add(1) != generation);
        assert(d is Err);
    }
}

/// Whatever table a merge of `tables` makes gives the merged rows when it is
/// read.
pub open spec fn merge_reads_back<F: StoreFiles>(files: &F, engine: Engine, tables: Seq<Seq<Seq<Row>>>) -> bool {
    forall|t0: Seq<Step>, t1: Seq<Step>, after: Engine, r: Result<(), EngineError>|
        #[trigger] compacts(files, t0, t1, engine, after, r) && r is Ok
            && after.current.ssts@.len() == 1 ==> holds_table(
            files,
            &*after.current.ssts@[0],
            merged_blocks(tables, engine.options.block_size as nat),
        )
}

/// What a merge makes after a flush of `engine` reads back.
pub open spec fn flushed_merge_reads_back<F: StoreFiles>(
    files: &F,
    engine: Engine,
    tables: Seq<Seq<Seq<Row>>>,
) -> bool {
    forall|t0: Seq<Step>, t1: Seq<Step>, mid: Engine, f: Result<(), EngineError>|
        #[trigger] flushes_memtable(files, t0, t1, engine, mid, f) && f is Ok ==> merge_reads_back(
            files,
            mid,
            tables.push(flushed_blocks(engine)),
        )
}

/// A flush that succeeds leaves an empty memtable and tables that read back.
pub proof fn lemma_flushed<F: StoreFiles>(
    files: &F,
    t0: Seq<Step>,
    t1: Seq<Step>,
    before: Engine,
    after: Engine,
    r: Result<(), EngineError>,
    tables: Seq<Seq<Seq<Row>>>,
) -> (next: Seq<Seq<Seq<Row>>>)
    requires
        before.wf(),
        after.wf(),
        before.next_sst_id < u64::MAX - 2,
        holds_tables(files, before.current.ssts@, tables),
        cache_is_true(before, tables),
        flush_reads_back(files, before),
        flushed_merge_reads_back(files, before, tables),
        flushes(files, t0, t1, before, after, r),
        r is Ok,
    ensures
        after.next_sst_id < u64::MAX,
        after.memtable.spec_rows().len() == 0,
        after.current.ssts@.len() == 0 ==> tables.len() == 0 && before.memtable.spec_rows().len() == 0,
        holds_tables(files, after.current.ssts@, next),
        cache_is_true(after, next),
        live(contents(next, after.memtable.spec_rows())) == live(contents(tables, before.memtable.spec_rows())),
{
    let ssts = before.current.ssts@;
    if before.memtable.spec_rows().len() == 0 {
        tables
    } else {
        let (mid, m, f) = choose|mid: Engine, m: Seq<Step>, f: Result<(), EngineError>|
            #[trigger] flushes_memtable(files, t0, m, before, mid, f) && mid.wf() && f is Ok
                && if mid.options.auto_compact_on_flush && mid.current.ssts@.len()
                > mid.options.compaction_sst_threshold {
                compacts(files, m, t1, mid, after, r)
            } else {
                after == mid && t1 == m
            };
        let more = tables.push(flushed_blocks(before));
        a_flush_keeps_the_contents(files, t0, m, before, mid, f, tables);
        lemma_flush_cache(files, t0, m, before, mid, f, tables);
        lemma_flushed_id(files, t0, m, before, mid, f);
        assert(holds_tables(files, mid.current.ssts@, more)) by {
            let all = mid.current.ssts@;
            assert forall|i: int| 0 <= i < all.len() implies holds_table(files, &*all[i], #[trigger] more[i]) by {
                if i < ssts.len() {
                    assert(all.drop_last()[i] == ssts[i]);
                    assert(holds_table(files, &*ssts[i], tables[i]));
                }
            }
        }
        if mid.options.auto_compact_on_flush && mid.current.ssts@.len() > mid.options.compaction_sst_threshold {
            let next = lemma_compaction(files, m, t1, mid, after, r, more);
            lemma_merged_id(files, m, t1, mid, after, r);
            assert(merge_reads_back(files, mid, more));
            assert(after.current.ssts@.len() == 1);
            next
        } else {
            more
        }
    }
}

/// A merge takes one id, and leaves the memtable.
proof fn lemma_merged_id<F: StoreFiles>(
    files: &F,
    t0: Seq<Step>,
    t1: Seq<Step>,
    before: Engine,
    after: Engine,
    r: Result<(), EngineError>,
)
    requires
        before.next_sst_id < u64::MAX,
        compacts(files, t0, t1, before, after, r),
        r is Ok,
    ensures
        after.next_sst_id == before.next_sst_id + 1,
        after.memtable == before.memtable,
{
    let reserved = Engine { next_sst_id: (before.next_sst_id + 1) as u64, ..before };
    let (m, job) = choose|m: Seq<Step>, job: CompactionJob| #[trigger] commits(m, t1, reserved, after, job, r);
    let (edit, mid, d) = choose|edit: VersionEdit, mid: Engine, d: Result<(), EngineError>|
        #[trigger] edits(m, t1, reserved, mid, edit, d) && d is Ok && after.next_sst_id == mid.next_sst_id
            && after.memtable == mid.memtable;
}

/// Compacting leaves one table, which holds no tombstone, or none where there
/// was nothing, and an empty memtable, and every key reads as before.
pub proof fn compacting_leaves_one_table_without_tombstones<F: StoreFiles>(
    files: &F,
    t0: Seq<Step>,
    t1: Seq<Step>,
    before: Engine,
    after: Engine,
    r: Result<(), EngineError>,
    tables: Seq<Seq<Seq<Row>>>,
) -> (next: Seq<Seq<Seq<Row>>>)
    requires
        before.wf(),
        before.next_sst_id < u64::MAX - 2,
        holds_tables(files, before.current.ssts@, tables),
        cache_is_true(before, tables),
        flush_reads_back(files, before),
        flushed_merge_reads_back(files, before, tables),
        compacts_now(files, t0, t1, before, after, r),
        r is Ok,
        after.wf(),
    ensures
        after.current.ssts@.len() <= 1,
        after.current.ssts@.len() == 0 ==> tables.len() == 0 && before.memtable.spec_rows().len() == 0,
        after.memtable.spec_rows().len() == 0,
        described(after.current.ssts@, next),
        cache_is_true(after, next),
        forall|t: int, i: int|
            0 <= t < next.len() && 0 <= i < all_rows(next[t]).len() ==> (#[trigger] all_rows(next[t])[i]).1 is Some,
        live(contents(next, after.memtable.spec_rows())) == live(contents(tables, before.memtable.spec_rows())),
        holds_tables(files, after.current.ssts@, next) ==> forall|key: Seq<u8>, later: Engine, v: Option<Value>|
            #[trigger] gets(files, after, later, key, Ok(v)) ==> slot_view(v) == value_of(
                contents(tables, before.memtable.spec_rows()),
                key,
            ),
{
    let held = contents(tables, before.memtable.spec_rows());
    let (mid, m, f) = choose|mid: Engine, m: Seq<Step>, f: Result<(), EngineError>|
        #[trigger] flushes(files, t0, m, before, mid, f) && mid.wf() && f is Ok && if mid.current.ssts@.len() == 0 {
            after == mid && t1 == m
        } else {
            compacts(files, m, t1, mid, after, r)
        };
    let more = lemma_flushed(files, t0, m, before, mid, f, tables);
    if mid.current.ssts@.len() == 0 {
        assert(described(after.current.ssts@, more));
        lemma_reads_after(files, after, more, held);
        more
    } else {
        let next = lemma_compaction(files, m, t1, mid, after, r, more);
        lemma_merged_id(files, m, t1, mid, after, r);
        assert forall|t: int, i: int| 0 <= t < next.len() && 0 <= i < all_rows(next[t]).len() implies (
        #[trigger] all_rows(next[t])[i]).1 is Some by {
            assert(all_rows(next[0])[i].1 is Some);
        }
        lemma_reads_after(files, after, next, held);
        next
    }
}

/// `mid` is `before` but for its counters, with `map` in the memtable.
pub open spec fn holds_in_place(before: Engine, mid: Engine, map: Map<Seq<u8>, Slot>) -> bool {
    &&& mid == (Engine { memtable: mid.memtable, counters: mid.counters, ..before })
    &&& mid.memtable.wf()
    &&& mid.memtable@ == map
}

/// Whatever state a write leaves before its flush, what the flush makes of it
/// reads back.
pub open spec fn write_reads_back<F: StoreFiles>(files: &F, before: Engine, map: Map<Seq<u8>, Slot>) -> bool {
    forall|mid: Engine| #[trigger] holds_in_place(before, mid, map) ==> flush_reads_back(files, mid)
}

/// A write that reached the log is in the store, whatever became of the flush
/// and the merge that followed it: the keys that `ops` name read as they say,
/// in order, and every other key reads as before.
pub proof fn a_write_is_kept<F: StoreFiles>(
    files: &F,
    t0: Seq<Step>,
    t1: Seq<Step>,
    before: Engine,
    after: Engine,
    ops: Seq<Row>,
    n: u64,
    r: Result<(), EngineError>,
    tables: Seq<Seq<Seq<Row>>>,
) -> (next: Seq<Seq<Seq<Row>>>)
    requires
        before.wf(),
        before.next_sst_id < u64::MAX - 1,
        holds_tables(files, before.current.ssts@, tables),
        cache_is_true(before, tables),
        write_reads_back(files, before, put_rows(before.memtable@, ops)),
        writes(files, t0, t1, before, after, Ok(n), put_rows(before.memtable@, ops), r),
    ensures
        described(after.current.ssts@, next),
        cache_is_true(after, next),
        live(contents(next, after.memtable.spec_rows())) == live(
            put_rows(contents(tables, before.memtable.spec_rows()), ops),
        ),
{
    let map = put_rows(before.memtable@, ops);
    let mid = choose|mid: Engine|
        {
            &&& mid == (Engine { memtable: mid.memtable, counters: before.counters.with_log_record(n), ..before })
            &&& mid.memtable.wf()
            &&& mid.memtable@ == map
            &&& #[trigger] maybe_flushes(files, t0, t1, mid, after, r)
        };
    a_write_changes_the_contents(tables, before.memtable, mid.memtable, ops);
    assert(holds_in_place(before, mid, map));
    if mid.memtable.spec_rows().len() >= mid.options.memtable_flush_threshold {
        a_flush_and_its_merge_keep_every_live_entry(files, t0, t1, mid, after, r, tables)
    } else {
        let ssts = before.current.ssts@;
        assert forall|i: int| 0 <= i < ssts.len() implies describes_table(&*ssts[i], #[trigger] tables[i]) by {
            assert(holds_table(files, &*ssts[i], tables[i]));
        }
        tables
    }
}

/// Reading gives back what was written: after a put that reached the log, a
/// lookup that succeeds gives the value put for that key, and for every other
/// key what a lookup before the put would have given.
pub proof fn a_put_is_read_back<F: StoreFiles>(
    files: &F,
    t0: Seq<Step>,
    t1: Seq<Step>,
    before: Engine,
    after: Engine,
    key: Seq<u8>,
    value: Seq<u8>,
    n: u64,
    r: Result<(), EngineError>,
    tables: Seq<Seq<Seq<Row>>>,
) -> (next: Seq<Seq<Seq<Row>>>)
    requires
        before.wf(),
        after.wf(),
        before.next_sst_id < u64::MAX - 1,
        holds_tables(files, before.current.ssts@, tables),
        cache_is_true(before, tables),
        write_reads_back(files, before, before.memtable@.insert(key, Some(value))),
        writes(files, t0, t1, before, after, Ok(n), before.memtable@.insert(key, Some(value)), r),
    ensures
        described(after.current.ssts@, next),
        holds_tables(files, after.current.ssts@, next) ==> forall|other: Seq<u8>, later: Engine, v: Option<Value>|
            #[trigger] gets(files, after, later, other, Ok(v)) ==> slot_view(v) == (if other == key {
                Some(value)
            } else {
                value_of(contents(tables, before.memtable.spec_rows()), other)
            }),
{
    let ops: Seq<Row> = seq![(key, Some(value))];
    lemma_one_row(before.memtable@, key, Some(value));
    let next = a_write_is_kept(files, t0, t1, before, after, ops, n, r, tables);
    lemma_one_row(contents(tables, before.memtable.spec_rows()), key, Some(value));
    lemma_reads_after(files, after, next, put_rows(contents(tables, before.memtable.spec_rows()), ops));
    next
}

/// After a delete that reached the log, a lookup that succeeds gives no value
/// for that key, and for every other key what a lookup before the delete would
/// have given.
pub proof fn a_delete_is_read_back<F: StoreFiles>(
    files: &F,
    t0: Seq<Step>,
    t1: Seq<Step>,
    before: Engine,
    after: Engine,
    key: Seq<u8>,
    n: u64,
    r: Result<(), EngineError>,
    tables: Seq<Seq<Seq<Row>>>,
) -> (next: Seq<Seq<Seq<Row>>>)
    requires
        before.wf(),
        after.wf(),
        before.next_sst_id < u64::MAX - 1,
        holds_tables(files, before.current.ssts@, tables),
        cache_is_true(before, tables),
        write_reads_back(files, before, before.memtable@.insert(key, None)),
        writes(files, t0, t1, before, after, Ok(n), before.memtable@.insert(key, None), r),
    ensures
        described(after.current.ssts@, next),
        holds_tables(files, after.current.ssts@, next) ==> forall|other: Seq<u8>, later: Engine, v: Option<Value>|
            #[trigger] gets(files, after, later, other, Ok(v)) ==> slot_view(v) == (if other == key {
                None
            } else {
                value_of(contents(tables, before.memtable.spec_rows()), other)
            }),
{
    let ops: Seq<Row> = seq![(key, None)];
    lemma_one_row(before.memtable@, key, None);
    let next = a_write_is_kept(files, t0, t1, before, after, ops, n, r, tables);
    lemma_one_row(contents(tables, before.memtable.spec_rows()), key, None);
    lemma_reads_after(files, after, next, put_rows(contents(tables, before.memtable.spec_rows()), ops));
    next
}

/// Putting one row is putting its slot under its key.
proof fn lemma_one_row(map: Map<Seq<u8>, Slot>, key: Seq<u8>, slot: Slot)
    ensures
        put_rows(map, seq![(key, slot)]) == map.insert(key, slot),
{
    let ops: Seq<Row> = seq![(key, slot)];
    assert(ops.drop_last() =~= Seq::<Row>::empty());
    assert(put_rows(map, ops.drop_last()) == map);
}

/// Lookups answer from a map with the live entries of the store.
proof fn lemma_reads_after<F: StoreFiles>(
    files: &F,
    engine: Engine,
    tables: Seq<Seq<Seq<Row>>>,
    map: Map<Seq<u8>, Slot>,
)
    requires
        engine.wf(),
        cache_is_true(engine, tables),
        live(contents(tables, engine.memtable.spec_rows())) == live(map),
    ensures
        holds_tables(files, engine.current.ssts@, tables) ==> forall|key: Seq<u8>, later: Engine, v: Option<Value>|
            #[trigger] gets(files, engine, later, key, Ok(v)) ==> slot_view(v) == value_of(map, key),
{
    if holds_tables(files, engine.current.ssts@, tables) {
        assert forall|key: Seq<u8>, later: Engine, v: Option<Value>| #[trigger]
            gets(files, engine, later, key, Ok(v)) implies slot_view(v) == value_of(map, key) by {
            laws::get_answers_from_the_store(files, engine, later, tables, key, v);
            lemma_live_answers(contents(tables, engine.memtable.spec_rows()), map, key);
        }
    }
}

} // verus!
