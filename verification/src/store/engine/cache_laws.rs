//! What the block cache never holds: a block of a table that is not live.
use super::compact::{
    commits, compacts, edits, flushes, flushes_memtable, publishes_flush, retired, stages, CompactionJob,
};
use super::durable::{does, Call};
use super::read::{gets, gets_from};
use super::write::{maybe_flushes, writes};
use super::write_laws::lemma_without_ssts;
use super::{Engine, StoreFiles};
use crate::error::EngineError;
use crate::key::Key;
use crate::store::block_cache;
use crate::store::block_cache::{after_insert, after_touch, is_resident, resident_at, BlockCache, Resident};
use crate::store::rows::{rows_view, Slot};
use crate::store::sst_block::read::{covers, looks_up, looks_up_in, reads_block};
use crate::store::sst_block::BlockSstFile;
use crate::store::trace::Step;
use crate::store::version;
use crate::store::version::{first_missing, ids_of, Version, VersionEdit};
use crate::store::Value;
use std::sync::Arc;
use vstd::prelude::*;

verus! {

/// Every block is of a table with one of the `ids`.
pub open spec fn cached_of(blocks: Seq<Resident>, ids: Seq<u64>) -> bool {
    forall|c: int| 0 <= c < blocks.len() ==> ids.contains((#[trigger] blocks[c]).sst_id)
}

/// Everything that is cached is of a live table.
pub open spec fn cached_tables_alone(engine: Engine) -> bool {
    cached_of(engine.block_cache@, ids_of(engine.current.ssts@))
}

proof fn lemma_look_up_caches<F: StoreFiles>(
    files: &F,
    file: &BlockSstFile,
    key: Seq<u8>,
    before: BlockCache,
    after: BlockCache,
    l: Result<(Option<Option<Value>>, u64), EngineError>,
    ids: Seq<u64>,
)
    requires
        cached_of(before@, ids),
        ids.contains(file.id),
        looks_up(files, file, key, before, after, l),
    ensures
        cached_of(after@, ids),
{
    if file.bloom.may_contain(key) && exists|i: int| covers(file.block_index@, i, key) {
        let i = choose|i: int|
            #[trigger] covers(file.block_index@, i, key) && looks_up_in(files, file, key, i, before, after, l);
        let no = i as u32;
        if is_resident(before@, file.id, no) {
            let c = choose|c: int| #[trigger] resident_at(before@, file.id, no, c) && after@ == after_touch(before@, c);
            assert forall|a: int| 0 <= a < after@.len() implies ids.contains((#[trigger] after@[a]).sst_id) by {
                let o = if a == before@.len() - 1 { c } else if a < c { a } else { a + 1 };
                assert(after@[a] == before@[o]);
            }
        } else if l is Ok {
            let v = choose|v: Vec<(Key, Option<Value>)>|
                #[trigger] reads_block(files, file, i, Ok(v)) && after@ == after_insert(
                    before@,
                    before.capacity(),
                    Resident { sst_id: file.id, block_no: no, rows: rows_view(v@) },
                );
            let added = Resident { sst_id: file.id, block_no: no, rows: rows_view(v@) };
            let need = block_cache::capped(block_cache::payload_bytes(added.rows));
            let k = block_cache::lemma_evicted_suffix(before@, before.capacity(), need);
            assert forall|a: int| 0 <= a < after@.len() implies ids.contains((#[trigger] after@[a]).sst_id) by {
                if a == after@.len() - 1 {
                    assert(after@[a] == added);
                } else {
                    assert(after@[a] == before@[k + a]);
                }
            }
        }
    }
}

proof fn lemma_lookups_cache<F: StoreFiles>(
    files: &F,
    ssts: Seq<Arc<BlockSstFile>>,
    n: int,
    key: Seq<u8>,
    before: BlockCache,
    after: BlockCache,
    r: Result<Option<Value>, EngineError>,
)
    requires
        n <= ssts.len(),
        cached_of(before@, ids_of(ssts)),
        gets_from(files, ssts, n, key, before, after, r),
    ensures
        cached_of(after@, ids_of(ssts)),
    decreases n,
{
    if n > 0 {
        let (mid, l) = choose|mid: BlockCache, l: Result<(Option<Option<Value>>, u64), EngineError>|
            #[trigger] looks_up(files, &*ssts[n - 1], key, before, mid, l) && match l {
                Err(e) => after == mid,
                Ok((Some(slot), _)) => after == mid,
                Ok((None, _)) => gets_from(files, ssts, n - 1, key, mid, after, r),
            };
        assert(ids_of(ssts)[n - 1] == ssts[n - 1].id);
        lemma_look_up_caches(files, &*ssts[n - 1], key, before, mid, l, ids_of(ssts));
        if !(after == mid) {
            lemma_lookups_cache(files, ssts, n - 1, key, mid, after, r);
        }
    }
}

/// A lookup, whether or not it succeeds, caches blocks of live tables alone.
pub proof fn a_lookup_caches_live_tables_alone<F: StoreFiles>(
    files: &F,
    before: Engine,
    after: Engine,
    key: Seq<u8>,
    r: Result<Option<Value>, EngineError>,
)
    requires
        cached_tables_alone(before),
        gets(files, before, after, key, r),
    ensures
        cached_tables_alone(after),
{
    if !before.memtable@.contains_key(key) {
        let ssts = before.current.ssts@;
        lemma_lookups_cache(files, ssts, ssts.len() as int, key, before.block_cache, after.block_cache, r);
    }
}

proof fn lemma_kept_or_retired(ssts: Seq<Arc<BlockSstFile>>, deleted: Seq<u64>, id: u64)
    requires
        ids_of(ssts).contains(id),
        deleted.contains(id),
    ensures
        retired(ssts, deleted).contains(id),
    decreases ssts.len(),
{
    let i = choose|i: int| 0 <= i < ids_of(ssts).len() && ids_of(ssts)[i] == id;
    let head = ssts.drop_last();
    let gone = retired(ssts, deleted);
    if i == ssts.len() - 1 {
        assert(gone.last() == id);
    } else {
        assert(ids_of(head)[i] == id);
        lemma_kept_or_retired(head, deleted, id);
        let k = choose|k: int| 0 <= k < retired(head, deleted).len() && retired(head, deleted)[k] == id;
        assert(gone[k] == id);
    }
}

proof fn lemma_edit_caches(
    t0: Seq<Step>,
    t1: Seq<Step>,
    before: Engine,
    after: Engine,
    edit: VersionEdit,
    d: Result<(), EngineError>,
)
    requires
        cached_tables_alone(before),
        edits(t0, t1, before, after, edit, d),
    ensures
        cached_tables_alone(after),
{
    let ssts = before.current.ssts@;
    let deleted = edit.deleted@;
    if !(exists|i: int| first_missing(ids_of(ssts), deleted, i)) && d is Ok {
        let next = *after.current;
        let gone = retired(ssts, deleted);
        lemma_without_ssts(before.block_cache@, gone);
        let kept = after.block_cache@;
        assert forall|c: int| 0 <= c < kept.len() implies ids_of(next.ssts@).contains((#[trigger] kept[c]).sst_id) by {
            let id = kept[c].sst_id;
            assert(before.block_cache@.contains(kept[c]));
            let b = choose|b: int| 0 <= b < before.block_cache@.len() && before.block_cache@[b] == kept[c];
            assert(ids_of(ssts).contains(before.block_cache@[b].sst_id));
            if deleted.contains(id) {
                lemma_kept_or_retired(ssts, deleted, id);
            }
            let i = choose|i: int| 0 <= i < ids_of(ssts).len() && ids_of(ssts)[i] == id;
            version::a_table_flushed_meanwhile_survives(version_of(before), edit, next, i);
            let j = choose|j: int| 0 <= j < next.ssts@.len() && next.ssts@[j] == ssts[i];
            assert(ids_of(next.ssts@)[j] == id);
        }
    }
}

spec fn version_of(engine: Engine) -> Version {
    *engine.current
}

proof fn lemma_merge_caches<F: StoreFiles>(
    files: &F,
    t0: Seq<Step>,
    t1: Seq<Step>,
    before: Engine,
    after: Engine,
    r: Result<(), EngineError>,
)
    requires
        cached_tables_alone(before),
        compacts(files, t0, t1, before, after, r),
    ensures
        cached_tables_alone(after),
{
    let reserved = Engine { next_sst_id: (before.next_sst_id + 1) as u64, ..before };
    if !(after == reserved) {
        let (m, job) = choose|m: Seq<Step>, job: CompactionJob| #[trigger] commits(m, t1, reserved, after, job, r);
        lemma_commit_caches(m, t1, reserved, after, job, r);
    }
}

proof fn lemma_commit_caches(
    t0: Seq<Step>,
    t1: Seq<Step>,
    before: Engine,
    after: Engine,
    job: CompactionJob,
    r: Result<(), EngineError>,
)
    requires
        cached_tables_alone(before),
        commits(t0, t1, before, after, job, r),
    ensures
        cached_tables_alone(after),
{
    let (edit, mid, d) = choose|edit: VersionEdit, mid: Engine, d: Result<(), EngineError>|
        #[trigger] edits(t0, t1, before, mid, edit, d) && after.current == mid.current && after.block_cache
            == mid.block_cache;
    lemma_edit_caches(t0, t1, before, mid, edit, d);
}

proof fn lemma_flush_caches<F: StoreFiles>(
    files: &F,
    t0: Seq<Step>,
    t1: Seq<Step>,
    before: Engine,
    after: Engine,
    r: Result<(), EngineError>,
)
    requires
        cached_tables_alone(before),
        flushes(files, t0, t1, before, after, r),
    ensures
        cached_tables_alone(after),
{
    if before.memtable.spec_rows().len() > 0 {
        let (mid, m, f) = choose|mid: Engine, m: Seq<Step>, f: Result<(), EngineError>|
            #[trigger] flushes_memtable(files, t0, m, before, mid, f) && (after == mid || compacts(
                files,
                m,
                t1,
                mid,
                after,
                r,
            ));
        let reserved = Engine { next_sst_id: (before.next_sst_id + 1) as u64, ..before };
        let (s, k) = choose|s: Result<BlockSstFile, EngineError>, k: Seq<Step>|
            {
                &&& #[trigger] stages(
                    files,
                    t0,
                    k,
                    before.dir@,
                    before.next_sst_id,
                    before.memtable.spec_rows(),
                    before.options.block_size,
                    s,
                )
                &&& match s {
                    Err(e) => mid == reserved,
                    Ok(file) => publishes_flush(
                        k,
                        m,
                        Engine { counters: reserved.counters.with_flush(file.file_bytes), ..reserved },
                        mid,
                        file,
                        f,
                    ),
                }
            };
        if let Ok(file) = s {
            let counted = Engine { counters: reserved.counters.with_flush(file.file_bytes), ..reserved };
            let (edit, last, q, d) = choose|edit: VersionEdit, last: Engine, q: Seq<Step>, d: Result<(), EngineError>|
                #[trigger] edits(k, q, counted, last, edit, d) && mid.current == last.current && mid.block_cache
                    == last.block_cache;
            lemma_edit_caches(k, q, counted, last, edit, d);
        }
        if !(after == mid) {
            lemma_merge_caches(files, m, t1, mid, after, r);
        }
    }
}

proof fn lemma_write_caches<F: StoreFiles>(
    files: &F,
    t0: Seq<Step>,
    t1: Seq<Step>,
    before: Engine,
    after: Engine,
    w: Result<u64, EngineError>,
    map: Map<Seq<u8>, Slot>,
    r: Result<(), EngineError>,
)
    requires
        cached_tables_alone(before),
        writes(files, t0, t1, before, after, w, map, r),
    ensures
        cached_tables_alone(after),
{
    if w is Ok {
        let mid = choose|mid: Engine|
            #[trigger] maybe_flushes(files, t0, t1, mid, after, r) && mid.current == before.current && mid.block_cache
                == before.block_cache;
        if !(after == mid) {
            lemma_flush_caches(files, t0, t1, mid, after, r);
        }
    }
}

/// No call, whether or not it succeeds, leaves a block of a table cached that
/// is no longer live.
pub proof fn every_call_caches_live_tables_alone<F: StoreFiles>(
    files: &F,
    t0: Seq<Step>,
    t1: Seq<Step>,
    before: Engine,
    after: Engine,
    call: Call,
    r: Result<(), EngineError>,
)
    requires
        cached_tables_alone(before),
        does(files, t0, t1, before, after, call, r),
    ensures
        cached_tables_alone(after),
{
    match call {
        Call::Flush => {
            lemma_flush_caches(files, t0, t1, before, after, r);
        },
        Call::Commit { job } => {
            lemma_commit_caches(t0, t1, before, after, job, r);
        },
        Call::CompactNow => {
            let (mid, m, f) = choose|mid: Engine, m: Seq<Step>, f: Result<(), EngineError>|
                #[trigger] flushes(files, t0, m, before, mid, f) && (after == mid || compacts(
                    files,
                    m,
                    t1,
                    mid,
                    after,
                    r,
                ));
            lemma_flush_caches(files, t0, m, before, mid, f);
            if !(after == mid) {
                lemma_merge_caches(files, m, t1, mid, after, r);
            }
        },
        _ => {
            if !(after == before) {
                let (m, w, map) = choose|m: Seq<Step>, w: Result<u64, EngineError>, map: Map<Seq<u8>, Slot>| #[trigger]
                    writes(files, m, t1, before, after, w, map, r);
                lemma_write_caches(files, m, t1, before, after, w, map, r);
            }
        },
    }
}

} // verus!
