//! Flushing, compacting, and publishing versions.
//!
//! Both end in [`Engine::apply_version_edit`]: the next version is computed
//! from the current one at that instant, its manifest is published, and only
//! then does it become current.
use super::{Engine, StoreFiles};
use crate::error::EngineError;
use crate::key::Key;
use crate::store::block_cache::{without_ssts, BlockCache};
use crate::store::layers::layered;
use crate::store::rows::{rows_map, rows_view, without_tombstones, Row, RowMap, Slot};
use crate::store::sst_block::scan::{reads_run, reads_whole};
use crate::store::sst_block::write::{writes_new, WrittenSst};
use crate::store::sst_block::{all_rows, capped64, BlockSstFile};
use crate::store::trace::{published_manifest, reset, wrote_file, Step, Traced};
use crate::store::version;
use crate::store::version::{all_wf, by_id, first_missing, ids_of, survivors, Version, VersionEdit};
use crate::store::{rows, Value};
use std::sync::Arc;
use vstd::prelude::*;

verus! {

/// The ids among `ssts` that are deleted, in order.
pub open spec fn retired(ssts: Seq<Arc<BlockSstFile>>, deleted: Seq<u64>) -> Seq<u64>
    decreases ssts.len(),
{
    if ssts.len() == 0 {
        Seq::empty()
    } else if deleted.contains(ssts.last().id) {
        retired(ssts.drop_last(), deleted).push(ssts.last().id)
    } else {
        retired(ssts.drop_last(), deleted)
    }
}

/// `next` is `current` after `edit`.
pub open spec fn is_next_version(current: Version, edit: VersionEdit, next: Version) -> bool {
    &&& next.wf()
    &&& next.manifest_generation == current.manifest_generation.wrapping_add(1)
    &&& next.ssts@ == by_id(survivors(current.ssts@, edit.deleted@) + edit.added@)
}

/// The cache lost the blocks of the tables in `ids` and nothing else.
pub open spec fn cache_drops(before: BlockCache, after: BlockCache, ids: Seq<u64>) -> bool {
    &&& after.wf()
    &&& after@ == without_ssts(before@, ids)
    &&& after.capacity() == before.capacity()
    &&& after.spec_hits() == before.spec_hits()
    &&& after.spec_misses() == before.spec_misses()
}

/// From `t0` to `t1` version `next` was published in `dir`, with answer `p`.
pub open spec fn publishes(
    t0: Seq<Step>,
    t1: Seq<Step>,
    dir: Seq<char>,
    next: Version,
    p: Result<(), EngineError>,
) -> bool {
    published_manifest(t0, t1, dir, next.manifest_generation, ids_of(next.ssts@), p)
}

/// The giving up of the deleted ones among `ssts`, in order.
pub open spec fn retirements(ssts: Seq<Arc<BlockSstFile>>, deleted: Seq<u64>) -> Seq<Step>
    decreases ssts.len(),
{
    if ssts.len() == 0 {
        Seq::empty()
    } else if deleted.contains(ssts.last().id) {
        retirements(ssts.drop_last(), deleted).push(Step::Retire { path: ssts.last().path@ })
    } else {
        retirements(ssts.drop_last(), deleted)
    }
}

/// What applying an edit does, and from `t0` to `t1` on disk: an edit that
/// deletes a table that is not live is refused, and nothing is touched; a
/// manifest that cannot be published changes nothing; else the next version is
/// current, nothing stays cached of the tables that went, and only then are
/// their files given up.
pub open spec fn edits(
    t0: Seq<Step>,
    t1: Seq<Step>,
    before: Engine,
    after: Engine,
    edit: VersionEdit,
    r: Result<(), EngineError>,
) -> bool {
    if exists|i: int| first_missing(ids_of(before.current.ssts@), edit.deleted@, i) {
        &&& after == before
        &&& t1 == t0
        &&& exists|i: int|
            #[trigger] first_missing(ids_of(before.current.ssts@), edit.deleted@, i) && r == Err::<
                (),
                EngineError,
            >(EngineError::VersionEditMissingInput { id: edit.deleted@[i] })
    } else {
        exists|next: Version, m: Seq<Step>, p: Result<(), EngineError>|
            {
                &&& is_next_version(*before.current, edit, next)
                &&& #[trigger] publishes(t0, m, before.dir@, next, p)
                &&& match p {
                    Err(e) => r == Err::<(), EngineError>(e) && after == before && t1 == m,
                    Ok(()) => r is Ok && *after.current == next && after == (Engine {
                        current: after.current,
                        counters: before.counters.with_manifest(),
                        block_cache: after.block_cache,
                        ..before
                    }) && cache_drops(
                        before.block_cache,
                        after.block_cache,
                        retired(before.current.ssts@, edit.deleted@),
                    ) && t1 == m + retirements(before.current.ssts@, edit.deleted@),
                }
            }
    }
}

/// What writing rows as a table on disk gives: one file, written whole.
pub open spec fn stages<F: StoreFiles>(
    files: &F,
    t0: Seq<Step>,
    t1: Seq<Step>,
    dir: Seq<char>,
    id: u64,
    rows: Seq<Row>,
    block_size: u32,
    r: Result<BlockSstFile, EngineError>,
) -> bool {
    exists|w: Result<WrittenSst, EngineError>|
        #[trigger] writes_new(files, dir, id, rows, block_size, w) && match w {
            Err(e) => r == Err::<BlockSstFile, EngineError>(e) && t1 == t0,
            Ok(w) => exists|t: Result<(), EngineError>|
                #[trigger] wrote_file(t0, t1, w.file.path@, w.bytes@, t) && match t {
                    Err(e) => r == Err::<BlockSstFile, EngineError>(e),
                    Ok(()) => r == Ok::<BlockSstFile, EngineError>(w.file),
                },
        }
}

/// Writes rows as table `id` of `dir`, durably.
pub fn stage_table<F: StoreFiles>(
    files: &mut Traced<F>,
    dir: &str,
    id: u64,
    entries: &Vec<(Key, Option<Value>)>,
    block_size: u32,
) -> (r: Result<BlockSstFile, EngineError>)
    requires
        rows::sorted(rows_view(entries@)),
    ensures
        final(files).spec_files() == old(files).spec_files(),
        stages(
            &old(files).spec_files(),
            old(files).steps(),
            final(files).steps(),
            dir@,
            id,
            rows_view(entries@),
            block_size,
            r,
        ),
        r matches Ok(file) ==> file.wf() && file.id == id,
{
    let w = BlockSstFile::write_new(files.files(), dir, id, entries, block_size);
    assert(writes_new(&old(files).spec_files(), dir@, id, rows_view(entries@), block_size, w));
    match w {
        Err(e) => Err(e),
        Ok(w) => {
            let path: &str = w.file.path.as_str();
            let t = files.write_file(path, &w.bytes);
            assert(wrote_file(old(files).steps(), files.steps(), w.file.path@, w.bytes@, t));
            match t {
                Err(e) => Err(e),
                Ok(()) => Ok(w.file),
            }
        },
    }
}

impl Engine {
    /// Publishes an edit of the live set. The edit is held against the current
    /// version, not against the one it was prepared from.
    pub fn apply_version_edit<F: StoreFiles>(&mut self, files: &mut Traced<F>, edit: VersionEdit) -> (r:
        Result<(), EngineError>)
        requires
            old(self).wf(),
            all_wf(edit.added@),
            forall|i: int|
                0 <= i < edit.added@.len() ==> (#[trigger] edit.added@[i]).id < old(self).next_sst_id,
        ensures
            final(self).wf(),
            final(files).spec_files() == old(files).spec_files(),
            edits(old(files).steps(), final(files).steps(), *old(self), *final(self), edit, r),
    {
        let ghost t0 = files.steps();
        let version = self.current.clone();
        let ghost given = edit;
        let mut deleted: Vec<u64> = Vec::new();
        let mut k: usize = 0;
        while k < edit.deleted.len()
            invariant
                k <= edit.deleted@.len(),
                deleted@ =~= edit.deleted@.subrange(0, k as int),
            decreases edit.deleted@.len() - k,
        {
            deleted.push(edit.deleted[k]);
            k = k + 1;
        }
        assert(deleted@ =~= edit.deleted@);
        let next = match version::next_version(&version, edit) {
            Ok(next) => next,
            Err(e) => {
                return Err(e);
            },
        };
        proof {
            assert forall|i: int| !first_missing(ids_of(version.ssts@), given.deleted@, i) by {
                if first_missing(ids_of(version.ssts@), given.deleted@, i) {
                    assert(ids_of(version.ssts@).contains(given.deleted@[i]));
                }
            }
            lemma_next_ids(&version, given, next, self.next_sst_id);
        }
        let ids = next.ids();
        let dir: &str = self.dir.as_str();
        let p = files.publish_manifest(dir, next.manifest_generation, &ids);
        let ghost m = files.steps();
        assert(publishes(t0, m, self.dir@, next, p));
        match p {
            Err(e) => {
                return Err(e);
            },
            Ok(()) => {},
        }
        self.counters.fsync_count = self.counters.fsync_count.wrapping_add(1);
        let mut i: usize = 0;
        let ghost start = self.block_cache;
        assert(version.ssts@.subrange(0, 0) =~= Seq::<Arc<BlockSstFile>>::empty());
        assert(m + retirements(version.ssts@.subrange(0, 0), given.deleted@) =~= m);
        while i < version.ssts.len()
            invariant
                i <= version.ssts@.len(),
                deleted@ == given.deleted@,
                *self == (Engine {
                    counters: old(self).counters.with_manifest(),
                    block_cache: self.block_cache,
                    ..*old(self)
                }),
                cache_drops(
                    start,
                    self.block_cache,
                    retired(version.ssts@.subrange(0, i as int), given.deleted@),
                ),
                files.spec_files() == old(files).spec_files(),
                files.steps() == m + retirements(version.ssts@.subrange(0, i as int), given.deleted@),
            decreases version.ssts@.len() - i,
        {
            let id: u64 = version.ssts[i].id;
            proof {
                let more = version.ssts@.subrange(0, i + 1);
                assert(more.drop_last() =~= version.ssts@.subrange(0, i as int));
                let gone = retired(version.ssts@.subrange(0, i as int), given.deleted@);
                assert(gone.push(id).drop_last() =~= gone);
            }
            if version::has_id(&deleted, id) {
                self.block_cache.invalidate_sst(id);
                let p: &str = version.ssts[i].path.as_str();
                let ghost so_far = retirements(version.ssts@.subrange(0, i as int), given.deleted@);
                files.retire(p);
                assert((m + so_far).push(Step::Retire { path: p@ }) =~= m + so_far.push(Step::Retire { path: p@ }));
            }
            i = i + 1;
        }
        assert(version.ssts@.subrange(0, i as int) =~= version.ssts@);
        self.current = Arc::new(next);
        Ok(())
    }

    /// Whether there are more live tables than the compaction threshold.
    #[must_use]
    pub fn compaction_pending(&self) -> (r: bool)
        ensures
            r == (self.current.ssts@.len() > self.options.compaction_sst_threshold),
    {
        self.current.ssts.len() > self.options.compaction_sst_threshold
    }

    /// Sets whether a flush runs a pending compaction itself.
    pub fn set_auto_compact_on_flush(&mut self, enabled: bool)
        ensures
            *final(self) == (Engine {
                options: (crate::store::options::EngineOptions {
                    auto_compact_on_flush: enabled,
                    ..old(self).options
                }),
                ..*old(self)
            }),
            old(self).wf() ==> final(self).wf(),
    {
        self.options.auto_compact_on_flush = enabled;
    }
}

/// The next version's ids stay below the next table id.
proof fn lemma_next_ids(current: &Version, edit: VersionEdit, next: Version, bound: u64)
    requires
        is_next_version(*current, edit, next),
        forall|i: int| 0 <= i < current.ssts@.len() ==> (#[trigger] current.ssts@[i]).id < bound,
        forall|i: int| 0 <= i < edit.added@.len() ==> (#[trigger] edit.added@[i]).id < bound,
    ensures
        forall|i: int| 0 <= i < next.ssts@.len() ==> (#[trigger] next.ssts@[i]).id < bound,
{
    let kept = survivors(current.ssts@, edit.deleted@);
    let all = kept + edit.added@;
    version::lemma_by_id(all);
    version::lemma_survivors(current.ssts@, edit.deleted@);
    assert forall|i: int| 0 <= i < next.ssts@.len() implies (#[trigger] next.ssts@[i]).id < bound by {
        version::lemma_same_tables(next.ssts@, all, next.ssts@[i]);
        let j = choose|j: int| 0 <= j < all.len() && all[j] == next.ssts@[i];
        if j < kept.len() {
            assert(current.ssts@.contains(kept[j]));
            let k = choose|k: int| 0 <= k < current.ssts@.len() && current.ssts@[k] == kept[j];
            assert(current.ssts@[k].id < bound);
        } else {
            assert(edit.added@[j - kept.len()].id < bound);
        }
    }
}

/// The bytes of tables on disk.
pub open spec fn table_bytes(ssts: Seq<Arc<BlockSstFile>>) -> nat
    decreases ssts.len(),
{
    if ssts.len() == 0 {
        0
    } else {
        table_bytes(ssts.drop_last()) + ssts.last().file_bytes as nat
    }
}

/// Sums the bytes of tables on disk.
pub fn sum_table_bytes(ssts: &Vec<Arc<BlockSstFile>>) -> (n: u64)
    ensures
        n == capped64(table_bytes(ssts@)),
{
    let mut total: u64 = 0;
    let mut i: usize = 0;
    assert(ssts@.subrange(0, 0) =~= Seq::<Arc<BlockSstFile>>::empty());
    while i < ssts.len()
        invariant
            i <= ssts@.len(),
            total == capped64(table_bytes(ssts@.subrange(0, i as int))),
        decreases ssts@.len() - i,
    {
        proof {
            assert(ssts@.subrange(0, i + 1).drop_last() =~= ssts@.subrange(0, i as int));
        }
        total = total.saturating_add(ssts[i].file_bytes);
        i = i + 1;
    }
    assert(ssts@.subrange(0, i as int) =~= ssts@);
    total
}

/// Reading a whole table may give `rows`.
pub open spec fn reads_table<F: StoreFiles>(files: &F, file: &BlockSstFile, rows: Seq<Row>) -> bool {
    exists|blocks: Seq<Seq<Row>>|
        #[trigger] reads_run(files, file, 0, blocks) && blocks.len() == file.block_index@.len() && rows
            == all_rows(blocks)
}

/// Reading every table may give the layers.
pub open spec fn reads_tables<F: StoreFiles>(
    files: &F,
    ssts: Seq<Arc<BlockSstFile>>,
    found: Seq<Seq<Row>>,
) -> bool {
    &&& found.len() == ssts.len()
    &&& forall|i: int| 0 <= i < ssts.len() ==> reads_table(files, &*ssts[i], #[trigger] found[i])
}

/// The tables before were read, and the next one cannot be.
pub open spec fn read_failed<F: StoreFiles>(files: &F, ssts: Seq<Arc<BlockSstFile>>, e: EngineError) -> bool {
    exists|found: Seq<Seq<Row>>|
        {
            &&& found.len() < ssts.len()
            &&& #[trigger] reads_tables(files, ssts.take(found.len() as int), found)
            &&& reads_whole(files, &*ssts[found.len() as int], Err(e))
        }
}

/// Merges whole tables, oldest first: of several rows for a key the newest
/// stays, a tombstone too.
pub fn merge_tables<F: StoreFiles>(files: &F, ssts: &Vec<Arc<BlockSstFile>>) -> (r: Result<RowMap, EngineError>)
    ensures
        match r {
            Ok(m) => m.wf() && exists|found: Seq<Seq<Row>>|
                #[trigger] reads_tables(files, ssts@, found) && m@ == layered(found),
            Err(e) => read_failed(files, ssts@, e),
        },
{
    let mut merged = RowMap::new();
    let mut i: usize = 0;
    let ghost mut found: Seq<Seq<Row>> = Seq::empty();
    while i < ssts.len()
        invariant
            i <= ssts@.len(),
            i == found.len(),
            merged.wf(),
            merged@ == layered(found),
            forall|j: int| 0 <= j < i ==> reads_table(files, &*ssts@[j], #[trigger] found[j]),
        decreases ssts@.len() - i,
    {
        match ssts[i].entries(files) {
            Err(e) => {
                assert(reads_tables(files, ssts@.take(found.len() as int), found));
                assert(reads_whole(files, &*ssts@[i as int], Err(e)));
                return Err(e);
            },
            Ok(rows) => {
                let ghost view = rows_view(rows@);
                merged.put_all(&rows);
                proof {
                    assert(reads_table(files, &*ssts@[i as int], view));
                    assert(found.push(view).drop_last() =~= found);
                    found = found.push(view);
                }
            },
        }
        i = i + 1;
    }
    assert(reads_tables(files, ssts@, found));
    Ok(merged)
}

/// Everything a merge needs, taken from an engine in passing: the merge then
/// runs without it. The id of the output is taken here, together with the
/// input, and not when the output is written: so it sorts above every input and
/// below every table flushed in between, and the order of ids stays the order
/// of visibility. A merge that fails uses its id up.
#[derive(Debug)]
pub struct CompactionSnapshot {
    pub input: Arc<Version>,
    pub id: u64,
    pub dir: String,
    pub block_size: u32,
}

/// A merge already on disk, to be committed or left as an orphan.
#[derive(Debug)]
pub struct CompactionJob {
    pub merged: Arc<BlockSstFile>,
    pub deleted: Vec<u64>,
    pub input_bytes: u64,
    pub output_bytes: u64,
}

/// What merging the tables of a version into table `id` gives: one table that
/// holds what the tables say together, without the tombstones, for which no
/// older layer is left.
pub open spec fn builds<F: StoreFiles>(
    files: &F,
    t0: Seq<Step>,
    t1: Seq<Step>,
    input: Version,
    id: u64,
    dir: Seq<char>,
    block_size: u32,
    r: Result<CompactionJob, EngineError>,
) -> bool {
    ||| t1 == t0 && (r matches Err(e) && read_failed(files, input.ssts@, e))
    ||| exists|found: Seq<Seq<Row>>, rows: Seq<Row>, s: Result<BlockSstFile, EngineError>|
        {
            &&& #[trigger] reads_tables(files, input.ssts@, found)
            &&& rows::sorted(rows)
            &&& rows_map(rows) == without_tombstones(layered(found))
            &&& #[trigger] stages(files, t0, t1, dir, id, rows, block_size, s)
            &&& match s {
                Err(e) => r == Err::<CompactionJob, EngineError>(e),
                Ok(file) => r matches Ok(job) && {
                    &&& *job.merged == file
                    &&& job.deleted@ == ids_of(input.ssts@)
                    &&& job.input_bytes == capped64(table_bytes(input.ssts@))
                    &&& job.output_bytes == file.file_bytes
                },
            }
        }
}

impl CompactionSnapshot {
    /// Merges every input table into one new table, durably.
    pub fn build<F: StoreFiles>(self, files: &mut Traced<F>) -> (r: Result<CompactionJob, EngineError>)
        ensures
            final(files).spec_files() == old(files).spec_files(),
            builds(
                &old(files).spec_files(),
                old(files).steps(),
                final(files).steps(),
                *self.input,
                self.id,
                self.dir@,
                self.block_size,
                r,
            ),
            r matches Ok(job) ==> job.merged.wf() && job.merged.id == self.id,
    {
        let input_bytes: u64 = sum_table_bytes(&self.input.ssts);
        let merged = match merge_tables(files.files(), &self.input.ssts) {
            Ok(m) => m,
            Err(e) => {
                return Err(e);
            },
        };
        let entries = rows::drop_tombstones(merged.rows());
        proof {
            merged.lemma_rows();
            rows::lemma_valued_rows(merged.spec_rows());
        }
        let s = stage_table(files, self.dir.as_str(), self.id, &entries, self.block_size);
        assert(stages(
            &old(files).spec_files(),
            old(files).steps(),
            files.steps(),
            self.dir@,
            self.id,
            rows_view(entries@),
            self.block_size,
            s,
        ));
        match s {
            Err(e) => Err(e),
            Ok(file) => {
                let output_bytes: u64 = file.file_bytes;
                let deleted = self.input.ids();
                Ok(CompactionJob { merged: Arc::new(file), deleted, input_bytes, output_bytes })
            },
        }
    }
}

/// What committing a merge does: the edit against the current version, and the
/// counters only where it was published.
pub open spec fn commits(
    t0: Seq<Step>,
    t1: Seq<Step>,
    before: Engine,
    after: Engine,
    job: CompactionJob,
    r: Result<(), EngineError>,
) -> bool {
    exists|edit: VersionEdit, mid: Engine, d: Result<(), EngineError>|
        {
            &&& edit.added@ == seq![job.merged]
            &&& edit.deleted@ == job.deleted@
            &&& #[trigger] edits(t0, t1, before, mid, edit, d)
            &&& match d {
                Err(e) => r == Err::<(), EngineError>(e) && after == mid,
                Ok(()) => r is Ok && after == (Engine {
                    counters: mid.counters.with_compaction(job.input_bytes, job.output_bytes),
                    ..mid
                }),
            }
        }
}

/// A merge can be committed: its table is well-formed and has an id that the
/// engine handed out.
pub open spec fn can_commit(engine: Engine, job: CompactionJob) -> bool {
    &&& job.merged.wf()
    &&& job.merged.id < engine.next_sst_id
}

/// What a merge of all live tables does: the merged table is written before
/// the manifest that lists it is published, and its inputs are given up last.
pub open spec fn compacts<F: StoreFiles>(
    files: &F,
    t0: Seq<Step>,
    t1: Seq<Step>,
    before: Engine,
    after: Engine,
    r: Result<(), EngineError>,
) -> bool {
    let reserved = Engine { next_sst_id: (before.next_sst_id + 1) as u64, ..before };
    exists|j: Result<CompactionJob, EngineError>, m: Seq<Step>|
        {
            &&& #[trigger] builds(
                files,
                t0,
                m,
                *before.current,
                before.next_sst_id,
                before.dir@,
                before.options.block_size,
                j,
            )
            &&& match j {
                Err(e) => r == Err::<(), EngineError>(e) && after == reserved && t1 == m,
                Ok(job) => commits(m, t1, reserved, after, job, r),
            }
        }
}

/// What writing the memtable out does.
pub open spec fn flushes_memtable<F: StoreFiles>(
    files: &F,
    t0: Seq<Step>,
    t1: Seq<Step>,
    before: Engine,
    after: Engine,
    r: Result<(), EngineError>,
) -> bool {
    let reserved = Engine { next_sst_id: (before.next_sst_id + 1) as u64, ..before };
    exists|s: Result<BlockSstFile, EngineError>, m: Seq<Step>|
        {
            &&& #[trigger] stages(
                files,
                t0,
                m,
                before.dir@,
                before.next_sst_id,
                before.memtable.spec_rows(),
                before.options.block_size,
                s,
            )
            &&& match s {
                Err(e) => r == Err::<(), EngineError>(e) && after == reserved && t1 == m,
                Ok(file) => publishes_flush(
                    m,
                    t1,
                    Engine { counters: reserved.counters.with_flush(file.file_bytes), ..reserved },
                    after,
                    file,
                    r,
                ),
            }
        }
}

/// What publishing a flushed table does: the version first, then the log is
/// emptied, then the memtable.
pub open spec fn publishes_flush(
    t0: Seq<Step>,
    t1: Seq<Step>,
    before: Engine,
    after: Engine,
    file: BlockSstFile,
    r: Result<(), EngineError>,
) -> bool {
    exists|edit: VersionEdit, mid: Engine, m: Seq<Step>, d: Result<(), EngineError>|
        {
            &&& edit.added@.len() == 1
            &&& *edit.added@[0] == file
            &&& edit.deleted@.len() == 0
            &&& #[trigger] edits(t0, m, before, mid, edit, d)
            &&& match d {
                Err(e) => r == Err::<(), EngineError>(e) && after == mid && t1 == m,
                Ok(()) => exists|t: Result<(), EngineError>|
                    #[trigger] reset(m, t1, before.dir@, t) && match t {
                        Err(e) => r == Err::<(), EngineError>(e) && after == mid,
                        Ok(()) => r is Ok && after == (Engine { memtable: after.memtable, ..mid })
                            && after.memtable@ == Map::<Seq<u8>, Slot>::empty(),
                    },
            }
        }
}

/// What a flush does: nothing for an empty memtable; else the memtable is
/// written out, and a pending compaction is run where the options say so.
pub open spec fn flushes<F: StoreFiles>(
    files: &F,
    t0: Seq<Step>,
    t1: Seq<Step>,
    before: Engine,
    after: Engine,
    r: Result<(), EngineError>,
) -> bool {
    if before.memtable.spec_rows().len() == 0 {
        r is Ok && after == before && t1 == t0
    } else {
        exists|mid: Engine, m: Seq<Step>, f: Result<(), EngineError>|
            #[trigger] flushes_memtable(files, t0, m, before, mid, f) && mid.wf() && match f {
                Err(e) => r == Err::<(), EngineError>(e) && after == mid && t1 == m,
                Ok(()) => if mid.options.auto_compact_on_flush && mid.current.ssts@.len()
                    > mid.options.compaction_sst_threshold {
                    compacts(files, m, t1, mid, after, r)
                } else {
                    r is Ok && after == mid && t1 == m
                },
            }
    }
}

/// What a flush and a merge of all tables do. Nothing is merged in a store
/// without tables.
pub open spec fn compacts_now<F: StoreFiles>(
    files: &F,
    t0: Seq<Step>,
    t1: Seq<Step>,
    before: Engine,
    after: Engine,
    r: Result<(), EngineError>,
) -> bool {
    exists|mid: Engine, m: Seq<Step>, f: Result<(), EngineError>|
        #[trigger] flushes(files, t0, m, before, mid, f) && mid.wf() && match f {
            Err(e) => r == Err::<(), EngineError>(e) && after == mid && t1 == m,
            Ok(()) => if mid.current.ssts@.len() == 0 {
                r is Ok && after == mid && t1 == m
            } else {
                compacts(files, m, t1, mid, after, r)
            },
        }
}

impl Engine {
    /// Writes the memtable out as a new table, publishes it, empties the log,
    /// and forgets the memtable, in that order. Nothing happens to an empty
    /// memtable.
    pub fn flush<F: StoreFiles>(&mut self, files: &mut Traced<F>) -> (r: Result<(), EngineError>)
        requires
            old(self).wf(),
            old(self).next_sst_id < u64::MAX - 1,
        ensures
            final(self).wf(),
            final(self).next_sst_id <= old(self).next_sst_id + 2,
            final(files).spec_files() == old(files).spec_files(),
            flushes(
                &old(files).spec_files(),
                old(files).steps(),
                final(files).steps(),
                *old(self),
                *final(self),
                r,
            ),
    {
        let ghost disk = files.spec_files();
        let ghost t0 = files.steps();
        if self.memtable.is_empty() {
            return Ok(());
        }
        let f = self.flush_memtable(files);
        let ghost mid = *self;
        let ghost m = files.steps();
        assert(flushes_memtable(&disk, t0, m, *old(self), mid, f));
        match f {
            Err(e) => {
                return Err(e);
            },
            Ok(()) => {},
        }
        if self.options.auto_compact_on_flush && self.compaction_pending() {
            return self.compact(files);
        }
        Ok(())
    }

    fn flush_memtable<F: StoreFiles>(&mut self, files: &mut Traced<F>) -> (r: Result<(), EngineError>)
        requires
            old(self).wf(),
            old(self).next_sst_id < u64::MAX,
        ensures
            final(self).wf(),
            final(self).next_sst_id == old(self).next_sst_id + 1,
            final(files).spec_files() == old(files).spec_files(),
            flushes_memtable(
                &old(files).spec_files(),
                old(files).steps(),
                final(files).steps(),
                *old(self),
                *final(self),
                r,
            ),
    {
        let ghost disk = files.spec_files();
        let ghost t0 = files.steps();
        let id: u64 = self.next_sst_id;
        proof {
            self.memtable.iteration_is_sorted();
        }
        self.next_sst_id = id + 1;
        let s = stage_table(files, self.dir.as_str(), id, self.memtable.iter(), self.options.block_size);
        let ghost staged = files.steps();
        assert(stages(
            &disk,
            t0,
            staged,
            self.dir@,
            id,
            self.memtable.spec_rows(),
            self.options.block_size,
            s,
        ));
        let file = match s {
            Ok(file) => file,
            Err(e) => {
                return Err(e);
            },
        };
        self.counters.flush_count = self.counters.flush_count.wrapping_add(1);
        self.counters.bytes_written = self.counters.bytes_written.wrapping_add(file.file_bytes);
        self.counters.fsync_count = self.counters.fsync_count.wrapping_add(1);
        let ghost counted = *self;
        let mut added: Vec<Arc<BlockSstFile>> = Vec::new();
        added.push(Arc::new(file));
        let edit = VersionEdit { added, deleted: Vec::new() };
        let ghost given = edit;
        let d = self.apply_version_edit(files, edit);
        let ghost mid = *self;
        let ghost m = files.steps();
        assert(edits(staged, m, counted, mid, given, d));
        match d {
            Err(e) => {
                assert(publishes_flush(staged, files.steps(), counted, *self, file, Err(e)));
                return Err(e);
            },
            Ok(()) => {},
        }
        let p: &str = self.dir.as_str();
        let t = files.reset_log(p);
        assert(reset(m, files.steps(), counted.dir@, t));
        match t {
            Err(e) => {
                assert(publishes_flush(staged, files.steps(), counted, *self, file, Err(e)));
                Err(e)
            },
            Ok(()) => {
                self.memtable.clear();
                assert(publishes_flush(staged, files.steps(), counted, *self, file, Ok(())));
                Ok(())
            },
        }
    }

    /// Takes what a merge needs, and the id of its output.
    fn capture_compaction_snapshot(&mut self) -> (s: CompactionSnapshot)
        requires
            old(self).wf(),
            old(self).next_sst_id < u64::MAX,
        ensures
            final(self).wf(),
            *final(self) == (Engine { next_sst_id: (old(self).next_sst_id + 1) as u64, ..*old(self) }),
            *s.input == *old(self).current,
            s.id == old(self).next_sst_id,
            s.dir@ == old(self).dir@,
            s.block_size == old(self).options.block_size,
    {
        let id: u64 = self.next_sst_id;
        self.next_sst_id = id + 1;
        CompactionSnapshot {
            input: self.current.clone(),
            id,
            dir: self.dir.clone(),
            block_size: self.options.block_size,
        }
    }

    /// What a merge needs, if one is pending: the merge can then run with no
    /// hold on the engine.
    #[must_use]
    pub fn compaction_snapshot(&mut self) -> (r: Option<CompactionSnapshot>)
        requires
            old(self).wf(),
            old(self).next_sst_id < u64::MAX,
        ensures
            final(self).wf(),
            match r {
                Some(s) => {
                    &&& old(self).current.ssts@.len() > old(self).options.compaction_sst_threshold
                    &&& *final(self) == (Engine {
                        next_sst_id: (old(self).next_sst_id + 1) as u64,
                        ..*old(self)
                    })
                    &&& *s.input == *old(self).current
                    &&& s.id == old(self).next_sst_id
                    &&& s.dir@ == old(self).dir@
                    &&& s.block_size == old(self).options.block_size
                },
                None => old(self).current.ssts@.len() <= old(self).options.compaction_sst_threshold
                    && *final(self) == *old(self),
            },
    {
        if self.compaction_pending() {
            Some(self.capture_compaction_snapshot())
        } else {
            None
        }
    }

    /// Merges the live tables, if a merge is pending, into one that still has
    /// to be committed.
    pub fn compact_prepare<F: StoreFiles>(&mut self, files: &mut Traced<F>) -> (r: Result<
        Option<CompactionJob>,
        EngineError,
    >)
        requires
            old(self).wf(),
            old(self).next_sst_id < u64::MAX,
        ensures
            final(self).wf(),
            final(files).spec_files() == old(files).spec_files(),
            old(self).current.ssts@.len() <= old(self).options.compaction_sst_threshold ==> (r matches Ok(j)
                && j is None) && *final(self) == *old(self) && final(files).steps() == old(files).steps(),
            old(self).current.ssts@.len() > old(self).options.compaction_sst_threshold ==> {
                &&& *final(self) == (Engine { next_sst_id: (old(self).next_sst_id + 1) as u64, ..*old(self) })
                &&& exists|j: Result<CompactionJob, EngineError>|
                    #[trigger] builds(
                        &old(files).spec_files(),
                        old(files).steps(),
                        final(files).steps(),
                        *old(self).current,
                        old(self).next_sst_id,
                        old(self).dir@,
                        old(self).options.block_size,
                        j,
                    ) && match j {
                        Ok(job) => r == Ok::<Option<CompactionJob>, EngineError>(Some(job)) && can_commit(
                            *final(self),
                            job,
                        ),
                        Err(e) => r == Err::<Option<CompactionJob>, EngineError>(e),
                    }
            },
    {
        if !self.compaction_pending() {
            return Ok(None);
        }
        let snapshot = self.capture_compaction_snapshot();
        let j = snapshot.build(files);
        assert(builds(
            &old(files).spec_files(),
            old(files).steps(),
            files.steps(),
            *old(self).current,
            old(self).next_sst_id,
            old(self).dir@,
            old(self).options.block_size,
            j,
        ));
        match j {
            Ok(job) => Ok(Some(job)),
            Err(e) => Err(e),
        }
    }

    /// Publishes a merge. Tables flushed since it was prepared stay live; a
    /// merge whose inputs another one already replaced is refused.
    pub fn compact_commit<F: StoreFiles>(&mut self, files: &mut Traced<F>, job: CompactionJob) -> (r: Result<
        (),
        EngineError,
    >)
        requires
            old(self).wf(),
            can_commit(*old(self), job),
        ensures
            final(self).wf(),
            final(self).next_sst_id == old(self).next_sst_id,
            final(files).spec_files() == old(files).spec_files(),
            commits(old(files).steps(), final(files).steps(), *old(self), *final(self), job, r),
    {
        let input_bytes: u64 = job.input_bytes;
        let output_bytes: u64 = job.output_bytes;
        let mut added: Vec<Arc<BlockSstFile>> = Vec::new();
        added.push(job.merged);
        let edit = VersionEdit { added, deleted: job.deleted };
        proof {
            assert(edit.added@ =~= seq![job.merged]);
        }
        let ghost given = edit;
        let d = self.apply_version_edit(files, edit);
        let ghost mid = *self;
        assert(edits(old(files).steps(), files.steps(), *old(self), mid, given, d));
        match d {
            Err(e) => Err(e),
            Ok(()) => {
                self.counters.compaction_count = self.counters.compaction_count.wrapping_add(1);
                self.counters.compaction_input_bytes = self.counters.compaction_input_bytes.wrapping_add(
                    input_bytes,
                );
                self.counters.compaction_output_bytes = self.counters.compaction_output_bytes.wrapping_add(
                    output_bytes,
                );
                self.counters.bytes_written = self.counters.bytes_written.wrapping_add(output_bytes);
                self.counters.fsync_count = self.counters.fsync_count.wrapping_add(1);
                Ok(())
            },
        }
    }

    /// Merges all live tables into one, whatever their number.
    fn compact<F: StoreFiles>(&mut self, files: &mut Traced<F>) -> (r: Result<(), EngineError>)
        requires
            old(self).wf(),
            old(self).next_sst_id < u64::MAX,
        ensures
            final(self).wf(),
            final(self).next_sst_id == old(self).next_sst_id + 1,
            final(files).spec_files() == old(files).spec_files(),
            compacts(
                &old(files).spec_files(),
                old(files).steps(),
                final(files).steps(),
                *old(self),
                *final(self),
                r,
            ),
    {
        let snapshot = self.capture_compaction_snapshot();
        let j = snapshot.build(files);
        assert(builds(
            &old(files).spec_files(),
            old(files).steps(),
            files.steps(),
            *old(self).current,
            old(self).next_sst_id,
            old(self).dir@,
            old(self).options.block_size,
            j,
        ));
        match j {
            Ok(job) => self.compact_commit(files, job),
            Err(e) => Err(e),
        }
    }

    /// Flushes, then merges all live tables into one, below the threshold too.
    /// Nothing happens in a store without tables.
    pub fn compact_now<F: StoreFiles>(&mut self, files: &mut Traced<F>) -> (r: Result<(), EngineError>)
        requires
            old(self).wf(),
            old(self).next_sst_id < u64::MAX - 2,
        ensures
            final(self).wf(),
            final(files).spec_files() == old(files).spec_files(),
            compacts_now(
                &old(files).spec_files(),
                old(files).steps(),
                final(files).steps(),
                *old(self),
                *final(self),
                r,
            ),
    {
        let f = self.flush(files);
        let ghost mid = *self;
        let ghost m = files.steps();
        assert(flushes(&old(files).spec_files(), old(files).steps(), m, *old(self), mid, f));
        match f {
            Err(e) => Err(e),
            Ok(()) => {
                if self.current.ssts.len() == 0 {
                    Ok(())
                } else {
                    self.compact(files)
                }
            },
        }
    }
}

} // verus!
