//! What writes, flushes and compactions promise of the store as a whole.
use super::compact::{
    builds, cache_drops, commits, edits, flushes_memtable, is_next_version, reads_table, reads_tables, retired, stages,
    CompactionJob,
};
use super::laws::{coherent, contents, holds_table, holds_tables, table_layers};
use super::{Engine, StoreFiles};
use crate::error::EngineError;
use crate::key::Key;
use crate::store::block_cache::{without_sst, without_ssts, Resident};
use crate::store::layers::layered;
use crate::store::memtable::Memtable;
use crate::store::rows::{live, put_rows, rows_map, rows_view, without_tombstones, Row, Slot};
use crate::store::sst_block::read::reads_block;
use crate::store::sst_block::scan::{reads_as, reads_run};
use crate::store::sst_block::write::{bloom_holds, split_blocks, written, writes_new, Sections, WrittenSst};
use crate::store::sst_block::{all_rows, index_describes, BlockSstFile};
use crate::store::trace::{reset, Step};
use crate::store::version::{by_id, first_missing, ids_ascend, ids_of, survivors, with_sst, Version, VersionEdit};
use crate::store::{block_cache, rows, sst_block, version, Value};
use std::sync::Arc;
use vstd::prelude::*;

verus! {

/// What operations do to the memtable they do to the contents: the keys they
/// name change as they say, in order, and no other key changes.
pub proof fn a_write_changes_the_contents(
    tables: Seq<Seq<Seq<Row>>>,
    before: Memtable,
    after: Memtable,
    ops: Seq<Row>,
)
    requires
        before.wf(),
        after.wf(),
        after@ == put_rows(before@, ops),
    ensures
        contents(tables, after.spec_rows()) == put_rows(contents(tables, before.spec_rows()), ops),
{
    let below = layered(table_layers(tables, tables.len() as int));
    before.iteration_is_sorted();
    after.iteration_is_sorted();
    rows::lemma_put_rows_overlay(below, before.spec_rows());
    rows::lemma_put_rows_overlay(below, after.spec_rows());
    rows::lemma_put_rows_overlay(before@, ops);
    rows::lemma_put_rows_overlay(contents(tables, before.spec_rows()), ops);
    assert(contents(tables, after.spec_rows()) =~= put_rows(contents(tables, before.spec_rows()), ops));
}

/// `file` is a table of `blocks` as far as the engine keeps it resident.
pub open spec fn describes_table(file: &BlockSstFile, blocks: Seq<Seq<Row>>) -> bool {
    &&& index_describes(file.block_index@, blocks)
    &&& bloom_holds(file.bloom, all_rows(blocks))
}

/// A staged table holds the rows that it was made of.
pub proof fn a_staged_table_holds_its_rows<F: StoreFiles>(
    files: &F,
    t0: Seq<Step>,
    t1: Seq<Step>,
    dir: Seq<char>,
    id: u64,
    run: Seq<Row>,
    block_size: u32,
    file: BlockSstFile,
)
    requires
        stages(files, t0, t1, dir, id, run, block_size, Ok(file)),
    ensures
        describes_table(&file, split_blocks(run, block_size as nat)),
        all_rows(split_blocks(run, block_size as nat)) == run,
        file.id == id,
{
    let w = choose|w: Result<WrittenSst, EngineError>|
        #[trigger] writes_new(files, dir, id, run, block_size, w) && match w {
            Err(e) => false,
            Ok(w) => w.file == file,
        };
    assert(w->Ok_0.file == file);
    let (d, s) = choose|d: &str, s: Sections| #[trigger] written(files, d, id, run, block_size, s, w->Ok_0.file);
    sst_block::write::splitting_keeps_every_row(run, block_size as nat);
}

/// A new layer over the others reads as one over the rest.
pub proof fn lemma_layers_push(tables: Seq<Seq<Seq<Row>>>, blocks: Seq<Seq<Row>>)
    ensures
        layered(table_layers(tables.push(blocks), (tables.len() + 1) as int)) == put_rows(
            layered(table_layers(tables, tables.len() as int)),
            all_rows(blocks),
        ),
{
    let more = table_layers(tables.push(blocks), (tables.len() + 1) as int);
    assert(more.drop_last() =~= table_layers(tables, tables.len() as int));
}

/// Putting the same rows twice is putting them once.
pub proof fn lemma_put_twice(map: Map<Seq<u8>, Slot>, run: Seq<Row>)
    ensures
        put_rows(put_rows(map, run), run) == put_rows(map, run),
{
    rows::lemma_put_rows_overlay(map, run);
    rows::lemma_put_rows_overlay(put_rows(map, run), run);
    assert(put_rows(put_rows(map, run), run) =~= put_rows(map, run));
}

/// The edit that adds one table above all others puts it last.
pub proof fn lemma_added_last(
    t0: Seq<Step>,
    t1: Seq<Step>,
    before: Engine,
    after: Engine,
    edit: VersionEdit,
    file: Arc<BlockSstFile>,
)
    requires
        before.current.wf(),
        edits(t0, t1, before, after, edit, Ok(())),
        edit.deleted@.len() == 0,
        edit.added@ == seq![file],
        forall|i: int| 0 <= i < before.current.ssts@.len() ==> (#[trigger] before.current.ssts@[i]).id < file.id,
    ensures
        after.current.ssts@ == before.current.ssts@.push(file),
{
    let ssts = before.current.ssts@;
    assert forall|i: int| !first_missing(ids_of(ssts), edit.deleted@, i) by {}
    lemma_nothing_deleted(ssts, edit.deleted@);
    let next = *after.current;
    assert(is_next_version(*before.current, edit, next));
    let all = ssts + edit.added@;
    assert(all =~= ssts.push(file));
    assert forall|i: int, j: int| 0 <= i < j < all.len() implies (#[trigger] all[i]).id <= (#[trigger] all[j]).id by {
        if j < ssts.len() {
            assert(ssts[i].id <= ssts[j].id);
        }
    }
    version::lemma_in_order_already(all);
}

proof fn lemma_nothing_deleted(ssts: Seq<Arc<BlockSstFile>>, deleted: Seq<u64>)
    requires
        deleted.len() == 0,
    ensures
        survivors(ssts, deleted) == ssts,
    decreases ssts.len(),
{
    if ssts.len() > 0 {
        lemma_nothing_deleted(ssts.drop_last(), deleted);
        assert(ssts.drop_last().push(ssts.last()) =~= ssts);
    } else {
        assert(survivors(ssts, deleted) =~= ssts);
    }
}

/// A flush loses nothing, whether or not it succeeds: either no table came and
/// the memtable stayed, or one table came, the newest, which holds the
/// memtable's rows; what the store holds is the same.
pub proof fn a_flush_keeps_the_contents<F: StoreFiles>(
    files: &F,
    t0: Seq<Step>,
    t1: Seq<Step>,
    before: Engine,
    after: Engine,
    r: Result<(), EngineError>,
    tables: Seq<Seq<Seq<Row>>>,
)
    requires
        before.wf(),
        after.wf(),
        tables.len() == before.current.ssts@.len(),
        flushes_memtable(files, t0, t1, before, after, r),
    ensures
        ({
            let blocks = split_blocks(before.memtable.spec_rows(), before.options.block_size as nat);
            ||| after.current == before.current && after.memtable == before.memtable && r is Err
            ||| {
                &&& after.current.ssts@.len() == tables.len() + 1
                &&& after.current.ssts@.drop_last() == before.current.ssts@
                &&& describes_table(&*after.current.ssts@.last(), blocks)
                &&& after.current.ssts@.last().id == before.next_sst_id
                &&& contents(tables.push(blocks), after.memtable.spec_rows()) == contents(
                    tables,
                    before.memtable.spec_rows(),
                )
                &&& r is Ok ==> after.memtable.spec_rows().len() == 0
            }
        }),
{
    let run = before.memtable.spec_rows();
    let size = before.options.block_size;
    let blocks = split_blocks(run, size as nat);
    let below = layered(table_layers(tables, tables.len() as int));
    let reserved = Engine { next_sst_id: (before.next_sst_id + 1) as u64, ..before };
    let (s, staged) = choose|s: Result<BlockSstFile, EngineError>, m: Seq<Step>|
        {
            &&& #[trigger] stages(files, t0, m, before.dir@, before.next_sst_id, run, size, s)
            &&& match s {
                Err(e) => r == Err::<(), EngineError>(e) && after == reserved && t1 == m,
                Ok(file) => super::compact::publishes_flush(
                    m,
                    t1,
                    Engine { counters: reserved.counters.with_flush(file.file_bytes), ..reserved },
                    after,
                    file,
                    r,
                ),
            }
        };
    if let Ok(file) = s {
        a_staged_table_holds_its_rows(files, t0, staged, before.dir@, before.next_sst_id, run, size, file);
        let counted = Engine { counters: reserved.counters.with_flush(file.file_bytes), ..reserved };
        let (edit, mid, m, d) = choose|edit: VersionEdit, mid: Engine, m: Seq<Step>, d: Result<(), EngineError>|
            {
                &&& edit.added@.len() == 1
                &&& *edit.added@[0] == file
                &&& edit.deleted@.len() == 0
                &&& #[trigger] edits(staged, m, counted, mid, edit, d)
                &&& match d {
                    Err(e) => r == Err::<(), EngineError>(e) && after == mid && t1 == m,
                    Ok(()) => exists|t: Result<(), EngineError>|
                        #[trigger] reset(m, t1, counted.dir@, t) && match t {
                            Err(e) => r == Err::<(), EngineError>(e) && after == mid,
                            Ok(()) => r is Ok && after == (Engine { memtable: after.memtable, ..mid })
                                && after.memtable@ == Map::<Seq<u8>, Slot>::empty(),
                        },
                }
            };
        if d is Ok {
            let added = edit.added@[0];
            assert(edit.added@ =~= seq![added]);
            lemma_added_last(staged, m, counted, mid, edit, added);
            assert(after.current.ssts@ == before.current.ssts@.push(added));
            assert(after.current.ssts@.drop_last() =~= before.current.ssts@);
            lemma_layers_push(tables, blocks);
            if r is Ok {
                after.memtable.iteration_is_sorted();
                assert(after.memtable.spec_rows().len() == 0) by {
                    if after.memtable.spec_rows().len() > 0 {
                        rows::lemma_sorted_slot(after.memtable.spec_rows(), 0);
                    }
                }
            } else {
                lemma_put_twice(below, run);
            }
        }
    }
}

/// Tables that are all deleted leave the others.
proof fn lemma_survivors_of_inputs(input: Seq<Arc<BlockSstFile>>, later: Seq<Arc<BlockSstFile>>)
    requires
        ids_ascend(input + later),
    ensures
        survivors(input + later, ids_of(input)) == later,
    decreases later.len(),
{
    let all = input + later;
    let ids = ids_of(input);
    if later.len() == 0 {
        assert(all =~= input);
        assert forall|i: int| 0 <= i < input.len() implies ids.contains((#[trigger] input[i]).id) by {
            assert(ids[i] == input[i].id);
        }
        lemma_all_deleted(input, ids);
        assert(survivors(all, ids) =~= later);
    } else {
        let head = input + later.drop_last();
        assert(all.drop_last() =~= head);
        assert(ids_ascend(head)) by {
            assert forall|i: int, j: int| 0 <= i < j < head.len() implies (#[trigger] head[i]).id < (
            #[trigger] head[j]).id by {
                assert(all[i].id < all[j].id);
            }
        }
        lemma_survivors_of_inputs(input, later.drop_last());
        let last = all.last();
        assert(last == later.last());
        if ids.contains(last.id) {
            let i = choose|i: int| 0 <= i < ids.len() && ids[i] == last.id;
            assert(all[i].id < all[all.len() - 1].id);
        }
        assert(later.drop_last().push(last) =~= later);
    }
}

/// Where every table is deleted, none survives.
pub proof fn lemma_all_deleted(ssts: Seq<Arc<BlockSstFile>>, ids: Seq<u64>)
    requires
        forall|i: int| 0 <= i < ssts.len() ==> ids.contains((#[trigger] ssts[i]).id),
    ensures
        survivors(ssts, ids).len() == 0,
    decreases ssts.len(),
{
    if ssts.len() > 0 {
        let head = ssts.drop_last();
        assert forall|i: int| 0 <= i < head.len() implies ids.contains((#[trigger] head[i]).id) by {
            assert(ids.contains(ssts[i].id));
        }
        assert(ids.contains(ssts[ssts.len() - 1].id));
        lemma_all_deleted(head, ids);
    }
}

/// Reading a whole table that stands gives its rows.
pub proof fn lemma_whole_table<F: StoreFiles>(files: &F, file: &BlockSstFile, blocks: Seq<Seq<Row>>, out: Seq<Row>)
    requires
        holds_table(files, file, blocks),
        reads_table(files, file, out),
    ensures
        out == all_rows(blocks),
{
    let read = choose|read: Seq<Seq<Row>>|
        #[trigger] reads_run(files, file, 0, read) && read.len() == file.block_index@.len() && out == all_rows(
            read,
        );
    assert forall|k: int| 0 <= k < read.len() implies read[k] == blocks[k] by {
        assert(reads_as(files, file, 0 + k, read[k]));
        let v = choose|v: Vec<(Key, Option<Value>)>|
            rows_view(v@) == read[k] && #[trigger] reads_block(files, file, 0 + k, Ok(v));
        assert(rows_view(v@) == blocks[k]);
    }
    assert(read =~= blocks);
}

/// Without the tombstones of the lowest layers, what lies over them reads the
/// same to whoever asks for values.
proof fn lemma_tombstones_below(low: Map<Seq<u8>, Slot>, bare: Map<Seq<u8>, Slot>, over: Map<Seq<u8>, Slot>)
    requires
        live(low) == live(bare),
    ensures
        live(low.union_prefer_right(over)) == live(bare.union_prefer_right(over)),
{
    let a = low.union_prefer_right(over);
    let b = bare.union_prefer_right(over);
    assert forall|k: Seq<u8>| #[trigger] live(a).contains_key(k) <==> live(b).contains_key(k) by {
        lemma_live_at(a, k);
        lemma_live_at(b, k);
        lemma_live_at(low, k);
        lemma_live_at(bare, k);
    }
    assert forall|k: Seq<u8>| #[trigger] live(a).contains_key(k) implies live(a)[k] == live(b)[k] by {
        lemma_live_at(a, k);
        lemma_live_at(b, k);
        lemma_live_at(low, k);
        lemma_live_at(bare, k);
    }
    assert(live(a) =~= live(b));
}

proof fn lemma_live_at(map: Map<Seq<u8>, Slot>, key: Seq<u8>)
    ensures
        live(map).contains_key(key) <==> map.contains_key(key) && map[key] is Some,
        live(map).contains_key(key) ==> map[key] == Some(live(map)[key]),
{
}

/// Layers over others are one map over another.
proof fn lemma_layers_over(low: Seq<Seq<Row>>, high: Seq<Seq<Row>>)
    ensures
        layered(low + high) == layered(low).union_prefer_right(layered(high)),
    decreases high.len(),
{
    if high.len() == 0 {
        assert(low + high =~= low);
        assert(layered(low).union_prefer_right(layered(high)) =~= layered(low));
    } else {
        let all = low + high;
        assert(all.drop_last() =~= low + high.drop_last());
        lemma_layers_over(low, high.drop_last());
        let run = high.last();
        rows::lemma_put_rows_overlay(layered(low + high.drop_last()), run);
        rows::lemma_put_rows_overlay(layered(high.drop_last()), run);
        assert(layered(all) =~= layered(low).union_prefer_right(layered(high)));
    }
}

/// The merged table stands where its inputs stood.
proof fn lemma_merged_in_place(
    input: Seq<Arc<BlockSstFile>>,
    later: Seq<Arc<BlockSstFile>>,
    merged: Arc<BlockSstFile>,
    next: Seq<Arc<BlockSstFile>>,
)
    requires
        ids_ascend(input + later),
        next == by_id(survivors(input + later, ids_of(input)) + seq![merged]),
        forall|i: int| 0 <= i < later.len() ==> merged.id < (#[trigger] later[i]).id,
    ensures
        next == seq![merged] + later,
{
    lemma_survivors_of_inputs(input, later);
    let all = input + later;
    let both = later + seq![merged];
    assert forall|i: int, j: int| 0 <= i < j < later.len() implies (#[trigger] later[i]).id <= (
    #[trigger] later[j]).id by {
        assert(all[input.len() + i].id < all[input.len() + j].id);
    }
    version::lemma_in_order_already(later);
    assert(both.drop_last() =~= later);
    assert(both.last() == merged);
    lemma_placed_first(later, merged);
}

/// A table below all others comes first.
proof fn lemma_placed_first(ssts: Seq<Arc<BlockSstFile>>, sst: Arc<BlockSstFile>)
    requires
        forall|i: int| 0 <= i < ssts.len() ==> sst.id < (#[trigger] ssts[i]).id,
    ensures
        with_sst(ssts, sst) == seq![sst] + ssts,
    decreases ssts.len(),
{
    if ssts.len() > 0 {
        let head = ssts.drop_last();
        assert(ssts[ssts.len() - 1].id > sst.id);
        assert forall|i: int| 0 <= i < head.len() implies sst.id < (#[trigger] head[i]).id by {
            assert(head[i] == ssts[i]);
        }
        lemma_placed_first(head, sst);
        assert((seq![sst] + head).push(ssts.last()) =~= seq![sst] + ssts);
    } else {
        assert(ssts.push(sst) =~= seq![sst] + ssts);
    }
}

/// One table without tombstones in the place of the lowest `n` gives the same
/// values.
proof fn lemma_values_read_the_same(
    tables: Seq<Seq<Seq<Row>>>,
    n: int,
    run: Seq<Row>,
    blocks: Seq<Seq<Row>>,
    mem: Seq<Row>,
)
    requires
        0 <= n <= tables.len(),
        all_rows(blocks) == run,
        rows_map(run) == without_tombstones(layered(table_layers(tables, n))),
    ensures
        live(contents(seq![blocks] + tables.subrange(n, tables.len() as int), mem)) == live(contents(tables, mem)),
{
    let new_tables = seq![blocks] + tables.subrange(n, tables.len() as int);
    let all = table_layers(tables, tables.len() as int);
    let high = Seq::new((tables.len() - n) as nat, |i: int| all_rows(tables[n + i]));
    let low = table_layers(tables, n);
    let bare = seq![run];
    assert(all =~= low + high);
    assert(table_layers(new_tables, new_tables.len() as int) =~= bare + high);
    lemma_layers_over(low, high);
    lemma_layers_over(bare, high);
    assert(layered(bare) == rows_map(run)) by {
        assert(bare.drop_last() =~= Seq::<Seq<Row>>::empty());
        assert(layered(Seq::<Seq<Row>>::empty()) == Map::<Seq<u8>, Slot>::empty());
    }
    assert(live(layered(low)) =~= live(layered(bare)));
    lemma_tombstones_below(layered(low), layered(bare), layered(high));
    rows::lemma_put_rows_overlay(layered(all), mem);
    rows::lemma_put_rows_overlay(layered(bare + high), mem);
    lemma_tombstones_below(layered(all), layered(bare + high), rows_map(mem));
}

/// The rows that a merge of whole tables writes: what the tables say together,
/// without the tombstones, in order.
pub open spec fn merged_rows(tables: Seq<Seq<Seq<Row>>>) -> Seq<Row> {
    choose|run: Seq<Row>|
        rows::sorted(run) && #[trigger] rows_map(run) == without_tombstones(
            layered(table_layers(tables, tables.len() as int)),
        )
}

/// The blocks that a merge of whole tables writes.
pub open spec fn merged_blocks(tables: Seq<Seq<Seq<Row>>>, target: nat) -> Seq<Seq<Row>> {
    split_blocks(merged_rows(tables), target)
}

/// A merge that was prepared from `input` and committed later keeps every live
/// entry: its one table, which holds no tombstone, stands in the place of its
/// inputs, below the tables flushed since, and values read as before.
pub proof fn a_compaction_keeps_every_live_entry<F: StoreFiles>(
    files: &F,
    built: (Seq<Step>, Seq<Step>),
    committed: (Seq<Step>, Seq<Step>),
    input: Version,
    id: u64,
    dir: Seq<char>,
    block_size: u32,
    job: CompactionJob,
    before: Engine,
    after: Engine,
    tables: Seq<Seq<Seq<Row>>>,
) -> (blocks: Seq<Seq<Row>>)
    requires
        before.wf(),
        holds_tables(files, before.current.ssts@, tables),
        builds(files, built.0, built.1, input, id, dir, block_size, Ok(job)),
        commits(committed.0, committed.1, before, after, job, Ok(())),
        input.ssts@.len() <= before.current.ssts@.len(),
        before.current.ssts@.subrange(0, input.ssts@.len() as int) == input.ssts@,
        forall|i: int| 0 <= i < input.ssts@.len() ==> (#[trigger] before.current.ssts@[i]).id < id,
        forall|i: int|
            input.ssts@.len() <= i < before.current.ssts@.len() ==> id < (#[trigger] before.current.ssts@[i]).id,
    ensures
        after.current.ssts@ == seq![job.merged] + before.current.ssts@.subrange(
            input.ssts@.len() as int,
            before.current.ssts@.len() as int,
        ),
        ids_ascend(after.current.ssts@),
        after.memtable == before.memtable,
        describes_table(&*job.merged, blocks),
        blocks == merged_blocks(tables.subrange(0, input.ssts@.len() as int), block_size as nat),
        forall|i: int| 0 <= i < all_rows(blocks).len() ==> (#[trigger] all_rows(blocks)[i]).1 is Some,
        live(
            contents(
                seq![blocks] + tables.subrange(input.ssts@.len() as int, tables.len() as int),
                after.memtable.spec_rows(),
            ),
        ) == live(contents(tables, before.memtable.spec_rows())),
{
    let ssts = before.current.ssts@;
    let n = input.ssts@.len() as int;
    let later = ssts.subrange(n, ssts.len() as int);
    let (found, run, s) = choose|found: Seq<Seq<Row>>, run: Seq<Row>, s: Result<BlockSstFile, EngineError>|
        {
            &&& #[trigger] reads_tables(files, input.ssts@, found)
            &&& rows::sorted(run)
            &&& rows_map(run) == without_tombstones(layered(found))
            &&& #[trigger] stages(files, built.0, built.1, dir, id, run, block_size, s)
            &&& match s {
                Err(e) => false,
                Ok(file) => {
                    &&& *job.merged == file
                    &&& job.deleted@ == ids_of(input.ssts@)
                    &&& job.input_bytes == sst_block::capped64(super::compact::table_bytes(input.ssts@))
                    &&& job.output_bytes == file.file_bytes
                },
            }
        };
    let blocks = split_blocks(run, block_size as nat);
    a_staged_table_holds_its_rows(files, built.0, built.1, dir, id, run, block_size, s->Ok_0);
    assert forall|i: int| 0 <= i < run.len() implies (#[trigger] run[i]).1 is Some by {
        rows::lemma_sorted_slot(run, i);
    }

    // The merge read what its inputs hold.
    assert(found =~= table_layers(tables, n)) by {
        assert forall|i: int| 0 <= i < n implies found[i] == all_rows(tables[i]) by {
            assert(input.ssts@[i] == ssts[i]);
            assert(holds_table(files, &*ssts[i], tables[i]));
            assert(reads_table(files, &*input.ssts@[i], found[i]));
            lemma_whole_table(files, &*ssts[i], tables[i], found[i]);
        }
    }
    let inputs = tables.subrange(0, n);
    assert(table_layers(inputs, n) =~= table_layers(tables, n));
    rows::lemma_sorted_rows_unique(run, merged_rows(inputs));

    let (edit, mid, d) = choose|edit: VersionEdit, mid: Engine, d: Result<(), EngineError>|
        {
            &&& edit.added@ == seq![job.merged]
            &&& edit.deleted@ == job.deleted@
            &&& #[trigger] edits(committed.0, committed.1, before, mid, edit, d)
            &&& match d {
                Err(e) => false,
                Ok(()) => after == (Engine {
                    counters: mid.counters.with_compaction(job.input_bytes, job.output_bytes),
                    ..mid
                }),
            }
        };
    assert(mid.current == after.current);
    assert(input.ssts@ + later =~= ssts);
    if exists|i: int| first_missing(ids_of(ssts), edit.deleted@, i) {
        assert(false);
    }
    assert(is_next_version(*before.current, edit, *after.current));
    lemma_merged_in_place(input.ssts@, later, job.merged, after.current.ssts@);
    let kept = after.current.ssts@;
    assert forall|i: int, j: int| 0 <= i < j < kept.len() implies (#[trigger] kept[i]).id < (#[trigger] kept[j]).id by {
        assert(kept[j] == ssts[n + j - 1]);
        if i > 0 {
            assert(kept[i] == ssts[n + i - 1]);
        }
    }
    lemma_values_read_the_same(tables, n, run, blocks, before.memtable.spec_rows());
    blocks
}

/// A block that stays cached when tables leave was cached before, and is of
/// none of them.
pub proof fn lemma_without_ssts(blocks: Seq<Resident>, ids: Seq<u64>)
    ensures
        forall|i: int|
            0 <= i < without_ssts(blocks, ids).len() ==> blocks.contains(#[trigger] without_ssts(blocks, ids)[i])
                && !ids.contains(without_ssts(blocks, ids)[i].sst_id),
    decreases ids.len(),
{
    if ids.len() > 0 {
        let head = without_ssts(blocks, ids.drop_last());
        let kept = without_ssts(blocks, ids);
        lemma_without_ssts(blocks, ids.drop_last());
        block_cache::invalidation_drops_only_that_table(head, ids.last());
        assert forall|i: int| 0 <= i < kept.len() implies blocks.contains(#[trigger] kept[i]) && !ids.contains(
            kept[i].sst_id,
        ) by {
            assert(head.contains(without_sst(head, ids.last())[i]));
            let j = choose|j: int| 0 <= j < head.len() && head[j] == kept[i];
            assert(blocks.contains(head[j]));
            if ids.contains(kept[i].sst_id) {
                let a = choose|a: int| 0 <= a < ids.len() && ids[a] == kept[i].sst_id;
                assert(ids.drop_last()[a] == kept[i].sst_id);
            }
        }
    } else {
        assert forall|i: int| 0 <= i < blocks.len() implies blocks.contains(#[trigger] blocks[i]) by {}
    }
}

/// What is cached stays true through an edit: of the tables that went nothing
/// is left, of those that stayed what is cached is what stood there, and of
/// those that came nothing was cached.
pub proof fn an_edit_keeps_the_cache_true(
    t0: Seq<Step>,
    t1: Seq<Step>,
    before: Engine,
    after: Engine,
    edit: VersionEdit,
    tables: Seq<Seq<Seq<Row>>>,
    next: Seq<Seq<Seq<Row>>>,
)
    requires
        edits(t0, t1, before, after, edit, Ok(())),
        coherent(before.block_cache@, before.current.ssts@, tables),
        forall|c: int, t: int|
            0 <= c < before.block_cache@.len() && 0 <= t < edit.added@.len() ==> (
            #[trigger] before.block_cache@[c]).sst_id != (#[trigger] edit.added@[t]).id,
        next.len() == after.current.ssts@.len(),
        forall|i: int, j: int|
            0 <= i < next.len() && 0 <= j < tables.len() && #[trigger] after.current.ssts@[i]
                == #[trigger] before.current.ssts@[j] ==> next[i] == tables[j],
        tables.len() == before.current.ssts@.len(),
    ensures
        coherent(after.block_cache@, after.current.ssts@, next),
        forall|c: int|
            0 <= c < after.block_cache@.len() ==> !edit.deleted@.contains(
                (#[trigger] after.block_cache@[c]).sst_id,
            ) || !ids_of(before.current.ssts@).contains(after.block_cache@[c].sst_id),
{
    let ssts = before.current.ssts@;
    let cache = after.block_cache@;
    let gone = retired(ssts, edit.deleted@);
    if exists|i: int| first_missing(ids_of(ssts), edit.deleted@, i) {
        assert(false);
    }
    assert(cache_drops(before.block_cache, after.block_cache, gone));
    assert(is_next_version(*before.current, edit, *after.current));
    lemma_without_ssts(before.block_cache@, gone);
    lemma_retired(ssts, edit.deleted@);
    let all = survivors(ssts, edit.deleted@) + edit.added@;
    version::lemma_by_id(all);
    assert forall|c: int, t: int|
        0 <= c < cache.len() && 0 <= t < after.current.ssts@.len() && (#[trigger] cache[c]).sst_id == (
        #[trigger] after.current.ssts@[t]).id && cache[c].block_no < next[t].len() implies cache[c].rows
        == next[t][cache[c].block_no as int] by {
        let file = after.current.ssts@[t];
        version::lemma_same_tables(after.current.ssts@, all, file);
        let k = choose|k: int| 0 <= k < all.len() && all[k] == file;
        assert(before.block_cache@.contains(cache[c]));
        let b = choose|b: int| 0 <= b < before.block_cache@.len() && before.block_cache@[b] == cache[c];
        if k < survivors(ssts, edit.deleted@).len() {
            version::lemma_survivors(ssts, edit.deleted@);
            assert(ssts.contains(survivors(ssts, edit.deleted@)[k]));
            let j = choose|j: int| 0 <= j < ssts.len() && ssts[j] == file;
            assert(next[t] == tables[j]);
            assert(before.block_cache@[b].sst_id == ssts[j].id);
        } else {
            let a = k - survivors(ssts, edit.deleted@).len();
            assert(edit.added@[a] == file);
            assert(before.block_cache@[b].sst_id != edit.added@[a].id);
        }
    }
    assert forall|c: int| 0 <= c < cache.len() implies !edit.deleted@.contains((#[trigger] cache[c]).sst_id)
        || !ids_of(ssts).contains(cache[c].sst_id) by {
        assert(!gone.contains(cache[c].sst_id));
        if ids_of(ssts).contains(cache[c].sst_id) {
            let j = choose|j: int| 0 <= j < ssts.len() && ids_of(ssts)[j] == cache[c].sst_id;
            assert(ssts[j].id == cache[c].sst_id);
        }
    }
}

/// An edit caches nothing.
pub proof fn lemma_cache_shrinks(t0: Seq<Step>, t1: Seq<Step>, before: Engine, after: Engine, edit: VersionEdit)
    requires
        edits(t0, t1, before, after, edit, Ok(())),
    ensures
        forall|c: int|
            0 <= c < after.block_cache@.len() ==> before.block_cache@.contains(#[trigger] after.block_cache@[c]),
{
    let ssts = before.current.ssts@;
    if exists|i: int| first_missing(ids_of(ssts), edit.deleted@, i) {
        assert(false);
    }
    lemma_without_ssts(before.block_cache@, retired(ssts, edit.deleted@));
}

/// The retired ids are the deleted ones among the tables.
proof fn lemma_retired(ssts: Seq<Arc<BlockSstFile>>, deleted: Seq<u64>)
    ensures
        forall|i: int|
            0 <= i < ssts.len() && deleted.contains((#[trigger] ssts[i]).id) ==> retired(ssts, deleted).contains(
                ssts[i].id,
            ),
    decreases ssts.len(),
{
    if ssts.len() > 0 {
        let head = ssts.drop_last();
        let kept = retired(head, deleted);
        lemma_retired(head, deleted);
        assert forall|i: int| 0 <= i < ssts.len() && deleted.contains((#[trigger] ssts[i]).id) implies retired(
            ssts,
            deleted,
        ).contains(ssts[i].id) by {
            if i < head.len() {
                assert(head[i] == ssts[i]);
                assert(kept.contains(ssts[i].id));
                let j = choose|j: int| 0 <= j < kept.len() && kept[j] == ssts[i].id;
                assert(retired(ssts, deleted)[j] == ssts[i].id);
            } else {
                assert(retired(ssts, deleted)[kept.len() as int] == ssts[i].id);
            }
        }
    }
}

} // verus!
