//! What reads promise of the store as a whole.
//!
//! A read asks for blocks and takes what it is given. These laws say what it
//! answers when it is given what the tables hold: every lookup and every scan
//! then answers from one and the same map, the contents of the store.
use super::read::{
    cut_key, gets, gets_from, is_page, lowest_frontier, memtable_cut, memtable_part, paged, paged_all, scanned, scanned_all,
};
use super::{Engine, ScanPage, StoreFiles};
use crate::bytes;
use crate::bytes::{bytes_le, bytes_lt};
use crate::error::EngineError;
use crate::key::Key;
use crate::store::block_cache::{after_insert, after_touch, is_resident, resident_at, BlockCache, Resident};
use crate::store::layers::{layered, listed, lists, pairs_view, upto, upto_keys, LiveRow};
use crate::store::rows::{keep_keys, keep_rows, live, put_rows, rows_map, rows_view, slot_view, Row, Slot};
use crate::store::sst_block::read::{covers, looks_up, looks_up_in, reads_block, searches};
use crate::store::sst_block::scan::{exhausted, reads_run, walked, walks_to, wanted_keys, wants, Wanted};
use crate::store::sst_block::write::bloom_holds;
use crate::store::sst_block::{all_rows, index_describes, BlockSstFile};
use crate::store::{block_cache, layers, rows, sst_block, Value};
use std::sync::Arc;
use vstd::prelude::*;

verus! {

/// `file` is a table of `blocks`, and `files` gives them when asked: the index
/// describes them, the filter holds their keys, and a block that is read is
/// the block that stands there.
pub open spec fn holds_table<F: StoreFiles>(files: &F, file: &BlockSstFile, blocks: Seq<Seq<Row>>) -> bool {
    &&& index_describes(file.block_index@, blocks)
    &&& bloom_holds(file.bloom, all_rows(blocks))
    &&& blocks.len() <= u32::MAX
    &&& forall|i: int, v: Vec<(Key, Option<Value>)>|
        0 <= i < blocks.len() && #[trigger] reads_block(files, file, i, Ok(v)) ==> rows_view(v@) == blocks[i]
}

/// The tables are tables of the given blocks.
pub open spec fn holds_tables<F: StoreFiles>(
    files: &F,
    ssts: Seq<Arc<BlockSstFile>>,
    tables: Seq<Seq<Seq<Row>>>,
) -> bool {
    &&& tables.len() == ssts.len()
    &&& crate::store::version::ids_ascend(ssts)
    &&& forall|i: int| 0 <= i < ssts.len() ==> holds_table(files, &*ssts[i], #[trigger] tables[i])
}

/// What is cached of the tables is what stands there.
pub open spec fn coherent(
    cache: Seq<Resident>,
    ssts: Seq<Arc<BlockSstFile>>,
    tables: Seq<Seq<Seq<Row>>>,
) -> bool {
    forall|c: int, t: int|
        0 <= c < cache.len() && 0 <= t < ssts.len() && (#[trigger] cache[c]).sst_id == (#[trigger] ssts[t]).id
            && cache[c].block_no < tables[t].len() ==> cache[c].rows == tables[t][cache[c].block_no as int]
}

/// The rows of the first `n` tables, oldest first.
pub open spec fn table_layers(tables: Seq<Seq<Seq<Row>>>, n: int) -> Seq<Seq<Row>> {
    Seq::new(n as nat, |i: int| all_rows(tables[i]))
}

/// What the store holds: its tables, and the memtable over them.
pub open spec fn contents(tables: Seq<Seq<Seq<Row>>>, memtable: Seq<Row>) -> Map<Seq<u8>, Slot> {
    put_rows(layered(table_layers(tables, tables.len() as int)), memtable)
}

/// What a map says of one key: its value, if it has one and is not deleted.
pub open spec fn value_of(map: Map<Seq<u8>, Slot>, key: Seq<u8>) -> Option<Seq<u8>> {
    if map.contains_key(key) {
        map[key]
    } else {
        None
    }
}

/// One lookup in a table leaves the cache telling the truth.
pub proof fn lemma_look_up<F: StoreFiles>(
    files: &F,
    ssts: Seq<Arc<BlockSstFile>>,
    tables: Seq<Seq<Seq<Row>>>,
    t: int,
    key: Seq<u8>,
    before: BlockCache,
    after: BlockCache,
    hit: Option<Option<Value>>,
    blocks_read: u64,
)
    requires
        holds_tables(files, ssts, tables),
        coherent(before@, ssts, tables),
        0 <= t < ssts.len(),
        looks_up(files, &*ssts[t], key, before, after, Ok((hit, blocks_read))),
    ensures
        coherent(after@, ssts, tables),
        match hit {
            Some(v) => rows_map(all_rows(tables[t])).contains_key(key) && rows_map(all_rows(tables[t]))[key]
                == slot_view(v),
            None => !rows_map(all_rows(tables[t])).contains_key(key),
        },
{
    let file = &*ssts[t];
    let blocks = tables[t];
    let all = all_rows(blocks);
    assert(holds_table(files, file, blocks));
    sst_block::scan::described_tables_are_sorted(file.block_index@, blocks);
    rows::lemma_put_rows_dom(Map::empty(), all, key);
    sst_block::read::point_lookup_finds_what_a_full_scan_finds(file.block_index@, blocks, key);
    if !file.bloom.may_contain(key) || !exists|i: int| covers(file.block_index@, i, key) {
        if rows::mentions(all, key) {
            sst_block::read::filter_denies_no_stored_key(file.bloom, all, key);
        }
    } else {
        let i = choose|i: int|
            #[trigger] covers(file.block_index@, i, key) && looks_up_in(
                files,
                file,
                key,
                i,
                before,
                after,
                Ok((hit, blocks_read)),
            );
        let no = i as u32;
        assert(no as int == i);
        if is_resident(before@, file.id, no) {
            let c = choose|c: int|
                {
                    &&& #[trigger] resident_at(before@, file.id, no, c)
                    &&& after@ == after_touch(before@, c)
                    &&& searches(before@[c].rows, key, hit)
                };
            assert(before@[c].rows == blocks[i]);
            sst_block::read::searched_block_answers_for_the_table(file.block_index@, blocks, i, key, hit);
            assert forall|a: int, b: int|
                0 <= a < after@.len() && 0 <= b < ssts.len() && (#[trigger] after@[a]).sst_id == (
                #[trigger] ssts[b]).id && after@[a].block_no < tables[b].len() implies after@[a].rows
                == tables[b][after@[a].block_no as int] by {
                let o = if a == before@.len() - 1 { c } else if a < c { a } else { a + 1 };
                assert(after@[a] == before@[o]);
            }
        } else {
            let d = choose|d: Result<Vec<(Key, Option<Value>)>, EngineError>|
                #[trigger] reads_block(files, file, i, d) && match d {
                    Err(e) => false,
                    Ok(v) => searches(rows_view(v@), key, hit) && after@ == after_insert(
                        before@,
                        before.capacity(),
                        Resident { sst_id: file.id, block_no: no, rows: rows_view(v@) },
                    ),
                };
            let v = d->Ok_0;
            assert(reads_block(files, file, i, Ok(v)));
            assert(rows_view(v@) == blocks[i]);
            sst_block::read::searched_block_answers_for_the_table(file.block_index@, blocks, i, key, hit);
            let added = Resident { sst_id: file.id, block_no: no, rows: rows_view(v@) };
            assert forall|a: int, b: int|
                0 <= a < after@.len() && 0 <= b < ssts.len() && (#[trigger] after@[a]).sst_id == (
                #[trigger] ssts[b]).id && after@[a].block_no < tables[b].len() implies after@[a].rows
                == tables[b][after@[a].block_no as int] by {
                if a == after@.len() - 1 {
                    assert(after@[a] == added);
                    if b != t {
                        if b < t {
                            assert(ssts[b].id < ssts[t].id);
                        } else {
                            assert(ssts[t].id < ssts[b].id);
                        }
                    }
                } else {
                    let need = block_cache::capped(block_cache::payload_bytes(added.rows));
                    let k = block_cache::lemma_evicted_suffix(before@, before.capacity(), need);
                    assert(after@[a] == before@[k + a]);
                }
            }
        }
    }
}

/// A lookup that succeeds gives the value that the store holds for the key,
/// whatever was cached before it, and leaves the cache telling the truth.
pub proof fn get_answers_from_the_contents<F: StoreFiles>(
    files: &F,
    ssts: Seq<Arc<BlockSstFile>>,
    tables: Seq<Seq<Seq<Row>>>,
    n: int,
    key: Seq<u8>,
    before: BlockCache,
    after: BlockCache,
    v: Option<Value>,
)
    requires
        holds_tables(files, ssts, tables),
        coherent(before@, ssts, tables),
        0 <= n <= ssts.len(),
        gets_from(files, ssts, n, key, before, after, Ok(v)),
    ensures
        coherent(after@, ssts, tables),
        slot_view(v) == value_of(layered(table_layers(tables, n)), key),
    decreases n,
{
    let all = table_layers(tables, n);
    if n > 0 {
        let below = table_layers(tables, n - 1);
        let top = all_rows(tables[n - 1]);
        assert(all =~= below.push(top));
        layers::top_layer_decides(below, top, key);
        let (mid, l) = choose|mid: BlockCache, l: Result<(Option<Option<Value>>, u64), EngineError>|
            #[trigger] looks_up(files, &*ssts[n - 1], key, before, mid, l) && match l {
                Err(e) => false,
                Ok((Some(slot), _)) => slot_view(v) == slot_view(slot) && after == mid,
                Ok((None, _)) => gets_from(files, ssts, n - 1, key, mid, after, Ok(v)),
            };
        let (hit, blocks_read) = l->Ok_0;
        assert(looks_up(files, &*ssts[n - 1], key, before, mid, Ok((hit, blocks_read))));
        lemma_look_up(files, ssts, tables, n - 1, key, before, mid, hit, blocks_read);
        assert(holds_table(files, &*ssts[n - 1], tables[n - 1]));
        sst_block::scan::described_tables_are_sorted(ssts[n - 1].block_index@, tables[n - 1]);
        rows::lemma_put_rows_dom(Map::empty(), top, key);
        if hit is None {
            get_answers_from_the_contents(files, ssts, tables, n - 1, key, mid, after, v);
        }
    }
}

/// A lookup answers from the contents: the value last written, if the key was
/// not deleted since.
pub proof fn get_answers_from_the_store<F: StoreFiles>(
    files: &F,
    before: Engine,
    after: Engine,
    tables: Seq<Seq<Seq<Row>>>,
    key: Seq<u8>,
    v: Option<Value>,
)
    requires
        before.wf(),
        holds_tables(files, before.current.ssts@, tables),
        coherent(before.block_cache@, before.current.ssts@, tables),
        gets(files, before, after, key, Ok(v)),
    ensures
        coherent(after.block_cache@, after.current.ssts@, tables),
        slot_view(v) == value_of(contents(tables, before.memtable.spec_rows()), key),
{
    let ssts = before.current.ssts@;
    let mem = before.memtable.spec_rows();
    let below = layered(table_layers(tables, tables.len() as int));
    before.memtable.iteration_is_sorted();
    rows::lemma_put_rows_overlay(below, mem);
    if !before.memtable@.contains_key(key) {
        get_answers_from_the_contents(
            files,
            ssts,
            tables,
            ssts.len() as int,
            key,
            before.block_cache,
            after.block_cache,
            v,
        );
    }
}

/// Reading a run of blocks gives the blocks that stand there.
proof fn lemma_run_is_table<F: StoreFiles>(
    files: &F,
    file: &BlockSstFile,
    blocks: Seq<Seq<Row>>,
    from: int,
    read: Seq<Seq<Row>>,
)
    requires
        holds_table(files, file, blocks),
        0 <= from,
        from + read.len() <= blocks.len(),
        reads_run(files, file, from, read),
    ensures
        read == blocks.subrange(from, from + read.len()),
{
    assert forall|k: int| 0 <= k < read.len() implies read[k] == blocks[from + k] by {
        assert(sst_block::scan::reads_as(files, file, from + k, read[k]));
        let v = choose|v: Vec<(Key, Option<Value>)>|
            rows_view(v@) == read[k] && #[trigger] reads_block(files, file, from + k, Ok(v));
        assert(rows_view(v@) == blocks[from + k]);
    }
    assert(read =~= blocks.subrange(from, from + read.len()));
}

/// A complete walk of a table gives its wanted rows.
proof fn lemma_scanned_table<F: StoreFiles>(
    files: &F,
    file: &BlockSstFile,
    blocks: Seq<Seq<Row>>,
    wanted: Wanted,
    out: Seq<Row>,
)
    requires
        holds_table(files, file, blocks),
        scanned(files, file, wanted, out),
    ensures
        out == keep_rows(all_rows(blocks), wanted_keys(wanted)),
{
    let n = choose|n: u64| #[trigger] walks_to(files, file, wanted, None, out, false, n);
    let (from, read) = choose|from: int, read: Seq<Seq<Row>>|
        {
            &&& #[trigger] walked(files, file, wanted, None, from, read, out)
            &&& n == read.len()
            &&& false == !exhausted(file.block_index@, wanted, from + read.len())
        };
    lemma_run_is_table(files, file, blocks, from, read);
    sst_block::scan::complete_walk_is_the_filtered_full_scan(files, file, blocks, wanted, None, from, read, out);
}

/// A scan that succeeds lists the live entries that the store holds for the
/// wanted keys: the same that lookups give, all of them, in key order.
pub proof fn scan_lists_the_contents<F: StoreFiles>(
    files: &F,
    ssts: Seq<Arc<BlockSstFile>>,
    tables: Seq<Seq<Seq<Row>>>,
    memtable: Seq<Row>,
    wanted: Wanted,
    found: Seq<Seq<Row>>,
    out: Seq<LiveRow>,
)
    requires
        holds_tables(files, ssts, tables),
        scanned_all(files, ssts, wanted, found),
        lists(out, live(put_rows(layered(found), keep_rows(memtable, wanted_keys(wanted))))),
    ensures
        lists(out, live(keep_keys(contents(tables, memtable), wanted_keys(wanted)))),
        forall|key: Seq<u8>|
            wants(wanted, key) ==> (#[trigger] value_of(contents(tables, memtable), key) is Some <==> listed(
                out,
                key,
            )),
{
    let keep = wanted_keys(wanted);
    let all = table_layers(tables, tables.len() as int);
    assert forall|i: int| 0 <= i < all.len() implies #[trigger] found[i] == keep_rows(all[i], keep) by {
        assert(holds_table(files, &*ssts[i], tables[i]));
        assert(scanned(files, &*ssts[i], wanted, found[i]));
        lemma_scanned_table(files, &*ssts[i], tables[i], wanted, found[i]);
    }
    layers::lemma_keep_layers(all, found, keep);
    layers::lemma_keep_put(layered(all), memtable, keep);
    let map = live(keep_keys(contents(tables, memtable), keep));
    assert forall|key: Seq<u8>| wants(wanted, key) implies (#[trigger] value_of(
        contents(tables, memtable),
        key,
    ) is Some <==> listed(out, key)) by {
        if value_of(contents(tables, memtable), key) is Some {
            assert(map.contains_key(key));
        }
        if listed(out, key) {
            let i = choose|i: int| 0 <= i < out.len() && (#[trigger] out[i]).0 == key;
            assert(map.contains_key(out[i].0));
        }
    }
}

/// The wanted keys up to a frontier.
pub open spec fn wanted_upto(wanted: Wanted, frontier: Option<Seq<u8>>) -> spec_fn(Seq<u8>) -> bool {
    |key: Seq<u8>| wants(wanted, key) && upto(frontier, key)
}

/// A table's part of a page is complete up to its cut.
proof fn lemma_paged_table<F: StoreFiles>(
    files: &F,
    file: &BlockSstFile,
    blocks: Seq<Seq<Row>>,
    wanted: Wanted,
    limit: usize,
    out: Seq<Row>,
    cut: Option<Seq<u8>>,
)
    requires
        holds_table(files, file, blocks),
        limit > 0,
        paged(files, file, wanted, limit, out, cut),
    ensures
        out == keep_rows(all_rows(blocks), wanted_upto(wanted, cut)),
        cut matches Some(f) ==> wants(wanted, f),
{
    let (truncated, n) = choose|truncated: bool, n: u64|
        #[trigger] walks_to(files, file, wanted, Some(limit), out, truncated, n) && cut == cut_key(
            out,
            truncated,
        );
    let (from, read) = choose|from: int, read: Seq<Seq<Row>>|
        {
            &&& #[trigger] walked(files, file, wanted, Some(limit), from, read, out)
            &&& n == read.len()
            &&& truncated == !exhausted(file.block_index@, wanted, from + read.len())
            &&& truncated ==> !sst_block::scan::below_limit(Some(limit), out.len())
        };
    lemma_run_is_table(files, file, blocks, from, read);
    if truncated {
        sst_block::scan::truncated_walk_is_complete_up_to_its_last_row(
            files,
            file,
            blocks,
            wanted,
            Some(limit),
            from,
            read,
            out,
        );
        let narrow = |key: Seq<u8>| wants(wanted, key) && bytes_le(key, out.last().0);
        assert(narrow =~= wanted_upto(wanted, cut));
        rows::lemma_keep_rows(all_rows(blocks), narrow);
        assert(narrow(out[out.len() - 1].0));
    } else {
        sst_block::scan::complete_walk_is_the_filtered_full_scan(
            files,
            file,
            blocks,
            wanted,
            Some(limit),
            from,
            read,
            out,
        );
        assert(wanted_keys(wanted) =~= wanted_upto(wanted, cut));
    }
}

/// Filtering twice is filtering once by both tests.
proof fn lemma_keep_twice(
    run: Seq<Row>,
    first: spec_fn(Seq<u8>) -> bool,
    second: spec_fn(Seq<u8>) -> bool,
    both: spec_fn(Seq<u8>) -> bool,
)
    requires
        forall|k: Seq<u8>| #[trigger] both(k) <==> first(k) && second(k),
    ensures
        keep_rows(keep_rows(run, first), second) == keep_rows(run, both),
    decreases run.len(),
{
    if run.len() > 0 {
        let last = run.last().0;
        lemma_keep_twice(run.drop_last(), first, second, both);
        assert(both(last) <==> first(last) && second(last));
        if first(last) {
            let kept = keep_rows(run, first);
            assert(kept.drop_last() =~= keep_rows(run.drop_last(), first));
        }
    }
}

/// The lowest frontier is at most every other one, and is one of them.
proof fn lemma_lowest(cuts: Seq<Option<Seq<u8>>>, i: int)
    requires
        0 <= i < cuts.len(),
    ensures
        forall|k: Seq<u8>| #[trigger] upto(lowest_frontier(cuts), k) ==> upto(cuts[i], k),
        lowest_frontier(cuts) is Some ==> exists|j: int|
            0 <= j < cuts.len() && #[trigger] cuts[j] == lowest_frontier(cuts),
    decreases cuts.len(),
{
    let head = cuts.drop_last();
    let low = lowest_frontier(head);
    let last = cuts.last();
    assert forall|k: Seq<u8>| #[trigger] upto(lowest_frontier(cuts), k) implies upto(cuts[i], k) by {
        if let (Some(x), Some(y)) = (last, low) {
            bytes::lemma_lt_total(x, y);
            bytes::lemma_le_lt(k, y, x);
            bytes::lemma_le_lt(k, x, y);
        }
        if i < head.len() {
            lemma_lowest(head, i);
            assert(upto(low, k));
            assert(head[i] == cuts[i]);
        }
    }
    if lowest_frontier(cuts) is Some {
        if lowest_frontier(cuts) == last {
            assert(cuts[cuts.len() - 1] == lowest_frontier(cuts));
        } else {
            assert(head.len() > 0);
            lemma_lowest(head, 0);
            let j = choose|j: int| 0 <= j < head.len() && #[trigger] head[j] == low;
            assert(cuts[j] == lowest_frontier(cuts));
        }
    }
}

/// The memtable's part of a page is complete up to its cut.
proof fn lemma_memtable_part(memtable: Seq<Row>, wanted: Wanted, limit: usize)
    requires
        rows::sorted(memtable),
        limit > 0,
    ensures
        memtable_part(memtable, wanted, limit) == keep_rows(
            memtable,
            wanted_upto(wanted, memtable_cut(memtable, wanted, limit)),
        ),
        memtable_cut(memtable, wanted, limit) matches Some(f) ==> wants(wanted, f),
{
    let keep = wanted_keys(wanted);
    let all = keep_rows(memtable, keep);
    let part = memtable_part(memtable, wanted, limit);
    let cut = memtable_cut(memtable, wanted, limit);
    let narrow = wanted_upto(wanted, cut);
    rows::lemma_keep_rows(memtable, keep);
    if all.len() > limit {
        let f = part.last().0;
        assert(part.last() == all[limit - 1]);
        assert(keep(all[limit - 1].0));
        let le = |key: Seq<u8>| bytes_le(key, f);
        lemma_keep_twice(memtable, keep, le, narrow);
        let rest = all.subrange(limit as int, all.len() as int);
        assert(all =~= part + rest);
        rows::lemma_keep_rows_concat(part, rest, le);
        lemma_keep_all(part, le);
        assert forall|i: int| 0 <= i < rest.len() implies !le(#[trigger] rest[i].0) by {
            assert(rest[i] == all[limit + i]);
            assert(bytes_lt(all[limit - 1].0, all[limit + i].0));
            bytes::lemma_lt_total(all[limit - 1].0, all[limit + i].0);
        }
        rows::lemma_keep_none(rest, le);
        assert(keep_rows(part, le) + keep_rows(rest, le) =~= part);
    } else {
        assert(keep =~= narrow);
    }
}

/// Rows all of which are accepted stay.
proof fn lemma_keep_all(run: Seq<Row>, le: spec_fn(Seq<u8>) -> bool)
    requires
        rows::sorted(run),
        run.len() > 0,
        forall|k: Seq<u8>| #[trigger] le(k) <==> bytes_le(k, run.last().0),
    ensures
        keep_rows(run, le) == run,
{
    lemma_keep_prefix(run, le, run.len() as int);
    assert(run.subrange(0, run.len() as int) =~= run);
}

proof fn lemma_keep_prefix(run: Seq<Row>, le: spec_fn(Seq<u8>) -> bool, n: int)
    requires
        rows::sorted(run),
        run.len() > 0,
        0 <= n <= run.len(),
        forall|k: Seq<u8>| #[trigger] le(k) <==> bytes_le(k, run.last().0),
    ensures
        keep_rows(run.subrange(0, n), le) == run.subrange(0, n),
    decreases n,
{
    let part = run.subrange(0, n);
    if n > 0 {
        assert(part.drop_last() =~= run.subrange(0, n - 1));
        lemma_keep_prefix(run, le, n - 1);
        if n < run.len() {
            assert(bytes_lt(run[n - 1].0, run[run.len() - 1].0));
        }
        assert(le(part.last().0));
        assert(keep_rows(part, le) =~= part);
    } else {
        assert(keep_rows(part, le) =~= part);
    }
}

/// A page that succeeds lists the live entries that the store holds for the
/// range, up to where the next page starts; without a next page, all of them.
/// The next page starts above this one's start.
pub proof fn page_lists_the_contents_up_to_its_frontier<F: StoreFiles>(
    files: &F,
    engine: Engine,
    tables: Seq<Seq<Seq<Row>>>,
    wanted: Wanted,
    limit: usize,
    found: Seq<Seq<Row>>,
    cuts: Seq<Option<Seq<u8>>>,
    page: ScanPage,
)
    requires
        engine.wf(),
        limit > 0,
        holds_tables(files, engine.current.ssts@, tables),
        paged_all(files, engine.current.ssts@, wanted, limit, found, cuts),
        is_page(
            page,
            put_rows(layered(found), memtable_part(engine.memtable.spec_rows(), wanted, limit)),
            lowest_frontier(cuts.push(memtable_cut(engine.memtable.spec_rows(), wanted, limit))),
        ),
    ensures
        page.next_start is None ==> lists(
            pairs_view(page.entries@),
            live(keep_keys(contents(tables, engine.memtable.spec_rows()), wanted_keys(wanted))),
        ),
        page.next_start matches Some(next) ==> exists|f: Seq<u8>|
            {
                &&& wants(wanted, f)
                &&& next@ == #[trigger] f.push(0u8)
                &&& lists(
                    pairs_view(page.entries@),
                    live(
                        keep_keys(
                            contents(tables, engine.memtable.spec_rows()),
                            wanted_upto(wanted, Some(f)),
                        ),
                    ),
                )
            },
{
    let ssts = engine.current.ssts@;
    let memtable = engine.memtable.spec_rows();
    let part = memtable_part(memtable, wanted, limit);
    let mem_cut = memtable_cut(memtable, wanted, limit);
    let all_cuts = cuts.push(mem_cut);
    let frontier = lowest_frontier(all_cuts);
    let near = upto_keys(frontier);
    let both = wanted_upto(wanted, frontier);
    let all = table_layers(tables, tables.len() as int);
    let merged = put_rows(layered(found), part);
    engine.memtable.iteration_is_sorted();
    lemma_memtable_part(memtable, wanted, limit);

    // Up to the frontier every table's part is what the table holds.
    let near_found = Seq::new(found.len(), |i: int| keep_rows(found[i], near));
    assert forall|i: int| 0 <= i < all.len() implies #[trigger] near_found[i] == keep_rows(all[i], both) by {
        assert(holds_table(files, &*ssts[i], tables[i]));
        assert(paged(files, &*ssts[i], wanted, limit, found[i], cuts[i]));
        lemma_paged_table(files, &*ssts[i], tables[i], wanted, limit, found[i], cuts[i]);
        lemma_lowest(all_cuts, i);
        assert(all_cuts[i] == cuts[i]);
        let first = wanted_upto(wanted, cuts[i]);
        assert forall|k: Seq<u8>| #[trigger] both(k) <==> first(k) && near(k) by {
            assert(upto(frontier, k) ==> upto(cuts[i], k));
        }
        lemma_keep_twice(all[i], first, near, both);
    }
    layers::lemma_keep_layers(all, near_found, both);
    layers::lemma_keep_layers(found, near_found, near);

    // So is the memtable's.
    lemma_lowest(all_cuts, cuts.len() as int);
    assert(all_cuts[cuts.len() as int] == mem_cut);
    let first = wanted_upto(wanted, mem_cut);
    assert forall|k: Seq<u8>| #[trigger] both(k) <==> first(k) && near(k) by {
        assert(upto(frontier, k) ==> upto(mem_cut, k));
    }
    lemma_keep_twice(memtable, first, near, both);

    layers::lemma_keep_put(layered(found), part, near);
    layers::lemma_keep_put(layered(all), memtable, both);
    assert(keep_keys(merged, near) == keep_keys(contents(tables, memtable), both));

    if let Some(f) = frontier {
        let j = choose|j: int| 0 <= j < all_cuts.len() && #[trigger] all_cuts[j] == frontier;
        if j < cuts.len() {
            assert(holds_table(files, &*ssts[j], tables[j]));
            assert(paged(files, &*ssts[j], wanted, limit, found[j], cuts[j]));
            lemma_paged_table(files, &*ssts[j], tables[j], wanted, limit, found[j], cuts[j]);
        }
        assert(wants(wanted, f));
        assert(page.next_start->Some_0@ == f.push(0u8));
    } else {
        assert(both =~= wanted_keys(wanted));
    }
}

/// Chained pages make up the range: what one page lists, followed by what the
/// rest of the range lists, is what the whole range lists; and the rest starts
/// strictly above the start, so that the chain ends.
pub proof fn pages_reassemble_the_range(
    map: Map<Seq<u8>, Slot>,
    start: &[u8],
    end: &[u8],
    f: Seq<u8>,
    next: &[u8],
    page: Seq<LiveRow>,
    rest: Seq<LiveRow>,
)
    requires
        wants(Wanted::Range(start, end), f),
        next@ == f.push(0u8),
        lists(page, live(keep_keys(map, wanted_upto(Wanted::Range(start, end), Some(f))))),
        lists(rest, live(keep_keys(map, wanted_keys(Wanted::Range(next, end))))),
    ensures
        lists(page + rest, live(keep_keys(map, wanted_keys(Wanted::Range(start, end))))),
        bytes_lt(start@, next@),
{
    let whole = live(keep_keys(map, wanted_keys(Wanted::Range(start, end))));
    let first = live(keep_keys(map, wanted_upto(Wanted::Range(start, end), Some(f))));
    let second = live(keep_keys(map, wanted_keys(Wanted::Range(next, end))));
    let out = page + rest;
    bytes::lemma_successor(f, f);
    bytes::lemma_le_lt(start@, f, next@);
    assert forall|k: Seq<u8>| #[trigger] whole.contains_key(k) <==> first.contains_key(k) || second.contains_key(
        k,
    ) by {
        bytes::lemma_successor(f, k);
        bytes::lemma_lt_total(k, f);
        if bytes_lt(f, k) {
            bytes::lemma_le_lt(start@, f, k);
        }
    }
    assert forall|i: int, j: int| 0 <= i < j < out.len() implies bytes_lt(
        (#[trigger] out[i]).0,
        (#[trigger] out[j]).0,
    ) by {
        if i < page.len() && j >= page.len() {
            let a = page[i].0;
            let b = rest[j - page.len()].0;
            assert(first.contains_key(page[i].0));
            assert(second.contains_key(rest[j - page.len()].0));
            bytes::lemma_successor(f, b);
            bytes::lemma_le_lt(a, f, b);
        } else if i >= page.len() {
            assert(bytes_lt(rest[i - page.len()].0, rest[j - page.len()].0));
        } else {
            assert(bytes_lt(page[i].0, page[j].0));
        }
    }
    assert forall|i: int| 0 <= i < out.len() implies whole.contains_key((#[trigger] out[i]).0)
        && whole[out[i].0] == out[i].1 by {
        if i < page.len() {
            assert(first.contains_key(page[i].0));
        } else {
            assert(second.contains_key(rest[i - page.len()].0));
        }
    }
    assert forall|k: Seq<u8>| #[trigger] whole.contains_key(k) implies listed(out, k) by {
        if first.contains_key(k) {
            let i = choose|i: int| 0 <= i < page.len() && (#[trigger] page[i]).0 == k;
            assert(out[i].0 == k);
        } else {
            assert(second.contains_key(k));
            let i = choose|i: int| 0 <= i < rest.len() && (#[trigger] rest[i]).0 == k;
            assert(out[page.len() + i].0 == k);
        }
    }
}

} // verus!
