//! Walking a table: all of it, the keys with a prefix, the keys of a range.
//!
//! The walks over a prefix or a range read only blocks whose bounds can hold
//! a wanted key, found by bisection of the index.
use super::read::{lemma_row_within_bounds, reads_block};
use super::{all_rows, block_matches, index_describes, BlockSstFile, SstBlockIndexEntry, SstReader};
use crate::bytes;
use crate::bytes::{bytes_le, bytes_lt, has_prefix};
use crate::error::EngineError;
use crate::key::Key;
use crate::store::rows::{keep_rows, rows_view, Row};
use crate::store::{rows, Value};
use vstd::prelude::*;

verus! {

/// The matching rows, and the number of blocks read for them.
pub type PrefixScan = (Vec<(Key, Option<Value>)>, u64);

/// The matching rows, whether the walk stopped at its limit, and the number
/// of blocks read.
pub type LimitedRangeScan = (Vec<(Key, Option<Value>)>, bool, u64);

/// Reading block `i` may give `block`.
pub open spec fn reads_as<R: SstReader>(reader: &R, file: &BlockSstFile, i: int, block: Seq<Row>) -> bool {
    exists|v: Vec<(Key, Option<Value>)>| rows_view(v@) == block && #[trigger] reads_block(reader, file, i, Ok(v))
}

/// Reading the blocks from `from` on may give `blocks`.
pub open spec fn reads_run<R: SstReader>(reader: &R, file: &BlockSstFile, from: int, blocks: Seq<Seq<Row>>) -> bool {
    forall|k: int| 0 <= k < blocks.len() ==> reads_as(reader, file, from + k, #[trigger] blocks[k])
}

/// Which keys a walk is after.
pub enum Wanted<'a> {
    /// Those that carry a prefix.
    Prefix(&'a [u8]),
    /// Those from a first key on, below an end.
    Range(&'a [u8], &'a [u8]),
}

/// `key` is wanted.
pub open spec fn wants(wanted: Wanted, key: Seq<u8>) -> bool {
    match wanted {
        Wanted::Prefix(p) => has_prefix(key, p@),
        Wanted::Range(start, end) => bytes_le(start@, key) && bytes_lt(key, end@),
    }
}

/// The test for wanted keys.
pub open spec fn wanted_keys(wanted: Wanted) -> spec_fn(Seq<u8>) -> bool {
    |key: Seq<u8>| wants(wanted, key)
}

/// No wanted key sorts below this one.
pub open spec fn lower(wanted: Wanted) -> Seq<u8> {
    match wanted {
        Wanted::Prefix(p) => p@,
        Wanted::Range(start, _) => start@,
    }
}

/// A block that starts at `first` lies past every wanted key.
pub open spec fn lies_past(wanted: Wanted, first: Seq<u8>) -> bool {
    match wanted {
        Wanted::Prefix(p) => bytes_lt(p@, first) && !has_prefix(first, p@),
        Wanted::Range(_, end) => !bytes_lt(first, end@),
    }
}

/// `from` is the first block that does not end below every wanted key.
pub open spec fn starts_walk(index: Seq<SstBlockIndexEntry>, wanted: Wanted, from: int) -> bool {
    &&& 0 <= from <= index.len()
    &&& forall|i: int| 0 <= i < from ==> bytes_lt((#[trigger] index[i]).last_key@, lower(wanted))
    &&& forall|i: int|
        from <= i < index.len() ==> !bytes_lt((#[trigger] index[i]).last_key@, lower(wanted))
}

/// `n` rows are fewer than the limit, where there is one.
pub open spec fn below_limit(limit: Option<usize>, n: nat) -> bool {
    match limit {
        Some(limit) => n < limit,
        None => true,
    }
}

/// What a walk gives that read `blocks` from block `from` on.
pub open spec fn walked<R: SstReader>(
    reader: &R,
    file: &BlockSstFile,
    wanted: Wanted,
    limit: Option<usize>,
    from: int,
    blocks: Seq<Seq<Row>>,
    out: Seq<Row>,
) -> bool {
    let index = file.block_index@;
    let to = from + blocks.len();
    &&& starts_walk(index, wanted, from)
    &&& to <= index.len()
    &&& reads_run(reader, file, from, blocks)
    &&& out == keep_rows(all_rows(blocks), wanted_keys(wanted))
    &&& forall|i: int| from <= i < to ==> !lies_past(wanted, (#[trigger] index[i]).first_key@)
    &&& blocks.len() > 0 ==> below_limit(
        limit,
        keep_rows(all_rows(blocks.drop_last()), wanted_keys(wanted)).len(),
    )
}

/// A walk ends before block `to` because that block, if there is one, lies
/// past every wanted key.
pub open spec fn exhausted(index: Seq<SstBlockIndexEntry>, wanted: Wanted, to: int) -> bool {
    to == index.len() || (0 <= to < index.len() && lies_past(wanted, index[to].first_key@))
}

/// A walk from block `from` on read `blocks`, was still below its limit, and
/// the next block, which may hold a wanted key, cannot be read.
pub open spec fn stops_at<R: SstReader>(
    reader: &R,
    file: &BlockSstFile,
    wanted: Wanted,
    limit: Option<usize>,
    from: int,
    blocks: Seq<Seq<Row>>,
    e: EngineError,
) -> bool {
    let index = file.block_index@;
    let at = from + blocks.len();
    &&& at < index.len()
    &&& reads_run(reader, file, from, blocks)
    &&& forall|i: int| from <= i <= at ==> !lies_past(wanted, (#[trigger] index[i]).first_key@)
    &&& below_limit(limit, keep_rows(all_rows(blocks), wanted_keys(wanted)).len())
    &&& reads_block(reader, file, at, Err(e))
}

/// A walk failed: the blocks before were read, and the next one that it needs
/// cannot be.
pub open spec fn walk_failed<R: SstReader>(
    reader: &R,
    file: &BlockSstFile,
    wanted: Wanted,
    limit: Option<usize>,
    from: int,
    e: EngineError,
) -> bool {
    &&& starts_walk(file.block_index@, wanted, from)
    &&& exists|blocks: Seq<Seq<Row>>| #[trigger] stops_at(reader, file, wanted, limit, from, blocks, e)
}

/// What reading a whole table gives: the rows of its blocks, or the error of
/// the first block that cannot be read.
pub open spec fn reads_whole<R: SstReader>(
    reader: &R,
    file: &BlockSstFile,
    r: Result<Vec<(Key, Option<Value>)>, EngineError>,
) -> bool {
    match r {
        Ok(out) => exists|blocks: Seq<Seq<Row>>|
            {
                &&& #[trigger] reads_run(reader, file, 0, blocks)
                &&& blocks.len() == file.block_index@.len()
                &&& rows_view(out@) == all_rows(blocks)
            },
        Err(e) => exists|blocks: Seq<Seq<Row>>|
            {
                &&& #[trigger] reads_run(reader, file, 0, blocks)
                &&& blocks.len() < file.block_index@.len()
                &&& reads_block(reader, file, blocks.len() as int, Err(e))
            },
    }
}

/// A walk may give `out`, reading `blocks_read` blocks for it, and stop at its
/// limit or not.
pub open spec fn walks_to<R: SstReader>(
    reader: &R,
    file: &BlockSstFile,
    wanted: Wanted,
    limit: Option<usize>,
    out: Seq<Row>,
    truncated: bool,
    blocks_read: u64,
) -> bool {
    exists|from: int, blocks: Seq<Seq<Row>>|
        {
            &&& #[trigger] walked(reader, file, wanted, limit, from, blocks, out)
            &&& blocks_read == blocks.len()
            &&& truncated == !exhausted(file.block_index@, wanted, from + blocks.len())
            &&& truncated ==> !below_limit(limit, out.len())
        }
}

/// What a walk gives, and how many blocks it reads for it.
pub open spec fn walks<R: SstReader>(
    reader: &R,
    file: &BlockSstFile,
    wanted: Wanted,
    limit: Option<usize>,
    r: Result<LimitedRangeScan, EngineError>,
) -> bool {
    match r {
        Ok(scan) => walks_to(reader, file, wanted, limit, rows_view(scan.0@), scan.1, scan.2),
        Err(e) => exists|from: int| #[trigger] walk_failed(reader, file, wanted, limit, from, e),
    }
}

/// The rows of two runs of blocks, one behind the other.
pub proof fn lemma_all_rows_concat(a: Seq<Seq<Row>>, b: Seq<Seq<Row>>)
    ensures
        all_rows(a + b) == all_rows(a) + all_rows(b),
    decreases b.len(),
{
    if b.len() == 0 {
        assert(a + b =~= a);
        assert(all_rows(a) + all_rows(b) =~= all_rows(a));
    } else {
        assert((a + b).drop_last() =~= a + b.drop_last());
        lemma_all_rows_concat(a, b.drop_last());
        assert(all_rows(a + b) =~= all_rows(a) + all_rows(b));
    }
}

/// Blocks that end below every wanted key hold none.
proof fn lemma_nothing_before(index: Seq<SstBlockIndexEntry>, blocks: Seq<Seq<Row>>, wanted: Wanted, from: int)
    requires
        index_describes(index, blocks),
        starts_walk(index, wanted, from),
    ensures
        keep_rows(all_rows(blocks.subrange(0, from)), wanted_keys(wanted)) == Seq::<Row>::empty(),
{
    let head = blocks.subrange(0, from);
    let all = all_rows(head);
    assert forall|p: int| 0 <= p < all.len() implies !wanted_keys(wanted)(#[trigger] all[p].0) by {
        let (i, k) = super::read::lemma_find_row(head, p);
        assert(head[i] == blocks[i]);
        assert(block_matches(index[i], blocks[i]));
        lemma_row_within_bounds(index[i], blocks[i], k);
        let key = blocks[i][k].0;
        assert(bytes_lt(index[i].last_key@, lower(wanted)));
        bytes::lemma_le_lt(key, index[i].last_key@, lower(wanted));
        bytes::lemma_lt_total(key, lower(wanted));
        if wants(wanted, key) {
            if let Wanted::Prefix(p) = wanted {
                bytes::lemma_prefix_le(key, p@);
            }
        }
    }
    rows::lemma_keep_none(all, wanted_keys(wanted));
}

/// Blocks from one on that lies past every wanted key hold none.
proof fn lemma_nothing_after(index: Seq<SstBlockIndexEntry>, blocks: Seq<Seq<Row>>, wanted: Wanted, to: int)
    requires
        index_describes(index, blocks),
        0 <= to <= blocks.len(),
        to == index.len() || lies_past(wanted, index[to].first_key@),
    ensures
        keep_rows(all_rows(blocks.subrange(to, blocks.len() as int)), wanted_keys(wanted)) == Seq::<Row>::empty(),
{
    let tail = blocks.subrange(to, blocks.len() as int);
    let all = all_rows(tail);
    assert forall|p: int| 0 <= p < all.len() implies !wanted_keys(wanted)(#[trigger] all[p].0) by {
        let (i, k) = super::read::lemma_find_row(tail, p);
        let b = to + i;
        assert(tail[i] == blocks[b]);
        assert(block_matches(index[b], blocks[b]));
        lemma_row_within_bounds(index[b], blocks[b], k);
        let key = blocks[b][k].0;
        let first = index[to].first_key@;
        if i > 0 {
            assert(bytes_lt(index[to].last_key@, index[b].first_key@));
            assert(bytes_le(index[to].first_key@, index[to].last_key@));
            bytes::lemma_le_lt(first, index[to].last_key@, index[b].first_key@);
        }
        bytes::lemma_le_lt(first, index[b].first_key@, key);
        assert(bytes_le(first, key));
        match wanted {
            Wanted::Prefix(p) => {
                if has_prefix(key, p@) {
                    bytes::lemma_past_prefix(key, p@, first);
                    bytes::lemma_lt_total(key, first);
                }
            },
            Wanted::Range(_, end) => {
                if bytes_lt(key, end@) {
                    bytes::lemma_le_lt(first, key, end@);
                }
            },
        }
    }
    rows::lemma_keep_none(all, wanted_keys(wanted));
}

/// A walk that ran to its end gives every wanted row of the table, as
/// filtering a full scan would.
pub proof fn complete_walk_is_the_filtered_full_scan<R: SstReader>(
    reader: &R,
    file: &BlockSstFile,
    blocks: Seq<Seq<Row>>,
    wanted: Wanted,
    limit: Option<usize>,
    from: int,
    read: Seq<Seq<Row>>,
    out: Seq<Row>,
)
    requires
        index_describes(file.block_index@, blocks),
        walked(reader, file, wanted, limit, from, read, out),
        exhausted(file.block_index@, wanted, from + read.len()),
        read == blocks.subrange(from, from + read.len()),
    ensures
        out == keep_rows(all_rows(blocks), wanted_keys(wanted)),
{
    let index = file.block_index@;
    let to = from + read.len();
    lemma_nothing_before(index, blocks, wanted, from);
    lemma_nothing_after(index, blocks, wanted, to);
    let a = blocks.subrange(0, from);
    let c = blocks.subrange(to, blocks.len() as int);
    assert(blocks =~= a + read + c);
    lemma_all_rows_concat(a + read, c);
    lemma_all_rows_concat(a, read);
    rows::lemma_keep_rows_concat(all_rows(a + read), all_rows(c), wanted_keys(wanted));
    rows::lemma_keep_rows_concat(all_rows(a), all_rows(read), wanted_keys(wanted));
    assert(out =~= keep_rows(all_rows(blocks), wanted_keys(wanted)));
}

/// A walk, one that stopped at its limit too, is complete up to the last row
/// it gives: it holds every wanted row of the table up to there, and no other.
pub proof fn truncated_walk_is_complete_up_to_its_last_row<R: SstReader>(
    reader: &R,
    file: &BlockSstFile,
    blocks: Seq<Seq<Row>>,
    wanted: Wanted,
    limit: Option<usize>,
    from: int,
    read: Seq<Seq<Row>>,
    out: Seq<Row>,
)
    requires
        index_describes(file.block_index@, blocks),
        walked(reader, file, wanted, limit, from, read, out),
        read == blocks.subrange(from, from + read.len()),
        out.len() > 0,
    ensures
        out == keep_rows(
            all_rows(blocks),
            |key: Seq<u8>| wants(wanted, key) && bytes_le(key, out.last().0),
        ),
{
    let index = file.block_index@;
    let to = from + read.len();
    let keep = wanted_keys(wanted);
    let frontier = out.last().0;
    let upto = |key: Seq<u8>| wants(wanted, key) && bytes_le(key, frontier);
    let a = blocks.subrange(0, from);
    let c = blocks.subrange(to, blocks.len() as int);
    assert(blocks =~= a + read + c);
    lemma_all_rows_concat(a + read, c);
    lemma_all_rows_concat(a, read);
    rows::lemma_keep_rows_concat(all_rows(a + read), all_rows(c), upto);
    rows::lemma_keep_rows_concat(all_rows(a), all_rows(read), upto);
    // Before the walk: nothing wanted.
    lemma_nothing_before(index, blocks, wanted, from);
    lemma_keep_none_of_none(all_rows(a), keep, upto);
    // Within the walk: the last row given is the greatest wanted one.
    rows::lemma_keep_rows(all_rows(read), keep);
    let last = choose|p: int|
        0 <= p < all_rows(read).len() && #[trigger] all_rows(read)[p].0 == out[out.len() - 1].0;
    lemma_run_sorted(index, blocks, from, to);
    lemma_keep_upto_last(all_rows(read), keep, upto, frontier);
    // After the walk: everything sorts above the last row given.
    let rest = all_rows(c);
    assert forall|p: int| 0 <= p < rest.len() implies !upto(#[trigger] rest[p].0) by {
        let (i, k) = super::read::lemma_find_row(c, p);
        let b = to + i;
        assert(c[i] == blocks[b]);
        assert(block_matches(index[b], blocks[b]));
        lemma_row_within_bounds(index[b], blocks[b], k);
        let (ri, rk) = super::read::lemma_find_row(read, last);
        assert(read[ri] == blocks[from + ri]);
        assert(block_matches(index[from + ri], blocks[from + ri]));
        lemma_row_within_bounds(index[from + ri], blocks[from + ri], rk);
        assert(bytes_lt(index[from + ri].last_key@, index[b].first_key@));
        bytes::lemma_le_lt(frontier, index[from + ri].last_key@, index[b].first_key@);
        bytes::lemma_le_lt(frontier, index[b].first_key@, rest[p].0);
        bytes::lemma_lt_total(frontier, rest[p].0);
    }
    rows::lemma_keep_none(rest, upto);
    assert(out =~= keep_rows(all_rows(blocks), upto));
}

/// A page that is complete up to its last row, and the page that starts right
/// after that row, make up the range: chained pages miss and repeat nothing.
pub proof fn limited_pages_reassemble_the_range(
    table: Seq<Row>,
    start: Seq<u8>,
    end: Seq<u8>,
    page: Seq<Row>,
)
    requires
        rows::sorted(table),
        page.len() > 0,
        page == keep_rows(
            table,
            |key: Seq<u8>| bytes_le(start, key) && bytes_lt(key, end) && bytes_le(key, page.last().0),
        ),
    ensures
        keep_rows(table, |key: Seq<u8>| bytes_le(start, key) && bytes_lt(key, end)) == page + keep_rows(
            table,
            |key: Seq<u8>| bytes_le(page.last().0.push(0u8), key) && bytes_lt(key, end),
        ),
        bytes_lt(start, page.last().0.push(0u8)),
{
    let frontier = page.last().0;
    let whole = |key: Seq<u8>| bytes_le(start, key) && bytes_lt(key, end);
    let first = |key: Seq<u8>| bytes_le(start, key) && bytes_lt(key, end) && bytes_le(key, frontier);
    let rest = |key: Seq<u8>| bytes_le(frontier.push(0u8), key) && bytes_lt(key, end);
    rows::lemma_keep_rows(table, first);
    assert(first(page[page.len() - 1].0));
    bytes::lemma_successor(frontier, frontier);
    bytes::lemma_le_lt(start, frontier, frontier.push(0u8));
    assert forall|k: Seq<u8>|
        #![trigger whole(k)]
        #![trigger first(k)]
        #![trigger rest(k)]
        (whole(k) <==> first(k) || rest(k)) && (first(k) ==> bytes_le(k, frontier)) && (rest(k)
            ==> bytes_lt(frontier, k)) by {
        bytes::lemma_successor(frontier, k);
        bytes::lemma_lt_total(k, frontier);
        if rest(k) {
            bytes::lemma_le_lt(start, frontier, k);
        }
    }
    rows::lemma_keep_rows_split(table, whole, first, rest, frontier);
}

proof fn lemma_keep_none_of_none(
    run: Seq<Row>,
    keep: spec_fn(Seq<u8>) -> bool,
    narrower: spec_fn(Seq<u8>) -> bool,
)
    requires
        keep_rows(run, keep) == Seq::<Row>::empty(),
        forall|k: Seq<u8>| #[trigger] narrower(k) ==> keep(k),
    ensures
        keep_rows(run, narrower) == Seq::<Row>::empty(),
    decreases run.len(),
{
    if run.len() > 0 {
        let last = run.last().0;
        if keep(last) {
            assert(keep_rows(run, keep).len() > 0);
        }
        lemma_keep_none_of_none(run.drop_last(), keep, narrower);
        assert(!narrower(last));
    }
}

proof fn lemma_keep_upto_last(
    run: Seq<Row>,
    keep: spec_fn(Seq<u8>) -> bool,
    upto: spec_fn(Seq<u8>) -> bool,
    frontier: Seq<u8>,
)
    requires
        rows::sorted(run),
        keep_rows(run, keep).len() > 0,
        frontier == keep_rows(run, keep).last().0,
        forall|k: Seq<u8>| #[trigger] upto(k) <==> keep(k) && bytes_le(k, frontier),
    ensures
        keep_rows(run, upto) == keep_rows(run, keep),
    decreases run.len(),
{
    let head = run.drop_last();
    let last = run.last().0;
    assert(rows::sorted(head)) by {
        assert forall|i: int, j: int| 0 <= i < j < head.len() implies bytes_lt(
            #[trigger] head[i].0,
            #[trigger] head[j].0,
        ) by {
            assert(bytes_lt(run[i].0, run[j].0));
        }
    }
    if keep(last) {
        assert(frontier == last);
        assert(upto(last));
        lemma_keep_below(head, keep, upto, frontier, run);
    } else {
        lemma_keep_upto_last(head, keep, upto, frontier);
        assert(!upto(last));
    }
}

proof fn lemma_keep_below(
    head: Seq<Row>,
    keep: spec_fn(Seq<u8>) -> bool,
    upto: spec_fn(Seq<u8>) -> bool,
    frontier: Seq<u8>,
    run: Seq<Row>,
)
    requires
        rows::sorted(run),
        run.len() > head.len(),
        head == run.subrange(0, head.len() as int),
        run.last().0 == frontier,
        forall|k: Seq<u8>| #[trigger] upto(k) <==> keep(k) && bytes_le(k, frontier),
    ensures
        keep_rows(head, upto) == keep_rows(head, keep),
    decreases head.len(),
{
    if head.len() > 0 {
        let shorter = head.drop_last();
        assert(shorter =~= run.subrange(0, shorter.len() as int));
        lemma_keep_below(shorter, keep, upto, frontier, run);
        let i = head.len() - 1;
        assert(head[i] == run[i]);
        assert(bytes_lt(run[i].0, run[run.len() - 1].0));
        assert(upto(head.last().0) <==> keep(head.last().0));
    }
}

/// The rows of a run of described blocks are sorted.
pub proof fn lemma_run_sorted(index: Seq<SstBlockIndexEntry>, blocks: Seq<Seq<Row>>, from: int, to: int)
    requires
        index_describes(index, blocks),
        0 <= from <= to <= blocks.len(),
    ensures
        rows::sorted(all_rows(blocks.subrange(from, to))),
    decreases to - from,
{
    let run = blocks.subrange(from, to);
    if from < to {
        let head = blocks.subrange(from, to - 1);
        assert(run.drop_last() =~= head);
        assert(run.last() == blocks[to - 1]);
        lemma_run_sorted(index, blocks, from, to - 1);
        let a = all_rows(head);
        let b = blocks[to - 1];
        assert(block_matches(index[to - 1], b));
        if a.len() > 0 {
            let p = a.len() - 1;
            let (i, k) = super::read::lemma_find_row(head, p);
            assert(head[i] == blocks[from + i]);
            assert(block_matches(index[from + i], blocks[from + i]));
            lemma_row_within_bounds(index[from + i], blocks[from + i], k);
            assert(bytes_lt(index[from + i].last_key@, index[to - 1].first_key@));
            bytes::lemma_le_lt(a.last().0, index[from + i].last_key@, index[to - 1].first_key@);
        }
        rows::lemma_sorted_concat(a, b);
    }
}

/// The rows of a described table are sorted.
pub proof fn described_tables_are_sorted(index: Seq<SstBlockIndexEntry>, blocks: Seq<Seq<Row>>)
    requires
        index_describes(index, blocks),
    ensures
        rows::sorted(all_rows(blocks)),
{
    lemma_run_sorted(index, blocks, 0, blocks.len() as int);
    assert(blocks.subrange(0, blocks.len() as int) =~= blocks);
}

impl<'a> Wanted<'a> {
    /// Whether `key` is wanted.
    pub fn wants_key(&self, key: &[u8]) -> (r: bool)
        ensures
            r == wants(*self, key@),
    {
        match self {
            Wanted::Prefix(p) => bytes::starts_with(key, p),
            Wanted::Range(start, end) => {
                proof {
                    bytes::lemma_lt_total(key@, start@);
                }
                !bytes::lt(key, start) && bytes::lt(key, end)
            },
        }
    }

    fn is_past(&self, first: &[u8]) -> (r: bool)
        ensures
            r == lies_past(*self, first@),
    {
        match self {
            Wanted::Prefix(p) => bytes::lt(p, first) && !bytes::starts_with(first, p),
            Wanted::Range(_, end) => !bytes::lt(first, end),
        }
    }

    fn lower_bound(&self) -> (r: &[u8])
        ensures
            r@ == lower(*self),
    {
        match self {
            Wanted::Prefix(p) => p,
            Wanted::Range(start, _) => start,
        }
    }
}

fn push_wanted(out: &mut Vec<(Key, Option<Value>)>, block: &Vec<(Key, Option<Value>)>, wanted: &Wanted)
    ensures
        rows_view(final(out)@) == rows_view(old(out)@) + keep_rows(rows_view(block@), wanted_keys(*wanted)),
{
    let ghost view = rows_view(block@);
    let ghost start = rows_view(out@);
    let mut i: usize = 0;
    proof {
        assert(view.subrange(0, 0) =~= Seq::<Row>::empty());
        assert(start + keep_rows(view.subrange(0, 0), wanted_keys(*wanted)) =~= start);
    }
    while i < block.len()
        invariant
            i <= block@.len(),
            view == rows_view(block@),
            rows_view(out@) == start + keep_rows(view.subrange(0, i as int), wanted_keys(*wanted)),
        decreases block@.len() - i,
    {
        let ghost next = view.subrange(0, i + 1);
        proof {
            assert(next.drop_last() =~= view.subrange(0, i as int));
            assert(next.last() == view[i as int]);
        }
        if wanted.wants_key(block[i].0.as_bytes()) {
            let row = rows::copy_row(&block[i]);
            let ghost before = rows_view(out@);
            out.push(row);
            proof {
                assert(rows_view(out@) =~= before.push(view[i as int]));
                assert(rows_view(out@) =~= start + keep_rows(next, wanted_keys(*wanted)));
            }
        }
        i = i + 1;
    }
    assert(view.subrange(0, i as int) =~= view);
}

impl BlockSstFile {
    /// Walks the blocks that can hold a wanted key, in order, until the next
    /// block lies past every wanted key or `limit` rows are gathered.
    fn walk<R: SstReader>(&self, reader: &R, wanted: &Wanted, limit: Option<usize>) -> (r: Result<
        LimitedRangeScan,
        EngineError,
    >)
        requires
            self.wf(),
        ensures
            walks(reader, self, *wanted, limit, r),
    {
        let from: usize = super::read::block_at_or_after(&self.block_index, wanted.lower_bound());
        let mut out: Vec<(Key, Option<Value>)> = Vec::new();
        let mut block_no: usize = from;
        let ghost mut blocks: Seq<Seq<Row>> = Seq::empty();
        let ghost index = self.block_index@;
        assert(rows_view(out@) =~= keep_rows(all_rows(blocks), wanted_keys(*wanted)));
        while block_no < self.block_index.len()
            invariant
                self.wf(),
                index == self.block_index@,
                from <= block_no <= index.len(),
                block_no == from + blocks.len(),
                starts_walk(index, *wanted, from as int),
                reads_run(reader, self, from as int, blocks),
                rows_view(out@) == keep_rows(all_rows(blocks), wanted_keys(*wanted)),
                forall|i: int|
                    from <= i < block_no ==> !lies_past(*wanted, (#[trigger] index[i]).first_key@),
                blocks.len() > 0 ==> below_limit(
                    limit,
                    keep_rows(all_rows(blocks.drop_last()), wanted_keys(*wanted)).len(),
                ),
            decreases index.len() - block_no,
        {
            if wanted.is_past(self.block_index[block_no].first_key.as_slice()) {
                let blocks_read: u64 = (block_no - from) as u64;
                assert(walked(reader, self, *wanted, limit, from as int, blocks, rows_view(out@)));
                assert(walks_to(reader, self, *wanted, limit, rows_view(out@), false, blocks_read));
                return Ok((out, false, blocks_read));
            }
            if let Some(n) = limit {
                if out.len() >= n {
                    let blocks_read: u64 = (block_no - from) as u64;
                    assert(walked(reader, self, *wanted, limit, from as int, blocks, rows_view(out@)));
                    assert(walks_to(reader, self, *wanted, limit, rows_view(out@), true, blocks_read));
                    return Ok((out, true, blocks_read));
                }
            }
            let d = self.read_and_verify_block(reader, block_no);
            match d {
                Err(e) => {
                    assert(reads_block(reader, self, block_no as int, Err(e)));
                    assert(stops_at(reader, self, *wanted, limit, from as int, blocks, e));
                    assert(walk_failed(reader, self, *wanted, limit, from as int, e));
                    return Err(e);
                },
                Ok(block) => {
                    assert(reads_block(reader, self, block_no as int, Ok(block)));
                    let ghost read = rows_view(block@);
                    let ghost more = blocks.push(read);
                    proof {
                        assert(reads_as(reader, self, block_no as int, read));
                        assert(more.drop_last() =~= blocks);
                        rows::lemma_keep_rows_concat(all_rows(blocks), read, wanted_keys(*wanted));
                        assert forall|k: int| 0 <= k < more.len() implies reads_as(
                            reader,
                            self,
                            from + k,
                            #[trigger] more[k],
                        ) by {
                            if k < blocks.len() {
                                assert(more[k] == blocks[k]);
                            }
                        }
                    }
                    push_wanted(&mut out, &block, wanted);
                    proof {
                        blocks = more;
                    }
                },
            }
            block_no = block_no + 1;
        }
        let blocks_read: u64 = (block_no - from) as u64;
        assert(walked(reader, self, *wanted, limit, from as int, blocks, rows_view(out@)));
        assert(walks_to(reader, self, *wanted, limit, rows_view(out@), false, blocks_read));
        Ok((out, false, blocks_read))
    }

    /// Every row of the table, in ascending key order.
    pub fn entries<R: SstReader>(&self, reader: &R) -> (r: Result<Vec<(Key, Option<Value>)>, EngineError>)
        ensures
            reads_whole(reader, self, r),
    {
        let mut out: Vec<(Key, Option<Value>)> = Vec::new();
        let mut block_no: usize = 0;
        let ghost mut blocks: Seq<Seq<Row>> = Seq::empty();
        assert(rows_view(out@) =~= all_rows(blocks));
        while block_no < self.block_index.len()
            invariant
                block_no <= self.block_index@.len(),
                block_no == blocks.len(),
                reads_run(reader, self, 0, blocks),
                rows_view(out@) == all_rows(blocks),
            decreases self.block_index@.len() - block_no,
        {
            let d = self.read_and_verify_block(reader, block_no);
            match d {
                Err(e) => {
                    assert(reads_block(reader, self, block_no as int, Err(e)));
                    return Err(e);
                },
                Ok(block) => {
                    assert(reads_block(reader, self, block_no as int, Ok(block)));
                    let ghost read = rows_view(block@);
                    let ghost more = blocks.push(read);
                    let mut block = block;
                    let ghost before = rows_view(out@);
                    out.append(&mut block);
                    proof {
                        assert(reads_as(reader, self, block_no as int, read));
                        assert(more.drop_last() =~= blocks);
                        assert(rows_view(out@) =~= before + read);
                        assert forall|k: int| 0 <= k < more.len() implies reads_as(
                            reader,
                            self,
                            0 + k,
                            #[trigger] more[k],
                        ) by {
                            if k < blocks.len() {
                                assert(more[k] == blocks[k]);
                            }
                        }
                        blocks = more;
                    }
                },
            }
            block_no = block_no + 1;
        }
        Ok(out)
    }

    /// Every row whose key starts with `prefix`, in ascending key order, and
    /// the number of blocks read for them.
    pub fn entries_with_prefix<R: SstReader>(&self, reader: &R, prefix: &[u8]) -> (r: Result<
        PrefixScan,
        EngineError,
    >)
        requires
            self.wf(),
        ensures
            match r {
                Ok(scan) => walks_to(
                    reader,
                    self,
                    Wanted::Prefix(prefix),
                    None,
                    rows_view(scan.0@),
                    false,
                    scan.1,
                ),
                Err(e) => exists|from: int|
                    #[trigger] walk_failed(reader, self, Wanted::Prefix(prefix), None, from, e),
            },
    {
        let wanted = Wanted::Prefix(prefix);
        match self.walk(reader, &wanted, None) {
            Ok((out, truncated, blocks_read)) => {
                assert(!truncated);
                Ok((out, blocks_read))
            },
            Err(e) => Err(e),
        }
    }

    /// Every row with a key in `[start, end)`, in ascending key order, and the
    /// number of blocks read for them. An empty range reads nothing.
    pub fn entries_with_range<R: SstReader>(&self, reader: &R, start: &[u8], end: &[u8]) -> (r: Result<
        PrefixScan,
        EngineError,
    >)
        requires
            self.wf(),
        ensures
            !bytes_lt(start@, end@) ==> (r matches Ok((out, blocks_read)) && out@.len() == 0 && blocks_read == 0),
            bytes_lt(start@, end@) ==> match r {
                Ok(scan) => walks_to(
                    reader,
                    self,
                    Wanted::Range(start, end),
                    None,
                    rows_view(scan.0@),
                    false,
                    scan.1,
                ),
                Err(e) => exists|from: int|
                    #[trigger] walk_failed(reader, self, Wanted::Range(start, end), None, from, e),
            },
    {
        if !bytes::lt(start, end) {
            return Ok((Vec::new(), 0));
        }
        let wanted = Wanted::Range(start, end);
        match self.walk(reader, &wanted, None) {
            Ok((out, truncated, blocks_read)) => {
                assert(!truncated);
                Ok((out, blocks_read))
            },
            Err(e) => Err(e),
        }
    }

    /// Rows with a key in `[start, end)`, in ascending key order, until at
    /// least `limit` are gathered: whole blocks are taken, so the last one may
    /// overshoot. Says whether the walk stopped at the limit with blocks left
    /// that may hold more; the rows are then complete up to the last one.
    pub fn entries_with_range_limited<R: SstReader>(
        &self,
        reader: &R,
        start: &[u8],
        end: &[u8],
        limit: usize,
    ) -> (r: Result<LimitedRangeScan, EngineError>)
        requires
            self.wf(),
        ensures
            !bytes_lt(start@, end@) || limit == 0 ==> (r matches Ok((out, truncated, blocks_read)) && out@.len()
                == 0 && !truncated && blocks_read == 0),
            bytes_lt(start@, end@) && limit > 0 ==> walks(
                reader,
                self,
                Wanted::Range(start, end),
                Some(limit),
                r,
            ),
    {
        if !bytes::lt(start, end) || limit == 0 {
            return Ok((Vec::new(), false, 0));
        }
        let wanted = Wanted::Range(start, end);
        self.walk(reader, &wanted, Some(limit))
    }
}

} // verus!
