//! Point lookups and scans over all layers.
use super::{Engine, ScanPage, StoreFiles};
use crate::bytes;
use crate::bytes::bytes_lt;
use crate::error::EngineError;
use crate::key::Key;
use crate::store::block_cache::BlockCache;
use crate::store::layers::{frontier_view, layered, lists, pairs_view, upto_keys};
use crate::store::rows::{keep_keys, keep_rows, live, put_rows, rows_view, slot_view, Row, RowMap, Slot};
use crate::store::sst_block::read::looks_up;
use crate::store::sst_block::scan::{walk_failed, walks_to, wanted_keys, Wanted};
use crate::store::sst_block::BlockSstFile;
use crate::store::{layers, rows, Value};
use std::sync::Arc;
use vstd::prelude::*;

verus! {

/// What looking `key` up in the first `n` tables, newest first, gives: the
/// first table that says something of the key decides.
pub open spec fn gets_from<F: StoreFiles>(
    files: &F,
    ssts: Seq<Arc<BlockSstFile>>,
    n: int,
    key: Seq<u8>,
    before: BlockCache,
    after: BlockCache,
    r: Result<Option<Value>, EngineError>,
) -> bool
    decreases n,
{
    if n <= 0 {
        r matches Ok(v) && v is None && after == before
    } else {
        exists|mid: BlockCache, l: Result<(Option<Option<Value>>, u64), EngineError>|
            #[trigger] looks_up(files, &*ssts[n - 1], key, before, mid, l) && match l {
                Err(e) => r == Err::<Option<Value>, EngineError>(e) && after == mid,
                Ok((Some(slot), _)) => (r matches Ok(v) && slot_view(v) == slot_view(slot)) && after == mid,
                Ok((None, _)) => gets_from(files, ssts, n - 1, key, mid, after, r),
            }
    }
}

/// What a lookup gives, and what it does to the cache: the memtable decides,
/// else the tables.
pub open spec fn gets<F: StoreFiles>(
    files: &F,
    before: Engine,
    after: Engine,
    key: Seq<u8>,
    r: Result<Option<Value>, EngineError>,
) -> bool {
    &&& after.same_but_cache(before)
    &&& after.block_cache.capacity() == before.block_cache.capacity()
    &&& if before.memtable@.contains_key(key) {
        (r matches Ok(v) && slot_view(v) == before.memtable@[key]) && after.block_cache == before.block_cache
    } else {
        gets_from(
            files,
            before.current.ssts@,
            before.current.ssts@.len() as int,
            key,
            before.block_cache,
            after.block_cache,
            r,
        )
    }
}

/// Walking a table may give `out`.
pub open spec fn scanned<F: StoreFiles>(files: &F, file: &BlockSstFile, wanted: Wanted, out: Seq<Row>) -> bool {
    exists|n: u64| #[trigger] walks_to(files, file, wanted, None, out, false, n)
}

/// Walking every table may give the layers.
pub open spec fn scanned_all<F: StoreFiles>(
    files: &F,
    ssts: Seq<Arc<BlockSstFile>>,
    wanted: Wanted,
    found: Seq<Seq<Row>>,
) -> bool {
    &&& found.len() == ssts.len()
    &&& forall|i: int| 0 <= i < ssts.len() ==> scanned(files, &*ssts[i], wanted, #[trigger] found[i])
}

/// What a scan of all layers gives.
pub open spec fn scans<F: StoreFiles>(
    files: &F,
    engine: Engine,
    wanted: Wanted,
    r: Result<Vec<(Key, Value)>, EngineError>,
) -> bool {
    match r {
        Ok(out) => exists|found: Seq<Seq<Row>>|
            #[trigger] scanned_all(files, engine.current.ssts@, wanted, found) && lists(
                pairs_view(out@),
                live(
                    put_rows(
                        layered(found),
                        keep_rows(engine.memtable.spec_rows(), wanted_keys(wanted)),
                    ),
                ),
            ),
        Err(e) => scan_failed(files, engine.current.ssts@, wanted, e),
    }
}

/// A scan failed: the tables before gave their rows, and the next one cannot
/// be walked.
pub open spec fn scan_failed<F: StoreFiles>(
    files: &F,
    ssts: Seq<Arc<BlockSstFile>>,
    wanted: Wanted,
    e: EngineError,
) -> bool {
    exists|found: Seq<Seq<Row>>, from: int|
        {
            &&& found.len() < ssts.len()
            &&& #[trigger] scanned_all(files, ssts.take(found.len() as int), wanted, found)
            &&& #[trigger] walk_failed(files, &*ssts[found.len() as int], wanted, None, from, e)
        }
}

impl Engine {
    /// The value of `key`: the memtable decides, else the newest table that
    /// says something of it. A tombstone is no value.
    pub fn get<F: StoreFiles>(&mut self, files: &F, key: &[u8]) -> (r: Result<Option<Value>, EngineError>)
        requires
            old(self).wf(),
        ensures
            final(self).wf(),
            gets(files, *old(self), *final(self), key@, r),
    {
        let k = Key::from(key);
        match self.memtable.get(&k) {
            Some(Some(v)) => {
                return Ok(Some(bytes::copy(v.as_slice())));
            },
            Some(None) => {
                return Ok(None);
            },
            None => {},
        }
        let version = self.current.clone();
        let n: usize = version.ssts.len();
        get_from(files, &version.ssts, n, key, &mut self.block_cache)
    }

    /// Every live entry whose key starts with `prefix`, in ascending key
    /// order.
    pub fn scan_prefix<F: StoreFiles>(&self, files: &F, prefix: &[u8]) -> (r: Result<
        Vec<(Key, Value)>,
        EngineError,
    >)
        requires
            self.wf(),
        ensures
            scans(files, *self, Wanted::Prefix(prefix), r),
    {
        self.scan(files, &Wanted::Prefix(prefix))
    }

    /// Every live entry with a key in `[start, end)`, in ascending key order;
    /// an empty range is no error.
    pub fn scan_range<F: StoreFiles>(&self, files: &F, start: &[u8], end: &[u8]) -> (r: Result<
        Vec<(Key, Value)>,
        EngineError,
    >)
        requires
            self.wf(),
        ensures
            !bytes_lt(start@, end@) ==> (r matches Ok(out) && out@.len() == 0),
            bytes_lt(start@, end@) ==> scans(files, *self, Wanted::Range(start, end), r),
    {
        if !bytes::lt(start, end) {
            return Ok(Vec::new());
        }
        self.scan(files, &Wanted::Range(start, end))
    }

    fn scan<F: StoreFiles>(&self, files: &F, wanted: &Wanted) -> (r: Result<Vec<(Key, Value)>, EngineError>)
        requires
            self.wf(),
            *wanted matches Wanted::Range(start, end) ==> bytes_lt(start@, end@),
        ensures
            scans(files, *self, *wanted, r),
    {
        let mut merged = RowMap::new();
        let mut i: usize = 0;
        let ghost ssts = self.current.ssts@;
        let ghost mut found: Seq<Seq<Row>> = Seq::empty();
        while i < self.current.ssts.len()
            invariant
                self.wf(),
                ssts == self.current.ssts@,
                i <= ssts.len(),
                i == found.len(),
                *wanted matches Wanted::Range(start, end) ==> bytes_lt(start@, end@),
                merged.wf(),
                merged@ == layered(found),
                forall|j: int| 0 <= j < i ==> scanned(files, &*ssts[j], *wanted, #[trigger] found[j]),
            decreases ssts.len() - i,
        {
            let file = &self.current.ssts[i];
            assert(ssts[i as int].wf());
            let scan = match wanted {
                Wanted::Prefix(p) => file.entries_with_prefix(files, p),
                Wanted::Range(start, end) => file.entries_with_range(files, start, end),
            };
            match scan {
                Err(e) => {
                    assert(scanned_all(files, ssts.take(found.len() as int), *wanted, found));
                    assert(exists|from: int| #[trigger] walk_failed(files, &*ssts[i as int], *wanted, None, from, e));
                    assert(scan_failed(files, ssts, *wanted, e));
                    return Err(e);
                },
                Ok(matches) => {
                    let ghost rows = rows_view(matches.0@);
                    merged.put_all(&matches.0);
                    proof {
                        assert(walks_to(files, &*ssts[i as int], *wanted, None, rows, false, matches.1));
                        assert(scanned(files, &*ssts[i as int], *wanted, rows));
                        assert(found.push(rows).drop_last() =~= found);
                        found = found.push(rows);
                    }
                },
            }
            i = i + 1;
        }
        let ghost below = merged@;
        put_wanted(&mut merged, self.memtable.iter(), wanted);
        proof {
            assert(scanned_all(files, ssts, *wanted, found));
        }
        Ok(layers::collect_live(&merged))
    }
}

/// Puts the rows with a wanted key, in order.
fn put_wanted(merged: &mut RowMap, rows: &Vec<(Key, Option<Value>)>, wanted: &Wanted)
    requires
        old(merged).wf(),
    ensures
        final(merged).wf(),
        final(merged)@ == put_rows(old(merged)@, keep_rows(rows_view(rows@), wanted_keys(*wanted))),
{
    let ghost view = rows_view(rows@);
    let mut i: usize = 0;
    assert(view.subrange(0, 0) =~= Seq::<Row>::empty());
    while i < rows.len()
        invariant
            i <= rows@.len(),
            view == rows_view(rows@),
            merged.wf(),
            merged@ == put_rows(
                old(merged)@,
                keep_rows(view.subrange(0, i as int), wanted_keys(*wanted)),
            ),
        decreases rows@.len() - i,
    {
        proof {
            let next = view.subrange(0, i + 1);
            assert(next.drop_last() =~= view.subrange(0, i as int));
            assert(next.last() == view[i as int]);
        }
        if wanted.wants_key(rows[i].0.as_bytes()) {
            let row = rows::copy_row(&rows[i]);
            merged.put(row.0, row.1);
            proof {
                let kept = keep_rows(view.subrange(0, i + 1), wanted_keys(*wanted));
                assert(kept.drop_last() =~= keep_rows(view.subrange(0, i as int), wanted_keys(*wanted)));
            }
        }
        i = i + 1;
    }
    assert(view.subrange(0, i as int) =~= view);
}

/// Looks `key` up in the first `n` tables, newest first.
fn get_from<F: StoreFiles>(
    files: &F,
    ssts: &Vec<Arc<BlockSstFile>>,
    n: usize,
    key: &[u8],
    cache: &mut BlockCache,
) -> (r: Result<Option<Value>, EngineError>)
    requires
        n <= ssts@.len(),
        crate::store::version::all_wf(ssts@),
        old(cache).wf(),
    ensures
        final(cache).wf(),
        final(cache).capacity() == old(cache).capacity(),
        gets_from(files, ssts@, n as int, key@, *old(cache), *final(cache), r),
    decreases n,
{
    if n == 0 {
        return Ok(None);
    }
    assert(ssts@[n - 1].wf());
    let ghost before = *cache;
    let l = ssts[n - 1].get(files, key, cache);
    let ghost mid = *cache;
    assert(looks_up(files, &*ssts@[n - 1], key@, before, mid, l));
    match l {
        Err(e) => Err(e),
        Ok((Some(slot), _)) => Ok(slot),
        Ok((None, _)) => get_from(files, ssts, n - 1, key, cache),
    }
}

/// Up to where a table's part of a page is complete: the last row it gave, if
/// it stopped at the limit.
pub open spec fn cut_key(out: Seq<Row>, truncated: bool) -> Option<Seq<u8>> {
    if truncated && out.len() > 0 {
        Some(out.last().0)
    } else {
        None
    }
}

/// The lower of two frontiers; none is above every other.
pub open spec fn lower_frontier(a: Option<Seq<u8>>, b: Option<Seq<u8>>) -> Option<Seq<u8>> {
    match (a, b) {
        (Some(x), Some(y)) => if bytes_lt(y, x) {
            b
        } else {
            a
        },
        (Some(_), None) => a,
        (None, _) => b,
    }
}

/// The lowest of the frontiers.
pub open spec fn lowest_frontier(cuts: Seq<Option<Seq<u8>>>) -> Option<Seq<u8>>
    decreases cuts.len(),
{
    if cuts.len() == 0 {
        None
    } else {
        lower_frontier(cuts.last(), lowest_frontier(cuts.drop_last()))
    }
}

/// A table's part of a page may be `out`, complete up to `cut`.
pub open spec fn paged<F: StoreFiles>(
    files: &F,
    file: &BlockSstFile,
    wanted: Wanted,
    limit: usize,
    out: Seq<Row>,
    cut: Option<Seq<u8>>,
) -> bool {
    exists|truncated: bool, n: u64|
        #[trigger] walks_to(files, file, wanted, Some(limit), out, truncated, n) && cut == cut_key(
            out,
            truncated,
        )
}

/// The tables' parts of a page may be `found`, complete up to `cuts`.
pub open spec fn paged_all<F: StoreFiles>(
    files: &F,
    ssts: Seq<Arc<BlockSstFile>>,
    wanted: Wanted,
    limit: usize,
    found: Seq<Seq<Row>>,
    cuts: Seq<Option<Seq<u8>>>,
) -> bool {
    &&& found.len() == cuts.len() == ssts.len()
    &&& forall|i: int|
        0 <= i < ssts.len() ==> paged(files, &*ssts[i], wanted, limit, #[trigger] found[i], cuts[i])
}

/// The memtable's part of a page: its first `limit` wanted rows.
pub open spec fn memtable_part(rows: Seq<Row>, wanted: Wanted, limit: usize) -> Seq<Row> {
    let all = keep_rows(rows, wanted_keys(wanted));
    if all.len() > limit {
        all.subrange(0, limit as int)
    } else {
        all
    }
}

/// Up to where the memtable's part of a page is complete.
pub open spec fn memtable_cut(rows: Seq<Row>, wanted: Wanted, limit: usize) -> Option<Seq<u8>> {
    cut_key(
        memtable_part(rows, wanted, limit),
        keep_rows(rows, wanted_keys(wanted)).len() > limit,
    )
}

/// What one page gives: every layer's part, merged, up to the lowest point
/// that every layer is complete to; the next page starts right after it.
pub open spec fn pages<F: StoreFiles>(
    files: &F,
    engine: Engine,
    wanted: Wanted,
    limit: usize,
    r: Result<ScanPage, EngineError>,
) -> bool {
    let mem = engine.memtable.spec_rows();
    match r {
        Ok(page) => exists|found: Seq<Seq<Row>>, cuts: Seq<Option<Seq<u8>>>|
            {
                &&& #[trigger] paged_all(files, engine.current.ssts@, wanted, limit, found, cuts)
                &&& is_page(
                    page,
                    put_rows(layered(found), memtable_part(mem, wanted, limit)),
                    lowest_frontier(cuts.push(memtable_cut(mem, wanted, limit))),
                )
            },
        Err(e) => page_failed(files, engine.current.ssts@, wanted, limit, e),
    }
}

/// A page failed: the tables before gave their parts, and the next one cannot
/// be walked as far as its part reaches.
pub open spec fn page_failed<F: StoreFiles>(
    files: &F,
    ssts: Seq<Arc<BlockSstFile>>,
    wanted: Wanted,
    limit: usize,
    e: EngineError,
) -> bool {
    exists|found: Seq<Seq<Row>>, cuts: Seq<Option<Seq<u8>>>, from: int|
        {
            &&& found.len() < ssts.len()
            &&& #[trigger] paged_all(files, ssts.take(found.len() as int), wanted, limit, found, cuts)
            &&& #[trigger] walk_failed(files, &*ssts[found.len() as int], wanted, Some(limit), from, e)
        }
}

/// `page` is what `merged` holds up to `frontier`.
pub open spec fn is_page(page: ScanPage, merged: Map<Seq<u8>, Slot>, frontier: Option<Seq<u8>>) -> bool {
    &&& lists(pairs_view(page.entries@), live(keep_keys(merged, upto_keys(frontier))))
    &&& match (page.next_start, frontier) {
        (Some(next), Some(f)) => next@ == f.push(0u8),
        (None, None) => true,
        _ => false,
    }
}

/// The lower of two frontiers.
fn clip(candidate: Option<Vec<u8>>, current: Option<Vec<u8>>) -> (r: Option<Vec<u8>>)
    ensures
        opt_view(r) == lower_frontier(opt_view(candidate), opt_view(current)),
{
    match (candidate, current) {
        (Some(c), Some(f)) => {
            if bytes::lt(f.as_slice(), c.as_slice()) {
                Some(f)
            } else {
                Some(c)
            }
        },
        (Some(c), None) => Some(c),
        (None, f) => f,
    }
}

/// What optional bytes say.
pub open spec fn opt_view(v: Option<Vec<u8>>) -> Option<Seq<u8>> {
    match v {
        Some(v) => Some(v@),
        None => None,
    }
}

/// Puts the first `limit` wanted rows; gives the key of the last one put where
/// more were wanted.
fn put_part(merged: &mut RowMap, rows: &Vec<(Key, Option<Value>)>, wanted: &Wanted, limit: usize) -> (cut: Option<
    Vec<u8>,
>)
    requires
        old(merged).wf(),
        limit > 0,
    ensures
        final(merged).wf(),
        final(merged)@ == put_rows(old(merged)@, memtable_part(rows_view(rows@), *wanted, limit)),
        opt_view(cut) == memtable_cut(rows_view(rows@), *wanted, limit),
{
    let ghost view = rows_view(rows@);
    let ghost keep = wanted_keys(*wanted);
    let ghost all = keep_rows(view, keep);
    let mut taken: usize = 0;
    let mut last_taken: Option<Vec<u8>> = None;
    let mut i: usize = 0;
    proof {
        assert(view.subrange(0, 0) =~= Seq::<Row>::empty());
    }
    while i < rows.len()
        invariant
            i <= rows@.len(),
            limit > 0,
            taken <= limit,
            view == rows_view(rows@),
            keep == wanted_keys(*wanted),
            all == keep_rows(view, keep),
            merged.wf(),
            taken == keep_rows(view.subrange(0, i as int), keep).len(),
            merged@ == put_rows(old(merged)@, keep_rows(view.subrange(0, i as int), keep)),
            taken == 0 ==> last_taken is None,
            taken > 0 ==> opt_view(last_taken) == Some(keep_rows(view.subrange(0, i as int), keep).last().0),
        decreases rows@.len() - i,
    {
        let ghost done = view.subrange(0, i as int);
        let ghost next = view.subrange(0, i + 1);
        proof {
            assert(next.drop_last() =~= done);
            assert(next.last() == view[i as int]);
        }
        let key = rows[i].0.as_bytes();
        if wanted.wants_key(key) {
            if taken == limit {
                proof {
                    let rest = view.subrange(i as int, view.len() as int);
                    assert(view =~= done + rest);
                    rows::lemma_keep_rows_concat(done, rest, keep);
                    rows::lemma_keep_rows_concat(done, seq![view[i as int]], keep);
                    assert(rest =~= seq![view[i as int]] + view.subrange(i + 1, view.len() as int));
                    rows::lemma_keep_rows_concat(
                        seq![view[i as int]],
                        view.subrange(i + 1, view.len() as int),
                        keep,
                    );
                    let one = seq![view[i as int]];
                    assert(one.drop_last() =~= Seq::<Row>::empty());
                    assert(keep_rows(one.drop_last(), keep) =~= Seq::<Row>::empty());
                    assert(keep(one.last().0));
                    assert(keep_rows(one, keep).len() == 1);
                    assert(all.subrange(0, limit as int) =~= keep_rows(done, keep));
                }
                return last_taken;
            }
            last_taken = Some(bytes::copy(key));
            let row = rows::copy_row(&rows[i]);
            merged.put(row.0, row.1);
            taken = taken + 1;
            proof {
                let kept = keep_rows(next, keep);
                assert(kept.drop_last() =~= keep_rows(done, keep));
            }
        }
        i = i + 1;
    }
    assert(view.subrange(0, i as int) =~= view);
    None
}

impl Engine {
    /// One bounded page of a range scan: about `limit` live entries of
    /// `[start, end)`, and where to resume. Every layer is read up to the
    /// limit only; what lies past the lowest point that every layer is
    /// complete to is left to the next page, because a newer layer not yet
    /// read that far could still change it.
    pub fn scan_range_page<F: StoreFiles>(
        &self,
        files: &F,
        start: &[u8],
        end: &[u8],
        limit: usize,
    ) -> (r: Result<ScanPage, EngineError>)
        requires
            self.wf(),
        ensures
            !bytes_lt(start@, end@) || limit == 0 ==> (r matches Ok(page) && page.entries@.len() == 0
                && page.next_start is None),
            bytes_lt(start@, end@) && limit > 0 ==> pages(files, *self, Wanted::Range(start, end), limit, r),
    {
        if !bytes::lt(start, end) || limit == 0 {
            return Ok(ScanPage { entries: Vec::new(), next_start: None });
        }
        let wanted = Wanted::Range(start, end);
        let mut merged = RowMap::new();
        let mut frontier: Option<Vec<u8>> = None;
        let mut i: usize = 0;
        let ghost ssts = self.current.ssts@;
        let ghost mut found: Seq<Seq<Row>> = Seq::empty();
        let ghost mut cuts: Seq<Option<Seq<u8>>> = Seq::empty();
        while i < self.current.ssts.len()
            invariant
                self.wf(),
                bytes_lt(start@, end@),
                limit > 0,
                wanted == Wanted::Range(start, end),
                ssts == self.current.ssts@,
                i <= ssts.len(),
                i == found.len(),
                i == cuts.len(),
                merged.wf(),
                merged@ == layered(found),
                opt_view(frontier) == lowest_frontier(cuts),
                forall|j: int|
                    0 <= j < i ==> paged(files, &*ssts[j], wanted, limit, #[trigger] found[j], cuts[j]),
            decreases ssts.len() - i,
        {
            let file = &self.current.ssts[i];
            assert(ssts[i as int].wf());
            match file.entries_with_range_limited(files, start, end, limit) {
                Err(e) => {
                    assert(paged_all(files, ssts.take(found.len() as int), wanted, limit, found, cuts));
                    assert(exists|from: int| #[trigger]
                        walk_failed(files, &*ssts[i as int], wanted, Some(limit), from, e));
                    assert(page_failed(files, ssts, wanted, limit, e));
                    return Err(e);
                },
                Ok(scan) => {
                    let ghost rows = rows_view(scan.0@);
                    let ghost cut = cut_key(rows, scan.1);
                    assert(walks_to(files, &*ssts[i as int], wanted, Some(limit), rows, scan.1, scan.2));
                    let mut last: Option<Vec<u8>> = None;
                    if scan.1 && scan.0.len() > 0 {
                        let at: usize = scan.0.len() - 1;
                        last = Some(bytes::copy(scan.0[at].0.as_bytes()));
                    }
                    assert(opt_view(last) == cut);
                    frontier = clip(last, frontier);
                    merged.put_all(&scan.0);
                    proof {
                        assert(paged(files, &*ssts[i as int], wanted, limit, rows, cut));
                        assert(found.push(rows).drop_last() =~= found);
                        assert(cuts.push(cut).drop_last() =~= cuts);
                        found = found.push(rows);
                        cuts = cuts.push(cut);
                    }
                },
            }
            i = i + 1;
        }
        let cut = put_part(&mut merged, self.memtable.iter(), &wanted, limit);
        frontier = clip(cut, frontier);
        let ghost mem = self.memtable.spec_rows();
        let ghost f = lowest_frontier(cuts.push(memtable_cut(mem, wanted, limit)));
        proof {
            assert(cuts.push(memtable_cut(mem, wanted, limit)).drop_last() =~= cuts);
            assert(opt_view(frontier) == f);
            assert(paged_all(files, ssts, wanted, limit, found, cuts));
        }
        let limit_key: Option<&Vec<u8>> = match &frontier {
            Some(key) => Some(key),
            None => None,
        };
        assert(frontier_view(limit_key) == f);
        let entries = layers::collect_live_upto(&merged, limit_key);
        let next_start: Option<Vec<u8>> = match frontier {
            None => None,
            Some(mut next) => {
                next.push(0);
                Some(next)
            },
        };
        let page = ScanPage { entries, next_start };
        assert(is_page(page, put_rows(layered(found), memtable_part(mem, wanted, limit)), f));
        Ok(page)
    }
}

} // verus!
