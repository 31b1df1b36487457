//! How lookups, scans and pages agree.
//!
//! Each law speaks of the answers themselves: where the blocks that are read
//! are those that stand, a scan lists what lookups find, and pages put a range
//! together again.
use super::laws::{
    coherent, contents, get_answers_from_the_store, holds_tables, page_lists_the_contents_up_to_its_frontier,
    scan_lists_the_contents, wanted_upto,
};
use super::read::{gets, is_page, lowest_frontier, memtable_cut, memtable_part, paged_all, pages, scanned_all, scans};
use super::{Engine, ScanPage, StoreFiles};
use crate::bytes;
use crate::bytes::{bytes_le, bytes_lt, has_prefix};
use crate::key::Key;
use crate::store::layers;
use crate::store::layers::{layered, listed, lists, pairs_view, LiveRow};
use crate::store::rows::{keep_keys, keep_rows, live, put_rows, slot_view, Row, Slot};
use crate::store::sst_block::scan::{wanted_keys, wants, Wanted};
use crate::store::Value;
use vstd::prelude::*;

verus! {

/// What `files` gives of the tables of `engine` are the blocks of `tables`, and
/// what is cached of them too.
pub open spec fn is_true<F: StoreFiles>(files: &F, engine: Engine, tables: Seq<Seq<Seq<Row>>>) -> bool {
    &&& engine.wf()
    &&& holds_tables(files, engine.current.ssts@, tables)
    &&& coherent(engine.block_cache@, engine.current.ssts@, tables)
}

/// `out` has `key` with `value`.
pub open spec fn lists_pair(out: Seq<(Key, Value)>, key: Seq<u8>, value: Seq<u8>) -> bool {
    exists|i: int| 0 <= i < out.len() && (#[trigger] out[i]).0@ == key && out[i].1@ == value
}

/// What a scan lists and what a lookup gives are one: every wanted key that a
/// lookup finds is listed with the value it finds, and no other.
pub open spec fn agrees_with_lookups<F: StoreFiles>(
    files: &F,
    engine: Engine,
    wanted: spec_fn(Seq<u8>) -> bool,
    out: Seq<(Key, Value)>,
) -> bool {
    &&& forall|i: int, j: int| 0 <= i < j < out.len() ==> bytes_lt((#[trigger] out[i]).0@, (#[trigger] out[j]).0@)
    &&& forall|i: int| 0 <= i < out.len() ==> wanted((#[trigger] out[i]).0@)
    &&& forall|key: Seq<u8>, later: Engine, v: Option<Value>, x: Seq<u8>|
        #[trigger] gets(files, engine, later, key, Ok(v)) && wanted(key) ==> (#[trigger] lists_pair(out, key, x)
            <==> slot_view(v) == Some(x))
}

proof fn lemma_listing<F: StoreFiles>(
    files: &F,
    engine: Engine,
    tables: Seq<Seq<Seq<Row>>>,
    wanted: spec_fn(Seq<u8>) -> bool,
    out: Seq<(Key, Value)>,
)
    requires
        is_true(files, engine, tables),
        lists(pairs_view(out), live(keep_keys(contents(tables, engine.memtable.spec_rows()), wanted))),
    ensures
        agrees_with_lookups(files, engine, wanted, out),
{
    let view = pairs_view(out);
    let all = contents(tables, engine.memtable.spec_rows());
    let map = live(keep_keys(all, wanted));
    assert forall|i: int, j: int| 0 <= i < j < out.len() implies bytes_lt(
        (#[trigger] out[i]).0@,
        (#[trigger] out[j]).0@,
    ) by {
        assert(bytes_lt(view[i].0, view[j].0));
    }
    assert forall|i: int| 0 <= i < out.len() implies wanted((#[trigger] out[i]).0@) by {
        assert(map.contains_key(view[i].0));
    }
    assert forall|key: Seq<u8>, later: Engine, v: Option<Value>, x: Seq<u8>|
        #[trigger] gets(files, engine, later, key, Ok(v)) && wanted(key) implies (#[trigger] lists_pair(out, key, x)
        <==> slot_view(v) == Some(x)) by {
        get_answers_from_the_store(files, engine, later, tables, key, v);
        if lists_pair(out, key, x) {
            let i = choose|i: int| 0 <= i < out.len() && (#[trigger] out[i]).0@ == key && out[i].1@ == x;
            assert(map.contains_key(view[i].0) && map[view[i].0] == view[i].1);
        }
        if slot_view(v) == Some(x) {
            assert(map.contains_key(key));
            assert(listed(view, key));
            let i = choose|i: int| 0 <= i < view.len() && (#[trigger] view[i]).0 == key;
            assert(map[view[i].0] == view[i].1);
            assert(out[i].0@ == key && out[i].1@ == x);
        }
    }
}

proof fn lemma_scan<F: StoreFiles>(
    files: &F,
    engine: Engine,
    tables: Seq<Seq<Seq<Row>>>,
    wanted: Wanted,
    out: Vec<(Key, Value)>,
)
    requires
        is_true(files, engine, tables),
        scans(files, engine, wanted, Ok(out)),
    ensures
        lists(
            pairs_view(out@),
            live(keep_keys(contents(tables, engine.memtable.spec_rows()), wanted_keys(wanted))),
        ),
{
    let ssts = engine.current.ssts@;
    let mem = engine.memtable.spec_rows();
    let found = choose|found: Seq<Seq<Row>>|
        #[trigger] scanned_all(files, ssts, wanted, found) && lists(
            pairs_view(out@),
            live(put_rows(layered(found), keep_rows(mem, wanted_keys(wanted)))),
        );
    scan_lists_the_contents(files, ssts, tables, mem, wanted, found, pairs_view(out@));
}

/// A scan of a prefix lists, in ascending key order and without duplicates,
/// exactly the keys that carry it and that a lookup finds, each with the value
/// that the lookup gives.
pub proof fn a_prefix_scan_agrees_with_lookups<F: StoreFiles>(
    files: &F,
    engine: Engine,
    tables: Seq<Seq<Seq<Row>>>,
    prefix: &[u8],
    out: Vec<(Key, Value)>,
)
    requires
        is_true(files, engine, tables),
        scans(files, engine, Wanted::Prefix(prefix), Ok(out)),
    ensures
        agrees_with_lookups(files, engine, |key: Seq<u8>| has_prefix(key, prefix@), out@),
{
    let wanted = |key: Seq<u8>| has_prefix(key, prefix@);
    lemma_scan(files, engine, tables, Wanted::Prefix(prefix), out);
    assert(wanted_keys(Wanted::Prefix(prefix)) =~= wanted);
    lemma_listing(files, engine, tables, wanted, out@);
}

/// A scan of a range agrees with lookups in the same way.
pub proof fn a_range_scan_agrees_with_lookups<F: StoreFiles>(
    files: &F,
    engine: Engine,
    tables: Seq<Seq<Seq<Row>>>,
    start: &[u8],
    end: &[u8],
    out: Vec<(Key, Value)>,
)
    requires
        is_true(files, engine, tables),
        scans(files, engine, Wanted::Range(start, end), Ok(out)),
    ensures
        agrees_with_lookups(files, engine, |key: Seq<u8>| bytes_le(start@, key) && bytes_lt(key, end@), out@),
{
    let wanted = |key: Seq<u8>| bytes_le(start@, key) && bytes_lt(key, end@);
    lemma_scan(files, engine, tables, Wanted::Range(start, end), out);
    assert(wanted_keys(Wanted::Range(start, end)) =~= wanted);
    lemma_listing(files, engine, tables, wanted, out@);
}

/// A scan of `[start, end)` may list `out`: nothing of an empty range.
pub open spec fn gives_range<F: StoreFiles>(
    files: &F,
    engine: Engine,
    start: Seq<u8>,
    end: Seq<u8>,
    out: Seq<LiveRow>,
) -> bool {
    if bytes_lt(start, end) {
        exists|s: &[u8], e: &[u8], v: Vec<(Key, Value)>|
            s@ == start && e@ == end && out == pairs_view(v@) && #[trigger] scans(
                files,
                engine,
                Wanted::Range(s, e),
                Ok(v),
            )
    } else {
        out.len() == 0
    }
}

/// A page of `[start, end)` may be `page`: an empty one of an empty range.
pub open spec fn gives_page<F: StoreFiles>(
    files: &F,
    engine: Engine,
    start: Seq<u8>,
    end: Seq<u8>,
    limit: usize,
    page: ScanPage,
) -> bool {
    if bytes_lt(start, end) {
        exists|s: &[u8], e: &[u8]|
            s@ == start && e@ == end && #[trigger] pages(files, engine, Wanted::Range(s, e), limit, Ok(page))
    } else {
        page.entries@.len() == 0 && page.next_start is None
    }
}

/// The keys of `[start, end)`.
pub open spec fn range_keys(start: Seq<u8>, end: Seq<u8>) -> spec_fn(Seq<u8>) -> bool {
    |key: Seq<u8>| bytes_le(start, key) && bytes_lt(key, end)
}

proof fn lemma_range<F: StoreFiles>(
    files: &F,
    engine: Engine,
    tables: Seq<Seq<Seq<Row>>>,
    start: Seq<u8>,
    end: Seq<u8>,
    out: Seq<LiveRow>,
)
    requires
        is_true(files, engine, tables),
        gives_range(files, engine, start, end, out),
    ensures
        lists(out, live(keep_keys(contents(tables, engine.memtable.spec_rows()), range_keys(start, end)))),
{
    let all = contents(tables, engine.memtable.spec_rows());
    if bytes_lt(start, end) {
        let (s, e, v) = choose|s: &[u8], e: &[u8], v: Vec<(Key, Value)>|
            s@ == start && e@ == end && out == pairs_view(v@) && #[trigger] scans(
                files,
                engine,
                Wanted::Range(s, e),
                Ok(v),
            );
        lemma_scan(files, engine, tables, Wanted::Range(s, e), v);
        assert(wanted_keys(Wanted::Range(s, e)) =~= range_keys(start, end));
    } else {
        let map = live(keep_keys(all, range_keys(start, end)));
        assert forall|k: Seq<u8>| !(#[trigger] map.contains_key(k)) by {
            if bytes_le(start, k) && bytes_lt(k, end) {
                bytes::lemma_le_lt(start, k, end);
            }
        }
    }
}

/// A page lists what a scan lists: with no place to resume, the whole range;
/// else the range up to that place, which lies above the start and not above
/// the end.
pub proof fn a_page_is_the_range_up_to_its_end<F: StoreFiles>(
    files: &F,
    engine: Engine,
    tables: Seq<Seq<Seq<Row>>>,
    start: Seq<u8>,
    end: Seq<u8>,
    limit: usize,
    page: ScanPage,
    out: Seq<LiveRow>,
)
    requires
        is_true(files, engine, tables),
        bytes_lt(start, end),
        limit >= 1,
        gives_page(files, engine, start, end, limit, page),
    ensures
        match page.next_start {
            None => gives_range(files, engine, start, end, out) ==> pairs_view(page.entries@) == out,
            Some(next) => bytes_lt(start, next@) && bytes_le(next@, end) && (gives_range(
                files,
                engine,
                start,
                next@,
                out,
            ) ==> pairs_view(page.entries@) == out),
        },
{
    let all = contents(tables, engine.memtable.spec_rows());
    let f = lemma_page(files, engine, tables, start, end, limit, page);
    match page.next_start {
        None => {
            if gives_range(files, engine, start, end, out) {
                lemma_range(files, engine, tables, start, end, out);
                layers::listings_are_unique(
                    pairs_view(page.entries@),
                    out,
                    live(keep_keys(all, range_keys(start, end))),
                );
            }
        },
        Some(next) => {
            if gives_range(files, engine, start, next@, out) {
                lemma_range(files, engine, tables, start, next@, out);
                layers::listings_are_unique(
                    pairs_view(page.entries@),
                    out,
                    live(keep_keys(all, range_keys(start, next@))),
                );
            }
        },
    }
}

/// What a page lists, over the contents.
proof fn lemma_page<F: StoreFiles>(
    files: &F,
    engine: Engine,
    tables: Seq<Seq<Seq<Row>>>,
    start: Seq<u8>,
    end: Seq<u8>,
    limit: usize,
    page: ScanPage,
) -> (f: Seq<u8>)
    requires
        is_true(files, engine, tables),
        bytes_lt(start, end),
        limit >= 1,
        gives_page(files, engine, start, end, limit, page),
    ensures
        ({
            let all = contents(tables, engine.memtable.spec_rows());
            match page.next_start {
                None => lists(pairs_view(page.entries@), live(keep_keys(all, range_keys(start, end)))),
                Some(next) => {
                    &&& next@ == f.push(0u8)
                    &&& bytes_le(start, f) && bytes_lt(f, end)
                    &&& bytes_lt(start, next@) && bytes_le(next@, end)
                    &&& lists(pairs_view(page.entries@), live(keep_keys(all, range_keys(start, next@))))
                },
            }
        }),
{
    let mem = engine.memtable.spec_rows();
    let all = contents(tables, mem);
    let (s, e) = choose|s: &[u8], e: &[u8]|
        s@ == start && e@ == end && #[trigger] pages(files, engine, Wanted::Range(s, e), limit, Ok(page));
    let wanted = Wanted::Range(s, e);
    let (found, cuts) = choose|found: Seq<Seq<Row>>, cuts: Seq<Option<Seq<u8>>>|
        {
            &&& #[trigger] paged_all(files, engine.current.ssts@, wanted, limit, found, cuts)
            &&& is_page(
                page,
                put_rows(layered(found), memtable_part(mem, wanted, limit)),
                lowest_frontier(cuts.push(memtable_cut(mem, wanted, limit))),
            )
        };
    page_lists_the_contents_up_to_its_frontier(files, engine, tables, wanted, limit, found, cuts, page);
    assert(wanted_keys(wanted) =~= range_keys(start, end));
    match page.next_start {
        None => Seq::empty(),
        Some(next) => {
            let f = choose|f: Seq<u8>|
                {
                    &&& wants(wanted, f)
                    &&& next@ == #[trigger] f.push(0u8)
                    &&& lists(pairs_view(page.entries@), live(keep_keys(all, wanted_upto(wanted, Some(f)))))
                };
            bytes::lemma_successor(f, f);
            bytes::lemma_le_lt(start, f, next@);
            bytes::lemma_successor(f, end);
            bytes::lemma_lt_total(next@, end);
            bytes::lemma_lt_total(f, end);
            let kept = wanted_upto(wanted, Some(f));
            assert forall|k: Seq<u8>| #[trigger] kept(k) == range_keys(start, next@)(k) by {
                bytes::lemma_successor(f, k);
                bytes::lemma_lt_total(k, f);
                bytes::lemma_lt_total(k, next@);
                if bytes_le(k, f) {
                    bytes::lemma_le_lt(k, f, end);
                }
            }
            assert(kept =~= range_keys(start, next@));
            f
        },
    }
}

/// `chain` are the pages of `[start, end)`, each from where the one before says
/// to resume, the last with nowhere to resume.
pub open spec fn gives_chain<F: StoreFiles>(
    files: &F,
    engine: Engine,
    start: Seq<u8>,
    end: Seq<u8>,
    limit: usize,
    chain: Seq<ScanPage>,
) -> bool
    decreases chain.len(),
{
    &&& chain.len() > 0
    &&& gives_page(files, engine, start, end, limit, chain[0])
    &&& match chain[0].next_start {
        None => chain.len() == 1,
        Some(next) => gives_chain(files, engine, next@, end, limit, chain.drop_first()),
    }
}

/// What pages list, one after the other.
pub open spec fn chained(chain: Seq<ScanPage>) -> Seq<LiveRow>
    decreases chain.len(),
{
    if chain.len() == 0 {
        Seq::empty()
    } else {
        pairs_view(chain[0].entries@) + chained(chain.drop_first())
    }
}

proof fn lemma_chain<F: StoreFiles>(
    files: &F,
    engine: Engine,
    tables: Seq<Seq<Seq<Row>>>,
    start: Seq<u8>,
    end: Seq<u8>,
    limit: usize,
    chain: Seq<ScanPage>,
)
    requires
        is_true(files, engine, tables),
        limit >= 1,
        gives_chain(files, engine, start, end, limit, chain),
    ensures
        lists(chained(chain), live(keep_keys(contents(tables, engine.memtable.spec_rows()), range_keys(start, end)))),
    decreases chain.len(),
{
    let all = contents(tables, engine.memtable.spec_rows());
    let page = chain[0];
    let rest = chain.drop_first();
    let first = pairs_view(page.entries@);
    if !bytes_lt(start, end) {
        assert(rest.len() == 0);
        assert(chained(rest) =~= Seq::<LiveRow>::empty());
        assert(chained(chain) =~= Seq::<LiveRow>::empty());
        lemma_range(files, engine, tables, start, end, Seq::empty());
    } else {
        let f = lemma_page(files, engine, tables, start, end, limit, page);
        match page.next_start {
            None => {
                assert(rest.len() == 0);
                assert(chained(rest) =~= Seq::<LiveRow>::empty());
                assert(chained(chain) =~= first);
            },
            Some(next) => {
                lemma_chain(files, engine, tables, next@, end, limit, rest);
                lemma_joined(all, start, end, f, next@, first, chained(rest));
            },
        }
    }
}

/// Two listings of neighbouring ranges make one of both.
proof fn lemma_joined(
    map: Map<Seq<u8>, Slot>,
    start: Seq<u8>,
    end: Seq<u8>,
    f: Seq<u8>,
    next: Seq<u8>,
    page: Seq<LiveRow>,
    rest: Seq<LiveRow>,
)
    requires
        bytes_le(start, f),
        bytes_lt(f, end),
        next == f.push(0u8),
        bytes_lt(start, next),
        bytes_le(next, end),
        lists(page, live(keep_keys(map, range_keys(start, next)))),
        lists(rest, live(keep_keys(map, range_keys(next, end)))),
    ensures
        lists(page + rest, live(keep_keys(map, range_keys(start, end)))),
{
    let whole = live(keep_keys(map, range_keys(start, end)));
    let first = live(keep_keys(map, range_keys(start, next)));
    let second = live(keep_keys(map, range_keys(next, end)));
    let out = page + rest;
    assert forall|k: Seq<u8>| #[trigger] whole.contains_key(k) <==> first.contains_key(k) || second.contains_key(
        k,
    ) by {
        bytes::lemma_lt_total(k, next);
        bytes::lemma_lt_total(start, next);
        bytes::lemma_lt_total(next, end);
        if bytes_lt(k, next) && next != end {
            bytes::lemma_lt_transitive(k, next, end);
        }
        if bytes_lt(next, k) {
            bytes::lemma_lt_transitive(start, next, k);
        }
    }
    assert forall|i: int, j: int| 0 <= i < j < out.len() implies bytes_lt(
        (#[trigger] out[i]).0,
        (#[trigger] out[j]).0,
    ) by {
        if i < page.len() && j >= page.len() {
            let a = page[i].0;
            let b = rest[j - page.len()].0;
            assert(first.contains_key(page[i].0));
            assert(second.contains_key(rest[j - page.len()].0));
            bytes::lemma_lt_total(next, b);
            if next != b {
                bytes::lemma_lt_transitive(a, next, b);
            }
        } else if i >= page.len() {
            assert(bytes_lt(rest[i - page.len()].0, rest[j - page.len()].0));
        } else {
            assert(bytes_lt(page[i].0, page[j].0));
        }
    }
    assert forall|i: int| 0 <= i < out.len() implies whole.contains_key((#[trigger] out[i]).0)
        && whole[out[i].0] == out[i].1 by {
        if i < page.len() {
            assert(first.contains_key(page[i].0));
        } else {
            assert(second.contains_key(rest[i - page.len()].0));
        }
    }
    assert forall|k: Seq<u8>| #[trigger] whole.contains_key(k) implies listed(out, k) by {
        if first.contains_key(k) {
            let i = choose|i: int| 0 <= i < page.len() && (#[trigger] page[i]).0 == k;
            assert(out[i].0 == k);
        } else {
            assert(second.contains_key(k));
            let i = choose|i: int| 0 <= i < rest.len() && (#[trigger] rest[i]).0 == k;
            assert(out[page.len() + i].0 == k);
        }
    }
}

/// Pages that are chained, each from where the one before says to resume until
/// one says nowhere, list exactly what one scan of the range lists, each entry
/// once, ascending.
pub proof fn chained_pages_are_the_range<F: StoreFiles>(
    files: &F,
    engine: Engine,
    tables: Seq<Seq<Seq<Row>>>,
    start: Seq<u8>,
    end: Seq<u8>,
    limit: usize,
    chain: Seq<ScanPage>,
    out: Seq<LiveRow>,
)
    requires
        is_true(files, engine, tables),
        limit >= 1,
        gives_chain(files, engine, start, end, limit, chain),
        gives_range(files, engine, start, end, out),
    ensures
        chained(chain) == out,
{
    lemma_chain(files, engine, tables, start, end, limit, chain);
    lemma_range(files, engine, tables, start, end, out);
    layers::listings_are_unique(
        chained(chain),
        out,
        live(keep_keys(contents(tables, engine.memtable.spec_rows()), range_keys(start, end))),
    );
}

} // verus!
