//! Layers: tables of rows stacked oldest first, the newest row of a key
//! deciding.
use crate::bytes;
use crate::key::Key;
use crate::store::rows::{keep_keys, live, put_rows, rows_map, Row, RowMap, Slot};
use crate::store::{rows, Value};
use vstd::prelude::*;

verus! {

/// A key with its value.
pub type LiveRow = (Seq<u8>, Seq<u8>);

/// What keys with values say, in order.
pub open spec fn pairs_view(pairs: Seq<(Key, Value)>) -> Seq<LiveRow> {
    Seq::new(pairs.len(), |i: int| (pairs[i].0@, pairs[i].1@))
}

/// What layers say together: they are put one over the other, oldest first.
pub open spec fn layered(layers: Seq<Seq<Row>>) -> Map<Seq<u8>, Slot>
    decreases layers.len(),
{
    if layers.len() == 0 {
        Map::empty()
    } else {
        put_rows(layered(layers.drop_last()), layers.last())
    }
}

/// `out` lists the map in ascending key order, every entry once.
pub open spec fn lists(out: Seq<LiveRow>, map: Map<Seq<u8>, Seq<u8>>) -> bool {
    &&& forall|i: int, j: int|
        0 <= i < j < out.len() ==> bytes::bytes_lt((#[trigger] out[i]).0, (#[trigger] out[j]).0)
    &&& forall|i: int|
        0 <= i < out.len() ==> map.contains_key((#[trigger] out[i]).0) && map[out[i].0] == out[i].1
    &&& forall|k: Seq<u8>| #[trigger] map.contains_key(k) ==> listed(out, k)
}

/// `out` has an entry for `key`.
pub open spec fn listed(out: Seq<LiveRow>, key: Seq<u8>) -> bool {
    exists|i: int| 0 <= i < out.len() && (#[trigger] out[i]).0 == key
}

/// A map has one listing.
pub proof fn listings_are_unique(a: Seq<LiveRow>, b: Seq<LiveRow>, map: Map<Seq<u8>, Seq<u8>>)
    requires
        lists(a, map),
        lists(b, map),
    ensures
        a == b,
    decreases a.len(),
{
    if a.len() == 0 {
        if b.len() > 0 {
            assert(map.contains_key(b[0].0));
            assert(listed(a, b[0].0));
        }
        assert(a =~= b);
    } else {
        let x = a.last().0;
        assert(map.contains_key(a[a.len() - 1].0));
        assert(listed(b, x));
        let j = choose|j: int| 0 <= j < b.len() && (#[trigger] b[j]).0 == x;
        let y = b.last().0;
        assert(map.contains_key(b[b.len() - 1].0));
        assert(listed(a, y));
        let i = choose|i: int| 0 <= i < a.len() && (#[trigger] a[i]).0 == y;
        bytes::lemma_lt_total(x, y);
        if j < b.len() - 1 {
            assert(bytes::bytes_lt(b[j].0, b[b.len() - 1].0));
            if i < a.len() - 1 {
                assert(bytes::bytes_lt(a[i].0, a[a.len() - 1].0));
            }
        }
        assert(a.last() == b.last());
        let less = map.remove(x);
        lemma_drop_last_lists(a, map);
        lemma_drop_last_lists(b, map);
        listings_are_unique(a.drop_last(), b.drop_last(), less);
        assert(a =~= a.drop_last().push(a.last()));
        assert(b =~= b.drop_last().push(b.last()));
    }
}

proof fn lemma_drop_last_lists(out: Seq<LiveRow>, map: Map<Seq<u8>, Seq<u8>>)
    requires
        lists(out, map),
        out.len() > 0,
    ensures
        lists(out.drop_last(), map.remove(out.last().0)),
{
    let head = out.drop_last();
    let key = out.last().0;
    let less = map.remove(key);
    assert forall|i: int, j: int| 0 <= i < j < head.len() implies bytes::bytes_lt(
        (#[trigger] head[i]).0,
        (#[trigger] head[j]).0,
    ) by {
        assert(bytes::bytes_lt(out[i].0, out[j].0));
    }
    assert forall|i: int| 0 <= i < head.len() implies less.contains_key((#[trigger] head[i]).0)
        && less[head[i].0] == head[i].1 by {
        assert(bytes::bytes_lt(out[i].0, out[out.len() - 1].0));
        bytes::lemma_lt_total(out[i].0, key);
        assert(map.contains_key(out[i].0));
    }
    assert forall|k: Seq<u8>| #[trigger] less.contains_key(k) implies listed(head, k) by {
        assert(map.contains_key(k));
        let i = choose|i: int| 0 <= i < out.len() && (#[trigger] out[i]).0 == k;
        assert(head[i].0 == k);
    }
}

/// What one layer on top changes: the keys it mentions, nothing else.
pub proof fn top_layer_decides(layers: Seq<Seq<Row>>, top: Seq<Row>, key: Seq<u8>)
    ensures
        layered(layers.push(top)) == put_rows(layered(layers), top),
        !rows::mentions(top, key) ==> (layered(layers.push(top)).contains_key(key) <==> layered(layers).contains_key(
            key,
        )),
        !rows::mentions(top, key) && layered(layers).contains_key(key) ==> layered(layers.push(top))[key]
            == layered(layers)[key],
        rows::mentions(top, key) ==> layered(layers.push(top)).contains_key(key),
        rows::sorted(top) && rows_map(top).contains_key(key) ==> layered(layers.push(top))[key]
            == rows_map(top)[key],
{
    assert(layers.push(top).drop_last() =~= layers);
    rows::lemma_put_rows_dom(layered(layers), top, key);
    rows::lemma_put_rows_overlay(layered(layers), top);
}

/// Filtering every layer by key filters what they say together.
pub proof fn lemma_keep_layers(
    layers: Seq<Seq<Row>>,
    kept: Seq<Seq<Row>>,
    keep: spec_fn(Seq<u8>) -> bool,
)
    requires
        layers.len() == kept.len(),
        forall|i: int|
            0 <= i < layers.len() ==> #[trigger] kept[i] == rows::keep_rows(layers[i], keep),
    ensures
        layered(kept) == keep_keys(layered(layers), keep),
    decreases layers.len(),
{
    if layers.len() == 0 {
        assert(layered(kept) =~= keep_keys(layered(layers), keep));
    } else {
        let below = layers.drop_last();
        let below_kept = kept.drop_last();
        assert forall|i: int| 0 <= i < below.len() implies #[trigger] below_kept[i] == rows::keep_rows(
            below[i],
            keep,
        ) by {
            assert(kept[i] == rows::keep_rows(layers[i], keep));
        }
        lemma_keep_layers(below, below_kept, keep);
        assert(kept[kept.len() - 1] == rows::keep_rows(layers[layers.len() - 1], keep));
        lemma_keep_put(layered(below), layers.last(), keep);
    }
}

/// Filtering a map and the rows put over it filters the result.
pub proof fn lemma_keep_put(map: Map<Seq<u8>, Slot>, top: Seq<Row>, keep: spec_fn(Seq<u8>) -> bool)
    ensures
        put_rows(keep_keys(map, keep), rows::keep_rows(top, keep)) == keep_keys(put_rows(map, top), keep),
{
    rows::lemma_put_rows_overlay(map, top);
    rows::lemma_put_rows_overlay(keep_keys(map, keep), rows::keep_rows(top, keep));
    rows::lemma_keep_rows(top, keep);
    assert(put_rows(keep_keys(map, keep), rows::keep_rows(top, keep)) =~= keep_keys(put_rows(map, top), keep));
}

/// The live entries of a row map, in ascending key order.
pub fn collect_live(map: &RowMap) -> (out: Vec<(Key, Value)>)
    requires
        map.wf(),
    ensures
        lists(pairs_view(out@), live(map@)),
{
    let out = collect_live_upto(map, None);
    proof {
        assert(keep_keys(map@, upto_keys(None)) =~= map@);
    }
    out
}

/// `key` does not sort above the frontier, where there is one.
pub open spec fn upto(frontier: Option<Seq<u8>>, key: Seq<u8>) -> bool {
    match frontier {
        Some(f) => bytes::bytes_le(key, f),
        None => true,
    }
}

/// The test for keys up to the frontier.
pub open spec fn upto_keys(frontier: Option<Seq<u8>>) -> spec_fn(Seq<u8>) -> bool {
    |key: Seq<u8>| upto(frontier, key)
}

/// What an optional frontier says.
pub open spec fn frontier_view(frontier: Option<&Vec<u8>>) -> Option<Seq<u8>> {
    match frontier {
        Some(f) => Some(f@),
        None => None,
    }
}

/// The live entries of a row map up to `frontier`, in ascending key order.
pub fn collect_live_upto(map: &RowMap, frontier: Option<&Vec<u8>>) -> (out: Vec<(Key, Value)>)
    requires
        map.wf(),
    ensures
        lists(pairs_view(out@), live(keep_keys(map@, upto_keys(frontier_view(frontier))))),
{
    let ghost limit: Option<Seq<u8>> = frontier_view(frontier);
    let rows = map.rows();
    let ghost view = map.spec_rows();
    proof {
        map.lemma_rows();
    }
    let ghost target = live(keep_keys(map@, upto_keys(limit)));
    let mut out: Vec<(Key, Value)> = Vec::new();
    let mut i: usize = 0;
    while i < rows.len()
        invariant
            i <= rows@.len(),
            view == rows::rows_view(rows@),
            rows::sorted(view),
            rows_map(view) == map@,
            limit == frontier_view(frontier),
            target == live(keep_keys(map@, upto_keys(limit))),
            forall|a: int, b: int|
                0 <= a < b < out@.len() ==> bytes::bytes_lt(
                    (#[trigger] pairs_view(out@)[a]).0,
                    (#[trigger] pairs_view(out@)[b]).0,
                ),
            forall|a: int|
                0 <= a < out@.len() ==> target.contains_key((#[trigger] pairs_view(out@)[a]).0)
                    && target[pairs_view(out@)[a].0] == pairs_view(out@)[a].1,
            forall|a: int|
                0 <= a < out@.len() ==> exists|k: int|
                    0 <= k < i && #[trigger] view[k].0 == (#[trigger] pairs_view(out@)[a]).0,
            forall|k: int|
                0 <= k < i && target.contains_key(#[trigger] view[k].0) ==> listed(
                    pairs_view(out@),
                    view[k].0,
                ),
        decreases rows@.len() - i,
    {
        let key = rows[i].0.as_bytes();
        proof {
            assert(view[i as int].0 == rows@[i as int].0@);
            rows::lemma_sorted_slot(view, i as int);
        }
        let within: bool = match frontier {
            Some(f) => {
                proof {
                    bytes::lemma_lt_total(f@, key@);
                }
                !bytes::lt(f.as_slice(), key)
            },
            None => true,
        };
        assert(within == upto(limit, view[i as int].0));
        if within {
            if let Some(value) = &rows[i].1 {
                let pair: (Key, Value) = (rows[i].0.clone(), bytes::copy(value.as_slice()));
                let ghost before = pairs_view(out@);
                let ghost added = (pair.0@, pair.1@);
                out.push(pair);
                proof {
                    let after = pairs_view(out@);
                    assert(after =~= before.push(added));
                    assert(added.0 == view[i as int].0);
                    assert(target.contains_key(added.0) && target[added.0] == added.1);
                    assert forall|a: int, b: int| 0 <= a < b < out@.len() implies bytes::bytes_lt(
                        (#[trigger] after[a]).0,
                        (#[trigger] after[b]).0,
                    ) by {
                        if b < before.len() {
                            assert(before[a] == after[a] && before[b] == after[b]);
                        } else {
                            assert(before[a] == after[a]);
                            let k = choose|k: int| 0 <= k < i && #[trigger] view[k].0 == before[a].0;
                            assert(bytes::bytes_lt(view[k].0, view[i as int].0));
                        }
                    }
                    assert forall|a: int| 0 <= a < out@.len() implies target.contains_key(
                        (#[trigger] after[a]).0,
                    ) && target[after[a].0] == after[a].1 by {
                        if a < before.len() {
                            assert(before[a] == after[a]);
                        }
                    }
                    assert forall|a: int| 0 <= a < out@.len() implies exists|k: int|
                        0 <= k < i + 1 && #[trigger] view[k].0 == (#[trigger] after[a]).0 by {
                        if a < before.len() {
                            assert(before[a] == after[a]);
                            let k = choose|k: int| 0 <= k < i && #[trigger] view[k].0 == before[a].0;
                            assert(0 <= k < i + 1 && view[k].0 == after[a].0);
                        } else {
                            assert(view[i as int].0 == after[a].0);
                        }
                    }
                    assert forall|k: int| 0 <= k < i + 1 && target.contains_key(#[trigger] view[k].0) implies listed(
                        after,
                        view[k].0,
                    ) by {
                        if k < i {
                            let a = choose|a: int| 0 <= a < before.len() && (#[trigger] before[a]).0 == view[k].0;
                            assert(after[a].0 == view[k].0);
                        } else {
                            assert(after[after.len() - 1].0 == view[k].0);
                        }
                    }
                }
            }
        }
        i = i + 1;
    }
    proof {
        assert forall|k: Seq<u8>| #[trigger] target.contains_key(k) implies listed(pairs_view(out@), k) by {
            let a = rows::lemma_rows_map_index(view, k);
            assert(target.contains_key(view[a].0));
        }
    }
    out
}

} // verus!
