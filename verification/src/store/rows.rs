//! Rows: a key with the newest thing said of it at one layer, a value or a
//! tombstone. Every table of the store is a run of rows in ascending key
//! order.
use crate::bytes;
use crate::key::Key;
use crate::store::Value;
use vstd::prelude::*;

verus! {

/// What one layer says of a key: its value, or `None` for a tombstone.
pub type Slot = Option<Seq<u8>>;

/// A key with its slot.
pub type Row = (Seq<u8>, Option<Seq<u8>>);

/// What a stored optional value says.
pub open spec fn slot_view(value: Option<Value>) -> Slot {
    match value {
        Some(v) => Some(v@),
        None => None,
    }
}

/// What a stored row says.
pub open spec fn row_view(row: (Key, Option<Value>)) -> Row {
    (row.0@, slot_view(row.1))
}

/// What stored rows say, in order.
pub open spec fn rows_view(rows: Seq<(Key, Option<Value>)>) -> Seq<Row> {
    Seq::new(rows.len(), |i: int| row_view(rows[i]))
}

/// The keys ascend strictly.
pub open spec fn sorted(rows: Seq<Row>) -> bool {
    forall|i: int, j: int|
        0 <= i < j < rows.len() ==> bytes::bytes_lt(#[trigger] rows[i].0, #[trigger] rows[j].0)
}

/// `map` after every row in turn was put into it: of several rows for one key
/// the last one stays.
pub open spec fn put_rows(map: Map<Seq<u8>, Slot>, rows: Seq<Row>) -> Map<Seq<u8>, Slot>
    decreases rows.len(),
{
    if rows.len() == 0 {
        map
    } else {
        put_rows(map, rows.drop_last()).insert(rows.last().0, rows.last().1)
    }
}

/// The map that rows write from nothing.
pub open spec fn rows_map(rows: Seq<Row>) -> Map<Seq<u8>, Slot> {
    put_rows(Map::empty(), rows)
}

/// The keys of `map` that hold a value, with it.
pub open spec fn live(map: Map<Seq<u8>, Slot>) -> Map<Seq<u8>, Seq<u8>> {
    Map::new(|k: Seq<u8>| map.contains_key(k) && map[k] is Some, |k: Seq<u8>| map[k].unwrap())
}

/// `map` without its tombstones.
pub open spec fn without_tombstones(map: Map<Seq<u8>, Slot>) -> Map<Seq<u8>, Slot> {
    Map::new(|k: Seq<u8>| map.contains_key(k) && map[k] is Some, |k: Seq<u8>| map[k])
}

/// The rows that hold a value, in order.
pub open spec fn valued_rows(rows: Seq<Row>) -> Seq<Row>
    decreases rows.len(),
{
    if rows.len() == 0 {
        Seq::empty()
    } else if rows.last().1 is Some {
        valued_rows(rows.drop_last()).push(rows.last())
    } else {
        valued_rows(rows.drop_last())
    }
}

/// `rows` mentions `key`.
pub open spec fn mentions(rows: Seq<Row>, key: Seq<u8>) -> bool {
    exists|i: int| 0 <= i < rows.len() && #[trigger] rows[i].0 == key
}

/// The rows that `keep` accepts, in order.
pub open spec fn keep_rows(rows: Seq<Row>, keep: spec_fn(Seq<u8>) -> bool) -> Seq<Row>
    decreases rows.len(),
{
    if rows.len() == 0 {
        Seq::empty()
    } else if keep(rows.last().0) {
        keep_rows(rows.drop_last(), keep).push(rows.last())
    } else {
        keep_rows(rows.drop_last(), keep)
    }
}

/// A map's entries whose keys `keep` accepts.
pub open spec fn keep_keys(
    map: Map<Seq<u8>, Slot>,
    keep: spec_fn(Seq<u8>) -> bool,
) -> Map<Seq<u8>, Slot> {
    Map::new(|k: Seq<u8>| map.contains_key(k) && keep(k), |k: Seq<u8>| map[k])
}

/// Putting rows in two runs is putting them in one.
pub proof fn lemma_put_rows_concat(map: Map<Seq<u8>, Slot>, a: Seq<Row>, b: Seq<Row>)
    ensures
        put_rows(map, a + b) == put_rows(put_rows(map, a), b),
    decreases b.len(),
{
    if b.len() == 0 {
        assert(a + b =~= a);
    } else {
        assert((a + b).drop_last() =~= a + b.drop_last());
        lemma_put_rows_concat(map, a, b.drop_last());
    }
}

/// The keys after putting rows are those before and those mentioned.
pub proof fn lemma_put_rows_dom(map: Map<Seq<u8>, Slot>, rows: Seq<Row>, key: Seq<u8>)
    ensures
        put_rows(map, rows).contains_key(key) <==> map.contains_key(key) || mentions(rows, key),
        !mentions(rows, key) && map.contains_key(key) ==> put_rows(map, rows)[key] == map[key],
    decreases rows.len(),
{
    if rows.len() > 0 {
        let head = rows.drop_last();
        lemma_put_rows_dom(map, head, key);
        if mentions(head, key) {
            let i = choose|i: int| 0 <= i < head.len() && #[trigger] head[i].0 == key;
            assert(rows[i].0 == key);
        }
        if rows.last().0 == key {
            assert(rows[rows.len() - 1].0 == key);
        } else if mentions(rows, key) {
            let i = choose|i: int| 0 <= i < rows.len() && #[trigger] rows[i].0 == key;
            assert(head[i].0 == key);
        }
    }
}

/// Putting rows into a map is laying the map they write over it.
pub proof fn lemma_put_rows_overlay(map: Map<Seq<u8>, Slot>, rows: Seq<Row>)
    ensures
        put_rows(map, rows) == map.union_prefer_right(rows_map(rows)),
    decreases rows.len(),
{
    if rows.len() == 0 {
        assert(put_rows(map, rows) =~= map.union_prefer_right(rows_map(rows)));
    } else {
        lemma_put_rows_overlay(map, rows.drop_last());
        assert(put_rows(map, rows) =~= map.union_prefer_right(rows_map(rows)));
    }
}

/// Among sorted rows, every row speaks for its key.
pub proof fn lemma_sorted_slot(rows: Seq<Row>, i: int)
    requires
        sorted(rows),
        0 <= i < rows.len(),
    ensures
        rows_map(rows).contains_key(rows[i].0),
        rows_map(rows)[rows[i].0] == rows[i].1,
    decreases rows.len(),
{
    let last = rows.len() - 1;
    if i < last {
        bytes::lemma_lt_total(rows[i].0, rows[last].0);
        lemma_sorted_slot(rows.drop_last(), i);
        assert(rows.drop_last()[i] == rows[i]);
    }
}

/// Sorted rows mention a key exactly where the map they write has it.
pub proof fn lemma_rows_map_index(rows: Seq<Row>, key: Seq<u8>) -> (i: int)
    requires
        sorted(rows),
        rows_map(rows).contains_key(key),
    ensures
        0 <= i < rows.len(),
        rows[i].0 == key,
        rows[i].1 == rows_map(rows)[key],
{
    lemma_put_rows_dom(Map::empty(), rows, key);
    let i = choose|i: int| 0 <= i < rows.len() && #[trigger] rows[i].0 == key;
    lemma_sorted_slot(rows, i);
    i
}

/// Sorted rows are determined by the map they write.
pub proof fn lemma_sorted_rows_unique(a: Seq<Row>, b: Seq<Row>)
    requires
        sorted(a),
        sorted(b),
        rows_map(a) == rows_map(b),
    ensures
        a == b,
    decreases a.len(),
{
    if a.len() == 0 {
        if b.len() > 0 {
            lemma_sorted_slot(b, 0);
        }
        assert(a =~= b);
    } else {
        lemma_sorted_slot(a, a.len() - 1);
        let j = lemma_rows_map_index(b, a.last().0);
        lemma_sorted_slot(b, b.len() - 1);
        let i = lemma_rows_map_index(a, b.last().0);
        if j < b.len() - 1 {
            bytes::lemma_lt_total(a.last().0, b.last().0);
            if i < a.len() - 1 {
                assert(bytes::bytes_lt(a[i].0, a[a.len() - 1].0));
            }
            assert(bytes::bytes_lt(b[j].0, b[b.len() - 1].0));
        }
        assert(a.last() == b.last());
        let k = a.last().0;
        lemma_drop_last_map(a);
        lemma_drop_last_map(b);
        assert(rows_map(a.drop_last()) =~= rows_map(b.drop_last()));
        lemma_sorted_rows_unique(a.drop_last(), b.drop_last());
        assert(a =~= a.drop_last().push(a.last()));
        assert(b =~= b.drop_last().push(b.last()));
    }
}

/// Without its greatest row, a sorted run writes the map without that key.
pub proof fn lemma_drop_last_map(rows: Seq<Row>)
    requires
        sorted(rows),
        rows.len() > 0,
    ensures
        sorted(rows.drop_last()),
        rows_map(rows.drop_last()) == rows_map(rows).remove(rows.last().0),
{
    let head = rows.drop_last();
    let key = rows.last().0;
    assert(sorted(head)) by {
        assert forall|i: int, j: int| 0 <= i < j < head.len() implies bytes::bytes_lt(
            #[trigger] head[i].0,
            #[trigger] head[j].0,
        ) by {
            assert(bytes::bytes_lt(rows[i].0, rows[j].0));
        }
    }
    if rows_map(head).contains_key(key) {
        let i = lemma_rows_map_index(head, key);
        bytes::lemma_lt_total(rows[i].0, rows[rows.len() - 1].0);
    }
    assert(rows_map(head) =~= rows_map(rows).remove(key));
}

/// Concatenating sorted runs that do not overlap gives a sorted run.
pub proof fn lemma_sorted_concat(a: Seq<Row>, b: Seq<Row>)
    requires
        sorted(a),
        sorted(b),
        a.len() > 0 && b.len() > 0 ==> bytes::bytes_lt(a.last().0, b[0].0),
    ensures
        sorted(a + b),
{
    let c = a + b;
    assert forall|i: int, j: int| 0 <= i < j < c.len() implies bytes::bytes_lt(
        #[trigger] c[i].0,
        #[trigger] c[j].0,
    ) by {
        if i < a.len() && j >= a.len() {
            let last = a.len() - 1;
            if i < last {
                assert(bytes::bytes_lt(a[i].0, a[last].0));
                bytes::lemma_lt_transitive(a[i].0, a[last].0, b[0].0);
            }
            if j > a.len() {
                assert(bytes::bytes_lt(b[0].0, b[j - a.len()].0));
                bytes::lemma_lt_transitive(a[i].0, b[0].0, b[j - a.len()].0);
            }
        } else if i >= a.len() {
            assert(bytes::bytes_lt(b[i - a.len()].0, b[j - a.len()].0));
        }
    }
}

/// A sorted run with one row placed between its neighbours stays sorted, and
/// writes the map with that row put in.
proof fn lemma_insert_row(rows: Seq<Row>, i: int, row: Row)
    requires
        sorted(rows),
        0 <= i <= rows.len(),
        forall|j: int| 0 <= j < i ==> bytes::bytes_lt(#[trigger] rows[j].0, row.0),
        forall|j: int| i <= j < rows.len() ==> bytes::bytes_lt(row.0, #[trigger] rows[j].0),
    ensures
        sorted(rows.insert(i, row)),
        rows_map(rows.insert(i, row)) == rows_map(rows).insert(row.0, row.1),
{
    let after = rows.insert(i, row);
    assert forall|a: int, b: int| 0 <= a < b < after.len() implies bytes::bytes_lt(
        #[trigger] after[a].0,
        #[trigger] after[b].0,
    ) by {
        let x = if a < i { rows[a] } else if a == i { row } else { rows[a - 1] };
        let y = if b < i { rows[b] } else if b == i { row } else { rows[b - 1] };
        assert(after[a] == x && after[b] == y);
    }
    lemma_same_slots(after, rows_map(rows).insert(row.0, row.1), rows, i, row);
}

proof fn lemma_same_slots(
    after: Seq<Row>,
    target: Map<Seq<u8>, Slot>,
    rows: Seq<Row>,
    i: int,
    row: Row,
)
    requires
        sorted(rows),
        sorted(after),
        0 <= i <= rows.len(),
        after == rows.insert(i, row),
        target == rows_map(rows).insert(row.0, row.1),
    ensures
        rows_map(after) == target,
{
    assert forall|k: Seq<u8>| rows_map(after).contains_key(k) <==> target.contains_key(k) by {
        lemma_put_rows_dom(Map::empty(), after, k);
        lemma_put_rows_dom(Map::empty(), rows, k);
        if mentions(after, k) {
            let a = choose|a: int| 0 <= a < after.len() && #[trigger] after[a].0 == k;
            if a < i {
                assert(rows[a].0 == k);
            } else if a > i {
                assert(rows[a - 1].0 == k);
            }
        }
        if mentions(rows, k) {
            let a = choose|a: int| 0 <= a < rows.len() && #[trigger] rows[a].0 == k;
            if a < i {
                assert(after[a].0 == k);
            } else {
                assert(after[a + 1].0 == k);
            }
        }
        assert(after[i].0 == row.0);
    }
    assert forall|k: Seq<u8>| rows_map(after).contains_key(k) implies rows_map(after)[k] == target[k] by {
        let a = lemma_rows_map_index(after, k);
        if a < i {
            lemma_sorted_slot(rows, a);
            bytes::lemma_lt_total(after[a].0, after[i].0);
        } else if a > i {
            lemma_sorted_slot(rows, a - 1);
            bytes::lemma_lt_total(after[i].0, after[a].0);
        }
    }
    assert(rows_map(after) =~= target);
}

/// Replacing the slot of one row puts that slot into the map.
proof fn lemma_update_row(rows: Seq<Row>, i: int, row: Row)
    requires
        sorted(rows),
        0 <= i < rows.len(),
        rows[i].0 == row.0,
    ensures
        sorted(rows.update(i, row)),
        rows_map(rows.update(i, row)) == rows_map(rows).insert(row.0, row.1),
{
    let after = rows.update(i, row);
    assert forall|a: int, b: int| 0 <= a < b < after.len() implies bytes::bytes_lt(
        #[trigger] after[a].0,
        #[trigger] after[b].0,
    ) by {
        assert(after[a].0 == rows[a].0 && after[b].0 == rows[b].0);
    }
    let target = rows_map(rows).insert(row.0, row.1);
    assert forall|k: Seq<u8>| rows_map(after).contains_key(k) <==> target.contains_key(k) by {
        lemma_put_rows_dom(Map::empty(), after, k);
        lemma_put_rows_dom(Map::empty(), rows, k);
        if mentions(after, k) {
            let a = choose|a: int| 0 <= a < after.len() && #[trigger] after[a].0 == k;
            assert(rows[a].0 == k);
        }
        if mentions(rows, k) {
            let a = choose|a: int| 0 <= a < rows.len() && #[trigger] rows[a].0 == k;
            assert(after[a].0 == k);
        }
        assert(after[i].0 == row.0);
    }
    assert forall|k: Seq<u8>| rows_map(after).contains_key(k) implies rows_map(after)[k] == target[k] by {
        let a = lemma_rows_map_index(after, k);
        if a != i {
            lemma_sorted_slot(rows, a);
            bytes::lemma_lt_total(after[a].0, after[i].0);
            bytes::lemma_lt_total(after[i].0, after[a].0);
        }
    }
    assert(rows_map(after) =~= target);
}

/// Filtering rows by key keeps them sorted and filters the map they write.
pub proof fn lemma_keep_rows(rows: Seq<Row>, keep: spec_fn(Seq<u8>) -> bool)
    ensures
        rows_map(keep_rows(rows, keep)) == keep_keys(rows_map(rows), keep),
        sorted(rows) ==> sorted(keep_rows(rows, keep)),
        forall|i: int|
            0 <= i < keep_rows(rows, keep).len() ==> keep(#[trigger] keep_rows(rows, keep)[i].0)
                && mentions(rows, keep_rows(rows, keep)[i].0),
    decreases rows.len(),
{
    let kept = keep_rows(rows, keep);
    if rows.len() == 0 {
        assert(rows_map(kept) =~= keep_keys(rows_map(rows), keep));
    } else {
        let head = rows.drop_last();
        let last = rows.last();
        lemma_keep_rows(head, keep);
        if keep(last.0) {
            assert(kept.drop_last() =~= keep_rows(head, keep));
        }
        assert(rows_map(kept) =~= keep_keys(rows_map(rows), keep));
        assert forall|i: int| 0 <= i < kept.len() implies keep(#[trigger] kept[i].0) && mentions(
            rows,
            kept[i].0,
        ) by {
            if i < keep_rows(head, keep).len() {
                assert(kept[i] == keep_rows(head, keep)[i]);
                let j = choose|j: int| 0 <= j < head.len() && #[trigger] head[j].0 == kept[i].0;
                assert(rows[j].0 == kept[i].0);
            } else {
                assert(rows[rows.len() - 1].0 == kept[i].0);
            }
        }
        if sorted(rows) {
            assert(sorted(head)) by {
                assert forall|i: int, j: int| 0 <= i < j < head.len() implies bytes::bytes_lt(
                    #[trigger] head[i].0,
                    #[trigger] head[j].0,
                ) by {
                    assert(bytes::bytes_lt(rows[i].0, rows[j].0));
                }
            }
            if keep(last.0) {
                assert forall|i: int, j: int| 0 <= i < j < kept.len() implies bytes::bytes_lt(
                    #[trigger] kept[i].0,
                    #[trigger] kept[j].0,
                ) by {
                    let part = keep_rows(head, keep);
                    if j < part.len() {
                        assert(bytes::bytes_lt(part[i].0, part[j].0));
                    } else {
                        assert(part[i] == kept[i]);
                        let a = choose|a: int| 0 <= a < head.len() && #[trigger] head[a].0 == part[i].0;
                        assert(bytes::bytes_lt(rows[a].0, rows[rows.len() - 1].0));
                    }
                }
            }
        }
    }
}

/// Filtering distributes over concatenation.
pub proof fn lemma_keep_rows_concat(a: Seq<Row>, b: Seq<Row>, keep: spec_fn(Seq<u8>) -> bool)
    ensures
        keep_rows(a + b, keep) == keep_rows(a, keep) + keep_rows(b, keep),
    decreases b.len(),
{
    if b.len() == 0 {
        assert(a + b =~= a);
        assert(keep_rows(a, keep) + keep_rows(b, keep) =~= keep_rows(a, keep));
    } else {
        assert((a + b).drop_last() =~= a + b.drop_last());
        lemma_keep_rows_concat(a, b.drop_last(), keep);
        assert(keep_rows(a + b, keep) =~= keep_rows(a, keep) + keep_rows(b, keep));
    }
}

/// Sorted rows that one test accepts are those up to a key and those above it.
pub proof fn lemma_keep_rows_split(
    rows: Seq<Row>,
    whole: spec_fn(Seq<u8>) -> bool,
    first: spec_fn(Seq<u8>) -> bool,
    rest: spec_fn(Seq<u8>) -> bool,
    at: Seq<u8>,
)
    requires
        sorted(rows),
        forall|k: Seq<u8>| #[trigger] whole(k) <==> first(k) || rest(k),
        forall|k: Seq<u8>| #[trigger] first(k) ==> bytes::bytes_le(k, at),
        forall|k: Seq<u8>| #[trigger] rest(k) ==> bytes::bytes_lt(at, k),
    ensures
        keep_rows(rows, whole) == keep_rows(rows, first) + keep_rows(rows, rest),
    decreases rows.len(),
{
    if rows.len() == 0 {
        assert(keep_rows(rows, whole) =~= keep_rows(rows, first) + keep_rows(rows, rest));
    } else {
        let head = rows.drop_last();
        let last = rows.last().0;
        lemma_drop_last_map(rows);
        lemma_keep_rows_split(head, whole, first, rest, at);
        assert(whole(last) <==> first(last) || rest(last));
        if first(last) {
            if rest(last) {
                bytes::lemma_lt_total(last, at);
            }
            assert forall|i: int| 0 <= i < head.len() implies !rest(#[trigger] head[i].0) by {
                assert(bytes::bytes_lt(rows[i].0, rows[rows.len() - 1].0));
                if rest(head[i].0) {
                    bytes::lemma_le_lt(at, head[i].0, last);
                    bytes::lemma_lt_total(last, at);
                }
            }
            lemma_keep_none(head, rest);
        }
        assert(keep_rows(rows, whole) =~= keep_rows(rows, first) + keep_rows(rows, rest));
    }
}

/// Rows none of which `keep` accepts leave nothing.
pub proof fn lemma_keep_none(rows: Seq<Row>, keep: spec_fn(Seq<u8>) -> bool)
    requires
        forall|i: int| 0 <= i < rows.len() ==> !keep(#[trigger] rows[i].0),
    ensures
        keep_rows(rows, keep) == Seq::<Row>::empty(),
    decreases rows.len(),
{
    if rows.len() > 0 {
        let head = rows.drop_last();
        assert forall|i: int| 0 <= i < head.len() implies !keep(#[trigger] head[i].0) by {
            assert(!keep(rows[i].0));
        }
        assert(!keep(rows[rows.len() - 1].0));
        lemma_keep_none(head, keep);
    }
}

/// The valued rows of a sorted run are sorted and write the run's map without
/// its tombstones.
pub proof fn lemma_valued_rows(rows: Seq<Row>)
    requires
        sorted(rows),
    ensures
        sorted(valued_rows(rows)),
        rows_map(valued_rows(rows)) == without_tombstones(rows_map(rows)),
        forall|i: int|
            0 <= i < valued_rows(rows).len() ==> mentions(rows, #[trigger] valued_rows(rows)[i].0),
    decreases rows.len(),
{
    let kept = valued_rows(rows);
    if rows.len() == 0 {
        assert(rows_map(kept) =~= without_tombstones(rows_map(rows)));
    } else {
        let head = rows.drop_last();
        let last = rows.last();
        lemma_drop_last_map(rows);
        lemma_valued_rows(head);
        let before = valued_rows(head);
        if last.1 is Some {
            assert(kept.drop_last() =~= before);
        }
        assert forall|i: int| 0 <= i < kept.len() implies mentions(rows, #[trigger] kept[i].0) by {
            if i < before.len() {
                assert(kept[i] == before[i]);
                let j = choose|j: int| 0 <= j < head.len() && #[trigger] head[j].0 == before[i].0;
                assert(rows[j].0 == kept[i].0);
            } else {
                assert(rows[rows.len() - 1].0 == kept[i].0);
            }
        }
        assert forall|i: int, j: int| 0 <= i < j < kept.len() implies bytes::bytes_lt(
            #[trigger] kept[i].0,
            #[trigger] kept[j].0,
        ) by {
            if j < before.len() {
                assert(bytes::bytes_lt(before[i].0, before[j].0));
            } else {
                assert(kept[i] == before[i]);
                let k = choose|k: int| 0 <= k < head.len() && #[trigger] head[k].0 == before[i].0;
                assert(bytes::bytes_lt(rows[k].0, rows[rows.len() - 1].0));
            }
        }
        assert(rows_map(kept) =~= without_tombstones(rows_map(rows)));
    }
}

/// The rows that hold a value.
pub fn drop_tombstones(rows: &Vec<(Key, Option<Value>)>) -> (r: Vec<(Key, Option<Value>)>)
    ensures
        rows_view(r@) == valued_rows(rows_view(rows@)),
{
    let ghost view = rows_view(rows@);
    let mut out: Vec<(Key, Option<Value>)> = Vec::new();
    let mut i: usize = 0;
    proof {
        assert(view.subrange(0, 0) =~= Seq::<Row>::empty());
        assert(rows_view(out@) =~= Seq::<Row>::empty());
    }
    while i < rows.len()
        invariant
            i <= rows@.len(),
            view == rows_view(rows@),
            rows_view(out@) == valued_rows(view.subrange(0, i as int)),
        decreases rows@.len() - i,
    {
        proof {
            let next = view.subrange(0, i + 1);
            assert(next.drop_last() =~= view.subrange(0, i as int));
            assert(next.last() == row_view(rows@[i as int]));
        }
        if rows[i].1.is_some() {
            let row = copy_row(&rows[i]);
            let ghost before = rows_view(out@);
            out.push(row);
            assert(rows_view(out@) =~= before.push(view[i as int]));
        }
        i = i + 1;
    }
    assert(view.subrange(0, i as int) =~= view);
    out
}

/// An owned copy of an optional value.
pub fn copy_value(value: &Option<Value>) -> (r: Option<Value>)
    ensures
        slot_view(r) == slot_view(*value),
{
    match value {
        Some(v) => Some(bytes::copy(v.as_slice())),
        None => None,
    }
}

/// An owned copy of a row.
pub fn copy_row(row: &(Key, Option<Value>)) -> (r: (Key, Option<Value>))
    ensures
        row_view(r) == row_view(*row),
{
    (row.0.clone(), copy_value(&row.1))
}

/// An owned copy of rows.
pub fn copy_rows(rows: &Vec<(Key, Option<Value>)>) -> (r: Vec<(Key, Option<Value>)>)
    ensures
        rows_view(r@) == rows_view(rows@),
{
    let mut out: Vec<(Key, Option<Value>)> = Vec::new();
    let mut i: usize = 0;
    while i < rows.len()
        invariant
            i <= rows@.len(),
            rows_view(out@) =~= rows_view(rows@).subrange(0, i as int),
        decreases rows@.len() - i,
    {
        let row = copy_row(&rows[i]);
        let ghost before = rows_view(out@);
        let ghost copied = row_view(row);
        out.push(row);
        i = i + 1;
        assert(rows_view(out@) =~= before.push(copied));
        assert(rows_view(rows@).subrange(0, i as int) =~= before.push(rows_view(rows@)[i - 1]));
    }
    assert(rows_view(rows@).subrange(0, i as int) =~= rows_view(rows@));
    out
}

/// The first position of sorted rows whose key is not below `key`.
pub fn lower_bound(rows: &Vec<(Key, Option<Value>)>, key: &[u8]) -> (pos: usize)
    requires
        sorted(rows_view(rows@)),
    ensures
        pos <= rows@.len(),
        forall|i: int| 0 <= i < pos ==> bytes::bytes_lt(#[trigger] rows_view(rows@)[i].0, key@),
        forall|i: int|
            pos <= i < rows@.len() ==> !bytes::bytes_lt(#[trigger] rows_view(rows@)[i].0, key@),
{
    let mut lo: usize = 0;
    let mut hi: usize = rows.len();
    let ghost view = rows_view(rows@);
    while lo < hi
        invariant
            lo <= hi <= rows@.len(),
            view == rows_view(rows@),
            sorted(view),
            forall|i: int| 0 <= i < lo ==> bytes::bytes_lt(#[trigger] view[i].0, key@),
            forall|i: int| hi <= i < rows@.len() ==> !bytes::bytes_lt(#[trigger] view[i].0, key@),
        decreases hi - lo,
    {
        let mid: usize = lo + (hi - lo) / 2;
        assert(view[mid as int].0 == rows@[mid as int].0@);
        if bytes::lt(rows[mid].0.as_bytes(), key) {
            proof {
                assert forall|i: int| 0 <= i < mid + 1 implies bytes::bytes_lt(
                    #[trigger] view[i].0,
                    key@,
                ) by {
                    if i < mid {
                        bytes::lemma_lt_transitive(view[i].0, view[mid as int].0, key@);
                    }
                }
            }
            lo = mid + 1;
        } else {
            proof {
                assert forall|i: int| mid <= i < rows@.len() implies !bytes::bytes_lt(
                    #[trigger] view[i].0,
                    key@,
                ) by {
                    if mid < i && bytes::bytes_lt(view[i].0, key@) {
                        bytes::lemma_lt_transitive(view[mid as int].0, view[i].0, key@);
                    }
                }
            }
            hi = mid;
        }
    }
    lo
}

/// The slot that sorted rows hold for `key`, and where.
pub fn find(rows: &Vec<(Key, Option<Value>)>, key: &[u8]) -> (r: Option<usize>)
    requires
        sorted(rows_view(rows@)),
    ensures
        match r {
            Some(i) => i < rows@.len() && rows_view(rows@)[i as int].0 == key@ && rows_map(
                rows_view(rows@),
            ).contains_key(key@) && rows_map(rows_view(rows@))[key@] == slot_view(rows@[i as int].1),
            None => !rows_map(rows_view(rows@)).contains_key(key@),
        },
{
    let pos: usize = lower_bound(rows, key);
    let ghost view = rows_view(rows@);
    if pos < rows.len() && bytes::eq(rows[pos].0.as_bytes(), key) {
        proof {
            assert(view[pos as int].0 == key@);
            lemma_sorted_slot(view, pos as int);
        }
        Some(pos)
    } else {
        proof {
            if rows_map(view).contains_key(key@) {
                let i = lemma_rows_map_index(view, key@);
                bytes::lemma_lt_irreflexive(key@);
                if pos < i {
                    assert(bytes::bytes_lt(view[pos as int].0, view[i].0));
                }
            }
        }
        None
    }
}

/// A map from keys to slots, kept as sorted rows.
#[derive(Debug)]
pub struct RowMap {
    rows: Vec<(Key, Option<Value>)>,
}

impl View for RowMap {
    type V = Map<Seq<u8>, Slot>;

    closed spec fn view(&self) -> Map<Seq<u8>, Slot> {
        rows_map(rows_view(self.rows@))
    }
}

impl RowMap {
    /// The rows ascend strictly by key.
    pub closed spec fn wf(&self) -> bool {
        sorted(rows_view(self.rows@))
    }

    /// The rows, in order.
    pub closed spec fn spec_rows(&self) -> Seq<Row> {
        rows_view(self.rows@)
    }

    /// A well-formed map's rows are sorted and write the map.
    pub proof fn lemma_rows(&self)
        ensures
            rows_map(self.spec_rows()) == self@,
            self.wf() <==> sorted(self.spec_rows()),
    {
    }

    /// The empty map.
    pub fn new() -> (m: RowMap)
        ensures
            m.wf(),
            m@ == Map::<Seq<u8>, Slot>::empty(),
            m.spec_rows() == Seq::<Row>::empty(),
    {
        let m = RowMap { rows: Vec::new() };
        assert(rows_view(m.rows@) =~= Seq::<Row>::empty());
        m
    }

    /// Puts one row into the map.
    pub fn put(&mut self, key: Key, value: Option<Value>)
        requires
            old(self).wf(),
        ensures
            final(self).wf(),
            final(self)@ == old(self)@.insert(key@, slot_view(value)),
    {
        let pos: usize = lower_bound(&self.rows, key.as_bytes());
        let ghost before = rows_view(self.rows@);
        let ghost row = row_view((key, value));
        if pos < self.rows.len() && bytes::eq(self.rows[pos].0.as_bytes(), key.as_bytes()) {
            proof {
                lemma_update_row(before, pos as int, row);
            }
            self.rows.set(pos, (key, value));
            assert(rows_view(self.rows@) =~= before.update(pos as int, row));
        } else {
            proof {
                assert forall|j: int| pos <= j < before.len() implies bytes::bytes_lt(
                    row.0,
                    #[trigger] before[j].0,
                ) by {
                    bytes::lemma_lt_total(before[j].0, row.0);
                    if before[j].0 == row.0 && j > pos {
                        assert(bytes::bytes_lt(before[pos as int].0, before[j].0));
                    }
                }
                lemma_insert_row(before, pos as int, row);
            }
            self.rows.insert(pos, (key, value));
            assert(rows_view(self.rows@) =~= before.insert(pos as int, row));
        }
    }

    /// The slot of `key`; `None` where the map does not mention it.
    pub fn get(&self, key: &[u8]) -> (r: Option<&Option<Value>>)
        requires
            self.wf(),
        ensures
            match r {
                Some(slot) => self@.contains_key(key@) && slot_view(*slot) == self@[key@],
                None => !self@.contains_key(key@),
            },
    {
        match find(&self.rows, key) {
            Some(i) => Some(&self.rows[i].1),
            None => None,
        }
    }

    /// Puts every row in turn.
    pub fn put_all(&mut self, rows: &Vec<(Key, Option<Value>)>)
        requires
            old(self).wf(),
        ensures
            final(self).wf(),
            final(self)@ == put_rows(old(self)@, rows_view(rows@)),
    {
        let ghost view = rows_view(rows@);
        let mut i: usize = 0;
        assert(view.subrange(0, 0) =~= Seq::<Row>::empty());
        while i < rows.len()
            invariant
                i <= rows@.len(),
                view == rows_view(rows@),
                self.wf(),
                self@ == put_rows(old(self)@, view.subrange(0, i as int)),
            decreases rows@.len() - i,
        {
            let row = copy_row(&rows[i]);
            self.put(row.0, row.1);
            proof {
                let next = view.subrange(0, i + 1);
                assert(next.drop_last() =~= view.subrange(0, i as int));
                assert(next.last() == view[i as int]);
            }
            i = i + 1;
        }
        assert(view.subrange(0, i as int) =~= view);
    }

    /// Number of rows.
    pub fn len(&self) -> (n: usize)
        ensures
            n == self.spec_rows().len(),
    {
        self.rows.len()
    }

    /// The rows, in ascending key order.
    pub fn rows(&self) -> (rows: &Vec<(Key, Option<Value>)>)
        ensures
            rows_view(rows@) == self.spec_rows(),
    {
        &self.rows
    }

    /// Drops every row.
    pub fn clear(&mut self)
        ensures
            final(self).wf(),
            final(self)@ == Map::<Seq<u8>, Slot>::empty(),
            final(self).spec_rows() == Seq::<Row>::empty(),
    {
        self.rows.clear();
        assert(rows_view(self.rows@) =~= Seq::<Row>::empty());
    }
}

} // verus!
