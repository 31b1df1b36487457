//! What a whole-file table answers, and which are found.
use crate::error::EngineError;
use crate::key::Key;
use crate::store::engine::recover::{sst_tables, tables_are_listed_oldest_first};
use crate::store::files::DirEntry;
use crate::store::rows::{lemma_rows_map_index, lemma_sorted_slot, row_view, rows_view, sorted};
use crate::store::sst::{loads_whole, scan_existing, SstFile, TableFiles};
use crate::store::sst_block;
use crate::store::sst_block::{joined, sst_id_of, sst_ids_of};
use crate::store::verify::{with_table, Listed};
use crate::store::Value;
use vstd::prelude::*;

verus! {

/// A whole-file table says of a key what its row for the key says, and nothing
/// if it has none.
pub proof fn a_whole_table_answers_from_its_rows(table: &SstFile, key: &Key, r: Option<Option<&Value>>)
    requires
        sorted(rows_view(table.entries@)),
        call_ensures(SstFile::get, (table, key), r),
    ensures
        r is None <==> forall|i: int| 0 <= i < table.entries@.len() ==> (#[trigger] table.entries@[i]).0@ != key@,
        forall|i: int|
            0 <= i < table.entries@.len() && (#[trigger] table.entries@[i]).0@ == key@ ==> match table.entries@[i].1 {
                None => r == Some(None::<&Value>),
                Some(v) => r matches Some(Some(w)) && w@ == v@,
            },
{
    let rows = rows_view(table.entries@);
    assert forall|i: int| 0 <= i < table.entries@.len() && (#[trigger] table.entries@[i]).0@ == key@ implies match
        table.entries@[i].1 {
        None => r == Some(None::<&Value>),
        Some(v) => r matches Some(Some(w)) && w@ == v@,
    } by {
        lemma_sorted_slot(rows, i);
        assert(rows[i] == row_view(table.entries@[i]));
    }
    if r is Some {
        let i = lemma_rows_map_index(rows, key@);
        assert(rows[i] == row_view(table.entries@[i]));
        assert(table.entries@[i].0@ == key@);
    }
}

/// An entry of a directory names a table.
pub open spec fn names(dir: Seq<char>, entries: Seq<DirEntry>, table: Listed) -> bool {
    exists|i: int|
        0 <= i < entries.len() && sst_id_of((#[trigger] entries[i]).name@) == Some(table.id) && table.path == joined(
            dir,
            entries[i].name@,
        ) && table.len == entries[i].len
}

proof fn lemma_placed(tables: Seq<Listed>, table: Listed, x: Listed)
    ensures
        with_table(tables, table).contains(x) <==> tables.contains(x) || x == table,
    decreases tables.len(),
{
    let out = with_table(tables, table);
    let n = tables.len() as int;
    let (base, top) = if n == 0 || tables.last().id <= table.id {
        (tables, table)
    } else {
        lemma_placed(tables.drop_last(), table, x);
        (with_table(tables.drop_last(), table), tables.last())
    };
    assert(out == base.push(top));
    if base.contains(x) {
        let k = choose|k: int| 0 <= k < base.len() && base[k] == x;
        assert(out[k] == x);
    }
    assert(out[base.len() as int] == top);
    if out.contains(x) && x != top {
        let k = choose|k: int| 0 <= k < out.len() && out[k] == x;
        assert(base[k] == x);
    }
    if n > 0 {
        let head = tables.drop_last();
        if head.contains(x) {
            let k = choose|k: int| 0 <= k < head.len() && head[k] == x;
            assert(tables[k] == x);
        }
        assert(tables[n - 1] == tables.last());
        if tables.contains(x) && x != tables.last() {
            let k = choose|k: int| 0 <= k < n && tables[k] == x;
            assert(head[k] == x);
        }
    }
}

/// The tables that are listed are those that the entries name.
pub proof fn every_table_that_is_named_is_listed(dir: Seq<char>, entries: Seq<DirEntry>, x: Listed)
    ensures
        sst_tables(dir, entries).contains(x) <==> names(dir, entries, x),
    decreases entries.len(),
{
    if entries.len() > 0 {
        let n = entries.len() - 1;
        let head = entries.drop_last();
        let last = entries.last();
        every_table_that_is_named_is_listed(dir, head, x);
        if let Some(id) = sst_id_of(last.name@) {
            let table = Listed { id, path: joined(dir, last.name@), len: last.len };
            lemma_placed(sst_tables(dir, head), table, x);
            if x == table {
                assert(sst_id_of(entries[n].name@) == Some(x.id));
            }
        }
        if names(dir, head, x) {
            let i = choose|i: int|
                0 <= i < head.len() && sst_id_of((#[trigger] head[i]).name@) == Some(x.id) && x.path == joined(
                    dir,
                    head[i].name@,
                ) && x.len == head[i].len;
            assert(sst_id_of(entries[i].name@) == Some(x.id));
        }
        if names(dir, entries, x) {
            let i = choose|i: int|
                0 <= i < entries.len() && sst_id_of((#[trigger] entries[i]).name@) == Some(x.id) && x.path == joined(
                    dir,
                    entries[i].name@,
                ) && x.len == entries[i].len;
            if i < n {
                assert(sst_id_of(head[i].name@) == Some(x.id));
            }
        }
    }
}

/// A file may give these rows.
pub open spec fn gives_rows<F: TableFiles>(files: &F, path: Seq<char>, rows: Vec<(Key, Option<Value>)>) -> bool {
    exists|p: &str| p@ == path && #[trigger] call_ensures(F::read_table, (files, p), Ok(rows))
}

/// A scan finds every table that the directory names and no other, oldest
/// first, each with the rows that its file gave.
pub proof fn a_scan_finds_every_table<F: TableFiles>(
    files: &F,
    dir: &str,
    entries: &Vec<DirEntry>,
    found: Vec<SstFile>,
)
    requires
        call_ensures(scan_existing::<F>, (files, dir, entries), Ok(found)),
    ensures
        forall|i: int|
            0 <= i < entries@.len() && sst_id_of((#[trigger] entries@[i]).name@) is Some ==> exists|k: int|
                0 <= k < found@.len() && (#[trigger] found@[k]).id == sst_id_of(entries@[i].name@)->Some_0
                    && found@[k].path@ == joined(dir@, entries@[i].name@),
        forall|k: int|
            0 <= k < found@.len() ==> gives_rows(files, (#[trigger] found@[k]).path@, found@[k].entries) && exists|
                i: int,
            |
                0 <= i < entries@.len() && sst_id_of((#[trigger] entries@[i]).name@) == Some(found@[k].id)
                    && found@[k].path@ == joined(dir@, entries@[i].name@),
        forall|j: int, k: int| 0 <= j < k < found@.len() ==> found@[j].id <= found@[k].id,
{
    let tables = sst_tables(dir@, entries@);
    tables_are_listed_oldest_first(dir@, entries@);
    assert forall|k: int| 0 <= k < found@.len() implies (#[trigger] found@[k]).id == tables[k].id && found@[k].path@
        == tables[k].path && gives_rows(files, found@[k].path@, found@[k].entries) by {
        assert(loads_whole(files, tables[k].path, tables[k].id, Ok(found@[k])));
        let (p, t) = choose|p: &str, t: Result<Vec<(Key, Option<Value>)>, EngineError>|
            p@ == tables[k].path && #[trigger] call_ensures(F::read_table, (files, p), t) && t == Ok::<
                Vec<(Key, Option<Value>)>,
                EngineError,
            >(found@[k].entries);
        assert(call_ensures(F::read_table, (files, p), Ok(found@[k].entries)));
    }
    assert forall|i: int| 0 <= i < entries@.len() && sst_id_of((#[trigger] entries@[i]).name@) is Some implies exists|
        k: int,
    |
        0 <= k < found@.len() && (#[trigger] found@[k]).id == sst_id_of(entries@[i].name@)->Some_0 && found@[k].path@
            == joined(dir@, entries@[i].name@) by {
        let x = Listed {
            id: sst_id_of(entries@[i].name@)->Some_0,
            path: joined(dir@, entries@[i].name@),
            len: entries@[i].len,
        };
        every_table_that_is_named_is_listed(dir@, entries@, x);
        assert(names(dir@, entries@, x));
        let k = choose|k: int| 0 <= k < tables.len() && tables[k] == x;
        assert(found@[k].id == x.id);
    }
    assert forall|k: int| 0 <= k < found@.len() implies exists|i: int|
        0 <= i < entries@.len() && sst_id_of((#[trigger] entries@[i]).name@) == Some((#[trigger] found@[k]).id)
            && found@[k].path@ == joined(dir@, entries@[i].name@) by {
        assert(tables.contains(tables[k]));
        every_table_that_is_named_is_listed(dir@, entries@, tables[k]);
    }
    assert forall|j: int, k: int| 0 <= j < k < found@.len() implies found@[j].id <= found@[k].id by {
        assert(tables[j].id <= tables[k].id);
    }
}

/// A file name is that of a table.
pub open spec fn is_named(names: Seq<String>, id: u64) -> bool {
    exists|i: int| 0 <= i < names.len() && sst_id_of((#[trigger] names[i])@) == Some(id)
}

proof fn lemma_named(names: Seq<String>, id: u64)
    ensures
        sst_ids_of(names).contains(id) <==> is_named(names, id),
    decreases names.len(),
{
    if names.len() > 0 {
        let n = names.len() - 1;
        let head = names.drop_last();
        let some = sst_ids_of(head);
        let all = sst_ids_of(names);
        lemma_named(head, id);
        if is_named(head, id) {
            let i = choose|i: int| 0 <= i < head.len() && sst_id_of((#[trigger] head[i])@) == Some(id);
            assert(names[i] == head[i]);
            let k = choose|k: int| 0 <= k < some.len() && some[k] == id;
            assert(all[k] == id);
        }
        if sst_id_of(names[n]@) == Some(id) {
            assert(all[some.len() as int] == id);
        }
        if all.contains(id) {
            let k = choose|k: int| 0 <= k < all.len() && all[k] == id;
            if k < some.len() {
                assert(some[k] == id);
            } else {
                assert(sst_id_of(names[n]@) == Some(id));
            }
        }
        if is_named(names, id) {
            let i = choose|i: int| 0 <= i < names.len() && sst_id_of((#[trigger] names[i])@) == Some(id);
            if i < n {
                assert(head[i] == names[i]);
            }
        }
    }
}

/// The ids found in a listing are those that a file name of it names, lowest
/// first.
pub proof fn a_listing_gives_every_id_that_it_names(names: &Vec<String>, ids: Vec<u64>, id: u64)
    requires
        call_ensures(sst_block::scan_existing, (names,), ids),
    ensures
        ids@.contains(id) <==> is_named(names@, id),
        forall|i: int, j: int| 0 <= i < j < ids@.len() ==> ids@[i] <= ids@[j],
{
    lemma_named(names@, id);
    vstd::seq_lib::to_multiset_contains(ids@, id);
    vstd::seq_lib::to_multiset_contains(sst_ids_of(names@), id);
}

} // verus!
