//! Whole-file tables: the rows of one file, held in memory once it is read.
//!
//! The engine works on the block-based tables of [`crate::store::sst_block`];
//! this is the plain form, without index or filter.
use crate::error::EngineError;
use crate::key::Key;
use crate::store::engine::recover::{list_tables, sst_tables};
use crate::store::files::DirEntry;
use crate::store::rows::{rows_map, rows_view, sorted};
use crate::store::sst_block::{joined, sst_name, sst_path};
use crate::store::trace::{wrote_table, Permit, Traced};
use crate::store::verify::{table_list, Listed, SstEntry};
use crate::store::{rows, Value};
use vstd::prelude::*;

verus! {

/// Encodes and seals whole tables, and brings them to disk and back.
pub trait TableFiles {
    /// Writes rows under a temporary name, makes the file durable, and renames
    /// it into place.
    fn write_table(&self, permit: &Permit, path: &str, entries: &Vec<(Key, Option<Value>)>) -> Result<(), EngineError>;

    /// The rows of a file, once it is authentic and decodes.
    fn read_table(&self, path: &str) -> Result<Vec<(Key, Option<Value>)>, EngineError>;
}

/// A table with its rows.
#[derive(Debug)]
pub struct SstFile {
    pub id: u64,
    pub path: String,
    /// In ascending key order, as whoever wrote the file laid them.
    pub entries: Vec<(Key, Option<Value>)>,
}

/// What reading table `id` at `path` gives.
pub open spec fn loads_whole<F: TableFiles>(
    files: &F,
    path: Seq<char>,
    id: u64,
    r: Result<SstFile, EngineError>,
) -> bool {
    exists|p: &str, t: Result<Vec<(Key, Option<Value>)>, EngineError>|
        p@ == path && #[trigger] call_ensures(F::read_table, (files, p), t) && match t {
            Err(e) => r == Err::<SstFile, EngineError>(e),
            Ok(rows) => r matches Ok(f) && f.id == id && f.path@ == path && f.entries == rows,
        }
}

impl SstFile {
    /// Writes rows, in ascending key order, as table `id` of `dir`. The log
    /// must not be emptied before this succeeds.
    pub fn write_new<F: TableFiles>(
        files: &mut Traced<F>,
        dir: &str,
        id: u64,
        entries: Vec<(Key, Option<Value>)>,
    ) -> (r: Result<SstFile, EngineError>)
        ensures
            final(files).spec_files() == old(files).spec_files(),
            exists|w: Result<(), EngineError>| #[trigger]
                wrote_table(
                    old(files).steps(),
                    final(files).steps(),
                    joined(dir@, sst_name(id)),
                    rows_view(entries@),
                    w,
                ) && match w {
                    Err(e) => r == Err::<SstFile, EngineError>(e),
                    Ok(()) => r matches Ok(f) && f.id == id && f.path@ == joined(dir@, sst_name(id)) && f.entries
                        == entries,
                },
    {
        let path = sst_path(dir, id);
        let p: &str = path.as_str();
        let w = files.write_table(p, &entries);
        assert(wrote_table(
            old(files).steps(),
            files.steps(),
            joined(dir@, sst_name(id)),
            rows_view(entries@),
            w,
        ));
        match w {
            Err(e) => Err(e),
            Ok(()) => Ok(SstFile { id, path, entries }),
        }
    }

    /// Reads table `id` at `path`.
    pub fn load<F: TableFiles>(files: &F, path: String, id: u64) -> (r: Result<SstFile, EngineError>)
        ensures
            loads_whole(files, path@, id, r),
    {
        let p: &str = path.as_str();
        let t = files.read_table(p);
        assert(p@ == path@ && call_ensures(F::read_table, (files, p), t));
        match t {
            Err(e) => Err(e),
            Ok(entries) => Ok(SstFile { id, path, entries }),
        }
    }

    /// `None`: this table says nothing of `key`. `Some(None)`: it is deleted.
    /// `Some(Some(v))`: its value is `v`.
    pub fn get(&self, key: &Key) -> (r: Option<Option<&Value>>)
        requires
            sorted(rows_view(self.entries@)),
        ensures
            match r {
                None => !rows_map(rows_view(self.entries@)).contains_key(key@),
                Some(None) => rows_map(rows_view(self.entries@)).contains_key(key@) && rows_map(
                    rows_view(self.entries@),
                )[key@] == None::<Seq<u8>>,
                Some(Some(v)) => rows_map(rows_view(self.entries@)).contains_key(key@) && rows_map(
                    rows_view(self.entries@),
                )[key@] == Some(v@),
            },
    {
        match rows::find(&self.entries, key.as_bytes()) {
            None => None,
            Some(i) => match &self.entries[i].1 {
                None => Some(None),
                Some(v) => Some(Some(v)),
            },
        }
    }

    /// The rows, in order.
    pub fn entries(&self) -> (entries: &Vec<(Key, Option<Value>)>)
        ensures
            *entries == self.entries,
    {
        &self.entries
    }
}

/// Reading the first tables may give `found`.
pub open spec fn loads_whole_each<F: TableFiles>(files: &F, tables: Seq<Listed>, found: Seq<SstFile>) -> bool {
    &&& found.len() <= tables.len()
    &&& forall|i: int|
        0 <= i < found.len() ==> loads_whole(files, tables[i].path, tables[i].id, Ok(#[trigger] found[i]))
}

/// Reading the tables may stop with this error, at the oldest that cannot be
/// read.
pub open spec fn stops_at<F: TableFiles>(files: &F, tables: Seq<Listed>, e: EngineError) -> bool {
    exists|found: Seq<SstFile>|
        {
            &&& #[trigger] loads_whole_each(files, tables, found)
            &&& found.len() < tables.len()
            &&& loads_whole(
                files,
                tables[found.len() as int].path,
                tables[found.len() as int].id,
                Err(e),
            )
        }
}

/// The tables that entries of `dir` name, oldest first; else the error of the
/// oldest that cannot be read. Other files, the orphans of an interrupted
/// write among them, are passed over.
pub fn scan_existing<F: TableFiles>(files: &F, dir: &str, entries: &Vec<DirEntry>) -> (r: Result<
    Vec<SstFile>,
    EngineError,
>)
    ensures
        match r {
            Ok(found) => found@.len() == sst_tables(dir@, entries@).len() && loads_whole_each(
                files,
                sst_tables(dir@, entries@),
                found@,
            ),
            Err(e) => stops_at(files, sst_tables(dir@, entries@), e),
        },
{
    let ssts: Vec<SstEntry> = list_tables(dir, entries);
    let ghost tables = table_list(ssts@);
    let mut found: Vec<SstFile> = Vec::new();
    let mut i: usize = 0;
    while i < ssts.len()
        invariant
            tables == table_list(ssts@),
            tables == sst_tables(dir@, entries@),
            i <= ssts@.len(),
            found@.len() == i,
            loads_whole_each(files, tables, found@),
        decreases ssts@.len() - i,
    {
        assert(tables[i as int] == ssts@[i as int].listed());
        let l = SstFile::load(files, ssts[i].path.clone(), ssts[i].id);
        match l {
            Err(e) => {
                assert(loads_whole_each(files, tables, found@));
                return Err(e);
            },
            Ok(file) => {
                found.push(file);
            },
        }
        i = i + 1;
    }
    Ok(found)
}

} // verus!
