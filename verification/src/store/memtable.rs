//! The in-memory table that takes writes until they are flushed.
use crate::key::Key;
use crate::store::rows::{RowMap, Row, Slot};
use crate::store::{rows, Value};
use vstd::prelude::*;

verus! {

/// The sorted table of what was written since the last flush.
#[derive(Debug)]
pub struct Memtable {
    entries: RowMap,
}

impl View for Memtable {
    type V = Map<Seq<u8>, Slot>;

    closed spec fn view(&self) -> Map<Seq<u8>, Slot> {
        self.entries@
    }
}

impl Memtable {
    /// The table is kept in strictly ascending key order.
    pub closed spec fn wf(&self) -> bool {
        self.entries.wf()
    }

    /// The rows, in ascending key order.
    pub closed spec fn spec_rows(&self) -> Seq<Row> {
        self.entries.spec_rows()
    }

    /// The rows are sorted and write exactly what the table holds.
    pub proof fn iteration_is_sorted(&self)
        requires
            self.wf(),
        ensures
            rows::sorted(self.spec_rows()),
            rows::rows_map(self.spec_rows()) == self@,
    {
        self.entries.lemma_rows();
    }

    /// An empty table.
    pub fn new() -> (m: Memtable)
        ensures
            m.wf(),
            m@ == Map::<Seq<u8>, Slot>::empty(),
    {
        Memtable { entries: RowMap::new() }
    }

    /// A table of rows already in order.
    pub fn from_rows(entries: RowMap) -> (m: Memtable)
        requires
            entries.wf(),
        ensures
            m.wf(),
            m@ == entries@,
    {
        Memtable { entries }
    }

    /// Records a value for `key`.
    pub fn put(&mut self, key: Key, value: Value)
        requires
            old(self).wf(),
        ensures
            final(self).wf(),
            final(self)@ == old(self)@.insert(key@, Some(value@)),
    {
        self.entries.put(key, Some(value));
    }

    /// Records a tombstone for `key`.
    pub fn delete(&mut self, key: Key)
        requires
            old(self).wf(),
        ensures
            final(self).wf(),
            final(self)@ == old(self)@.insert(key@, None),
    {
        self.entries.put(key, None);
    }

    /// `None`: this table says nothing of `key`. `Some(None)`: it is deleted.
    /// `Some(Some(v))`: its value is `v`.
    pub fn get(&self, key: &Key) -> (r: Option<Option<&Value>>)
        requires
            self.wf(),
        ensures
            match r {
                None => !self@.contains_key(key@),
                Some(None) => self@.contains_key(key@) && self@[key@] == None::<Seq<u8>>,
                Some(Some(v)) => self@.contains_key(key@) && self@[key@] == Some(v@),
            },
    {
        match self.entries.get(key.as_bytes()) {
            None => None,
            Some(None) => Some(None),
            Some(Some(v)) => Some(Some(v)),
        }
    }

    /// Number of keys the table says something of.
    pub fn len(&self) -> (n: usize)
        ensures
            n == self.spec_rows().len(),
    {
        self.entries.len()
    }

    /// Whether the table says nothing.
    pub fn is_empty(&self) -> (r: bool)
        requires
            self.wf(),
        ensures
            r == (self.spec_rows().len() == 0),
            r == (self@ == Map::<Seq<u8>, Slot>::empty()),
    {
        let r = self.entries.len() == 0;
        proof {
            self.entries.lemma_rows();
            if self.spec_rows().len() > 0 {
                rows::lemma_sorted_slot(self.spec_rows(), 0);
            } else {
                assert(self.spec_rows() =~= Seq::<Row>::empty());
            }
        }
        r
    }

    /// Forgets everything.
    pub fn clear(&mut self)
        ensures
            final(self).wf(),
            final(self)@ == Map::<Seq<u8>, Slot>::empty(),
    {
        self.entries.clear();
    }

    /// The rows, in ascending key order.
    pub fn iter(&self) -> (rows: &Vec<(Key, Option<Value>)>)
        ensures
            rows::rows_view(rows@) == self.spec_rows(),
    {
        self.entries.rows()
    }
}

} // verus!
