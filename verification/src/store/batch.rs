//! Batches: groups of writes that are applied together.
use crate::bytes;
use crate::key::Key;
use crate::store::rows::Row;
use crate::store::{rows, Value};
use vstd::prelude::*;

verus! {

/// What the log spends on each operation besides its key and value.
pub const OP_FRAMING_BYTES: usize = 16;

/// A group of puts and deletes that is applied as a whole, in order. An empty
/// batch is valid and does nothing.
#[derive(Debug)]
pub struct Batch {
    ops: Vec<(Key, Option<Value>)>,
}

/// The payload bytes of a row.
pub open spec fn row_bytes(row: Row) -> nat {
    row.0.len() + match row.1 {
        Some(v) => v.len(),
        None => 0,
    }
}

/// The payload and framing bytes of a run of operations.
pub open spec fn wire_bytes(ops: Seq<Row>) -> nat
    decreases ops.len(),
{
    if ops.len() == 0 {
        0
    } else {
        wire_bytes(ops.drop_last()) + row_bytes(ops.last()) + OP_FRAMING_BYTES as nat
    }
}

proof fn lemma_wire_bytes_grows(ops: Seq<Row>, i: int)
    requires
        0 <= i <= ops.len(),
    ensures
        wire_bytes(ops.subrange(0, i)) <= wire_bytes(ops),
    decreases ops.len() - i,
{
    if i == ops.len() {
        assert(ops.subrange(0, i) =~= ops);
    } else {
        lemma_wire_bytes_grows(ops, i + 1);
        assert(ops.subrange(0, i + 1).drop_last() =~= ops.subrange(0, i));
    }
}

impl View for Batch {
    type V = Seq<Row>;

    closed spec fn view(&self) -> Seq<Row> {
        rows::rows_view(self.ops@)
    }
}

impl Default for Batch {
    fn default() -> (batch: Batch)
        ensures
            batch@ == Seq::<Row>::empty(),
    {
        Batch::new()
    }
}

impl Clone for Batch {
    fn clone(&self) -> (batch: Batch)
        ensures
            batch@ == self@,
    {
        Batch { ops: rows::copy_rows(&self.ops) }
    }
}

impl Batch {
    /// An empty batch.
    #[must_use]
    pub fn new() -> (batch: Batch)
        ensures
            batch@ == Seq::<Row>::empty(),
    {
        let batch = Batch { ops: Vec::new() };
        assert(batch@ =~= Seq::<Row>::empty());
        batch
    }

    /// Stages an insert-or-overwrite of `key`; a later operation for the same
    /// key wins over it.
    pub fn put(&mut self, key: &[u8], value: &[u8])
        ensures
            final(self)@ == old(self)@.push((key@, Some(value@))),
    {
        let row: (Key, Option<Value>) = (Key::from(key), Some(bytes::copy(value)));
        let ghost staged = rows::row_view(row);
        self.ops.push(row);
        assert(staged == (key@, Some(value@)));
        assert(self@ =~= old(self)@.push(staged));
    }

    /// Stages a delete of `key`.
    pub fn delete(&mut self, key: &[u8])
        ensures
            final(self)@ == old(self)@.push((key@, None)),
    {
        let row: (Key, Option<Value>) = (Key::from(key), None);
        let ghost staged = rows::row_view(row);
        self.ops.push(row);
        assert(staged == (key@, None::<Seq<u8>>));
        assert(self@ =~= old(self)@.push(staged));
    }

    /// Number of staged operations.
    #[must_use]
    pub fn len(&self) -> (n: usize)
        ensures
            n == self@.len(),
    {
        self.ops.len()
    }

    /// Whether nothing is staged.
    #[must_use]
    pub fn is_empty(&self) -> (r: bool)
        ensures
            r == (self@.len() == 0),
    {
        self.ops.len() == 0
    }

    /// Appends every operation of `other`, in order, after the ones staged
    /// here: merged batches are applied together or not at all.
    pub fn extend_from(&mut self, other: &Batch)
        ensures
            final(self)@ == old(self)@ + other@,
    {
        let mut more = rows::copy_rows(&other.ops);
        self.ops.append(&mut more);
        assert(self@ =~= old(self)@ + other@);
    }

    /// Approximate size of the log record this batch would produce: keys,
    /// values and a constant per operation. A sizing target, not the encoded
    /// length.
    #[must_use]
    pub fn approx_wire_bytes(&self) -> (n: usize)
        requires
            wire_bytes(self@) <= usize::MAX,
        ensures
            n == wire_bytes(self@),
    {
        let ghost ops = self@;
        let mut total: usize = 0;
        let mut i: usize = 0;
        while i < self.ops.len()
            invariant
                i <= self.ops@.len(),
                ops == rows::rows_view(self.ops@),
                wire_bytes(ops) <= usize::MAX,
                total == wire_bytes(ops.subrange(0, i as int)),
            decreases self.ops@.len() - i,
        {
            proof {
                lemma_wire_bytes_grows(ops, i + 1);
                assert(ops.subrange(0, i + 1).drop_last() =~= ops.subrange(0, i as int));
                assert(ops.subrange(0, i + 1).last() == rows::row_view(self.ops@[i as int]));
            }
            let row = &self.ops[i];
            let value_len: usize = match &row.1 {
                Some(v) => v.len(),
                None => 0,
            };
            total = total + (row.0.as_bytes().len() + value_len + OP_FRAMING_BYTES);
            i = i + 1;
        }
        assert(ops.subrange(0, i as int) =~= ops);
        total
    }

    /// The staged operations, in order.
    pub fn ops(&self) -> (ops: &Vec<(Key, Option<Value>)>)
        ensures
            rows::rows_view(ops@) == self@,
    {
        &self.ops
    }
}

/// Of the operations a batch holds for one key, the last one decides: staging
/// one more operation and then applying the batch leaves that operation's
/// slot, and every other key as the batch without it would.
pub proof fn later_operations_win(map: Map<Seq<u8>, rows::Slot>, ops: Seq<Row>, last: Row)
    ensures
        rows::put_rows(map, ops.push(last)) == rows::put_rows(map, ops).insert(last.0, last.1),
{
    assert(ops.push(last).drop_last() =~= ops);
}

/// Merging two batches and applying the result is applying one after the
/// other.
pub proof fn merged_batches_apply_in_order(map: Map<Seq<u8>, rows::Slot>, a: Seq<Row>, b: Seq<Row>)
    ensures
        rows::put_rows(map, a + b) == rows::put_rows(rows::put_rows(map, a), b),
{
    rows::lemma_put_rows_concat(map, a, b);
}

} // verus!
