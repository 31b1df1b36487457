//! Writes: the log first, then the memtable, then a flush where it is due.
use super::compact::flushes;
use super::{Engine, StoreFiles};
use crate::bytes;
use crate::error::EngineError;
use crate::key::Key;
use crate::store::batch::Batch;
use crate::store::memtable::Memtable;
use crate::store::rows::{put_rows, rows_view, Row, RowMap, Slot};
use crate::store::trace::{appended_batch, appended_delete, appended_put, Step, Traced};
use crate::store::{rows, Value};
use vstd::prelude::*;

verus! {

/// What a flush does that is only due at the threshold.
pub open spec fn maybe_flushes<F: StoreFiles>(
    files: &F,
    t0: Seq<Step>,
    t1: Seq<Step>,
    before: Engine,
    after: Engine,
    r: Result<(), EngineError>,
) -> bool {
    if before.memtable.spec_rows().len() >= before.options.memtable_flush_threshold {
        flushes(files, t0, t1, before, after, r)
    } else {
        r is Ok && after == before && t1 == t0
    }
}

/// What a write does whose log record is answered with `w` and whose effect on
/// the memtable is `map`: a log that refuses changes nothing; else the record
/// is counted, the memtable takes the write, and a flush follows where due.
pub open spec fn writes<F: StoreFiles>(
    files: &F,
    t0: Seq<Step>,
    t1: Seq<Step>,
    before: Engine,
    after: Engine,
    w: Result<u64, EngineError>,
    map: Map<Seq<u8>, Slot>,
    r: Result<(), EngineError>,
) -> bool {
    match w {
        Err(e) => r == Err::<(), EngineError>(e) && after == before && t1 == t0,
        Ok(n) => exists|mid: Engine|
            {
                &&& mid == (Engine {
                    memtable: mid.memtable,
                    counters: before.counters.with_log_record(n),
                    ..before
                })
                &&& mid.memtable.wf()
                &&& mid.memtable@ == map
                &&& #[trigger] maybe_flushes(files, t0, t1, mid, after, r)
            },
    }
}

/// What applying operations as one batch does: none of them do nothing, and do
/// not touch the log.
pub open spec fn applies<F: StoreFiles>(
    files: &F,
    t0: Seq<Step>,
    t1: Seq<Step>,
    before: Engine,
    after: Engine,
    rows: Seq<Row>,
    r: Result<(), EngineError>,
) -> bool {
    if rows.len() == 0 {
        r is Ok && after == before && t1 == t0
    } else {
        exists|m: Seq<Step>, w: Result<u64, EngineError>|
            #[trigger] appended_batch(t0, m, before.dir@, rows, w) && writes(
                files,
                m,
                t1,
                before,
                after,
                w,
                put_rows(before.memtable@, rows),
                r,
            )
    }
}

/// What a put does: the log first.
pub open spec fn puts<F: StoreFiles>(
    files: &F,
    t0: Seq<Step>,
    t1: Seq<Step>,
    before: Engine,
    after: Engine,
    key: Seq<u8>,
    value: Seq<u8>,
    r: Result<(), EngineError>,
) -> bool {
    exists|m: Seq<Step>, w: Result<u64, EngineError>|
        #[trigger] appended_put(t0, m, before.dir@, key, value, w) && writes(
            files,
            m,
            t1,
            before,
            after,
            w,
            before.memtable@.insert(key, Some(value)),
            r,
        )
}

/// What a delete does: the log first.
pub open spec fn deletes<F: StoreFiles>(
    files: &F,
    t0: Seq<Step>,
    t1: Seq<Step>,
    before: Engine,
    after: Engine,
    key: Seq<u8>,
    r: Result<(), EngineError>,
) -> bool {
    exists|m: Seq<Step>, w: Result<u64, EngineError>|
        #[trigger] appended_delete(t0, m, before.dir@, key, w) && writes(
            files,
            m,
            t1,
            before,
            after,
            w,
            before.memtable@.insert(key, None),
            r,
        )
}

impl Engine {
    /// Inserts or overwrites `key`: durable once this succeeds.
    pub fn put<F: StoreFiles>(
        &mut self,
        files: &mut Traced<F>,
        key: &[u8],
        value: &[u8],
    ) -> (r: Result<(), EngineError>)
        requires
            old(self).wf(),
            old(self).next_sst_id < u64::MAX - 1,
        ensures
            final(self).wf(),
            final(self).next_sst_id <= old(self).next_sst_id + 2,
            final(files).spec_files() == old(files).spec_files(),
            puts(
                &old(files).spec_files(),
                old(files).steps(),
                final(files).steps(),
                *old(self),
                *final(self),
                key@, value@,
                r,
            ),
    {
        let d: &str = self.dir.as_str();
        let w = files.append_put(d, key, value);
        let ghost m = files.steps();
        assert(appended_put(old(files).steps(), m, old(self).dir@, key@, value@, w));
        match w {
            Err(e) => Err(e),
            Ok(n) => {
                self.note_wal_record(n);
                self.memtable.put(Key::from(key), bytes::copy(value));
                let ghost mid = *self;
                let r = self.maybe_flush(files);
                assert(maybe_flushes(&old(files).spec_files(), m, files.steps(), mid, *self, r));
                r
            },
        }
    }

    /// Deletes `key`, whether or not it was there: durable once this succeeds.
    pub fn delete<F: StoreFiles>(&mut self, files: &mut Traced<F>, key: &[u8]) -> (r: Result<(), EngineError>)
        requires
            old(self).wf(),
            old(self).next_sst_id < u64::MAX - 1,
        ensures
            final(self).wf(),
            final(self).next_sst_id <= old(self).next_sst_id + 2,
            final(files).spec_files() == old(files).spec_files(),
            deletes(
                &old(files).spec_files(),
                old(files).steps(),
                final(files).steps(),
                *old(self),
                *final(self),
                key@,
                r,
            ),
    {
        let d: &str = self.dir.as_str();
        let w = files.append_delete(d, key);
        let ghost m = files.steps();
        assert(appended_delete(old(files).steps(), m, old(self).dir@, key@, w));
        match w {
            Err(e) => Err(e),
            Ok(n) => {
                self.note_wal_record(n);
                self.memtable.delete(Key::from(key));
                let ghost mid = *self;
                let r = self.maybe_flush(files);
                assert(maybe_flushes(&old(files).spec_files(), m, files.steps(), mid, *self, r));
                r
            },
        }
    }

    /// Applies every operation of `batch`, in order, as one log record: after
    /// a crash all of them are there or none. An empty batch does not touch
    /// the log.
    pub fn apply_batch<F: StoreFiles>(&mut self, files: &mut Traced<F>, batch: &Batch) -> (r: Result<(), EngineError>)
        requires
            old(self).wf(),
            old(self).next_sst_id < u64::MAX - 1,
        ensures
            final(self).wf(),
            final(self).next_sst_id <= old(self).next_sst_id + 2,
            final(files).spec_files() == old(files).spec_files(),
            applies(
                &old(files).spec_files(),
                old(files).steps(),
                final(files).steps(),
                *old(self),
                *final(self),
                batch@,
                r,
            ),
    {
        if batch.is_empty() {
            return Ok(());
        }
        let ops = batch.ops();
        let d: &str = self.dir.as_str();
        let w = files.append_batch(d, ops);
        let ghost m = files.steps();
        assert(appended_batch(old(files).steps(), m, old(self).dir@, batch@, w));
        match w {
            Err(e) => Err(e),
            Ok(n) => {
                self.note_wal_record(n);
                apply_ops(&mut self.memtable, ops);
                let ghost mid = *self;
                let r = self.maybe_flush(files);
                assert(maybe_flushes(&old(files).spec_files(), m, files.steps(), mid, *self, r));
                r
            },
        }
    }

    fn maybe_flush<F: StoreFiles>(&mut self, files: &mut Traced<F>) -> (r: Result<(), EngineError>)
        requires
            old(self).wf(),
            old(self).next_sst_id < u64::MAX - 1,
        ensures
            final(self).wf(),
            final(self).next_sst_id <= old(self).next_sst_id + 2,
            final(files).spec_files() == old(files).spec_files(),
            maybe_flushes(
                &old(files).spec_files(),
                old(files).steps(),
                final(files).steps(),
                *old(self),
                *final(self),
                r,
            ),
    {
        if self.memtable.len() >= self.options.memtable_flush_threshold {
            return self.flush(files);
        }
        Ok(())
    }

    fn note_wal_record(&mut self, bytes_written: u64)
        ensures
            *final(self) == (Engine {
                counters: old(self).counters.with_log_record(bytes_written),
                ..*old(self)
            }),
    {
        self.counters.wal_records = self.counters.wal_records.wrapping_add(1);
        self.counters.bytes_written = self.counters.bytes_written.wrapping_add(bytes_written);
    }
}

/// Puts and deletes in order.
pub fn apply_ops(memtable: &mut Memtable, ops: &Vec<(Key, Option<Value>)>)
    requires
        old(memtable).wf(),
    ensures
        final(memtable).wf(),
        final(memtable)@ == put_rows(old(memtable)@, rows_view(ops@)),
{
    let ghost view = rows_view(ops@);
    let mut i: usize = 0;
    assert(view.subrange(0, 0) =~= Seq::<Row>::empty());
    while i < ops.len()
        invariant
            i <= ops@.len(),
            view == rows_view(ops@),
            memtable.wf(),
            memtable@ == put_rows(old(memtable)@, view.subrange(0, i as int)),
        decreases ops@.len() - i,
    {
        proof {
            let next = view.subrange(0, i + 1);
            assert(next.drop_last() =~= view.subrange(0, i as int));
            assert(next.last() == rows::row_view(ops@[i as int]));
        }
        let key = ops[i].0.clone();
        match &ops[i].1 {
            Some(value) => {
                memtable.put(key, bytes::copy(value.as_slice()));
            },
            None => {
                memtable.delete(key);
            },
        }
        i = i + 1;
    }
    assert(view.subrange(0, i as int) =~= view);
}

/// One operation of a log record: a put, or a delete.
#[derive(Debug, Clone, Copy, PartialEq, Eq, Structural)]
pub enum WalOp {
    Put,
    Delete,
}

/// One operation read back from the log; batches are already taken apart.
#[derive(Debug)]
pub struct WalRecord {
    pub op: WalOp,
    pub key: Vec<u8>,
    pub value: Option<Vec<u8>>,
}

/// What a log operation says of its key: a put without a value puts an empty
/// one.
pub open spec fn record_row(record: WalRecord) -> Row {
    match record.op {
        WalOp::Put => (
            record.key@,
            Some(
                match record.value {
                    Some(v) => v@,
                    None => Seq::empty(),
                },
            ),
        ),
        WalOp::Delete => (record.key@, None),
    }
}

/// What log operations say, in order.
pub open spec fn record_rows(records: Seq<WalRecord>) -> Seq<Row> {
    Seq::new(records.len(), |i: int| record_row(records[i]))
}

/// Rebuilds the memtable from the log.
pub fn replay(records: &Vec<WalRecord>) -> (memtable: Memtable)
    ensures
        memtable.wf(),
        memtable@ == rows::rows_map(record_rows(records@)),
{
    let mut map = RowMap::new();
    apply_records(&mut map, records);
    Memtable::from_rows(map)
}

/// Puts what log operations say over `map`, in order.
pub fn apply_records(map: &mut RowMap, records: &Vec<WalRecord>)
    requires
        old(map).wf(),
    ensures
        final(map).wf(),
        final(map)@ == put_rows(old(map)@, record_rows(records@)),
{
    let ghost base = map@;
    let ghost view = record_rows(records@);
    let mut i: usize = 0;
    assert(view.subrange(0, 0) =~= Seq::<Row>::empty());
    while i < records.len()
        invariant
            i <= records@.len(),
            view == record_rows(records@),
            map.wf(),
            map@ == put_rows(base, view.subrange(0, i as int)),
        decreases records@.len() - i,
    {
        proof {
            let next = view.subrange(0, i + 1);
            assert(next.drop_last() =~= view.subrange(0, i as int));
            assert(next.last() == record_row(records@[i as int]));
        }
        let key = Key::new(bytes::copy(records[i].key.as_slice()));
        match records[i].op {
            WalOp::Put => {
                let value: Vec<u8> = match &records[i].value {
                    Some(v) => bytes::copy(v.as_slice()),
                    None => {
                        let none: Vec<u8> = Vec::new();
                        assert(none@ =~= Seq::<u8>::empty());
                        none
                    },
                };
                map.put(key, Some(value));
            },
            WalOp::Delete => {
                map.put(key, None);
            },
        }
        i = i + 1;
    }
    assert(view.subrange(0, i as int) =~= view);
}

} // verus!
