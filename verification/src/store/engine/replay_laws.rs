//! What the log gives back: every key and every value, whole.
use super::answer_laws::is_true;
use super::call_laws::{a_batch_answers, a_delete_answers, a_put_answers, tables_read_back};
use super::durable::{
    any_calls_keep_the_store_durable, does, durable, lemma_one_op, log_after, manifest_after, runs, Call, Origin,
};
use super::laws::{contents, holds_tables, value_of};
use super::read::gets;
use super::read_back::{cached_below, lemma_live_answers};
use super::recover::{opens, opens_log, Recovered};
use super::recovery_laws::{
    lemma_opened, lemma_opened_dir, lemma_replayed, lists_once, log_replays, manifest_lists,
    reopening_serves_the_same_after_any_calls, tables_load,
};
use super::write::{applies, deletes, puts, record_rows, replay, WalOp, WalRecord};
use super::{Engine, StoreFiles};
use crate::error::EngineError;
use crate::store::files::{StoreRoot, UserKey};
use crate::store::memtable::Memtable;
use crate::store::options::EngineOptions;
use crate::store::rows;
use crate::store::rows::{put_rows, slot_view, Row, Slot};
use crate::store::trace::Step;
use crate::store::Value;
use vstd::prelude::*;

verus! {

/// A log record says `slot` of `key`: a put of that value, all of it, or a
/// delete. A put that carries no value says an empty one.
pub open spec fn says_of(record: WalRecord, key: Seq<u8>, slot: Slot) -> bool {
    &&& record.key@ == key
    &&& match slot {
        Some(value) => record.op is Put && match record.value {
            Some(v) => v@ == value,
            None => value.len() == 0,
        },
        None => record.op is Delete,
    }
}

/// Log records say `ops`, one for one.
pub open spec fn gives_back_ops(records: Seq<WalRecord>, ops: Seq<Row>) -> bool {
    &&& records.len() == ops.len()
    &&& forall|i: int| 0 <= i < ops.len() ==> says_of(records[i], (#[trigger] ops[i]).0, ops[i].1)
}

/// Records say `ops` exactly if these are the rows that a replay makes of them.
pub proof fn lemma_gives_back_ops(records: Seq<WalRecord>, ops: Seq<Row>)
    ensures
        gives_back_ops(records, ops) <==> record_rows(records) == ops,
{
    let made = record_rows(records);
    if gives_back_ops(records, ops) {
        assert forall|i: int| 0 <= i < ops.len() implies made[i] == ops[i] by {
            assert(says_of(records[i], ops[i].0, ops[i].1));
            if let Some(value) = ops[i].1 {
                assert(value.len() == 0 ==> value =~= Seq::<u8>::empty());
            }
        }
        assert(made =~= ops);
    }
    if made == ops {
        assert forall|i: int| 0 <= i < ops.len() implies says_of(records[i], (#[trigger] ops[i]).0, ops[i].1) by {
            assert(made[i] == ops[i]);
        }
    }
}

/// No record behind the `i`th is of its key.
pub open spec fn is_last_of_its_key(records: Seq<WalRecord>, i: int) -> bool {
    forall|j: int| i < j < records.len() ==> (#[trigger] records[j]).key@ != records[i].key@
}

/// Some record is of `key`.
pub open spec fn is_logged(records: Seq<WalRecord>, key: Seq<u8>) -> bool {
    exists|i: int| 0 <= i < records.len() && (#[trigger] records[i]).key@ == key
}

/// A map holds what records say, over `base`: of each key what its last record
/// says, and of a key without a record what `base` says.
pub open spec fn overlays(map: Map<Seq<u8>, Slot>, base: Map<Seq<u8>, Slot>, records: Seq<WalRecord>) -> bool {
    &&& forall|i: int|
        0 <= i < records.len() && #[trigger] is_last_of_its_key(records, i) ==> map.contains_key(records[i].key@)
            && says_of(records[i], records[i].key@, map[records[i].key@])
    &&& forall|key: Seq<u8>|
        !is_logged(records, key) ==> (#[trigger] map.contains_key(key) <==> base.contains_key(key)) && (
        base.contains_key(key) ==> map[key] == base[key])
}

/// What records put over a map leaves of each key what its last record says.
pub proof fn lemma_overlays(base: Map<Seq<u8>, Slot>, records: Seq<WalRecord>)
    ensures
        overlays(put_rows(base, record_rows(records)), base, records),
    decreases records.len(),
{
    let made = record_rows(records);
    let map = put_rows(base, made);
    lemma_gives_back_ops(records, made);
    if records.len() > 0 {
        let head = records.drop_last();
        lemma_overlays(base, head);
        assert(made.drop_last() =~= record_rows(head));
        let last = records.len() - 1;
        assert(says_of(records[last], made[last].0, made[last].1));
        assert forall|i: int| 0 <= i < records.len() && #[trigger] is_last_of_its_key(
            records,
            i,
        ) implies map.contains_key(records[i].key@) && says_of(records[i], records[i].key@, map[records[i].key@]) by {
            if i < last {
                assert(records[last].key@ != records[i].key@);
                assert forall|j: int| i < j < head.len() implies (#[trigger] head[j]).key@ != head[i].key@ by {
                    assert(records[j].key@ != records[i].key@);
                }
                assert(is_last_of_its_key(head, i));
            }
        }
        assert forall|key: Seq<u8>| !is_logged(records, key) implies (#[trigger] map.contains_key(key)
            <==> base.contains_key(key)) && (base.contains_key(key) ==> map[key] == base[key]) by {
            assert(records[last].key@ != key);
            if is_logged(head, key) {
                let i = choose|i: int| 0 <= i < head.len() && (#[trigger] head[i]).key@ == key;
                assert(records[i].key@ == key);
            }
            assert(put_rows(base, record_rows(head)).contains_key(key) <==> base.contains_key(key));
        }
    }
}

/// Replaying the log gives, for every key, what its last record says: the whole
/// value of a put, a tombstone for a delete; and nothing of any other key.
pub proof fn a_replay_gives_the_last_record_of_each_key(records: &Vec<WalRecord>, memtable: Memtable)
    requires
        call_ensures(replay, (records,), memtable),
    ensures
        forall|i: int|
            0 <= i < records@.len() && #[trigger] is_last_of_its_key(records@, i) ==> memtable@.contains_key(
                records@[i].key@,
            ) && match records@[i].op {
                WalOp::Put => memtable@[records@[i].key@] == Some(
                    match records@[i].value {
                        Some(v) => v@,
                        None => Seq::<u8>::empty(),
                    },
                ),
                WalOp::Delete => memtable@[records@[i].key@] == None::<Seq<u8>>,
            },
        forall|key: Seq<u8>| !is_logged(records@, key) ==> !#[trigger] memtable@.contains_key(key),
{
    lemma_overlays(Map::empty(), records@);
    assert forall|i: int| 0 <= i < records@.len() && #[trigger] is_last_of_its_key(
        records@,
        i,
    ) implies memtable@.contains_key(records@[i].key@) && match records@[i].op {
        WalOp::Put => memtable@[records@[i].key@] == Some(
            match records@[i].value {
                Some(v) => v@,
                None => Seq::<u8>::empty(),
            },
        ),
        WalOp::Delete => memtable@[records@[i].key@] == None::<Seq<u8>>,
    } by {
        let slot = memtable@[records@[i].key@];
        assert(says_of(records@[i], records@[i].key@, slot));
        if let Some(value) = slot {
            assert(value.len() == 0 ==> value =~= Seq::<u8>::empty());
        }
    }
}

/// The log of `dir` was replayed as `log`, among the steps `t`.
pub open spec fn was_replayed(t: Seq<Step>, dir: Seq<char>, log: Vec<WalRecord>) -> bool {
    exists|i: int| 0 <= i < t.len() && #[trigger] t[i] == (Step::ReplayLog { dir, r: Ok(log) })
}

/// An opened store has in memory what its log replayed: of each key what its
/// last record says, and of no other key anything.
pub proof fn an_opened_store_holds_its_log<F: StoreRoot>(
    files: &F,
    t0: Seq<Step>,
    t1: Seq<Step>,
    options: EngineOptions,
    key: Option<&UserKey>,
    engine: Engine,
) -> (log: Vec<WalRecord>)
    requires
        opens(files, t0, t1, options, key, Ok(engine)),
    ensures
        was_replayed(t1, engine.dir@, log),
        overlays(engine.memtable@, Map::empty(), log@),
{
    let (store_id, active, encrypted, m) = lemma_opened(files, t0, t1, options, key, engine);
    lemma_opened_dir(files, m, t1, options, store_id, active, encrypted, engine);
    let (n, k) = choose|n: Seq<Step>, k: Recovered|
        k.active == active && #[trigger] opens_log(files, n, t1, options, k, Ok(engine));
    let log = lemma_replayed(files, n, t1, options, k, engine);
    lemma_overlays(Map::empty(), log@);
    log
}

/// What the disk must be for a store to be opened on what the steps `t` left
/// in `dir`: its log gives back what was appended, field by field, its manifest
/// lists what was published, and its tables load as what they hold.
pub open spec fn opens_on<F: StoreFiles, D: StoreRoot>(
    files: &F,
    disk: &D,
    s1: Seq<Step>,
    origin: Origin,
    t: Seq<Step>,
    left: Engine,
) -> bool {
    let dir = left.dir@;
    &&& log_replays(s1, dir, log_after(origin.log, t, origin.from, dir))
    &&& lists_once(disk, dir)
    &&& manifest_lists(disk, dir, manifest_after(origin.ids, t, origin.from, dir))
    &&& forall|tables: Seq<Seq<Seq<Row>>>| #[trigger]
        holds_tables(files, left.current.ssts@, tables) ==> tables_load(disk, dir, left.current.ssts@, tables)
}

/// A lookup in a store opened after a call answers from what the call left.
proof fn lemma_reopened<F: StoreFiles, D: StoreRoot>(
    files: &F,
    origin: Origin,
    t0: Seq<Step>,
    t1: Seq<Step>,
    before: Engine,
    left: Engine,
    call: Call,
    r: Result<(), EngineError>,
    disk: &D,
    s0: Seq<Step>,
    s1: Seq<Step>,
    options: EngineOptions,
    user: Option<&UserKey>,
    opened: Engine,
    key: Seq<u8>,
    later: Engine,
    v: Option<Value>,
    tables: Seq<Seq<Seq<Row>>>,
)
    requires
        durable(before, origin, t0),
        does(files, t0, t1, before, left, call, r),
        is_true(files, left, tables),
        opens(disk, s0, s1, options, user, Ok(opened)),
        opened.dir@ == left.dir@,
        opens_on(files, disk, s1, origin, t1, left),
        gets(disk, opened, later, key, Ok(v)),
    ensures
        slot_view(v) == value_of(contents(tables, left.memtable.spec_rows()), key),
{
    let calls = seq![call];
    assert(calls.drop_last() =~= Seq::<Call>::empty());
    assert(calls.last() == call);
    assert(runs(files, t0, t0, before, before, calls.drop_last()));
    assert(does(files, t0, t1, before, left, calls.last(), r));
    assert(runs(files, t0, t1, before, left, calls));
    any_calls_keep_the_store_durable(files, origin, t0, t1, before, left, calls);
    reopening_serves_the_same_after_any_calls(
        files,
        origin,
        t0,
        t1,
        before,
        left,
        calls,
        disk,
        s0,
        s1,
        options,
        user,
        opened,
        tables,
    );
}

/// What was put is read back whole after a crash: the store that is opened on
/// what a put left gives, for its key, every byte of the value that was put.
pub proof fn a_put_survives_a_crash_whole<F: StoreFiles, D: StoreRoot>(
    files: &F,
    origin: Origin,
    t0: Seq<Step>,
    t1: Seq<Step>,
    before: Engine,
    left: Engine,
    key: Seq<u8>,
    value: Seq<u8>,
    r: Result<(), EngineError>,
    tables: Seq<Seq<Seq<Row>>>,
    disk: &D,
    s0: Seq<Step>,
    s1: Seq<Step>,
    options: EngineOptions,
    user: Option<&UserKey>,
    opened: Engine,
    later: Engine,
    v: Option<Value>,
)
    requires
        durable(before, origin, t0),
        is_true(files, before, tables),
        cached_below(before.block_cache@, before.next_sst_id),
        before.next_sst_id < u64::MAX - 2,
        left.wf(),
        tables_read_back(files, before, before.memtable@.insert(key, Some(value)), tables),
        puts(files, t0, t1, before, left, key, value, r),
        r is Ok,
        opens(disk, s0, s1, options, user, Ok(opened)),
        opened.dir@ == left.dir@,
        opens_on(files, disk, s1, origin, t1, left),
        gets(disk, opened, later, key, Ok(v)),
    ensures
        v matches Some(bytes) && bytes@ == value,
{
    let next = a_put_answers(files, t0, t1, before, left, key, value, r, tables);
    let call = Call::Put { key, value };
    lemma_reopened(files, origin, t0, t1, before, left, call, r, disk, s0, s1, options, user, opened, key, later, v, next);
    let map = contents(tables, before.memtable.spec_rows());
    lemma_one_op(map, key, Some(value));
    lemma_live_answers(contents(next, left.memtable.spec_rows()), map.insert(key, Some(value)), key);
}

/// What was deleted stays deleted after a crash.
pub proof fn a_delete_survives_a_crash<F: StoreFiles, D: StoreRoot>(
    files: &F,
    origin: Origin,
    t0: Seq<Step>,
    t1: Seq<Step>,
    before: Engine,
    left: Engine,
    key: Seq<u8>,
    r: Result<(), EngineError>,
    tables: Seq<Seq<Seq<Row>>>,
    disk: &D,
    s0: Seq<Step>,
    s1: Seq<Step>,
    options: EngineOptions,
    user: Option<&UserKey>,
    opened: Engine,
    later: Engine,
    v: Option<Value>,
)
    requires
        durable(before, origin, t0),
        is_true(files, before, tables),
        cached_below(before.block_cache@, before.next_sst_id),
        before.next_sst_id < u64::MAX - 2,
        left.wf(),
        tables_read_back(files, before, before.memtable@.insert(key, None), tables),
        deletes(files, t0, t1, before, left, key, r),
        r is Ok,
        opens(disk, s0, s1, options, user, Ok(opened)),
        opened.dir@ == left.dir@,
        opens_on(files, disk, s1, origin, t1, left),
        gets(disk, opened, later, key, Ok(v)),
    ensures
        v is None,
{
    let next = a_delete_answers(files, t0, t1, before, left, key, r, tables);
    let call = Call::Delete { key };
    lemma_reopened(files, origin, t0, t1, before, left, call, r, disk, s0, s1, options, user, opened, key, later, v, next);
    let map = contents(tables, before.memtable.spec_rows());
    lemma_one_op(map, key, None);
    lemma_live_answers(contents(next, left.memtable.spec_rows()), map.insert(key, None), key);
}

proof fn lemma_last_row(map: Map<Seq<u8>, Slot>, ops: Seq<Row>, i: int)
    requires
        0 <= i < ops.len(),
        forall|j: int| i < j < ops.len() ==> (#[trigger] ops[j]).0 != ops[i].0,
    ensures
        put_rows(map, ops).contains_key(ops[i].0),
        put_rows(map, ops)[ops[i].0] == ops[i].1,
    decreases ops.len(),
{
    let head = ops.drop_last();
    if i < head.len() {
        assert(ops[head.len() as int].0 != ops[i].0);
        assert forall|j: int| i < j < head.len() implies (#[trigger] head[j]).0 != head[i].0 by {
            assert(ops[j].0 != ops[i].0);
        }
        lemma_last_row(map, head, i);
    }
}

/// A batch is read back whole after a crash: each key gives what the last
/// operation of the batch on it says, every byte of it.
pub proof fn a_batch_survives_a_crash_whole<F: StoreFiles, D: StoreRoot>(
    files: &F,
    origin: Origin,
    t0: Seq<Step>,
    t1: Seq<Step>,
    before: Engine,
    left: Engine,
    ops: Seq<Row>,
    i: int,
    r: Result<(), EngineError>,
    tables: Seq<Seq<Seq<Row>>>,
    disk: &D,
    s0: Seq<Step>,
    s1: Seq<Step>,
    options: EngineOptions,
    user: Option<&UserKey>,
    opened: Engine,
    later: Engine,
    v: Option<Value>,
)
    requires
        durable(before, origin, t0),
        is_true(files, before, tables),
        cached_below(before.block_cache@, before.next_sst_id),
        before.next_sst_id < u64::MAX - 2,
        left.wf(),
        tables_read_back(files, before, put_rows(before.memtable@, ops), tables),
        applies(files, t0, t1, before, left, ops, r),
        r is Ok,
        0 <= i < ops.len(),
        forall|j: int| i < j < ops.len() ==> (#[trigger] ops[j]).0 != ops[i].0,
        opens(disk, s0, s1, options, user, Ok(opened)),
        opened.dir@ == left.dir@,
        opens_on(files, disk, s1, origin, t1, left),
        gets(disk, opened, later, ops[i].0, Ok(v)),
    ensures
        match ops[i].1 {
            Some(value) => v matches Some(bytes) && bytes@ == value,
            None => v is None,
        },
{
    let next = a_batch_answers(files, t0, t1, before, left, ops, r, tables);
    let call = Call::Apply { rows: ops };
    let key = ops[i].0;
    lemma_reopened(files, origin, t0, t1, before, left, call, r, disk, s0, s1, options, user, opened, key, later, v, next);
    let map = contents(tables, before.memtable.spec_rows());
    lemma_last_row(map, ops, i);
    lemma_live_answers(contents(next, left.memtable.spec_rows()), put_rows(map, ops), key);
}

} // verus!
