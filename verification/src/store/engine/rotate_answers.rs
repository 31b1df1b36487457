//! What a full rotation leaves to be read, and by whom.
use super::answer_laws::is_true;
use super::cache_laws::cached_tables_alone;
use super::call_laws::{lemma_staged_tombstones, reads_with};
use super::compact::{reads_tables, stages};
use super::durable::{log_after, manifest_after, runs, Call, Origin};
use super::laws::{contents, get_answers_from_the_store, holds_table, holds_tables, table_layers, value_of};
use super::open::{gates, is_active, resolves, settles_key, unlocks, ActiveDir};
use super::open_laws::{a_reopened_store_answers_the_same, all_answered, has_record, is_answered, is_intact};
use super::read::gets;
use super::read_back::lemma_live_answers;
use super::recover::{opens, opens_locked};
use super::recovery_laws::{lists_once, log_replays, manifest_lists, tables_load};
use super::rotate::{
    builds_generation, copies, is_live_run, moves_to, publishes_generation, readies, rotates, tables_of,
};
use super::rotate_laws::a_full_rotation_is_durable;
use super::write_laws::{a_staged_table_holds_its_rows, lemma_whole_table, lemma_without_ssts};
use super::{table_tombstones, Engine};
use crate::error::EngineError;
use crate::store::files::{
    generation_dir_name, gives_crypto, tells_present, Argon2idProfile, KeyMode, KeyV, StoreRoot, UserKey,
};
use crate::store::layers::layered;
use crate::store::options::EngineOptions;
use crate::store::rows;
use crate::store::rows::{live, put_rows, rows_map, slot_view, without_tombstones, Row, Slot};
use crate::store::sst_block::write::split_blocks;
use crate::store::sst_block::{all_rows, joined, BlockSstFile};
use crate::store::trace::{locked, made_key, made_root, published_generation, Step};
use crate::store::version::ids_of;
use crate::store::Value;
use vstd::prelude::*;

verus! {

/// The live entries of a map as rows, in key order.
pub open spec fn live_rows(map: Map<Seq<u8>, Slot>) -> Seq<Row> {
    choose|run: Seq<Row>| #[trigger] is_live_run(run, map)
}

/// The blocks of the table that a full rotation of `engine` writes.
pub open spec fn rotated_blocks(engine: Engine, tables: Seq<Seq<Seq<Row>>>) -> Seq<Seq<Row>> {
    split_blocks(live_rows(contents(tables, engine.memtable.spec_rows())), engine.options.block_size as nat)
}

/// Whatever table a full rotation of `engine` writes gives the live entries
/// when it is read.
pub open spec fn rotation_reads_back<F: StoreRoot>(files: &F, engine: Engine, tables: Seq<Seq<Seq<Row>>>) -> bool {
    forall|t0: Seq<Step>, t1: Seq<Step>, file: BlockSstFile|
        #[trigger] copies(
            files,
            t0,
            t1,
            engine,
            generation_dir_name((engine.generation_id + 1) as u64),
            Ok(Some(file)),
        ) ==> holds_table(files, &file, rotated_blocks(engine, tables))
}

/// What a copy of the live entries writes.
proof fn lemma_copied_live<F: StoreRoot>(
    files: &F,
    t0: Seq<Step>,
    t1: Seq<Step>,
    before: Engine,
    dir: Seq<char>,
    file: Option<BlockSstFile>,
    tables: Seq<Seq<Seq<Row>>>,
)
    requires
        before.wf(),
        holds_tables(files, before.current.ssts@, tables),
        copies(files, t0, t1, before, dir, Ok(file)),
    ensures
        ({
            let map = contents(tables, before.memtable.spec_rows());
            &&& is_live_run(live_rows(map), map)
            &&& file is None <==> live_rows(map).len() == 0
            &&& file matches Some(f) ==> f.tombstones == 0 && all_rows(rotated_blocks(before, tables)) == live_rows(map)
        }),
{
    let ssts = before.current.ssts@;
    let mem = before.memtable.spec_rows();
    let size = before.options.block_size;
    let map = contents(tables, mem);
    let (found, run) = choose|found: Seq<Seq<Row>>, run: Seq<Row>|
        {
            &&& #[trigger] reads_tables(files, ssts, found)
            &&& #[trigger] is_live_run(run, put_rows(layered(found), mem))
            &&& if run.len() == 0 {
                readies(t0, t1, dir, None, Ok(file))
            } else {
                exists|s: Result<BlockSstFile, EngineError>, m: Seq<Step>|
                    #[trigger] stages(files, t0, m, dir, 0, run, size, s) && match s {
                        Err(e) => false,
                        Ok(f) => readies(m, t1, dir, Some(f), Ok(file)),
                    }
            }
        };
    assert(found =~= table_layers(tables, tables.len() as int)) by {
        assert forall|i: int| 0 <= i < found.len() implies found[i] == all_rows(tables[i]) by {
            assert(holds_table(files, &*ssts[i], tables[i]));
            lemma_whole_table(files, &*ssts[i], tables[i], found[i]);
        }
    }
    assert(is_live_run(run, map));
    rows::lemma_sorted_rows_unique(run, live_rows(map));
    if run.len() > 0 {
        let (s, m) = choose|s: Result<BlockSstFile, EngineError>, m: Seq<Step>|
            #[trigger] stages(files, t0, m, dir, 0, run, size, s) && match s {
                Err(e) => false,
                Ok(f) => readies(m, t1, dir, Some(f), Ok(file)),
            };
        a_staged_table_holds_its_rows(files, t0, m, dir, 0, run, size, s->Ok_0);
        lemma_staged_tombstones(files, t0, m, dir, 0, run, map, size, s->Ok_0);
    }
}

/// Where in a successful rotation the live entries are copied, and where the
/// engine moves.
proof fn lemma_rotated<F: StoreRoot>(
    files: &F,
    t0: Seq<Step>,
    t1: Seq<Step>,
    before: Engine,
    after: Engine,
    bytes: Seq<u8>,
    mode: KeyMode,
    profile: Argon2idProfile,
    fsyncs: u64,
    r: Result<(), EngineError>,
) -> (at: (Seq<Step>, Seq<Step>, Seq<Step>, Option<BlockSstFile>))
    requires
        rotates(files, t0, t1, before, after, bytes, mode, profile, fsyncs, r),
        r is Ok,
    ensures
        copies(files, at.0, at.1, before, generation_dir_name((before.generation_id + 1) as u64), Ok(at.3)),
        moves_to(files, at.2, t1, before, after, at.3, fsyncs),
{
    let fresh = (before.generation_id + 1) as u64;
    let dir = generation_dir_name(fresh);
    let (a, u) = choose|a: Seq<Step>, u: UserKey| #[trigger]
        publishes_generation(files, a, t1, before, after, u, fsyncs, r);
    let (b, m) = choose|b: Result<Option<BlockSstFile>, EngineError>, m: Seq<Step>|
        #[trigger] builds_generation(files, a, m, before, dir, fresh, u, b) && b is Ok && exists|
            p: Result<(), EngineError>,
            k: Seq<Step>,
        |
            #[trigger] published_generation(m, k, fresh, p) && p is Ok && moves_to(
                files,
                k,
                t1,
                before,
                after,
                b->Ok_0,
                fsyncs,
            );
    let (p, k) = choose|p: Result<(), EngineError>, k: Seq<Step>|
        #[trigger] published_generation(m, k, fresh, p) && p is Ok && moves_to(
            files,
            k,
            t1,
            before,
            after,
            b->Ok_0,
            fsyncs,
        );
    let (x, q) = choose|x: Result<(), EngineError>, q: Seq<Step>|
        #[trigger] made_key(a, q, dir, u.says(), Some(fresh), x) && x is Ok && copies(files, q, m, before, dir, b);
    (q, m, k, b->Ok_0)
}

/// A full rotation that succeeded leaves every lookup as it was, an empty
/// memtable, no tombstone, and one table, or none where no key has a value.
pub proof fn a_full_rotation_answers<F: StoreRoot>(
    files: &F,
    t0: Seq<Step>,
    t1: Seq<Step>,
    before: Engine,
    after: Engine,
    bytes: Seq<u8>,
    mode: KeyMode,
    profile: Argon2idProfile,
    fsyncs: u64,
    r: Result<(), EngineError>,
    tables: Seq<Seq<Seq<Row>>>,
) -> (next: Seq<Seq<Seq<Row>>>)
    requires
        is_true(files, before, tables),
        after.wf(),
        cached_tables_alone(before),
        rotation_reads_back(files, before, tables),
        rotates(files, t0, t1, before, after, bytes, mode, profile, fsyncs, r),
        r is Ok,
    ensures
        is_true(files, after, next),
        reads_with(files, before, after, Seq::empty()),
        live(contents(next, after.memtable.spec_rows())) == live(contents(tables, before.memtable.spec_rows())),
        after.memtable.spec_rows().len() == 0,
        table_tombstones(after.current.ssts@) == 0,
        after.current.ssts@.len() == (if exists|k: Seq<u8>|
            #[trigger] value_of(contents(tables, before.memtable.spec_rows()), k) is Some {
            1nat
        } else {
            0nat
        }),
{
    let map = contents(tables, before.memtable.spec_rows());
    let run = live_rows(map);
    let (q, m, k, file) = lemma_rotated(files, t0, t1, before, after, bytes, mode, profile, fsyncs, r);
    let dir = generation_dir_name((before.generation_id + 1) as u64);
    lemma_copied_live(files, q, m, before, dir, file, tables);
    let kept = after.current.ssts@;
    let next = match file {
        Some(f) => seq![rotated_blocks(before, tables)],
        None => Seq::empty(),
    };
    assert(kept.len() == next.len());
    if let Some(f) = file {
        assert(copies(files, q, m, before, dir, Ok(Some(f))));
        assert(holds_table(files, &f, rotated_blocks(before, tables)));
        assert(*kept[0] == tables_of(file)[0]);
        assert(kept.drop_last() =~= Seq::empty());
        assert(table_tombstones(kept.drop_last()) == 0);
    }
    assert(holds_tables(files, kept, next));
    lemma_without_ssts(before.block_cache@, ids_of(before.current.ssts@));
    assert(after.block_cache@.len() == 0) by {
        if after.block_cache@.len() > 0 {
            let c = after.block_cache@[0];
            assert(after.block_cache@.contains(c));
            assert(before.block_cache@.contains(c));
            let b = choose|b: int| 0 <= b < before.block_cache@.len() && before.block_cache@[b] == c;
            assert(ids_of(before.current.ssts@).contains(before.block_cache@[b].sst_id));
        }
    }
    after.memtable.iteration_is_sorted();
    assert(after.memtable.spec_rows().len() == 0) by {
        if after.memtable.spec_rows().len() > 0 {
            rows::lemma_sorted_slot(after.memtable.spec_rows(), 0);
        }
    }
    assert(after.memtable.spec_rows() =~= Seq::<Row>::empty());
    lemma_fresh_contents(run, next, map, before, tables, file is Some);
    lemma_some_live(run, map);
    super::call_laws::lemma_reads_with(files, before, after, Seq::empty(), tables, next);
    next
}

proof fn lemma_fresh_contents(
    run: Seq<Row>,
    next: Seq<Seq<Seq<Row>>>,
    map: Map<Seq<u8>, Slot>,
    before: Engine,
    tables: Seq<Seq<Seq<Row>>>,
    some: bool,
)
    requires
        is_live_run(run, map),
        some <==> run.len() > 0,
        some ==> next == seq![rotated_blocks(before, tables)] && all_rows(rotated_blocks(before, tables)) == run,
        !some ==> next.len() == 0,
    ensures
        live(contents(next, Seq::empty())) == live(put_rows(map, Seq::empty())),
{
    let none = Seq::<Row>::empty();
    let n = next.len() as int;
    if some {
        assert(table_layers(next, n) =~= seq![run]);
        assert(seq![run].drop_last() =~= Seq::<Seq<Row>>::empty());
        assert(layered(Seq::<Seq<Row>>::empty()) == Map::<Seq<u8>, Slot>::empty());
        assert(layered(seq![run]) == rows_map(run));
    } else {
        assert(table_layers(next, n) =~= Seq::<Seq<Row>>::empty());
        assert(rows_map(run) =~= Map::<Seq<u8>, Slot>::empty());
    }
    assert(contents(next, none) == rows_map(run));
    assert(live(without_tombstones(map)) =~= live(map));
}

proof fn lemma_some_live(run: Seq<Row>, map: Map<Seq<u8>, Slot>)
    requires
        is_live_run(run, map),
    ensures
        run.len() > 0 <==> exists|k: Seq<u8>| #[trigger] value_of(map, k) is Some,
{
    if run.len() > 0 {
        rows::lemma_sorted_slot(run, 0);
        assert(value_of(map, run[0].0) is Some);
    }
    if exists|k: Seq<u8>| #[trigger] value_of(map, k) is Some {
        let k = choose|k: Seq<u8>| #[trigger] value_of(map, k) is Some;
        assert(without_tombstones(map).contains_key(k));
        let i = rows::lemma_rows_map_index(run, k);
    }
}

/// After a full rotation the store opens under the new key, where nothing of
/// it is missing, and every lookup gives what it gave before the rotation.
pub proof fn a_rotated_store_reopens_under_the_new_key<F: StoreRoot, D: StoreRoot>(
    files: &F,
    t0: Seq<Step>,
    t1: Seq<Step>,
    before: Engine,
    after: Engine,
    bytes: Seq<u8>,
    mode: KeyMode,
    profile: Argon2idProfile,
    fsyncs: u64,
    r: Result<(), EngineError>,
    tables: Seq<Seq<Seq<Row>>>,
    disk: &D,
    s0: Seq<Step>,
    s1: Seq<Step>,
    options: EngineOptions,
    key: &UserKey,
    opened: Result<Engine, EngineError>,
)
    requires
        is_true(files, before, tables),
        after.wf(),
        cached_tables_alone(before),
        rotation_reads_back(files, before, tables),
        rotates(files, t0, t1, before, after, bytes, mode, profile, fsyncs, r),
        r is Ok,
        key.bytes@ == bytes,
        key.mode == mode,
        opens(disk, s0, s1, options, Some(key), opened),
        all_answered(s1),
        is_intact(disk, after.dir@, after.generation_id, Some(key)),
        log_replays(s1, after.dir@, log_after(Seq::empty(), t1, t0.len() as int, after.dir@)),
        lists_once(disk, after.dir@),
        manifest_lists(disk, after.dir@, manifest_after(Seq::empty(), t1, t0.len() as int, after.dir@)),
        forall|next: Seq<Seq<Seq<Row>>>| #[trigger]
            holds_tables(files, after.current.ssts@, next) ==> tables_load(disk, after.dir@, after.current.ssts@, next),
    ensures
        opened matches Ok(engine) && forall|
            k: Seq<u8>,
            earlier: Engine,
            w: Option<Value>,
            later: Engine,
            v: Option<Value>,
        |
            #[trigger] gets(files, before, earlier, k, Ok(w)) && #[trigger] gets(disk, engine, later, k, Ok(v))
                ==> slot_view(v) == slot_view(w),
{
    let next = a_full_rotation_answers(
        files,
        t0,
        t1,
        before,
        after,
        bytes,
        mode,
        profile,
        fsyncs,
        r,
        tables,
    );
    a_full_rotation_is_durable(files, t0, t1, before, after, bytes, mode, profile, fsyncs, r);
    let origin = Origin { log: Seq::empty(), ids: Seq::empty(), from: t0.len() as int };
    let calls = Seq::<Call>::empty();
    assert(runs(files, t1, t1, after, after, calls));
    a_reopened_store_answers_the_same(
        files,
        origin,
        t1,
        t1,
        after,
        after,
        calls,
        disk,
        s0,
        s1,
        options,
        after.generation_id,
        Some(key),
        opened,
        next,
    );
    let engine = opened->Ok_0;
    assert forall|k: Seq<u8>, earlier: Engine, w: Option<Value>, later: Engine, v: Option<Value>|
        #[trigger] gets(files, before, earlier, k, Ok(w)) && #[trigger] gets(
            disk,
            engine,
            later,
            k,
            Ok(v),
        ) implies slot_view(v) == slot_view(w) by {
        get_answers_from_the_store(files, before, earlier, tables, k, w);
        get_answers_from_the_store(disk, engine, later, next, k, v);
        lemma_live_answers(
            contents(next, after.memtable.spec_rows()),
            contents(tables, before.memtable.spec_rows()),
            k,
        );
    }
}

/// The record of a directory refuses every key but `key` as wrong.
pub open spec fn refuses_all_but<F: StoreRoot>(disk: &F, dir: Seq<char>, key: KeyV) -> bool {
    &&& forall|there: bool| #[trigger] tells_present(disk, joined(dir, "crypto.meta"@), there) ==> there
    &&& forall|bytes: Seq<u8>, mode: KeyMode, generation: Option<u64>, l: Result<(), EngineError>|
        #[trigger] gives_crypto(disk, dir, bytes, mode, generation, l) && !(bytes == key.bytes && mode == key.mode)
            ==> (l matches Err(e) && e is WrongEncryptionKey)
}

/// Any key but the one on record is refused as wrong: the one that opened the
/// store before a rotation, and the same bytes in the other mode.
pub proof fn another_key_is_wrong<F: StoreRoot>(
    disk: &F,
    t0: Seq<Step>,
    t1: Seq<Step>,
    options: EngineOptions,
    dir: Seq<char>,
    generation: u64,
    supplied: &UserKey,
    key: KeyV,
    r: Result<Engine, EngineError>,
)
    requires
        has_record(disk),
        forall|a: Result<ActiveDir, EngineError>| #[trigger] resolves(disk, a) ==> is_active(a, dir, generation),
        refuses_all_but(disk, dir, key),
        !(supplied.bytes@ == key.bytes && supplied.mode == key.mode),
        opens(disk, t0, t1, options, Some(supplied), r),
        all_answered(t1),
    ensures
        r matches Err(e) && e is WrongEncryptionKey,
{
    let (c, a) = choose|c: Result<(), EngineError>, a: Seq<Step>|
        #[trigger] made_root(t0, a, c) && match c {
            Err(e) => t1 == a,
            Ok(()) => exists|k: Result<bool, EngineError>, b: Seq<Step>|
                #[trigger] locked(a, b, k) && match k {
                    Err(e) => t1 == b,
                    Ok(false) => t1 == b,
                    Ok(true) => opens_locked(disk, b, t1, options, Some(supplied), r),
                },
        };
    if c is Err {
        assert(t0.push(Step::CreateRoot { r: c })[t0.len() as int] == (Step::CreateRoot { r: c }));
        assert(is_answered(t1[t0.len() as int]));
    } else {
        let (k, b) = choose|k: Result<bool, EngineError>, b: Seq<Step>|
            #[trigger] locked(a, b, k) && match k {
                Err(e) => t1 == b,
                Ok(false) => t1 == b,
                Ok(true) => opens_locked(disk, b, t1, options, Some(supplied), r),
            };
        if !(k matches Ok(free) && free) {
            assert(a.push(Step::Lock { r: k })[a.len() as int] == (Step::Lock { r: k }));
            assert(is_answered(t1[a.len() as int]));
        }
        let (g, m) = choose|g: Result<u128, EngineError>, m: Seq<Step>|
            #[trigger] gates(disk, b, m, g) && match g {
                Err(e) => true,
                Ok(store_id) => exists|x: Result<ActiveDir, EngineError>|
                    #[trigger] resolves(disk, x) && match x {
                        Err(e) => true,
                        Ok(active) => exists|s: Result<bool, EngineError>, n: Seq<Step>|
                            #[trigger] settles_key(disk, m, n, active.dir@, active.generation, Some(supplied), s)
                                && match s {
                                Err(e) => r == Err::<Engine, EngineError>(e),
                                Ok(encrypted) => true,
                            },
                    },
            };
        let x = choose|x: Result<ActiveDir, EngineError>|
            #[trigger] resolves(disk, x) && match x {
                Err(e) => true,
                Ok(active) => exists|s: Result<bool, EngineError>, n: Seq<Step>|
                    #[trigger] settles_key(disk, m, n, active.dir@, active.generation, Some(supplied), s) && match s {
                        Err(e) => r == Err::<Engine, EngineError>(e),
                        Ok(encrypted) => true,
                    },
            };
        let active = x->Ok_0;
        let (s, n) = choose|s: Result<bool, EngineError>, n: Seq<Step>|
            #[trigger] settles_key(disk, m, n, active.dir@, active.generation, Some(supplied), s) && match s {
                Err(e) => r == Err::<Engine, EngineError>(e),
                Ok(encrypted) => true,
            };
        assert(unlocks(disk, dir, generation, Some(supplied), s));
    }
}

} // verus!
