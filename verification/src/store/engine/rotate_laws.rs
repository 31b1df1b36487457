//! In which order a full rotation changes the disk.
use super::compact::stages;
use super::durable::{durable, lemma_one_step, log_after, manifest_after, Origin};
use super::io::{is_removal, only_removed};
use super::rotate::{builds_generation, clears, copies, ids_in, moves_to, publishes_generation, readies, rotates};
use super::Engine;
use crate::error::EngineError;
use crate::store::files::{generation_dir_name, Argon2idProfile, KeyMode, StoreRoot, UserKey};
use crate::store::rows::{rows_map, Row};
use crate::store::sst_block::write::{writes_new, WrittenSst};
use crate::store::sst_block::{joined, sst_name, BlockSstFile};
use crate::store::trace::{
    goes_on, lemma_cut_early, made_dir, made_key, opened_log, published_generation, published_manifest, removed_dir,
    wrote_file, Step,
};
use crate::store::version::ids_of;
use vstd::prelude::*;

verus! {

/// A step that builds generation `dir`, or clears what an earlier attempt left
/// of it, and touches nothing else.
pub open spec fn builds_only(step: Step, dir: Seq<char>) -> bool {
    match step {
        Step::RemoveDir { path, r } => path == dir,
        Step::CreateDir { path, r } => path == dir,
        Step::CreateCrypto { dir: d, key, generation, r } => d == dir,
        Step::WriteFile { path, bytes, r } => path == joined(dir, sst_name(0)),
        Step::PublishManifest { dir: d, generation, live, r } => d == dir,
        Step::OpenLog { dir: d, r } => d == dir,
        _ => false,
    }
}

/// From `t0` to `t1` generation `dir` was built, and nothing else was touched.
pub open spec fn only_built(t0: Seq<Step>, t1: Seq<Step>, dir: Seq<char>) -> bool {
    &&& goes_on(t0, t1)
    &&& forall|i: int| t0.len() <= i < t1.len() ==> builds_only(#[trigger] t1[i], dir)
}

proof fn lemma_nothing_built(t: Seq<Step>, dir: Seq<char>)
    ensures
        only_built(t, t, dir),
{
    assert(t.take(t.len() as int) =~= t);
}

proof fn lemma_built_one(t: Seq<Step>, step: Step, dir: Seq<char>)
    requires
        builds_only(step, dir),
    ensures
        only_built(t, t.push(step), dir),
{
    assert(t.push(step).take(t.len() as int) =~= t);
}

proof fn lemma_built_on(t0: Seq<Step>, m: Seq<Step>, t1: Seq<Step>, dir: Seq<char>)
    requires
        only_built(t0, m, dir),
        only_built(m, t1, dir),
    ensures
        only_built(t0, t1, dir),
{
    lemma_cut_early(t0, m, t1, 0);
    assert forall|i: int| t0.len() <= i < t1.len() implies builds_only(#[trigger] t1[i], dir) by {
        if i < m.len() {
            assert(t1.take(m.len() as int)[i] == t1[i]);
        }
    }
}

proof fn lemma_cleared<F: StoreRoot>(files: &F, t0: Seq<Step>, t1: Seq<Step>, dir: Seq<char>, r: Result<(), EngineError>)
    requires
        clears(files, t0, t1, dir, r),
    ensures
        only_built(t0, t1, dir),
{
    if made_dir(t0, t1, dir, r) {
        lemma_built_one(t0, Step::CreateDir { path: dir, r }, dir);
    } else {
        let (x, m) = choose|x: Result<(), EngineError>, m: Seq<Step>|
            #[trigger] removed_dir(t0, m, dir, x) && (t1 == m || made_dir(m, t1, dir, r));
        lemma_built_one(t0, Step::RemoveDir { path: dir, r: x }, dir);
        if t1 != m {
            lemma_built_one(m, Step::CreateDir { path: dir, r }, dir);
            lemma_built_on(t0, m, t1, dir);
        }
    }
}

proof fn lemma_readied(
    t0: Seq<Step>,
    t1: Seq<Step>,
    dir: Seq<char>,
    file: Option<BlockSstFile>,
    r: Result<Option<BlockSstFile>, EngineError>,
)
    requires
        readies(t0, t1, dir, file, r),
    ensures
        only_built(t0, t1, dir),
{
    let ids = ids_in(file);
    let (p, m) = choose|p: Result<(), EngineError>, m: Seq<Step>|
        #[trigger] published_manifest(t0, m, dir, 0, ids, p) && match p {
            Err(e) => t1 == m,
            Ok(()) => exists|o: Result<u64, EngineError>| #[trigger] opened_log(m, t1, dir, o),
        };
    lemma_built_one(t0, Step::PublishManifest { dir, generation: 0, live: ids, r: p }, dir);
    if p is Ok {
        let o = choose|o: Result<u64, EngineError>| #[trigger] opened_log(m, t1, dir, o);
        lemma_built_one(m, Step::OpenLog { dir, r: o }, dir);
        lemma_built_on(t0, m, t1, dir);
    }
}

proof fn lemma_copied<F: StoreRoot>(
    files: &F,
    t0: Seq<Step>,
    t1: Seq<Step>,
    before: Engine,
    dir: Seq<char>,
    r: Result<Option<BlockSstFile>, EngineError>,
)
    requires
        copies(files, t0, t1, before, dir, r),
    ensures
        only_built(t0, t1, dir),
{
    if t1 == t0 {
        lemma_nothing_built(t0, dir);
    } else if readies(t0, t1, dir, None, r) {
        lemma_readied(t0, t1, dir, None, r);
    } else {
        let size = before.options.block_size;
        let (run, s, m) = choose|run: Seq<Row>, s: Result<BlockSstFile, EngineError>, m: Seq<Step>|
            #[trigger] stages(files, t0, m, dir, 0, run, size, s) && match s {
                Err(e) => t1 == m,
                Ok(file) => readies(m, t1, dir, Some(file), r),
            };
        let w = choose|w: Result<WrittenSst, EngineError>|
            #[trigger] writes_new(files, dir, 0, run, size, w) && match w {
                Err(e) => m == t0,
                Ok(w) => exists|t: Result<(), EngineError>| #[trigger] wrote_file(t0, m, w.file.path@, w.bytes@, t),
            };
        match w {
            Err(e) => {
                lemma_nothing_built(t0, dir);
            },
            Ok(w) => {
                let t = choose|t: Result<(), EngineError>| #[trigger] wrote_file(t0, m, w.file.path@, w.bytes@, t);
                lemma_built_one(t0, Step::WriteFile { path: w.file.path@, bytes: w.bytes@, r: t }, dir);
            },
        }
        if let Ok(file) = s {
            lemma_readied(m, t1, dir, Some(file), r);
            lemma_built_on(t0, m, t1, dir);
        }
    }
}

proof fn lemma_generation_built<F: StoreRoot>(
    files: &F,
    t0: Seq<Step>,
    t1: Seq<Step>,
    before: Engine,
    dir: Seq<char>,
    generation: u64,
    key: UserKey,
    r: Result<Option<BlockSstFile>, EngineError>,
)
    requires
        builds_generation(files, t0, t1, before, dir, generation, key, r),
    ensures
        only_built(t0, t1, dir),
{
    let (c, m) = choose|c: Result<(), EngineError>, m: Seq<Step>|
        #[trigger] made_key(t0, m, dir, key.says(), Some(generation), c) && match c {
            Err(e) => t1 == m,
            Ok(()) => copies(files, m, t1, before, dir, r),
        };
    lemma_built_one(t0, Step::CreateCrypto { dir, key: key.says(), generation: Some(generation), r: c }, dir);
    if c is Ok {
        lemma_copied(files, m, t1, before, dir, r);
        lemma_built_on(t0, m, t1, dir);
    }
}

/// How a full rotation goes, `n` steps having been made when the pointer is
/// moved, or in all: until then it builds the fresh generation and touches
/// nothing else, and only a pointer that was moved makes it succeed.
pub open spec fn moves_pointer_at(
    t0: Seq<Step>,
    t1: Seq<Step>,
    generation: u64,
    r: Result<(), EngineError>,
    n: int,
) -> bool {
    &&& t0.len() <= n <= t1.len()
    &&& only_built(t0, t1.take(n), generation_dir_name(generation))
    &&& n == t1.len() ==> r is Err
    &&& n < t1.len() ==> (t1[n] matches Step::PublishGeneration { generation: g, r: p } && g == generation && (p is Ok
        <==> r is Ok) && (p is Err ==> t1.len() == n + 1))
}

/// Until the pointer to it is moved, a full rotation builds the fresh
/// generation and touches nothing of the old one; where it fails, no later
/// step is made.
pub proof fn a_full_rotation_touches_nothing_old_before_the_pointer_moves<F: StoreRoot>(
    files: &F,
    t0: Seq<Step>,
    t1: Seq<Step>,
    before: Engine,
    after: Engine,
    bytes: Seq<u8>,
    mode: KeyMode,
    profile: Argon2idProfile,
    fsyncs: u64,
    r: Result<(), EngineError>,
) -> (n: int)
    requires
        rotates(files, t0, t1, before, after, bytes, mode, profile, fsyncs, r),
    ensures
        moves_pointer_at(t0, t1, (before.generation_id + 1) as u64, r, n),
        r is Err ==> after == before,
{
    let fresh = (before.generation_id + 1) as u64;
    let dir = generation_dir_name(fresh);
    if !before.encrypted || before.generation_id == u64::MAX {
        lemma_nothing_built(t0, dir);
        assert(t1.take(t1.len() as int) =~= t1);
        t1.len() as int
    } else {
        let (c, a) = choose|c: Result<(), EngineError>, a: Seq<Step>|
            #[trigger] clears(files, t0, a, dir, c) && match c {
                Err(e) => after == before && r == Err::<(), EngineError>(e) && t1 == a,
                Ok(()) => exists|u: UserKey| #[trigger]
                    publishes_generation(files, a, t1, before, after, u, fsyncs, r),
            };
        lemma_cleared(files, t0, a, dir, c);
        if c is Err {
            assert(t1.take(t1.len() as int) =~= t1);
            t1.len() as int
        } else {
            let u = choose|u: UserKey| #[trigger] publishes_generation(files, a, t1, before, after, u, fsyncs, r);
            let (b, m) = choose|b: Result<Option<BlockSstFile>, EngineError>, m: Seq<Step>|
                #[trigger] builds_generation(files, a, m, before, dir, fresh, u, b) && match b {
                    Err(e) => {
                        &&& after == before
                        &&& r == Err::<(), EngineError>(e)
                        &&& exists|x: Result<(), EngineError>| #[trigger] removed_dir(m, t1, dir, x)
                    },
                    Ok(file) => exists|p: Result<(), EngineError>, k: Seq<Step>|
                        #[trigger] published_generation(m, k, fresh, p) && match p {
                            Err(e) => after == before && r == Err::<(), EngineError>(e) && t1 == k,
                            Ok(()) => r is Ok && moves_to(files, k, t1, before, after, file, fsyncs),
                        },
                };
            lemma_generation_built(files, a, m, before, dir, fresh, u, b);
            lemma_built_on(t0, a, m, dir);
            match b {
                Err(e) => {
                    let x = choose|x: Result<(), EngineError>| #[trigger] removed_dir(m, t1, dir, x);
                    lemma_built_one(m, Step::RemoveDir { path: dir, r: x }, dir);
                    lemma_built_on(t0, m, t1, dir);
                    assert(t1.take(t1.len() as int) =~= t1);
                    t1.len() as int
                },
                Ok(file) => {
                    let (p, k) = choose|p: Result<(), EngineError>, k: Seq<Step>|
                        #[trigger] published_generation(m, k, fresh, p) && match p {
                            Err(e) => after == before && r == Err::<(), EngineError>(e) && t1 == k,
                            Ok(()) => r is Ok && moves_to(files, k, t1, before, after, file, fsyncs),
                        };
                    if p is Ok {
                        super::io::lemma_old_sweep_grows(
                            files,
                            k,
                            t1,
                            before.dir@,
                            fresh,
                            before.generation_remove_failures,
                            after.generation_remove_failures,
                        );
                    } else {
                        assert(t1.take(k.len() as int) =~= k);
                    }
                    let n = m.len() as int;
                    assert(goes_on(k, t1));
                    assert(t1.take(k.len() as int)[n] == t1[n]);
                    assert(t1.take(n) =~= t1.take(k.len() as int).take(n));
                    assert(k.take(n) =~= m);
                    n
                },
            }
        }
    }
}

/// Building a generation leaves what is on disk of another directory.
pub proof fn building_a_generation_leaves_the_old_one_durable(
    engine: Engine,
    origin: Origin,
    t0: Seq<Step>,
    t1: Seq<Step>,
    dir: Seq<char>,
)
    requires
        durable(engine, origin, t0),
        only_built(t0, t1, dir),
        dir != engine.dir@,
    ensures
        durable(engine, origin, t1),
    decreases t1.len(),
{
    if t1.len() == t0.len() {
        assert(t1.take(t0.len() as int) =~= t1);
    } else {
        let m = t1.drop_last();
        assert(only_built(t0, m, dir)) by {
            assert(m.take(t0.len() as int) =~= t1.take(t0.len() as int));
            assert forall|i: int| t0.len() <= i < m.len() implies builds_only(#[trigger] m[i], dir) by {
                assert(m[i] == t1[i]);
            }
        }
        building_a_generation_leaves_the_old_one_durable(engine, origin, t0, m, dir);
        assert(builds_only(t1[t1.len() - 1], dir));
        assert(t1 =~= m.push(t1.last()));
        lemma_one_step(origin, m, t1.last(), engine.dir@);
    }
}

/// Removing files leaves what is on disk of a log and a manifest.
proof fn lemma_removals_are_durable(engine: Engine, origin: Origin, t0: Seq<Step>, t1: Seq<Step>)
    requires
        durable(engine, origin, t0),
        only_removed(t0, t1),
    ensures
        durable(engine, origin, t1),
    decreases t1.len(),
{
    if t1.len() == t0.len() {
        assert(t1.take(t0.len() as int) =~= t1);
    } else {
        let m = t1.drop_last();
        assert(only_removed(t0, m)) by {
            assert(m.take(t0.len() as int) =~= t1.take(t0.len() as int));
            assert forall|i: int| t0.len() <= i < m.len() implies is_removal(#[trigger] m[i]) by {
                assert(m[i] == t1[i]);
            }
        }
        lemma_removals_are_durable(engine, origin, t0, m);
        assert(is_removal(t1[t1.len() - 1]));
        assert(t1 =~= m.push(t1.last()));
        lemma_one_step(origin, m, t1.last(), engine.dir@);
    }
}

/// Building a generation writes nothing to a log.
proof fn lemma_built_log(origin: Origin, t0: Seq<Step>, t1: Seq<Step>, dir: Seq<char>)
    requires
        0 <= origin.from <= t0.len(),
        only_built(t0, t1, dir),
    ensures
        log_after(origin.log, t1, origin.from, dir) == log_after(origin.log, t0, origin.from, dir),
    decreases t1.len(),
{
    if t1.len() == t0.len() {
        assert(t1.take(t0.len() as int) =~= t1);
    } else {
        let m = t1.drop_last();
        assert(only_built(t0, m, dir)) by {
            assert(m.take(t0.len() as int) =~= t1.take(t0.len() as int));
            assert forall|i: int| t0.len() <= i < m.len() implies builds_only(#[trigger] m[i], dir) by {
                assert(m[i] == t1[i]);
            }
        }
        lemma_built_log(origin, t0, m, dir);
        assert(builds_only(t1[t1.len() - 1], dir));
        assert(t1 =~= m.push(t1.last()));
        lemma_one_step(origin, m, t1.last(), dir);
    }
}

/// A generation that was readied lists its table.
proof fn lemma_readied_manifest(
    origin: Origin,
    t0: Seq<Step>,
    t1: Seq<Step>,
    dir: Seq<char>,
    file: Option<BlockSstFile>,
    r: Result<Option<BlockSstFile>, EngineError>,
)
    requires
        0 <= origin.from <= t0.len(),
        readies(t0, t1, dir, file, r),
        r is Ok,
    ensures
        r == Ok::<Option<BlockSstFile>, EngineError>(file),
        manifest_after(origin.ids, t1, origin.from, dir) == ids_in(file),
{
    let ids = ids_in(file);
    let (p, m) = choose|p: Result<(), EngineError>, m: Seq<Step>|
        #[trigger] published_manifest(t0, m, dir, 0, ids, p) && match p {
            Err(e) => false,
            Ok(()) => exists|o: Result<u64, EngineError>|
                #[trigger] opened_log(m, t1, dir, o) && match o {
                    Err(e) => false,
                    Ok(_) => r == Ok::<Option<BlockSstFile>, EngineError>(file),
                },
        };
    let o = choose|o: Result<u64, EngineError>| #[trigger] opened_log(m, t1, dir, o);
    lemma_one_step(origin, t0, Step::PublishManifest { dir, generation: 0, live: ids, r: p }, dir);
    lemma_one_step(origin, m, Step::OpenLog { dir, r: o }, dir);
}

/// A full rotation that succeeds leaves on disk what it leaves in memory: the
/// fresh generation's log is empty, as its memtable is, and its manifest lists
/// its table.
pub proof fn a_full_rotation_is_durable<F: StoreRoot>(
    files: &F,
    t0: Seq<Step>,
    t1: Seq<Step>,
    before: Engine,
    after: Engine,
    bytes: Seq<u8>,
    mode: KeyMode,
    profile: Argon2idProfile,
    fsyncs: u64,
    r: Result<(), EngineError>,
)
    requires
        rotates(files, t0, t1, before, after, bytes, mode, profile, fsyncs, r),
        r is Ok,
    ensures
        durable(after, (Origin { log: Seq::empty(), ids: Seq::empty(), from: t0.len() as int }), t1),
{
    let origin = Origin { log: Seq::empty(), ids: Seq::empty(), from: t0.len() as int };
    let fresh = (before.generation_id + 1) as u64;
    let dir = generation_dir_name(fresh);
    let (c, a) = choose|c: Result<(), EngineError>, a: Seq<Step>|
        #[trigger] clears(files, t0, a, dir, c) && c is Ok && exists|u: UserKey| #[trigger]
            publishes_generation(files, a, t1, before, after, u, fsyncs, r);
    let u = choose|u: UserKey| #[trigger] publishes_generation(files, a, t1, before, after, u, fsyncs, r);
    lemma_cleared(files, t0, a, dir, c);
    let (b, m) = choose|b: Result<Option<BlockSstFile>, EngineError>, m: Seq<Step>|
        #[trigger] builds_generation(files, a, m, before, dir, fresh, u, b) && b is Ok && exists|
            p: Result<(), EngineError>,
            k: Seq<Step>,
        |
            #[trigger] published_generation(m, k, fresh, p) && p is Ok && moves_to(
                files,
                k,
                t1,
                before,
                after,
                b->Ok_0,
                fsyncs,
            );
    let file = b->Ok_0;
    lemma_generation_built(files, a, m, before, dir, fresh, u, b);
    lemma_built_on(t0, a, m, dir);
    lemma_built_log(origin, t0, m, dir);
    let (x, q) = choose|x: Result<(), EngineError>, q: Seq<Step>|
        #[trigger] made_key(a, q, dir, u.says(), Some(fresh), x) && x is Ok && copies(files, q, m, before, dir, b);
    let made = lemma_copied_manifest(files, origin, q, m, before, dir, b);
    assert(made == file);
    let (p, k) = choose|p: Result<(), EngineError>, k: Seq<Step>|
        #[trigger] published_generation(m, k, fresh, p) && p is Ok && moves_to(
            files,
            k,
            t1,
            before,
            after,
            file,
            fsyncs,
        );
    lemma_one_step(origin, m, Step::PublishGeneration { generation: fresh, r: p }, dir);
    super::io::lemma_old_sweep_grows(
        files,
        k,
        t1,
        before.dir@,
        fresh,
        before.generation_remove_failures,
        after.generation_remove_failures,
    );
    assert(ids_of(after.current.ssts@) =~= ids_in(file));
    assert(after.memtable@ == rows_map(Seq::<Row>::empty()));
    assert(durable(after, origin, k));
    lemma_removals_are_durable(after, origin, k, t1);
}

/// A generation that was copied lists its table.
proof fn lemma_copied_manifest<F: StoreRoot>(
    files: &F,
    origin: Origin,
    t0: Seq<Step>,
    t1: Seq<Step>,
    before: Engine,
    dir: Seq<char>,
    r: Result<Option<BlockSstFile>, EngineError>,
) -> (file: Option<BlockSstFile>)
    requires
        0 <= origin.from <= t0.len(),
        copies(files, t0, t1, before, dir, r),
        r is Ok,
    ensures
        r == Ok::<Option<BlockSstFile>, EngineError>(file),
        manifest_after(origin.ids, t1, origin.from, dir) == ids_in(file),
{
    if readies(t0, t1, dir, None, r) {
        lemma_readied_manifest(origin, t0, t1, dir, None, r);
        None
    } else {
        let size = before.options.block_size;
        let (run, s, m) = choose|run: Seq<Row>, s: Result<BlockSstFile, EngineError>, m: Seq<Step>|
            #[trigger] stages(files, t0, m, dir, 0, run, size, s) && match s {
                Err(e) => false,
                Ok(file) => readies(m, t1, dir, Some(file), r),
            };
        let file = s->Ok_0;
        super::crash_laws::lemma_stage_grows(files, t0, m, dir, 0, run, size, s);
        lemma_readied_manifest(origin, m, t1, dir, Some(file), r);
        Some(file)
    }
}

} // verus!
