//! Which key opens a store.
use super::compact::stages;
use super::durable::{durable, lemma_one_step, Origin};
use super::io::{attempts, counts_sweep, removes, sweeps, sweeps_old, tried, DoomedV};
use super::open::{gates, resolves, settles_key, unlocks, ActiveDir};
use super::recover::{opens, opens_locked};
use super::rotate::{builds_generation, clears, copies, moves_to, publishes_generation, readies, rewraps, rotates};
use super::rotate_laws::{
    a_full_rotation_touches_nothing_old_before_the_pointer_moves, building_a_generation_leaves_the_old_one_durable,
    builds_only, only_built,
};
use super::Engine;
use crate::error::EngineError;
use crate::store::files::{
    generation_dir_name, gives_crypto, gives_readable, tells_present, Argon2idProfile, DirEntry, KeyMode, KeyV, ReadFault,
    StoreDir, StoreRoot, UserKey,
};
use crate::store::options::EngineOptions;
use crate::store::rows::Row;
use crate::store::sst_block::write::{writes_new, WrittenSst};
use crate::store::sst_block::{joined, BlockSstFile};
use crate::store::trace::{
    made_key, opened_log, published_generation, published_manifest, removed_dir, wrote_file, Step,
};
use vstd::prelude::*;

verus! {

/// The key that the record of `dir` is wrapped under after `step`, having been
/// wrapped under `key`. A call that is refused leaves it as it is.
pub open spec fn keyed(key: Option<KeyV>, step: Step, dir: Seq<char>) -> Option<KeyV> {
    match step {
        Step::CreateCrypto { dir: d, key: k, generation, r } => if d == dir && r is Ok {
            Some(k)
        } else {
            key
        },
        Step::RewrapCrypto { dir: d, key: k, generation, r } => if d == dir && r is Ok {
            Some(k)
        } else {
            key
        },
        _ => key,
    }
}

/// The key that the record of `dir` was last wrapped under, by the steps of
/// `t` from step `from` on, or by `key` before them.
pub open spec fn key_after(key: Option<KeyV>, t: Seq<Step>, from: int, dir: Seq<char>) -> Option<KeyV>
    decreases t.len(),
{
    if t.len() == 0 || t.len() <= from {
        key
    } else {
        keyed(key_after(key, t.drop_last(), from, dir), t.last(), dir)
    }
}

/// The generation that the store is pointed at after `step`.
pub open spec fn pointed(generation: Option<u64>, step: Step) -> Option<u64> {
    match step {
        Step::PublishGeneration { generation: g, r } => if r is Ok {
            Some(g)
        } else {
            generation
        },
        _ => generation,
    }
}

/// The generation that the store was last pointed at.
pub open spec fn pointer_after(generation: Option<u64>, t: Seq<Step>, from: int) -> Option<u64>
    decreases t.len(),
{
    if t.len() == 0 || t.len() <= from {
        generation
    } else {
        pointed(pointer_after(generation, t.drop_last(), from), t.last())
    }
}

/// From `t0` to `t1` neither a key nor the pointer changed.
pub open spec fn keys_stay(t0: Seq<Step>, t1: Seq<Step>) -> bool {
    &&& t0.len() <= t1.len()
    &&& forall|key: Option<KeyV>, from: int, dir: Seq<char>|
        0 <= from <= t0.len() ==> #[trigger] key_after(key, t1, from, dir) == key_after(key, t0, from, dir)
    &&& forall|generation: Option<u64>, from: int|
        0 <= from <= t0.len() ==> #[trigger] pointer_after(generation, t1, from) == pointer_after(generation, t0, from)
}

/// A step that writes no key and moves no pointer.
pub open spec fn is_keyless(step: Step) -> bool {
    !(step is CreateCrypto) && !(step is RewrapCrypto) && !(step is PublishGeneration)
}

proof fn lemma_key_step(t: Seq<Step>, step: Step)
    ensures
        forall|key: Option<KeyV>, from: int, dir: Seq<char>|
            0 <= from <= t.len() ==> #[trigger] key_after(key, t.push(step), from, dir) == keyed(
                key_after(key, t, from, dir),
                step,
                dir,
            ),
        forall|generation: Option<u64>, from: int|
            0 <= from <= t.len() ==> #[trigger] pointer_after(generation, t.push(step), from) == pointed(
                pointer_after(generation, t, from),
                step,
            ),
        is_keyless(step) ==> keys_stay(t, t.push(step)),
{
    assert(t.push(step).drop_last() =~= t);
}

proof fn lemma_keys_stay_on(t0: Seq<Step>, m: Seq<Step>, t1: Seq<Step>)
    requires
        keys_stay(t0, m),
        keys_stay(m, t1),
    ensures
        keys_stay(t0, t1),
{
}

proof fn lemma_tries_keep_keys(t0: Seq<Step>, t1: Seq<Step>, what: DoomedV, tries: nat, ok: bool)
    requires
        tried(t0, t1, what, tries, ok),
    ensures
        keys_stay(t0, t1),
    decreases tries,
{
    if tries > 0 {
        let m = choose|m: Seq<Step>|
            tried(t0, m, what, (tries - 1) as nat, false) && #[trigger] attempts(m, t1, what, ok);
        lemma_tries_keep_keys(t0, m, what, (tries - 1) as nat, false);
        if what.is_dir {
            let r = choose|r: Result<(), EngineError>| #[trigger] removed_dir(m, t1, what.path, r);
            lemma_key_step(m, Step::RemoveDir { path: what.path, r });
        } else {
            lemma_key_step(m, Step::RemoveFile { path: what.path, r: ok });
        }
        lemma_keys_stay_on(t0, m, t1);
    }
}

proof fn lemma_sweep_keeps_keys(t0: Seq<Step>, t1: Seq<Step>, list: Seq<DoomedV>, before: u64, after: u64)
    requires
        counts_sweep(t0, t1, list, before, after),
    ensures
        keys_stay(t0, t1),
{
    let failed = choose|failed: Seq<bool>| #[trigger] sweeps(t0, t1, list, failed);
    lemma_sweeps_keep_keys(t0, t1, list, failed);
}

proof fn lemma_sweeps_keep_keys(t0: Seq<Step>, t1: Seq<Step>, list: Seq<DoomedV>, failed: Seq<bool>)
    requires
        sweeps(t0, t1, list, failed),
    ensures
        keys_stay(t0, t1),
    decreases list.len(),
{
    if list.len() > 0 {
        let (m, ok) = choose|m: Seq<Step>, ok: bool|
            sweeps(t0, m, list.drop_last(), failed.drop_last()) && #[trigger] removes(m, t1, list.last(), ok);
        let tries = choose|tries: nat| #[trigger] tried(m, t1, list.last(), tries, ok);
        lemma_sweeps_keep_keys(t0, m, list.drop_last(), failed.drop_last());
        lemma_tries_keep_keys(m, t1, list.last(), tries, ok);
        lemma_keys_stay_on(t0, m, t1);
    }
}

proof fn lemma_old_sweep_keeps_keys<F: StoreRoot>(
    files: &F,
    t0: Seq<Step>,
    t1: Seq<Step>,
    dir: Seq<char>,
    current: u64,
    before: u64,
    after: u64,
)
    requires
        sweeps_old(files, t0, t1, dir, current, before, after),
    ensures
        keys_stay(t0, t1),
{
    if dir.len() == 0 {
        let (mid, m, l) = choose|mid: u64, m: Seq<Step>, l: Result<Vec<DirEntry>, EngineError>|
            {
                &&& #[trigger] counts_sweep(t0, m, super::io::root_records(), before, mid)
                &&& #[trigger] gives_readable(files, Seq::empty(), l)
                &&& match l {
                    Ok(entries) => counts_sweep(m, t1, super::io::table_files(entries@), mid, after),
                    Err(_) => t1 == m,
                }
            };
        lemma_sweep_keeps_keys(t0, m, super::io::root_records(), before, mid);
        if let Ok(entries) = l {
            lemma_sweep_keeps_keys(m, t1, super::io::table_files(entries@), mid, after);
            lemma_keys_stay_on(t0, m, t1);
        }
    } else if dir != generation_dir_name(current) {
        let l = choose|l: Result<Vec<DirEntry>, EngineError>|
            #[trigger] gives_readable(files, dir, l) && counts_sweep(
                t0,
                t1,
                super::io::old_directory(dir, l),
                before,
                after,
            );
        lemma_sweep_keeps_keys(t0, t1, super::io::old_directory(dir, l), before, after);
    }
}

proof fn lemma_stage_keeps_keys<F: StoreRoot>(
    files: &F,
    t0: Seq<Step>,
    t1: Seq<Step>,
    dir: Seq<char>,
    id: u64,
    run: Seq<Row>,
    block_size: u32,
    r: Result<BlockSstFile, EngineError>,
)
    requires
        stages(files, t0, t1, dir, id, run, block_size, r),
    ensures
        keys_stay(t0, t1),
{
    let w = choose|w: Result<WrittenSst, EngineError>|
        #[trigger] writes_new(files, dir, id, run, block_size, w) && match w {
            Err(e) => t1 == t0,
            Ok(w) => exists|t: Result<(), EngineError>| #[trigger] wrote_file(t0, t1, w.file.path@, w.bytes@, t),
        };
    if let Ok(w) = w {
        let t = choose|t: Result<(), EngineError>| #[trigger] wrote_file(t0, t1, w.file.path@, w.bytes@, t);
        lemma_key_step(t0, Step::WriteFile { path: w.file.path@, bytes: w.bytes@, r: t });
    }
}

proof fn lemma_ready_keeps_keys(
    t0: Seq<Step>,
    t1: Seq<Step>,
    dir: Seq<char>,
    file: Option<BlockSstFile>,
    r: Result<Option<BlockSstFile>, EngineError>,
)
    requires
        readies(t0, t1, dir, file, r),
    ensures
        keys_stay(t0, t1),
{
    let ids = super::rotate::ids_in(file);
    let (p, m) = choose|p: Result<(), EngineError>, m: Seq<Step>|
        #[trigger] published_manifest(t0, m, dir, 0, ids, p) && match p {
            Err(e) => t1 == m,
            Ok(()) => exists|o: Result<u64, EngineError>| #[trigger] opened_log(m, t1, dir, o),
        };
    lemma_key_step(t0, Step::PublishManifest { dir, generation: 0, live: ids, r: p });
    if p is Ok {
        let o = choose|o: Result<u64, EngineError>| #[trigger] opened_log(m, t1, dir, o);
        lemma_key_step(m, Step::OpenLog { dir, r: o });
        lemma_keys_stay_on(t0, m, t1);
    }
}

proof fn lemma_copy_keeps_keys<F: StoreRoot>(
    files: &F,
    t0: Seq<Step>,
    t1: Seq<Step>,
    before: Engine,
    dir: Seq<char>,
    r: Result<Option<BlockSstFile>, EngineError>,
)
    requires
        copies(files, t0, t1, before, dir, r),
    ensures
        keys_stay(t0, t1),
{
    if t1 != t0 {
        if readies(t0, t1, dir, None, r) {
            lemma_ready_keeps_keys(t0, t1, dir, None, r);
        } else {
            let size = before.options.block_size;
            let (run, s, m) = choose|run: Seq<Row>, s: Result<BlockSstFile, EngineError>, m: Seq<Step>|
                #[trigger] stages(files, t0, m, dir, 0, run, size, s) && match s {
                    Err(e) => t1 == m,
                    Ok(file) => readies(m, t1, dir, Some(file), r),
                };
            lemma_stage_keeps_keys(files, t0, m, dir, 0, run, size, s);
            if let Ok(file) = s {
                lemma_ready_keeps_keys(m, t1, dir, Some(file), r);
                lemma_keys_stay_on(t0, m, t1);
            }
        }
    }
}

/// A full rotation that succeeds leaves the store pointed at its fresh
/// generation, whose key record is wrapped under the new key.
pub proof fn a_full_rotation_puts_the_new_key_on_record<F: StoreRoot>(
    files: &F,
    t0: Seq<Step>,
    t1: Seq<Step>,
    before: Engine,
    after: Engine,
    bytes: Seq<u8>,
    mode: KeyMode,
    profile: Argon2idProfile,
    fsyncs: u64,
    r: Result<(), EngineError>,
    key: Option<KeyV>,
    generation: Option<u64>,
    from: int,
)
    requires
        rotates(files, t0, t1, before, after, bytes, mode, profile, fsyncs, r),
        r is Ok,
        0 <= from <= t0.len(),
    ensures
        after.dir@ == generation_dir_name(after.generation_id),
        after.generation_id != 0,
        pointer_after(generation, t1, from) == Some(after.generation_id),
        key_after(key, t1, from, after.dir@) == Some(KeyV { bytes, mode, profile }),
{
    let fresh = (before.generation_id + 1) as u64;
    let dir = generation_dir_name(fresh);
    let (c, a) = choose|c: Result<(), EngineError>, a: Seq<Step>|
        #[trigger] clears(files, t0, a, dir, c) && c is Ok && exists|u: UserKey|
            u.bytes@ == bytes && u.mode == mode && u.profile == profile && #[trigger] publishes_generation(
                files,
                a,
                t1,
                before,
                after,
                u,
                fsyncs,
                r,
            );
    let u = choose|u: UserKey|
        u.bytes@ == bytes && u.mode == mode && u.profile == profile && #[trigger] publishes_generation(
            files,
            a,
            t1,
            before,
            after,
            u,
            fsyncs,
            r,
        );
    assert(t0.len() <= a.len());
    let (b, m) = choose|b: Result<Option<BlockSstFile>, EngineError>, m: Seq<Step>|
        #[trigger] builds_generation(files, a, m, before, dir, fresh, u, b) && b is Ok && exists|
            p: Result<(), EngineError>,
            n: Seq<Step>,
        |
            #[trigger] published_generation(m, n, fresh, p) && p is Ok && moves_to(
                files,
                n,
                t1,
                before,
                after,
                b->Ok_0,
                fsyncs,
            );
    let (p, n) = choose|p: Result<(), EngineError>, n: Seq<Step>|
        #[trigger] published_generation(m, n, fresh, p) && p is Ok && moves_to(
            files,
            n,
            t1,
            before,
            after,
            b->Ok_0,
            fsyncs,
        );
    let (x, k) = choose|x: Result<(), EngineError>, k: Seq<Step>|
        #[trigger] made_key(a, k, dir, u.says(), Some(fresh), x) && x is Ok && copies(files, k, m, before, dir, b);
    lemma_key_step(a, Step::CreateCrypto { dir, key: u.says(), generation: Some(fresh), r: x });
    lemma_copy_keeps_keys(files, k, m, before, dir, b);
    lemma_key_step(m, Step::PublishGeneration { generation: fresh, r: p });
    lemma_old_sweep_keeps_keys(
        files,
        n,
        t1,
        before.dir@,
        fresh,
        before.generation_remove_failures,
        after.generation_remove_failures,
    );
    assert(u.says() == (KeyV { bytes, mode, profile }));
    assert(key_after(key, k, from, dir) == Some(u.says()));
    assert(key_after(key, m, from, dir) == Some(u.says()));
    assert(key_after(key, n, from, dir) == Some(u.says()));
    assert(pointer_after(generation, n, from) == Some(fresh));
}

proof fn lemma_building_keeps_other_keys(
    t0: Seq<Step>,
    t1: Seq<Step>,
    dir: Seq<char>,
    other: Seq<char>,
    key: Option<KeyV>,
    pointer: Option<u64>,
    from: int,
)
    requires
        only_built(t0, t1, dir),
        other != dir,
        0 <= from <= t0.len(),
    ensures
        key_after(key, t1, from, other) == key_after(key, t0, from, other),
        pointer_after(pointer, t1, from) == pointer_after(pointer, t0, from),
    decreases t1.len(),
{
    if t1.len() == t0.len() {
        assert(t1.take(t0.len() as int) =~= t1);
    } else {
        let m = t1.drop_last();
        assert(only_built(t0, m, dir)) by {
            assert(m.take(t0.len() as int) =~= t1.take(t0.len() as int));
            assert forall|i: int| t0.len() <= i < m.len() implies builds_only(#[trigger] m[i], dir) by {
                assert(m[i] == t1[i]);
            }
        }
        lemma_building_keeps_other_keys(t0, m, dir, other, key, pointer, from);
        assert(builds_only(t1[t1.len() - 1], dir));
        assert(t1 =~= m.push(t1.last()));
        lemma_key_step(m, t1.last());
    }
}

/// A full rotation that fails leaves the engine as it was, and on disk the
/// pointer, the key on record, the log and the manifest of the generation that
/// stays.
pub proof fn a_failed_full_rotation_leaves_the_store_as_it_was<F: StoreRoot>(
    files: &F,
    origin: Origin,
    t0: Seq<Step>,
    t1: Seq<Step>,
    before: Engine,
    after: Engine,
    bytes: Seq<u8>,
    mode: KeyMode,
    profile: Argon2idProfile,
    fsyncs: u64,
    r: Result<(), EngineError>,
    key: Option<KeyV>,
    pointer: Option<u64>,
    from: int,
)
    requires
        durable(before, origin, t0),
        before.dir@ != generation_dir_name((before.generation_id + 1) as u64),
        rotates(files, t0, t1, before, after, bytes, mode, profile, fsyncs, r),
        r is Err,
        0 <= from <= t0.len(),
    ensures
        after == before,
        durable(after, origin, t1),
        key_after(key, t1, from, before.dir@) == key_after(key, t0, from, before.dir@),
        pointer_after(pointer, t1, from) == pointer_after(pointer, t0, from),
{
    let dir = generation_dir_name((before.generation_id + 1) as u64);
    let n = a_full_rotation_touches_nothing_old_before_the_pointer_moves(
        files,
        t0,
        t1,
        before,
        after,
        bytes,
        mode,
        profile,
        fsyncs,
        r,
    );
    let m = t1.take(n);
    building_a_generation_leaves_the_old_one_durable(before, origin, t0, m, dir);
    lemma_building_keeps_other_keys(t0, m, dir, before.dir@, key, pointer, from);
    if n == t1.len() {
        assert(m =~= t1);
    } else {
        assert(t1 =~= m.push(t1[n]));
        lemma_key_step(m, t1[n]);
        lemma_one_step(origin, m, t1[n], before.dir@);
    }
}

/// Wrapping the data key anew puts the new key on record, and no other
/// directory's.
pub proof fn a_rewrap_puts_the_new_key_on_record(
    t0: Seq<Step>,
    t1: Seq<Step>,
    engine: Engine,
    bytes: Seq<u8>,
    mode: KeyMode,
    profile: Argon2idProfile,
    r: Result<(), EngineError>,
    key: Option<KeyV>,
    from: int,
    dir: Seq<char>,
)
    requires
        rewraps(t0, t1, engine, bytes, mode, profile, r),
        r is Ok,
        0 <= from <= t0.len(),
    ensures
        key_after(key, t1, from, dir) == (if dir == engine.dir@ {
            Some(KeyV { bytes, mode, profile })
        } else {
            key_after(key, t0, from, dir)
        }),
{
    let k = KeyV { bytes, mode, profile };
    lemma_key_step(t0, Step::RewrapCrypto { dir: engine.dir@, key: k, generation: engine.generation_id, r });
}

/// The key record of `dir` is there, and opens with `key` alone, in its mode.
pub open spec fn opens_only_with<F: StoreDir>(files: &F, dir: Seq<char>, key: KeyV) -> bool {
    &&& forall|there: bool| #[trigger] tells_present(files, joined(dir, "crypto.meta"@), there) ==> there
    &&& forall|bytes: Seq<u8>, mode: KeyMode, generation: Option<u64>, r: Result<(), EngineError>|
        #[trigger] gives_crypto(files, dir, bytes, mode, generation, r) && r is Ok ==> bytes == key.bytes
            && mode == key.mode
}

/// The store is pointed at `generation`.
pub open spec fn points_at<F: StoreDir>(files: &F, generation: u64) -> bool {
    &&& forall|there: bool| #[trigger] tells_present(files, "generation.meta"@, there) ==> there
    &&& forall|g: Result<u64, ReadFault>| #[trigger]
        call_ensures(F::read_generation, (files,), g) && g is Ok ==> g->Ok_0 == generation
}

/// Whatever the store resolves to is `dir`.
pub open spec fn is_active_dir<F: StoreDir>(files: &F, dir: Seq<char>) -> bool {
    forall|a: Result<ActiveDir, EngineError>| #[trigger] resolves(files, a) && a is Ok ==> a->Ok_0.dir@ == dir
}

/// Only the key on record opens a store: the directory that it resolves to has
/// a key record, and nothing else opens that.
pub proof fn only_the_key_on_record_opens<F: StoreRoot>(
    disk: &F,
    s0: Seq<Step>,
    s1: Seq<Step>,
    options: EngineOptions,
    supplied: Option<&UserKey>,
    engine: Engine,
    dir: Seq<char>,
    key: KeyV,
)
    requires
        is_active_dir(disk, dir),
        opens_only_with(disk, dir, key),
        opens(disk, s0, s1, options, supplied, Ok(engine)),
    ensures
        supplied matches Some(k) && k.bytes@ == key.bytes && k.mode == key.mode,
{
    let b = choose|b: Seq<Step>| #[trigger] opens_locked(disk, b, s1, options, supplied, Ok(engine));
    let (g, m) = choose|g: Result<u128, EngineError>, m: Seq<Step>|
        #[trigger] gates(disk, b, m, g) && g is Ok && exists|a: Result<ActiveDir, EngineError>|
            #[trigger] resolves(disk, a) && a is Ok && exists|s: Result<bool, EngineError>, n: Seq<Step>|
                #[trigger] settles_key(disk, m, n, a->Ok_0.dir@, a->Ok_0.generation, supplied, s) && s is Ok;
    let a = choose|a: Result<ActiveDir, EngineError>|
        #[trigger] resolves(disk, a) && a is Ok && exists|s: Result<bool, EngineError>, n: Seq<Step>|
            #[trigger] settles_key(disk, m, n, a->Ok_0.dir@, a->Ok_0.generation, supplied, s) && s is Ok;
    let (s, n) = choose|s: Result<bool, EngineError>, n: Seq<Step>|
        #[trigger] settles_key(disk, m, n, a->Ok_0.dir@, a->Ok_0.generation, supplied, s) && s is Ok;
    assert(a->Ok_0.dir@ == dir);
    assert(unlocks(disk, dir, a->Ok_0.generation, supplied, s));
}

/// After the data key was wrapped anew only the new key opens the store: not
/// the one that opened it before, and not the same bytes in the other mode.
pub proof fn after_a_rewrap_only_the_new_key_opens<D: StoreRoot>(
    t0: Seq<Step>,
    t1: Seq<Step>,
    rotated: Engine,
    bytes: Seq<u8>,
    mode: KeyMode,
    profile: Argon2idProfile,
    r: Result<(), EngineError>,
    disk: &D,
    s0: Seq<Step>,
    s1: Seq<Step>,
    options: EngineOptions,
    supplied: Option<&UserKey>,
    engine: Engine,
)
    requires
        rewraps(t0, t1, rotated, bytes, mode, profile, r),
        r is Ok,
        is_active_dir(disk, rotated.dir@),
        key_after(None, t1, 0, rotated.dir@) matches Some(key) ==> opens_only_with(disk, rotated.dir@, key),
        opens(disk, s0, s1, options, supplied, Ok(engine)),
    ensures
        supplied matches Some(k) && k.bytes@ == bytes && k.mode == mode,
{
    a_rewrap_puts_the_new_key_on_record(t0, t1, rotated, bytes, mode, profile, r, None, 0, rotated.dir@);
    only_the_key_on_record_opens(
        disk,
        s0,
        s1,
        options,
        supplied,
        engine,
        rotated.dir@,
        KeyV { bytes, mode, profile },
    );
}

/// After a full rotation only the new key opens the store: not the one that
/// opened it before, and not the same bytes in the other mode.
pub proof fn after_a_full_rotation_only_the_new_key_opens<F: StoreRoot, D: StoreRoot>(
    files: &F,
    t0: Seq<Step>,
    t1: Seq<Step>,
    before: Engine,
    after: Engine,
    bytes: Seq<u8>,
    mode: KeyMode,
    profile: Argon2idProfile,
    fsyncs: u64,
    r: Result<(), EngineError>,
    disk: &D,
    s0: Seq<Step>,
    s1: Seq<Step>,
    options: EngineOptions,
    supplied: Option<&UserKey>,
    engine: Engine,
)
    requires
        rotates(files, t0, t1, before, after, bytes, mode, profile, fsyncs, r),
        r is Ok,
        pointer_after(None, t1, 0) matches Some(generation) ==> points_at(disk, generation),
        key_after(None, t1, 0, after.dir@) matches Some(key) ==> opens_only_with(disk, after.dir@, key),
        opens(disk, s0, s1, options, supplied, Ok(engine)),
    ensures
        supplied matches Some(k) && k.bytes@ == bytes && k.mode == mode,
{
    a_full_rotation_puts_the_new_key_on_record(
        files,
        t0,
        t1,
        before,
        after,
        bytes,
        mode,
        profile,
        fsyncs,
        r,
        None,
        None,
        0,
    );
    only_the_key_on_record_opens(
        disk,
        s0,
        s1,
        options,
        supplied,
        engine,
        after.dir@,
        KeyV { bytes, mode, profile },
    );
}

} // verus!
