//! Changing the key: in place, by wrapping the data key anew, or in full, by
//! writing every live entry into a fresh generation under a fresh data key.
use super::compact::{
    cache_drops, merge_tables, read_failed, reads_tables, stage_table, stages, sum_table_bytes,
    table_bytes,
};
use super::io;
use super::io::sweeps_old;
use super::laws::{contents, holds_table, holds_tables, table_layers};
use super::write_laws;
use super::write_laws::{describes_table, lemma_whole_table};
use super::Engine;
use crate::error::EngineError;
use crate::store::files;
use crate::store::files::{generation_dir_name, tells_present, Argon2idProfile, KeyMode, KeyV, StoreRoot, UserKey};
use crate::store::layers::layered;
use crate::store::rows;
use crate::store::rows::{live, put_rows, rows_map, rows_view, without_tombstones, Row, Slot};
use crate::store::sst_block::write::split_blocks;
use crate::store::sst_block::{all_rows, capped64, BlockSstFile};
use crate::store::stats::Counters;
use crate::store::trace::{
    made_dir, made_key, opened_log, published_generation, published_manifest, removed_dir, rewrapped, Step, Traced,
};
use crate::store::version::{ids_of, Version};
use std::sync::Arc;
use vstd::prelude::*;

verus! {

/// What wrapping the data key under another key gives.
pub open spec fn rewraps(
    t0: Seq<Step>,
    t1: Seq<Step>,
    engine: Engine,
    bytes: Seq<u8>,
    mode: KeyMode,
    profile: Argon2idProfile,
    r: Result<(), EngineError>,
) -> bool {
    if !engine.encrypted {
        t1 == t0 && (r matches Err(EngineError::NotEncrypted { path }) && path@ == engine.dir@)
    } else {
        rewrapped(t0, t1, engine.dir@, KeyV { bytes, mode, profile }, engine.generation_id, r)
    }
}

/// Making room for generation `dir`: a leftover of an earlier attempt goes,
/// with its data key.
pub open spec fn clears<F: StoreRoot>(
    files: &F,
    t0: Seq<Step>,
    t1: Seq<Step>,
    dir: Seq<char>,
    r: Result<(), EngineError>,
) -> bool {
    exists|there: bool|
        #[trigger] tells_present(files, dir, there) && if there {
            exists|x: Result<(), EngineError>, m: Seq<Step>|
                #[trigger] removed_dir(t0, m, dir, x) && match x {
                    Err(e) => r == Err::<(), EngineError>(e) && t1 == m,
                    Ok(()) => made_dir(m, t1, dir, r),
                }
        } else {
            made_dir(t0, t1, dir, r)
        }
}

/// The ids of at most one table.
pub open spec fn ids_in(file: Option<BlockSstFile>) -> Seq<u64> {
    match file {
        Some(f) => seq![f.id],
        None => Seq::empty(),
    }
}

/// What publishing the fresh generation's manifest and log gives.
pub open spec fn readies(
    t0: Seq<Step>,
    t1: Seq<Step>,
    dir: Seq<char>,
    file: Option<BlockSstFile>,
    r: Result<Option<BlockSstFile>, EngineError>,
) -> bool {
    exists|p: Result<(), EngineError>, m: Seq<Step>|
        #[trigger] published_manifest(t0, m, dir, 0, ids_in(file), p) && match p {
            Err(e) => r == Err::<Option<BlockSstFile>, EngineError>(e) && t1 == m,
            Ok(()) => exists|o: Result<u64, EngineError>|
                #[trigger] opened_log(m, t1, dir, o) && match o {
                    Err(e) => r == Err::<Option<BlockSstFile>, EngineError>(e),
                    Ok(_) => r == Ok::<Option<BlockSstFile>, EngineError>(file),
                },
        }
}

/// What writing every live entry into `dir` gives: one table, or none if
/// nothing is live.
pub open spec fn copies<F: StoreRoot>(
    files: &F,
    t0: Seq<Step>,
    t1: Seq<Step>,
    before: Engine,
    dir: Seq<char>,
    r: Result<Option<BlockSstFile>, EngineError>,
) -> bool {
    ||| t1 == t0 && (r matches Err(e) && read_failed(files, before.current.ssts@, e))
    ||| exists|found: Seq<Seq<Row>>, run: Seq<Row>|
        {
            &&& #[trigger] reads_tables(files, before.current.ssts@, found)
            &&& #[trigger] is_live_run(run, put_rows(layered(found), before.memtable.spec_rows()))
            &&& if run.len() == 0 {
                readies(t0, t1, dir, None, r)
            } else {
                exists|s: Result<BlockSstFile, EngineError>, m: Seq<Step>|
                    #[trigger] stages(files, t0, m, dir, 0, run, before.options.block_size, s) && match s {
                        Err(e) => r == Err::<Option<BlockSstFile>, EngineError>(e) && t1 == m,
                        Ok(file) => readies(m, t1, dir, Some(file), r),
                    }
            }
        }
}

/// `run` is the live entries of a map, in key order.
pub open spec fn is_live_run(run: Seq<Row>, map: Map<Seq<u8>, Slot>) -> bool {
    rows::sorted(run) && rows_map(run) == without_tombstones(map)
}

/// What building a generation under a fresh data key gives.
pub open spec fn builds_generation<F: StoreRoot>(
    files: &F,
    t0: Seq<Step>,
    t1: Seq<Step>,
    before: Engine,
    dir: Seq<char>,
    generation: u64,
    key: UserKey,
    r: Result<Option<BlockSstFile>, EngineError>,
) -> bool {
    exists|c: Result<(), EngineError>, m: Seq<Step>|
        #[trigger] made_key(t0, m, dir, key.says(), Some(generation), c) && match c {
            Err(e) => r == Err::<Option<BlockSstFile>, EngineError>(e) && t1 == m,
            Ok(()) => copies(files, m, t1, before, dir, r),
        }
}

fn ready<F: StoreRoot>(files: &mut Traced<F>, dir: &str, file: Option<BlockSstFile>) -> (r: Result<
    Option<BlockSstFile>,
    EngineError,
>)
    ensures
        final(files).spec_files() == old(files).spec_files(),
        readies(old(files).steps(), final(files).steps(), dir@, file, r),
        r matches Ok(out) ==> out == file,
{
    let mut ids: Vec<u64> = Vec::new();
    if let Some(f) = &file {
        ids.push(f.id);
    }
    assert(ids@ =~= ids_in(file));
    let p = files.publish_manifest(dir, 0, &ids);
    let ghost m = files.steps();
    assert(published_manifest(old(files).steps(), m, dir@, 0, ids_in(file), p));
    match p {
        Err(e) => {
            return Err(e);
        },
        Ok(()) => {},
    }
    let o = files.open_log(dir);
    assert(opened_log(m, files.steps(), dir@, o));
    match o {
        Err(e) => Err(e),
        Ok(_) => Ok(file),
    }
}

fn copy_live<F: StoreRoot>(files: &mut Traced<F>, engine: &Engine, dir: &str) -> (r: Result<
    Option<BlockSstFile>,
    EngineError,
>)
    requires
        engine.wf(),
    ensures
        final(files).spec_files() == old(files).spec_files(),
        copies(&old(files).spec_files(), old(files).steps(), final(files).steps(), *engine, dir@, r),
        r matches Ok(Some(file)) ==> file.wf() && file.id == 0,
{
    let ghost disk = files.spec_files();
    let ghost t0 = files.steps();
    let mut merged = match merge_tables(files.files(), &engine.current.ssts) {
        Ok(m) => m,
        Err(e) => {
            return Err(e);
        },
    };
    let ghost found = choose|found: Seq<Seq<Row>>|
        #[trigger] reads_tables(&disk, engine.current.ssts@, found) && merged@ == layered(found);
    assert(reads_tables(&disk, engine.current.ssts@, found));
    merged.put_all(engine.memtable.iter());
    let entries = rows::drop_tombstones(merged.rows());
    let ghost run = rows_view(entries@);
    proof {
        merged.lemma_rows();
        rows::lemma_valued_rows(merged.spec_rows());
    }
    assert(is_live_run(run, put_rows(layered(found), engine.memtable.spec_rows())));
    assert(run.len() == entries@.len());
    if entries.len() == 0 {
        return ready(files, dir, None);
    }
    let s = stage_table(files, dir, 0, &entries, engine.options.block_size);
    assert(stages(&disk, t0, files.steps(), dir@, 0, run, engine.options.block_size, s));
    match s {
        Err(e) => Err(e),
        Ok(file) => ready(files, dir, Some(file)),
    }
}

fn build_generation<F: StoreRoot>(
    files: &mut Traced<F>,
    engine: &Engine,
    dir: &str,
    generation: u64,
    key: &UserKey,
) -> (r: Result<Option<BlockSstFile>, EngineError>)
    requires
        engine.wf(),
    ensures
        final(files).spec_files() == old(files).spec_files(),
        builds_generation(
            &old(files).spec_files(),
            old(files).steps(),
            final(files).steps(),
            *engine,
            dir@,
            generation,
            *key,
            r,
        ),
        r matches Ok(Some(file)) ==> file.wf() && file.id == 0,
{
    let c = files.create_crypto(dir, key, Some(generation));
    assert(made_key(old(files).steps(), files.steps(), dir@, key.says(), Some(generation), c));
    match c {
        Err(e) => Err(e),
        Ok(()) => copy_live(files, engine, dir),
    }
}

fn clear_dir<F: StoreRoot>(files: &mut Traced<F>, dir: &str) -> (r: Result<(), EngineError>)
    ensures
        final(files).spec_files() == old(files).spec_files(),
        clears(&old(files).spec_files(), old(files).steps(), final(files).steps(), dir@, r),
{
    let disk = files.files();
    let there = disk.is_present(dir);
    assert(call_ensures(F::is_present, (disk, dir), there));
    assert(tells_present(disk, dir@, there));
    if !there {
        return files.create_dir(dir);
    }
    let x = files.remove_dir(dir);
    assert(removed_dir(old(files).steps(), files.steps(), dir@, x));
    match x {
        Err(e) => Err(e),
        Ok(()) => files.create_dir(dir),
    }
}

/// The tables of a fresh generation.
pub open spec fn tables_of(file: Option<BlockSstFile>) -> Seq<BlockSstFile> {
    match file {
        Some(f) => seq![f],
        None => Seq::empty(),
    }
}

/// The bytes of the tables of a fresh generation.
pub open spec fn bytes_in(file: Option<BlockSstFile>) -> u64 {
    match file {
        Some(f) => f.file_bytes,
        None => 0,
    }
}

/// The engine after its fresh generation was published. Ids start again, and
/// nothing stays cached of the tables that went. `fsyncs` are those of the log
/// that went.
pub open spec fn moves_to<F: StoreRoot>(
    files: &F,
    t0: Seq<Step>,
    t1: Seq<Step>,
    before: Engine,
    after: Engine,
    file: Option<BlockSstFile>,
    fsyncs: u64,
) -> bool {
    let generation = (before.generation_id + 1) as u64;
    &&& after.dir@ == generation_dir_name(generation)
    &&& after.memtable@ == Map::<Seq<u8>, Slot>::empty()
    &&& after.current.manifest_generation == 0
    &&& after.current.ssts@.len() == tables_of(file).len()
    &&& forall|i: int| 0 <= i < tables_of(file).len() ==> *(#[trigger] after.current.ssts@[i]) == tables_of(file)[i]
    &&& cache_drops(before.block_cache, after.block_cache, ids_of(before.current.ssts@))
    &&& sweeps_old(
        files,
        t0,
        t1,
        before.dir@,
        generation,
        before.generation_remove_failures,
        after.generation_remove_failures,
    )
    &&& after == (Engine {
        dir: after.dir,
        generation_id: generation,
        memtable: after.memtable,
        current: after.current,
        block_cache: after.block_cache,
        generation_remove_failures: after.generation_remove_failures,
        next_sst_id: if file is Some {
            1
        } else {
            0
        },
        counters: (Counters {
            fsync_count: before.counters.fsync_count.wrapping_add(fsyncs),
            ..before.counters
        }).with_merge(capped64(table_bytes(before.current.ssts@)), bytes_in(file)),
        ..before
    })
}

/// What a full rotation does once there is a directory for it: until the
/// pointer is published, an error leaves the engine as it was, and nothing of
/// the old generation is touched before.
pub open spec fn publishes_generation<F: StoreRoot>(
    files: &F,
    t0: Seq<Step>,
    t1: Seq<Step>,
    before: Engine,
    after: Engine,
    key: UserKey,
    fsyncs: u64,
    r: Result<(), EngineError>,
) -> bool {
    let generation = (before.generation_id + 1) as u64;
    let dir = generation_dir_name(generation);
    exists|b: Result<Option<BlockSstFile>, EngineError>, m: Seq<Step>|
        #[trigger] builds_generation(files, t0, m, before, dir, generation, key, b) && match b {
            Err(e) => {
                &&& after == before
                &&& r == Err::<(), EngineError>(e)
                &&& exists|x: Result<(), EngineError>| #[trigger] removed_dir(m, t1, dir, x)
            },
            Ok(file) => exists|p: Result<(), EngineError>, n: Seq<Step>|
                #[trigger] published_generation(m, n, generation, p) && match p {
                    Err(e) => after == before && r == Err::<(), EngineError>(e) && t1 == n,
                    Ok(()) => r is Ok && moves_to(files, n, t1, before, after, file, fsyncs),
                },
        }
}

/// What a full rotation does.
pub open spec fn rotates<F: StoreRoot>(
    files: &F,
    t0: Seq<Step>,
    t1: Seq<Step>,
    before: Engine,
    after: Engine,
    bytes: Seq<u8>,
    mode: KeyMode,
    profile: Argon2idProfile,
    fsyncs: u64,
    r: Result<(), EngineError>,
) -> bool {
    if !before.encrypted {
        after == before && t1 == t0 && (r matches Err(EngineError::NotEncrypted { path }) && path@ == before.dir@)
    } else if before.generation_id == u64::MAX {
        after == before && t1 == t0 && (r matches Err(EngineError::CorruptGenerationMeta { path, reason }) && path@
            == "generation.meta"@ && reason@ == "active generation id cannot be incremented"@)
    } else {
        exists|c: Result<(), EngineError>, m: Seq<Step>|
            #[trigger] clears(files, t0, m, generation_dir_name((before.generation_id + 1) as u64), c) && match c {
                Err(e) => after == before && r == Err::<(), EngineError>(e) && t1 == m,
                Ok(()) => exists|key: UserKey|
                    key.bytes@ == bytes && key.mode == mode && key.profile == profile
                        && #[trigger] publishes_generation(files, m, t1, before, after, key, fsyncs, r),
            }
    }
}

impl Engine {
    /// Wraps the data key under a raw key. No data is rewritten, and the
    /// engine stays as it is.
    pub fn rotate_key<F: StoreRoot>(&mut self, files: &mut Traced<F>, new_key: &[u8]) -> (r: Result<(), EngineError>)
        ensures
            final(files).spec_files() == old(files).spec_files(),
            *final(self) == *old(self),
            rewraps(old(files).steps(), final(files).steps(), *old(self), new_key@, KeyMode::RawKey, Argon2idProfile::Default, r),
    {
        self.rotate_key_with_mode(files, new_key, KeyMode::RawKey, Argon2idProfile::Default)
    }

    /// Wraps the data key under a passphrase.
    pub fn rotate_passphrase<F: StoreRoot>(&mut self, files: &mut Traced<F>, new_passphrase: &[u8]) -> (r: Result<
        (),
        EngineError,
    >)
        ensures
            final(files).spec_files() == old(files).spec_files(),
            *final(self) == *old(self),
            rewraps(old(files).steps(), final(files).steps(), *old(self), new_passphrase@, KeyMode::Passphrase, Argon2idProfile::Default, r),
    {
        self.rotate_key_with_mode(files, new_passphrase, KeyMode::Passphrase, Argon2idProfile::Default)
    }

    /// Wraps the data key under a passphrase, with a profile.
    pub fn rotate_passphrase_with_profile<F: StoreRoot>(
        &mut self,
        files: &mut Traced<F>,
        new_passphrase: &[u8],
        profile: Argon2idProfile,
    ) -> (r: Result<(), EngineError>)
        ensures
            final(files).spec_files() == old(files).spec_files(),
            *final(self) == *old(self),
            rewraps(old(files).steps(), final(files).steps(), *old(self), new_passphrase@, KeyMode::Passphrase, profile, r),
    {
        self.rotate_key_with_mode(files, new_passphrase, KeyMode::Passphrase, profile)
    }

    fn rotate_key_with_mode<F: StoreRoot>(
        &mut self,
        files: &mut Traced<F>,
        new_key: &[u8],
        mode: KeyMode,
        profile: Argon2idProfile,
    ) -> (r: Result<(), EngineError>)
        ensures
            final(files).spec_files() == old(files).spec_files(),
            *final(self) == *old(self),
            rewraps(old(files).steps(), final(files).steps(), *old(self), new_key@, mode, profile, r),
    {
        if !self.encrypted {
            return Err(EngineError::NotEncrypted { path: self.dir.clone() });
        }
        let key = UserKey { bytes: crate::bytes::copy(new_key), mode, profile };
        let d: &str = self.dir.as_str();
        let r = files.rewrap_crypto(d, &key, self.generation_id);
        assert(key.says() == (KeyV { bytes: new_key@, mode, profile }));
        r
    }

    /// Writes every live entry into a fresh generation under a fresh data key,
    /// wrapped under a raw key, and makes it the active one. `log_fsyncs` are
    /// the synchronisations of the log so far.
    pub fn rotate_key_full<F: StoreRoot>(
        &mut self,
        files: &mut Traced<F>,
        new_key: &[u8],
        log_fsyncs: u64,
    ) -> (r: Result<
        (),
        EngineError,
    >)
        requires
            old(self).wf(),
        ensures
            final(files).spec_files() == old(files).spec_files(),
            final(self).wf(),
            rotates(
                &old(files).spec_files(),
                old(files).steps(),
                final(files).steps(),
                *old(self),
                *final(self),
                new_key@,
                KeyMode::RawKey,
                Argon2idProfile::Default,
                log_fsyncs,
                r,
            ),
    {
        self.rotate_full(files, new_key, KeyMode::RawKey, Argon2idProfile::Default, log_fsyncs)
    }

    /// The same, wrapped under a passphrase.
    pub fn rotate_passphrase_full<F: StoreRoot>(
        &mut self,
        files: &mut Traced<F>,
        new_passphrase: &[u8],
        log_fsyncs: u64,
    ) -> (r: Result<(), EngineError>)
        requires
            old(self).wf(),
        ensures
            final(files).spec_files() == old(files).spec_files(),
            final(self).wf(),
            rotates(
                &old(files).spec_files(),
                old(files).steps(),
                final(files).steps(),
                *old(self),
                *final(self),
                new_passphrase@,
                KeyMode::Passphrase,
                Argon2idProfile::Default,
                log_fsyncs,
                r,
            ),
    {
        self.rotate_full(files, new_passphrase, KeyMode::Passphrase, Argon2idProfile::Default, log_fsyncs)
    }

    /// The same, wrapped under a passphrase, with a profile.
    pub fn rotate_passphrase_full_with_profile<F: StoreRoot>(
        &mut self,
        files: &mut Traced<F>,
        new_passphrase: &[u8],
        profile: Argon2idProfile,
        log_fsyncs: u64,
    ) -> (r: Result<(), EngineError>)
        requires
            old(self).wf(),
        ensures
            final(files).spec_files() == old(files).spec_files(),
            final(self).wf(),
            rotates(
                &old(files).spec_files(),
                old(files).steps(),
                final(files).steps(),
                *old(self),
                *final(self),
                new_passphrase@,
                KeyMode::Passphrase,
                profile,
                log_fsyncs,
                r,
            ),
    {
        self.rotate_full(files, new_passphrase, KeyMode::Passphrase, profile, log_fsyncs)
    }

    fn rotate_full<F: StoreRoot>(
        &mut self,
        files: &mut Traced<F>,
        new_key: &[u8],
        mode: KeyMode,
        profile: Argon2idProfile,
        log_fsyncs: u64,
    ) -> (r: Result<(), EngineError>)
        requires
            old(self).wf(),
        ensures
            final(files).spec_files() == old(files).spec_files(),
            final(self).wf(),
            rotates(
                &old(files).spec_files(),
                old(files).steps(),
                final(files).steps(),
                *old(self),
                *final(self),
                new_key@,
                mode,
                profile,
                log_fsyncs,
                r,
            ),
    {
        let ghost start = *self;
        if !self.encrypted {
            return Err(EngineError::NotEncrypted { path: self.dir.clone() });
        }
        if self.generation_id == u64::MAX {
            return Err(
                EngineError::CorruptGenerationMeta {
                    path: String::from_str("generation.meta"),
                    reason: String::from_str("active generation id cannot be incremented"),
                },
            );
        }
        let generation: u64 = self.generation_id + 1;
        let next_dir = files::generation_dir(generation);
        let c = clear_dir(files, next_dir.as_str());
        let ghost m = files.steps();
        assert(clears(&old(files).spec_files(), old(files).steps(), m, generation_dir_name(generation), c));
        match c {
            Err(e) => {
                return Err(e);
            },
            Ok(()) => {},
        }
        let key = UserKey { bytes: crate::bytes::copy(new_key), mode, profile };
        let r = self.publish_fresh_generation(files, next_dir, generation, &key, log_fsyncs);
        assert(publishes_generation(
            &old(files).spec_files(),
            m,
            files.steps(),
            start,
            *self,
            key,
            log_fsyncs,
            r,
        ));
        r
    }

    fn publish_fresh_generation<F: StoreRoot>(
        &mut self,
        files: &mut Traced<F>,
        next_dir: String,
        generation: u64,
        key: &UserKey,
        log_fsyncs: u64,
    ) -> (r: Result<(), EngineError>)
        requires
            old(self).wf(),
            old(self).generation_id < u64::MAX,
            generation == old(self).generation_id + 1,
            next_dir@ == generation_dir_name(generation),
        ensures
            final(files).spec_files() == old(files).spec_files(),
            final(self).wf(),
            publishes_generation(
                &old(files).spec_files(),
                old(files).steps(),
                final(files).steps(),
                *old(self),
                *final(self),
                *key,
                log_fsyncs,
                r,
            ),
    {
        let ghost start = *self;
        assert((start.generation_id + 1) as u64 == generation);
        let b = build_generation(files, &*self, next_dir.as_str(), generation, key);
        let ghost m = files.steps();
        assert(builds_generation(
            &old(files).spec_files(),
            old(files).steps(),
            m,
            start,
            next_dir@,
            generation,
            *key,
            b,
        ));
        let file = match b {
            Ok(file) => file,
            Err(e) => {
                let d: &str = next_dir.as_str();
                let x = files.remove_dir(d);
                assert(removed_dir(m, files.steps(), generation_dir_name((start.generation_id + 1) as u64), x));
                return Err(e);
            },
        };
        let p = files.publish_generation(generation);
        assert(published_generation(m, files.steps(), (start.generation_id + 1) as u64, p));
        match p {
            Err(e) => {
                return Err(e);
            },
            Ok(()) => {},
        }
        self.move_to(files, next_dir, generation, file, log_fsyncs);
        Ok(())
    }

    /// Follows the published pointer. Nothing here can fail.
    fn move_to<F: StoreRoot>(
        &mut self,
        files: &mut Traced<F>,
        next_dir: String,
        generation: u64,
        file: Option<BlockSstFile>,
        log_fsyncs: u64,
    )
        requires
            old(self).wf(),
            old(self).generation_id < u64::MAX,
            generation == old(self).generation_id + 1,
            next_dir@ == generation_dir_name(generation),
            file matches Some(f) ==> f.wf() && f.id == 0,
        ensures
            final(files).spec_files() == old(files).spec_files(),
            final(self).wf(),
            moves_to(
                &old(files).spec_files(),
                old(files).steps(),
                final(files).steps(),
                *old(self),
                *final(self),
                file,
                log_fsyncs,
            ),
    {
        let ghost start = *self;
        let input_bytes: u64 = sum_table_bytes(&self.current.ssts);
        let went = self.current.clone();
        let mut i: usize = 0;
        assert(ids_of(went.ssts@).subrange(0, 0) =~= Seq::<u64>::empty());
        while i < went.ssts.len()
            invariant
                went == start.current,
                i <= went.ssts@.len(),
                start.wf(),
                *self == (Engine { block_cache: self.block_cache, ..start }),
                cache_drops(
                    start.block_cache,
                    self.block_cache,
                    ids_of(went.ssts@).subrange(0, i as int),
                ),
            decreases went.ssts@.len() - i,
        {
            let id: u64 = went.ssts[i].id;
            proof {
                let more = ids_of(went.ssts@).subrange(0, i + 1);
                assert(more.drop_last() =~= ids_of(went.ssts@).subrange(0, i as int));
                assert(more.last() == id);
            }
            self.block_cache.invalidate_sst(id);
            i = i + 1;
        }
        assert(ids_of(went.ssts@).subrange(0, i as int) =~= ids_of(went.ssts@));
        let output_bytes: u64 = match &file {
            Some(f) => f.file_bytes,
            None => 0,
        };
        let mut ssts: Vec<Arc<BlockSstFile>> = Vec::new();
        self.next_sst_id = match &file {
            Some(_) => 1,
            None => 0,
        };
        if let Some(f) = file {
            ssts.push(Arc::new(f));
        }
        self.current = Arc::new(Version { manifest_generation: 0, ssts });
        self.memtable.clear();
        self.generation_id = generation;
        self.counters.fsync_count = self.counters.fsync_count.wrapping_add(log_fsyncs);
        self.counters.compaction_count = self.counters.compaction_count.wrapping_add(1);
        self.counters.compaction_input_bytes = self.counters.compaction_input_bytes.wrapping_add(input_bytes);
        self.counters.compaction_output_bytes = self.counters.compaction_output_bytes.wrapping_add(output_bytes);
        self.counters.bytes_written = self.counters.bytes_written.wrapping_add(output_bytes);
        let failures: u64 = io::gc_old_generation(
            files,
            self.dir.as_str(),
            generation,
            self.generation_remove_failures,
        );
        self.generation_remove_failures = failures;
        self.dir = next_dir;
    }
}

/// A full rotation keeps every live entry: its one table, if it needs one,
/// holds the values that the store held, the unflushed ones too, and no
/// tombstone.
pub proof fn a_full_rotation_keeps_every_live_entry<F: StoreRoot>(
    files: &F,
    t0: Seq<Step>,
    t1: Seq<Step>,
    before: Engine,
    dir: Seq<char>,
    file: Option<BlockSstFile>,
    tables: Seq<Seq<Seq<Row>>>,
) -> (fresh: Seq<Seq<Seq<Row>>>)
    requires
        before.wf(),
        holds_tables(files, before.current.ssts@, tables),
        copies(files, t0, t1, before, dir, Ok(file)),
    ensures
        fresh.len() == tables_of(file).len(),
        forall|i: int| 0 <= i < fresh.len() ==> describes_table(&tables_of(file)[i], #[trigger] fresh[i]),
        live(contents(fresh, Seq::empty())) == live(contents(tables, before.memtable.spec_rows())),
{
    let ssts = before.current.ssts@;
    let mem = before.memtable.spec_rows();
    let size = before.options.block_size;
    let (found, run) = choose|found: Seq<Seq<Row>>, run: Seq<Row>|
        {
            &&& #[trigger] reads_tables(files, ssts, found)
            &&& #[trigger] is_live_run(run, put_rows(layered(found), mem))
            &&& if run.len() == 0 {
                readies(t0, t1, dir, None, Ok(file))
            } else {
                exists|s: Result<BlockSstFile, EngineError>, m: Seq<Step>|
                    #[trigger] stages(files, t0, m, dir, 0, run, size, s) && match s {
                        Err(e) => false,
                        Ok(f) => readies(m, t1, dir, Some(f), Ok(file)),
                    }
            }
        };
    assert(found =~= table_layers(tables, tables.len() as int)) by {
        assert forall|i: int| 0 <= i < found.len() implies found[i] == all_rows(tables[i]) by {
            assert(holds_table(files, &*ssts[i], tables[i]));
            lemma_whole_table(files, &*ssts[i], tables[i], found[i]);
        }
    }
    let map = contents(tables, mem);
    let none = Seq::<Row>::empty();
    let blocks = split_blocks(run, size as nat);
    if run.len() == 0 {
        let fresh = Seq::<Seq<Seq<Row>>>::empty();
        assert(table_layers(fresh, 0) =~= Seq::<Seq<Row>>::empty());
        assert(rows_map(run) =~= Map::<Seq<u8>, Slot>::empty());
        assert forall|k: Seq<u8>| !(#[trigger] live(map).contains_key(k)) by {
            if live(map).contains_key(k) {
                assert(without_tombstones(map).contains_key(k));
            }
        }
        assert(live(contents(fresh, none)) =~= live(map));
        fresh
    } else {
        let (s, m) = choose|s: Result<BlockSstFile, EngineError>, m: Seq<Step>|
            #[trigger] stages(files, t0, m, dir, 0, run, size, s) && match s {
                Err(e) => false,
                Ok(f) => readies(m, t1, dir, Some(f), Ok(file)),
            };
        write_laws::a_staged_table_holds_its_rows(files, t0, m, dir, 0, run, size, s->Ok_0);
        let fresh = seq![blocks];
        assert(table_layers(fresh, 1) =~= seq![run]);
        assert(seq![run].drop_last() =~= Seq::<Seq<Row>>::empty());
        assert(layered(Seq::<Seq<Row>>::empty()) == Map::<Seq<u8>, Slot>::empty());
        assert(layered(seq![run]) == rows_map(run));
        assert(contents(fresh, none) == rows_map(run));
        assert(live(without_tombstones(map)) =~= live(map));
        fresh
    }
}

} // verus!
