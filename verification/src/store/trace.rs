//! The changes that the engine makes on disk, in order.
//!
//! Everything that may change a file goes through [`Traced`], which makes the
//! call and records it with its answer. The traits take a [`Permit`] for such
//! a call, and only [`Traced`] has one to give: what is not in the trace was
//! not done.
use crate::error::EngineError;
use crate::key::Key;
use crate::store::engine::write::WalRecord;
use crate::store::engine::StoreFiles;
use crate::store::files::{KeyV, StoreMeta, StoreRoot, UserKey};
use crate::store::rows::{rows_view, Row};
use crate::store::sst::TableFiles;
use crate::store::Value;
use vstd::prelude::*;

verus! {

/// The leave to change a file. Nothing outside this module can make one.
#[derive(Debug)]
pub struct Permit {
    granted: bool,
}

/// One call that may change a file, with its answer.
#[allow(inconsistent_fields)]
pub enum Step {
    WriteFile { path: Seq<char>, bytes: Seq<u8>, r: Result<(), EngineError> },
    PublishManifest { dir: Seq<char>, generation: u64, live: Seq<u64>, r: Result<(), EngineError> },
    AppendPut { dir: Seq<char>, key: Seq<u8>, value: Seq<u8>, r: Result<u64, EngineError> },
    AppendDelete { dir: Seq<char>, key: Seq<u8>, r: Result<u64, EngineError> },
    AppendBatch { dir: Seq<char>, ops: Seq<Row>, r: Result<u64, EngineError> },
    ResetLog { dir: Seq<char>, r: Result<(), EngineError> },
    Retire { path: Seq<char> },
    CreateRoot { r: Result<(), EngineError> },
    Lock { r: Result<bool, EngineError> },
    WriteStoreMeta { meta: StoreMeta, r: Result<(), EngineError> },
    CreateCrypto { dir: Seq<char>, key: KeyV, generation: Option<u64>, r: Result<(), EngineError> },
    RewrapCrypto { dir: Seq<char>, key: KeyV, generation: u64, r: Result<(), EngineError> },
    OpenLog { dir: Seq<char>, r: Result<u64, EngineError> },
    ReplayLog { dir: Seq<char>, r: Result<Vec<WalRecord>, EngineError> },
    RemoveFile { path: Seq<char>, r: bool },
    RemoveDir { path: Seq<char>, r: Result<(), EngineError> },
    CreateDir { path: Seq<char>, r: Result<(), EngineError> },
    PublishGeneration { generation: u64, r: Result<(), EngineError> },
    WriteTable { path: Seq<char>, rows: Seq<Row>, r: Result<(), EngineError> },
}

/// Files together with the changes made to them so far.
pub struct Traced<F> {
    files: F,
    steps: Ghost<Seq<Step>>,
}

impl<F> Traced<F> {
    /// The files.
    pub closed spec fn spec_files(&self) -> F {
        self.files
    }

    /// The changes so far, oldest first.
    pub closed spec fn steps(&self) -> Seq<Step> {
        self.steps@
    }

    /// Takes files over; no change was made yet.
    pub fn new(files: F) -> (traced: Traced<F>)
        ensures
            traced.spec_files() == files,
            traced.steps() == Seq::<Step>::empty(),
    {
        Traced { files, steps: Ghost(Seq::empty()) }
    }

    /// The files, for reading.
    pub fn files(&self) -> (files: &F)
        ensures
            *files == self.spec_files(),
    {
        &self.files
    }

    /// Gives the files back.
    pub fn into_files(self) -> (files: F)
        ensures
            files == self.spec_files(),
    {
        self.files
    }
}

/// From `t0` to `t1` a file was written.
pub open spec fn wrote_file(
    t0: Seq<Step>,
    t1: Seq<Step>,
    path: Seq<char>,
    bytes: Seq<u8>,
    r: Result<(),
    EngineError>,
) -> bool {
    t1 == t0.push(Step::WriteFile { path, bytes, r })
}

/// From `t0` to `t1` a manifest was published.
pub open spec fn published_manifest(
    t0: Seq<Step>,
    t1: Seq<Step>,
    dir: Seq<char>,
    generation: u64,
    live: Seq<u64>,
    r: Result<(),
    EngineError>,
) -> bool {
    t1 == t0.push(Step::PublishManifest { dir, generation, live, r })
}

/// From `t0` to `t1` a put was appended.
pub open spec fn appended_put(
    t0: Seq<Step>,
    t1: Seq<Step>,
    dir: Seq<char>,
    key: Seq<u8>,
    value: Seq<u8>,
    r: Result<u64, EngineError>,
) -> bool {
    t1 == t0.push(Step::AppendPut { dir, key, value, r })
}

/// From `t0` to `t1` a delete was appended.
pub open spec fn appended_delete(
    t0: Seq<Step>,
    t1: Seq<Step>,
    dir: Seq<char>,
    key: Seq<u8>,
    r: Result<u64, EngineError>,
) -> bool {
    t1 == t0.push(Step::AppendDelete { dir, key, r })
}

/// From `t0` to `t1` a batch was appended.
pub open spec fn appended_batch(
    t0: Seq<Step>,
    t1: Seq<Step>,
    dir: Seq<char>,
    ops: Seq<Row>,
    r: Result<u64, EngineError>,
) -> bool {
    t1 == t0.push(Step::AppendBatch { dir, ops, r })
}

/// From `t0` to `t1` a log was emptied.
pub open spec fn reset(t0: Seq<Step>, t1: Seq<Step>, dir: Seq<char>, r: Result<(), EngineError>) -> bool {
    t1 == t0.push(Step::ResetLog { dir, r })
}

/// From `t0` to `t1` a table was given up.
pub open spec fn gave_up(t0: Seq<Step>, t1: Seq<Step>, path: Seq<char>) -> bool {
    t1 == t0.push(Step::Retire { path })
}

/// From `t0` to `t1` the root was made.
pub open spec fn made_root(t0: Seq<Step>, t1: Seq<Step>, r: Result<(), EngineError>) -> bool {
    t1 == t0.push(Step::CreateRoot { r })
}

/// From `t0` to `t1` the writer lock was asked for.
pub open spec fn locked(t0: Seq<Step>, t1: Seq<Step>, r: Result<bool, EngineError>) -> bool {
    t1 == t0.push(Step::Lock { r })
}

/// From `t0` to `t1` the store's record was written.
pub open spec fn wrote_store_meta(t0: Seq<Step>, t1: Seq<Step>, meta: StoreMeta, r: Result<(), EngineError>) -> bool {
    t1 == t0.push(Step::WriteStoreMeta { meta, r })
}

/// From `t0` to `t1` a data key was made.
pub open spec fn made_key(
    t0: Seq<Step>,
    t1: Seq<Step>,
    dir: Seq<char>,
    key: KeyV,
    generation: Option<u64>,
    r: Result<(),
    EngineError>,
) -> bool {
    t1 == t0.push(Step::CreateCrypto { dir, key, generation, r })
}

/// From `t0` to `t1` a data key was wrapped anew.
pub open spec fn rewrapped(
    t0: Seq<Step>,
    t1: Seq<Step>,
    dir: Seq<char>,
    key: KeyV,
    generation: u64,
    r: Result<(),
    EngineError>,
) -> bool {
    t1 == t0.push(Step::RewrapCrypto { dir, key, generation, r })
}

/// From `t0` to `t1` a log was opened.
pub open spec fn opened_log(t0: Seq<Step>, t1: Seq<Step>, dir: Seq<char>, r: Result<u64, EngineError>) -> bool {
    t1 == t0.push(Step::OpenLog { dir, r })
}

/// From `t0` to `t1` a log was replayed.
pub open spec fn replayed_log(
    t0: Seq<Step>,
    t1: Seq<Step>,
    dir: Seq<char>,
    r: Result<Vec<WalRecord>, EngineError>,
) -> bool {
    t1 == t0.push(Step::ReplayLog { dir, r })
}

/// From `t0` to `t1` the removal of a file was tried.
pub open spec fn removed_file(t0: Seq<Step>, t1: Seq<Step>, path: Seq<char>, r: bool) -> bool {
    t1 == t0.push(Step::RemoveFile { path, r })
}

/// From `t0` to `t1` the removal of a directory was tried.
pub open spec fn removed_dir(t0: Seq<Step>, t1: Seq<Step>, path: Seq<char>, r: Result<(), EngineError>) -> bool {
    t1 == t0.push(Step::RemoveDir { path, r })
}

/// From `t0` to `t1` a directory was made.
pub open spec fn made_dir(t0: Seq<Step>, t1: Seq<Step>, path: Seq<char>, r: Result<(), EngineError>) -> bool {
    t1 == t0.push(Step::CreateDir { path, r })
}

/// From `t0` to `t1` the pointer was published.
pub open spec fn published_generation(
    t0: Seq<Step>,
    t1: Seq<Step>,
    generation: u64,
    r: Result<(),
    EngineError>,
) -> bool {
    t1 == t0.push(Step::PublishGeneration { generation, r })
}

/// From `t0` to `t1` a whole table was written.
pub open spec fn wrote_table(
    t0: Seq<Step>,
    t1: Seq<Step>,
    path: Seq<char>,
    rows: Seq<Row>,
    r: Result<(), EngineError>,
) -> bool {
    t1 == t0.push(Step::WriteTable { path, rows, r })
}

/// `t1` goes on from `t0`.
pub open spec fn goes_on(t0: Seq<Step>, t1: Seq<Step>) -> bool {
    t0.len() <= t1.len() && t1.take(t0.len() as int) == t0
}

/// One step after `t0`: cut short, it was made or not.
pub proof fn lemma_cut_one(t0: Seq<Step>, step: Step, n: int)
    requires
        t0.len() <= n <= t0.len() + 1,
    ensures
        goes_on(t0, t0.push(step)),
        n == t0.len() ==> t0.push(step).take(n) == t0,
        n == t0.len() + 1 ==> t0.push(step).take(n) == t0.push(step),
{
    assert(t0.push(step).take(t0.len() as int) =~= t0);
    if n == t0.len() + 1 {
        assert(t0.push(step).take(n) =~= t0.push(step));
    }
}

/// Cutting later steps short leaves the earlier ones as they are.
pub proof fn lemma_cut_early(t0: Seq<Step>, m: Seq<Step>, t1: Seq<Step>, n: int)
    requires
        goes_on(t0, m),
        goes_on(m, t1),
        0 <= n <= m.len(),
    ensures
        goes_on(t0, t1),
        t1.take(n) == m.take(n),
{
    assert(t1.take(n) =~= t1.take(m.len() as int).take(n));
    assert(t1.take(t0.len() as int) =~= t1.take(m.len() as int).take(t0.len() as int));
}

impl<F: StoreFiles> Traced<F> {
    /// Writes a whole file, durably.
    pub fn write_file(&mut self, path: &str, bytes: &Vec<u8>) -> (r: Result<(), EngineError>)
        ensures
            final(self).spec_files() == old(self).spec_files(),
            wrote_file(old(self).steps(), final(self).steps(), path@, bytes@, r),
    {
        let permit = Permit { granted: true };
        let r = self.files.write_file(&permit, path, bytes);
        proof {
            self.steps@ = self.steps@.push(Step::WriteFile { path: path@, bytes: bytes@, r });
        }
        r
    }

    /// Makes a manifest of the live tables durable.
    pub fn publish_manifest(&mut self, dir: &str, generation: u64, live: &Vec<u64>) -> (r: Result<(), EngineError>)
        ensures
            final(self).spec_files() == old(self).spec_files(),
            published_manifest(old(self).steps(), final(self).steps(), dir@, generation, live@, r),
    {
        let permit = Permit { granted: true };
        let r = self.files.publish_manifest(&permit, dir, generation, live);
        proof {
            self.steps@ = self.steps@.push(Step::PublishManifest { dir: dir@, generation, live: live@, r });
        }
        r
    }

    /// Appends one put to the log of `dir`.
    pub fn append_put(&mut self, dir: &str, key: &[u8], value: &[u8]) -> (r: Result<u64, EngineError>)
        ensures
            final(self).spec_files() == old(self).spec_files(),
            appended_put(old(self).steps(), final(self).steps(), dir@, key@, value@, r),
    {
        let permit = Permit { granted: true };
        let r = self.files.append_put(&permit, dir, key, value);
        proof {
            self.steps@ = self.steps@.push(Step::AppendPut { dir: dir@, key: key@, value: value@, r });
        }
        r
    }

    /// Appends one delete to the log of `dir`.
    pub fn append_delete(&mut self, dir: &str, key: &[u8]) -> (r: Result<u64, EngineError>)
        ensures
            final(self).spec_files() == old(self).spec_files(),
            appended_delete(old(self).steps(), final(self).steps(), dir@, key@, r),
    {
        let permit = Permit { granted: true };
        let r = self.files.append_delete(&permit, dir, key);
        proof {
            self.steps@ = self.steps@.push(Step::AppendDelete { dir: dir@, key: key@, r });
        }
        r
    }

    /// Appends several operations as one record.
    pub fn append_batch(&mut self, dir: &str, ops: &Vec<(Key, Option<Value>)>) -> (r: Result<u64, EngineError>)
        ensures
            final(self).spec_files() == old(self).spec_files(),
            appended_batch(old(self).steps(), final(self).steps(), dir@, rows_view(ops@), r),
    {
        let permit = Permit { granted: true };
        let r = self.files.append_batch(&permit, dir, ops);
        proof {
            self.steps@ = self.steps@.push(Step::AppendBatch { dir: dir@, ops: rows_view(ops@), r });
        }
        r
    }

    /// Empties the log of `dir`.
    pub fn reset_log(&mut self, dir: &str) -> (r: Result<(), EngineError>)
        ensures
            final(self).spec_files() == old(self).spec_files(),
            reset(old(self).steps(), final(self).steps(), dir@, r),
    {
        let permit = Permit { granted: true };
        let r = self.files.reset_log(&permit, dir);
        proof {
            self.steps@ = self.steps@.push(Step::ResetLog { dir: dir@, r });
        }
        r
    }

    /// Gives up the file of a table that is no longer live.
    pub fn retire(&mut self, path: &str)
        ensures
            final(self).spec_files() == old(self).spec_files(),
            gave_up(old(self).steps(), final(self).steps(), path@),
    {
        let permit = Permit { granted: true };
        self.files.retire(&permit, path);
        proof {
            self.steps@ = self.steps@.push(Step::Retire { path: path@ });
        }
    }
}

impl<F: StoreRoot> Traced<F> {
    /// Makes the root, if it is not there.
    pub fn create_root(&mut self) -> (r: Result<(), EngineError>)
        ensures
            final(self).spec_files() == old(self).spec_files(),
            made_root(old(self).steps(), final(self).steps(), r),
    {
        let permit = Permit { granted: true };
        let r = self.files.create_root(&permit);
        proof {
            self.steps@ = self.steps@.push(Step::CreateRoot { r });
        }
        r
    }

    /// Takes the writer lock; `false` if another process holds it.
    pub fn lock_exclusive(&mut self) -> (r: Result<bool, EngineError>)
        ensures
            final(self).spec_files() == old(self).spec_files(),
            locked(old(self).steps(), final(self).steps(), r),
    {
        let permit = Permit { granted: true };
        let r = self.files.lock_exclusive(&permit);
        proof {
            self.steps@ = self.steps@.push(Step::Lock { r });
        }
        r
    }

    /// Writes the store's record.
    pub fn write_store_meta(&mut self, meta: &StoreMeta) -> (r: Result<(), EngineError>)
        ensures
            final(self).spec_files() == old(self).spec_files(),
            wrote_store_meta(old(self).steps(), final(self).steps(), *meta, r),
    {
        let permit = Permit { granted: true };
        let r = self.files.write_store_meta(&permit, meta);
        proof {
            self.steps@ = self.steps@.push(Step::WriteStoreMeta { meta: *meta, r });
        }
        r
    }

    /// Makes a data key and wraps it under `key`.
    pub fn create_crypto(&mut self, dir: &str, key: &UserKey, generation: Option<u64>) -> (r: Result<(), EngineError>)
        ensures
            final(self).spec_files() == old(self).spec_files(),
            made_key(old(self).steps(), final(self).steps(), dir@, key.says(), generation, r),
    {
        let permit = Permit { granted: true };
        let r = self.files.create_crypto(&permit, dir, key, generation);
        proof {
            self.steps@ = self.steps@.push(Step::CreateCrypto { dir: dir@, key: key.says(), generation, r });
        }
        r
    }

    /// Wraps the data key in use under `key`.
    pub fn rewrap_crypto(&mut self, dir: &str, key: &UserKey, generation: u64) -> (r: Result<(), EngineError>)
        ensures
            final(self).spec_files() == old(self).spec_files(),
            rewrapped(old(self).steps(), final(self).steps(), dir@, key.says(), generation, r),
    {
        let permit = Permit { granted: true };
        let r = self.files.rewrap_crypto(&permit, dir, key, generation);
        proof {
            self.steps@ = self.steps@.push(Step::RewrapCrypto { dir: dir@, key: key.says(), generation, r });
        }
        r
    }

    /// Opens the log, made if absent, and gives its length.
    pub fn open_log(&mut self, dir: &str) -> (r: Result<u64, EngineError>)
        ensures
            final(self).spec_files() == old(self).spec_files(),
            opened_log(old(self).steps(), final(self).steps(), dir@, r),
    {
        let permit = Permit { granted: true };
        let r = self.files.open_log(&permit, dir);
        proof {
            self.steps@ = self.steps@.push(Step::OpenLog { dir: dir@, r });
        }
        r
    }

    /// The operations of the log, a torn last record cut off.
    pub fn replay_log(&mut self, dir: &str) -> (r: Result<Vec<WalRecord>, EngineError>)
        ensures
            final(self).spec_files() == old(self).spec_files(),
            replayed_log(old(self).steps(), final(self).steps(), dir@, r),
    {
        let permit = Permit { granted: true };
        let r = self.files.replay_log(&permit, dir);
        proof {
            self.steps@ = self.steps@.push(Step::ReplayLog { dir: dir@, r });
        }
        r
    }

    /// One attempt to remove a file.
    pub fn remove_file(&mut self, path: &str) -> (r: bool)
        ensures
            final(self).spec_files() == old(self).spec_files(),
            removed_file(old(self).steps(), final(self).steps(), path@, r),
    {
        let permit = Permit { granted: true };
        let r = self.files.remove_file(&permit, path);
        proof {
            self.steps@ = self.steps@.push(Step::RemoveFile { path: path@, r });
        }
        r
    }

    /// Removes a directory with all it holds.
    pub fn remove_dir(&mut self, path: &str) -> (r: Result<(), EngineError>)
        ensures
            final(self).spec_files() == old(self).spec_files(),
            removed_dir(old(self).steps(), final(self).steps(), path@, r),
    {
        let permit = Permit { granted: true };
        let r = self.files.remove_dir(&permit, path);
        proof {
            self.steps@ = self.steps@.push(Step::RemoveDir { path: path@, r });
        }
        r
    }

    /// Makes a directory.
    pub fn create_dir(&mut self, path: &str) -> (r: Result<(), EngineError>)
        ensures
            final(self).spec_files() == old(self).spec_files(),
            made_dir(old(self).steps(), final(self).steps(), path@, r),
    {
        let permit = Permit { granted: true };
        let r = self.files.create_dir(&permit, path);
        proof {
            self.steps@ = self.steps@.push(Step::CreateDir { path: path@, r });
        }
        r
    }

    /// Points the store at a generation, durably.
    pub fn publish_generation(&mut self, generation: u64) -> (r: Result<(), EngineError>)
        ensures
            final(self).spec_files() == old(self).spec_files(),
            published_generation(old(self).steps(), final(self).steps(), generation, r),
    {
        let permit = Permit { granted: true };
        let r = self.files.publish_generation(&permit, generation);
        proof {
            self.steps@ = self.steps@.push(Step::PublishGeneration { generation, r });
        }
        r
    }

    /// Waits a moment; no file changes.
    pub fn pause(&mut self)
        ensures
            *final(self) == *old(self),
    {
        self.files.pause();
    }
}

impl<F: TableFiles> Traced<F> {
    /// Writes a whole table, durably.
    pub fn write_table(&mut self, path: &str, entries: &Vec<(Key, Option<Value>)>) -> (r: Result<(), EngineError>)
        ensures
            final(self).spec_files() == old(self).spec_files(),
            wrote_table(old(self).steps(), final(self).steps(), path@, rows_view(entries@), r),
    {
        let permit = Permit { granted: true };
        let r = self.files.write_table(&permit, path, entries);
        proof {
            self.steps@ = self.steps@.push(Step::WriteTable { path: path@, rows: rows_view(entries@), r });
        }
        r
    }
}

} // verus!
