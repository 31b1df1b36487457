//! Sweeping up what no generation needs any more.
//!
//! A sweep never fails: what cannot be removed stays as an inert orphan for
//! the next one, and is counted.
use super::Engine;
use crate::error::EngineError;
use crate::store::files;
use crate::store::files::{generation_dir_name, generation_of, gives_readable, has_sst_extension, DirEntry, StoreRoot};
use crate::store::sst_block;
use crate::store::sst_block::joined;
use crate::store::trace::{goes_on, lemma_cut_early, removed_dir, removed_file, Step, Traced};
use crate::text;
use crate::text::ends_in;
use vstd::prelude::*;

verus! {

/// Attempts at one removal.
pub const REMOVE_ATTEMPTS: u32 = 3;

/// Something to remove.
#[derive(Debug)]
pub struct Doomed {
    pub path: String,
    pub is_dir: bool,
}

/// Something to remove.
pub struct DoomedV {
    pub path: Seq<char>,
    pub is_dir: bool,
}

impl Doomed {
    /// What is to be removed.
    pub open spec fn says(&self) -> DoomedV {
        DoomedV { path: self.path@, is_dir: self.is_dir }
    }
}

/// What is to be removed, in order.
pub open spec fn doomed_of(list: Seq<Doomed>) -> Seq<DoomedV> {
    Seq::new(list.len(), |i: int| list[i].says())
}

/// A file of the first generation that a later one has no use for: a table, or
/// the temporary file of one.
pub open spec fn is_table_file(name: Seq<char>) -> bool {
    has_sst_extension(name) || ends_in(name, ".sst.tmp"@)
}

/// The table files among entries of the root.
pub open spec fn table_files(entries: Seq<DirEntry>) -> Seq<DoomedV>
    decreases entries.len(),
{
    if entries.len() == 0 {
        Seq::empty()
    } else {
        let rest = table_files(entries.drop_last());
        if is_table_file(entries.last().name@) {
            rest.push(DoomedV { path: entries.last().name@, is_dir: false })
        } else {
            rest
        }
    }
}

/// The log and the key records at the root.
pub open spec fn root_records() -> Seq<DoomedV> {
    seq![
        DoomedV { path: "wal.log"@, is_dir: false },
        DoomedV { path: "crypto.meta"@, is_dir: false },
        DoomedV { path: "crypto.meta.tmp"@, is_dir: false },
    ]
}

/// The generations among entries of the root that are not the current one.
pub open spec fn other_generations(entries: Seq<DirEntry>, current: u64) -> Seq<DoomedV>
    decreases entries.len(),
{
    if entries.len() == 0 {
        Seq::empty()
    } else {
        let rest = other_generations(entries.drop_last(), current);
        match generation_of(entries.last().name@) {
            Some(id) => if id != current {
                rest.push(DoomedV { path: entries.last().name@, is_dir: true })
            } else {
                rest
            },
            None => rest,
        }
    }
}

/// The step of one attempt to remove something, with `ok` telling its end.
pub open spec fn attempts(t0: Seq<Step>, t1: Seq<Step>, what: DoomedV, ok: bool) -> bool {
    if what.is_dir {
        exists|r: Result<(), EngineError>| #[trigger] removed_dir(t0, t1, what.path, r) && ok == (r is Ok)
    } else {
        removed_file(t0, t1, what.path, ok)
    }
}

/// From `t0` to `t1` a removal was tried `tries` times, none but the last with
/// success.
pub open spec fn tried(t0: Seq<Step>, t1: Seq<Step>, what: DoomedV, tries: nat, ok: bool) -> bool
    decreases tries,
{
    if tries == 0 {
        t1 == t0 && !ok
    } else {
        exists|m: Seq<Step>|
            tried(t0, m, what, (tries - 1) as nat, false) && #[trigger] attempts(m, t1, what, ok)
    }
}

/// From `t0` to `t1` a removal was tried until it succeeded, or as often as is
/// allowed before giving up.
pub open spec fn removes(t0: Seq<Step>, t1: Seq<Step>, what: DoomedV, ok: bool) -> bool {
    exists|tries: nat|
        1 <= tries <= REMOVE_ATTEMPTS && #[trigger] tried(t0, t1, what, tries, ok) && (ok || tries == REMOVE_ATTEMPTS)
}

/// From `t0` to `t1` the removals of `list` were made, in order, failing where
/// `failed` says so.
pub open spec fn sweeps(t0: Seq<Step>, t1: Seq<Step>, list: Seq<DoomedV>, failed: Seq<bool>) -> bool
    decreases list.len(),
{
    if list.len() == 0 {
        t1 == t0 && failed.len() == 0
    } else {
        failed.len() == list.len() && exists|m: Seq<Step>, ok: bool|
            sweeps(t0, m, list.drop_last(), failed.drop_last()) && #[trigger] removes(m, t1, list.last(), ok)
                && failed.last() == !ok
    }
}

/// A counter of failures after the removals of `list`.
pub open spec fn counts_sweep(t0: Seq<Step>, t1: Seq<Step>, list: Seq<DoomedV>, before: u64, after: u64) -> bool {
    exists|failed: Seq<bool>| #[trigger] sweeps(t0, t1, list, failed) && after == counted(before, failed)
}

/// A counter after some failures, one by one.
pub open spec fn counted(before: u64, failed: Seq<bool>) -> u64
    decreases failed.len(),
{
    if failed.len() == 0 {
        before
    } else if failed.last() {
        counted(before, failed.drop_last()).wrapping_add(1)
    } else {
        counted(before, failed.drop_last())
    }
}

fn attempt<F: StoreRoot>(files: &mut Traced<F>, what: &Doomed) -> (ok: bool)
    ensures
        final(files).spec_files() == old(files).spec_files(),
        attempts(old(files).steps(), final(files).steps(), what.says(), ok),
{
    let p: &str = what.path.as_str();
    if what.is_dir {
        let r = files.remove_dir(p);
        assert(removed_dir(old(files).steps(), files.steps(), what.says().path, r));
        r.is_ok()
    } else {
        files.remove_file(p)
    }
}

/// Whether to try a removal again after `made` attempts, the last of which
/// ended as `ok` says.
pub fn tries_again(made: u32, ok: bool) -> (r: bool)
    ensures
        r == (!ok && made < REMOVE_ATTEMPTS),
{
    !ok && made < REMOVE_ATTEMPTS
}

/// Tries a removal a few times, a moment apart; tells whether one attempt
/// succeeded.
pub fn remove_path_with_retries<F: StoreRoot>(files: &mut Traced<F>, what: &Doomed) -> (ok: bool)
    ensures
        final(files).spec_files() == old(files).spec_files(),
        removes(old(files).steps(), final(files).steps(), what.says(), ok),
{
    let ghost t0 = files.steps();
    let mut made: u32 = 1;
    assert(tried(t0, t0, what.says(), 0, false));
    let mut ok = attempt(files, what);
    assert(attempts(t0, files.steps(), what.says(), ok));
    assert(tried(t0, files.steps(), what.says(), 1, ok));
    while tries_again(made, ok)
        invariant
            1 <= made <= REMOVE_ATTEMPTS,
            files.spec_files() == old(files).spec_files(),
            tried(t0, files.steps(), what.says(), made as nat, ok),
        decreases REMOVE_ATTEMPTS - made,
    {
        files.pause();
        let ghost m = files.steps();
        ok = attempt(files, what);
        made = made + 1;
        assert(tried(t0, m, what.says(), (made - 1) as nat, false));
        assert(attempts(m, files.steps(), what.says(), ok));
    }
    assert(tried(t0, files.steps(), what.says(), made as nat, ok));
    ok
}

/// Removes what is doomed, in order, and counts the failures over `before`.
pub fn sweep<F: StoreRoot>(files: &mut Traced<F>, list: &Vec<Doomed>, before: u64) -> (after: u64)
    ensures
        final(files).spec_files() == old(files).spec_files(),
        counts_sweep(old(files).steps(), final(files).steps(), doomed_of(list@), before, after),
{
    let ghost t0 = files.steps();
    let ghost view = doomed_of(list@);
    let ghost mut failed: Seq<bool> = Seq::empty();
    let mut count: u64 = before;
    let mut i: usize = 0;
    assert(view.subrange(0, 0) =~= Seq::<DoomedV>::empty());
    while i < list.len()
        invariant
            view == doomed_of(list@),
            i <= list@.len(),
            failed.len() == i,
            files.spec_files() == old(files).spec_files(),
            sweeps(t0, files.steps(), view.subrange(0, i as int), failed),
            count == counted(before, failed),
        decreases list@.len() - i,
    {
        let ghost m = files.steps();
        let ok = remove_path_with_retries(files, &list[i]);
        proof {
            let more = view.subrange(0, i + 1);
            assert(more.drop_last() =~= view.subrange(0, i as int));
            assert(more.last() == list@[i as int].says());
            assert(failed.push(!ok).drop_last() =~= failed);
            assert(removes(m, files.steps(), more.last(), ok));
            failed = failed.push(!ok);
        }
        if !ok {
            count = count.wrapping_add(1);
        }
        i = i + 1;
    }
    assert(view.subrange(0, i as int) =~= view);
    assert(sweeps(t0, files.steps(), view, failed));
    count
}

fn file(name: &str) -> (d: Doomed)
    ensures
        d.says() == (DoomedV { path: name@, is_dir: false }),
{
    Doomed { path: String::from_str(name), is_dir: false }
}

/// The log and the key records at the root.
fn doom_root_records() -> (list: Vec<Doomed>)
    ensures
        doomed_of(list@) == root_records(),
{
    let mut list: Vec<Doomed> = Vec::new();
    list.push(file("wal.log"));
    list.push(file("crypto.meta"));
    list.push(file("crypto.meta.tmp"));
    assert(doomed_of(list@) =~= root_records());
    list
}

/// The table files among entries of the root.
pub fn doom_table_files(entries: &Vec<DirEntry>) -> (list: Vec<Doomed>)
    ensures
        doomed_of(list@) == table_files(entries@),
{
    let mut list: Vec<Doomed> = Vec::new();
    let mut i: usize = 0;
    proof {
        assert(entries@.subrange(0, 0) =~= Seq::<DirEntry>::empty());
        assert(doomed_of(list@) =~= Seq::<DoomedV>::empty());
    }
    while i < entries.len()
        invariant
            i <= entries@.len(),
            doomed_of(list@) == table_files(entries@.subrange(0, i as int)),
        decreases entries@.len() - i,
    {
        let ghost before = doomed_of(list@);
        proof {
            let more = entries@.subrange(0, i + 1);
            assert(more.drop_last() =~= entries@.subrange(0, i as int));
            assert(more.last() == entries@[i as int]);
        }
        let name: &str = entries[i].name.as_str();
        if files::is_sst_name(name) || text::ends_with(name, ".sst.tmp") {
            let d = file(name);
            let ghost says = d.says();
            list.push(d);
            assert(doomed_of(list@) =~= before.push(says));
        }
        i = i + 1;
    }
    assert(entries@.subrange(0, i as int) =~= entries@);
    list
}

/// The generations among entries of the root that are not the current one.
pub fn doom_generations(entries: &Vec<DirEntry>, current: u64) -> (list: Vec<Doomed>)
    ensures
        doomed_of(list@) == other_generations(entries@, current),
{
    let mut list: Vec<Doomed> = Vec::new();
    let mut i: usize = 0;
    proof {
        assert(entries@.subrange(0, 0) =~= Seq::<DirEntry>::empty());
        assert(doomed_of(list@) =~= Seq::<DoomedV>::empty());
    }
    while i < entries.len()
        invariant
            i <= entries@.len(),
            doomed_of(list@) == other_generations(entries@.subrange(0, i as int), current),
        decreases entries@.len() - i,
    {
        let ghost before = doomed_of(list@);
        proof {
            let more = entries@.subrange(0, i + 1);
            assert(more.drop_last() =~= entries@.subrange(0, i as int));
            assert(more.last() == entries@[i as int]);
        }
        let name: &str = entries[i].name.as_str();
        if let Some(id) = files::generation_id(name) {
            if id != current {
                let d = Doomed { path: String::from_str(name), is_dir: true };
                let ghost says = d.says();
                list.push(d);
                assert(doomed_of(list@) =~= before.push(says));
            }
        }
        i = i + 1;
    }
    assert(entries@.subrange(0, i as int) =~= entries@);
    list
}

/// What sweeping the first generation out of the root does on disk and to a
/// counter of failures: the log and the key records go, then the table files that are
/// left in the listing, if there is one.
pub open spec fn sweeps_root<F: StoreRoot>(
    files: &F,
    t0: Seq<Step>,
    t1: Seq<Step>,
    before: u64,
    after: u64,
) -> bool {
    exists|mid: u64, m: Seq<Step>, l: Result<Vec<DirEntry>, EngineError>|
        {
            &&& #[trigger] counts_sweep(t0, m, root_records(), before, mid)
            &&& #[trigger] gives_readable(files, Seq::empty(), l)
            &&& match l {
                Ok(entries) => counts_sweep(m, t1, table_files(entries@), mid, after),
                Err(_) => after == mid && t1 == m,
            }
        }
}

fn sweep_root<F: StoreRoot>(files: &mut Traced<F>, before: u64) -> (after: u64)
    ensures
        final(files).spec_files() == old(files).spec_files(),
        sweeps_root(&old(files).spec_files(), old(files).steps(), final(files).steps(), before, after),
{
    let records = doom_root_records();
    let mid: u64 = sweep(files, &records, before);
    let ghost m = files.steps();
    assert(counts_sweep(old(files).steps(), m, root_records(), before, mid));
    let root: &str = "";
    proof {
        reveal_strlit("");
        assert(root@ =~= Seq::<char>::empty());
    }
    let disk = files.files();
    let l = disk.list_readable(root);
    assert(call_ensures(F::list_readable, (disk, root), l));
    assert(gives_readable(disk, Seq::empty(), l));
    match l {
        Ok(entries) => sweep(files, &doom_table_files(&entries), mid),
        Err(_) => mid,
    }
}

/// What sweeping a superseded generation does to a counter of failures. The
/// first generation shares the root with what stays, so it goes file by file;
/// a later one goes with its directory, its first entry before it.
pub open spec fn sweeps_old<F: StoreRoot>(
    files: &F,
    t0: Seq<Step>,
    t1: Seq<Step>,
    dir: Seq<char>,
    current: u64,
    before: u64,
    after: u64,
) -> bool {
    if dir.len() == 0 {
        sweeps_root(files, t0, t1, before, after)
    } else if dir == generation_dir_name(current) {
        after == before && t1 == t0
    } else {
        exists|l: Result<Vec<DirEntry>, EngineError>|
            #[trigger] gives_readable(files, dir, l) && counts_sweep(t0, t1, old_directory(dir, l), before, after)
    }
}

/// The first entry of a directory, if it can be listed, then the directory.
pub open spec fn old_directory(dir: Seq<char>, l: Result<Vec<DirEntry>, EngineError>) -> Seq<DoomedV> {
    let whole = DoomedV { path: dir, is_dir: true };
    match l {
        Ok(entries) => if entries@.len() > 0 {
            seq![
                DoomedV { path: joined(dir, entries@[0].name@), is_dir: entries@[0].is_dir },
                whole,
            ]
        } else {
            seq![whole]
        },
        Err(_) => seq![whole],
    }
}

/// Sweeps a superseded generation away.
pub fn gc_old_generation<F: StoreRoot>(files: &mut Traced<F>, dir: &str, current: u64, before: u64) -> (after: u64)
    ensures
        final(files).spec_files() == old(files).spec_files(),
        sweeps_old(
            &old(files).spec_files(),
            old(files).steps(),
            final(files).steps(),
            dir@,
            current,
            before,
            after,
        ),
{
    if dir.unicode_len() == 0 {
        return sweep_root(files, before);
    }
    let active = files::generation_dir(current);
    if text::same(dir, active.as_str()) {
        return before;
    }
    let disk = files.files();
    let l = disk.list_readable(dir);
    assert(call_ensures(F::list_readable, (disk, dir), l));
    assert(gives_readable(disk, dir@, l));
    let mut list: Vec<Doomed> = Vec::new();
    if let Ok(entries) = &l {
        if entries.len() > 0 {
            let path = sst_block::join(dir, entries[0].name.as_str());
            list.push(Doomed { path, is_dir: entries[0].is_dir });
        }
    }
    list.push(Doomed { path: String::from_str(dir), is_dir: true });
    assert(doomed_of(list@) =~= old_directory(dir@, l));
    sweep(files, &list, before)
}

/// What the sweep after an open does to a counter of failures: every other
/// generation goes, and, once a generation was published, the first one too. A
/// root that cannot be listed is left alone.
pub open spec fn sweeps_inactive<F: StoreRoot>(
    files: &F,
    t0: Seq<Step>,
    t1: Seq<Step>,
    current: u64,
    before: u64,
    after: u64,
) -> bool {
    exists|l: Result<Vec<DirEntry>, EngineError>|
        #[trigger] gives_readable(files, Seq::empty(), l) && match l {
            Err(_) => after == before && t1 == t0,
            Ok(entries) => exists|mid: u64, m: Seq<Step>|
                #[trigger] counts_sweep(t0, m, other_generations(entries@, current), before, mid) && if current
                    != 0 {
                    sweeps_root(files, m, t1, mid, after)
                } else {
                    after == mid && t1 == m
                },
        }
}

/// Sweeps every inactive generation away.
pub fn gc_inactive_generations<F: StoreRoot>(files: &mut Traced<F>, current: u64, before: u64) -> (after: u64)
    ensures
        final(files).spec_files() == old(files).spec_files(),
        sweeps_inactive(
            &old(files).spec_files(),
            old(files).steps(),
            final(files).steps(),
            current,
            before,
            after,
        ),
{
    let root: &str = "";
    proof {
        reveal_strlit("");
        assert(root@ =~= Seq::<char>::empty());
    }
    let disk = files.files();
    let l = disk.list_readable(root);
    assert(call_ensures(F::list_readable, (disk, root), l));
    assert(gives_readable(disk, Seq::empty(), l));
    match l {
        Err(_) => before,
        Ok(entries) => {
            let mid: u64 = sweep(files, &doom_generations(&entries, current), before);
            assert(counts_sweep(
                old(files).steps(),
                files.steps(),
                other_generations(entries@, current),
                before,
                mid,
            ));
            if current != 0 {
                sweep_root(files, mid)
            } else {
                mid
            }
        },
    }
}

/// A sweep never dooms the current generation.
pub proof fn the_current_generation_is_never_doomed(entries: Seq<DirEntry>, current: u64, i: int)
    requires
        0 <= i < other_generations(entries, current).len(),
    ensures
        generation_of(other_generations(entries, current)[i].path) matches Some(id) && id != current,
    decreases entries.len(),
{
    let rest = other_generations(entries.drop_last(), current);
    if i < rest.len() {
        the_current_generation_is_never_doomed(entries.drop_last(), current, i);
    }
}

/// Files to remove, by their paths.
pub open spec fn doomed_files(paths: Seq<String>) -> Seq<DoomedV> {
    Seq::new(paths.len(), |i: int| DoomedV { path: paths[i]@, is_dir: false })
}

impl Engine {
    /// Whether the files of tables that were given up may go: no snapshot is
    /// left that may read from them.
    #[must_use]
    pub fn retired_may_go(&self) -> (r: bool)
        ensures
            r == (self.active_snapshots == 0),
    {
        self.active_snapshots == 0
    }

    /// Removes the files of tables that were given up, and counts the failures
    /// over `before`. A snapshot may still read from them: while there is one,
    /// nothing is removed.
    pub fn remove_retired<F: StoreRoot>(&self, files: &mut Traced<F>, paths: &Vec<String>, before: u64) -> (after: u64)
        ensures
            final(files).spec_files() == old(files).spec_files(),
            if self.active_snapshots != 0 {
                after == before && final(files).steps() == old(files).steps()
            } else {
                counts_sweep(old(files).steps(), final(files).steps(), doomed_files(paths@), before, after)
            },
    {
        if !self.retired_may_go() {
            return before;
        }
        let mut list: Vec<Doomed> = Vec::new();
        let mut i: usize = 0;
        while i < paths.len()
            invariant
                i <= paths@.len(),
                doomed_of(list@) =~= doomed_files(paths@).subrange(0, i as int),
            decreases paths@.len() - i,
        {
            let d = file(paths[i].as_str());
            let ghost before_push = doomed_of(list@);
            list.push(d);
            assert(doomed_of(list@) =~= before_push.push(d.says()));
            i = i + 1;
        }
        assert(doomed_of(list@) =~= doomed_files(paths@));
        sweep(files, &list, before)
    }
}

/// A step that removes something.
pub open spec fn is_removal(step: Step) -> bool {
    step is RemoveFile || step is RemoveDir
}

/// From `t0` to `t1` nothing was done but to remove.
pub open spec fn only_removed(t0: Seq<Step>, t1: Seq<Step>) -> bool {
    &&& goes_on(t0, t1)
    &&& forall|i: int| t0.len() <= i < t1.len() ==> is_removal(#[trigger] t1[i])
}

proof fn lemma_removed_on(t0: Seq<Step>, m: Seq<Step>, t1: Seq<Step>)
    requires
        only_removed(t0, m),
        only_removed(m, t1),
    ensures
        only_removed(t0, t1),
{
    lemma_cut_early(t0, m, t1, 0);
    assert forall|i: int| t0.len() <= i < t1.len() implies is_removal(#[trigger] t1[i]) by {
        if i < m.len() {
            assert(t1.take(m.len() as int)[i] == t1[i]);
        }
    }
}

/// A removal only removes.
proof fn lemma_attempt_grows(t0: Seq<Step>, t1: Seq<Step>, what: DoomedV, ok: bool)
    requires
        attempts(t0, t1, what, ok),
    ensures
        only_removed(t0, t1),
{
    assert(t1.take(t0.len() as int) =~= t0);
}

proof fn lemma_tries_grow(t0: Seq<Step>, t1: Seq<Step>, what: DoomedV, tries: nat, ok: bool)
    requires
        tried(t0, t1, what, tries, ok),
    ensures
        only_removed(t0, t1),
    decreases tries,
{
    if tries == 0 {
        assert(t1.take(t0.len() as int) =~= t0);
    } else {
        let m = choose|m: Seq<Step>|
            tried(t0, m, what, (tries - 1) as nat, false) && #[trigger] attempts(m, t1, what, ok);
        lemma_tries_grow(t0, m, what, (tries - 1) as nat, false);
        lemma_attempt_grows(m, t1, what, ok);
        lemma_removed_on(t0, m, t1);
    }
}

proof fn lemma_sweep_grows(t0: Seq<Step>, t1: Seq<Step>, list: Seq<DoomedV>, failed: Seq<bool>)
    requires
        sweeps(t0, t1, list, failed),
    ensures
        only_removed(t0, t1),
    decreases list.len(),
{
    if list.len() == 0 {
        assert(t1.take(t0.len() as int) =~= t0);
    } else {
        let (m, ok) = choose|m: Seq<Step>, ok: bool|
            sweeps(t0, m, list.drop_last(), failed.drop_last()) && #[trigger] removes(m, t1, list.last(), ok);
        let tries = choose|tries: nat| #[trigger] tried(m, t1, list.last(), tries, ok);
        lemma_sweep_grows(t0, m, list.drop_last(), failed.drop_last());
        lemma_tries_grow(m, t1, list.last(), tries, ok);
        lemma_removed_on(t0, m, t1);
    }
}

proof fn lemma_counted_sweep_grows(t0: Seq<Step>, t1: Seq<Step>, list: Seq<DoomedV>, before: u64, after: u64)
    requires
        counts_sweep(t0, t1, list, before, after),
    ensures
        only_removed(t0, t1),
{
    let failed = choose|failed: Seq<bool>| #[trigger] sweeps(t0, t1, list, failed);
    lemma_sweep_grows(t0, t1, list, failed);
}

/// Sweeping the inactive generations only removes.
pub proof fn lemma_inactive_sweep_grows<F: StoreRoot>(
    files: &F,
    t0: Seq<Step>,
    t1: Seq<Step>,
    current: u64,
    before: u64,
    after: u64,
)
    requires
        sweeps_inactive(files, t0, t1, current, before, after),
    ensures
        only_removed(t0, t1),
{
    let l = choose|l: Result<Vec<DirEntry>, EngineError>|
        #[trigger] gives_readable(files, Seq::empty(), l) && match l {
            Err(_) => t1 == t0,
            Ok(entries) => exists|mid: u64, m: Seq<Step>|
                #[trigger] counts_sweep(t0, m, other_generations(entries@, current), before, mid) && if current != 0 {
                    sweeps_root(files, m, t1, mid, after)
                } else {
                    t1 == m
                },
        };
    match l {
        Err(_) => {
            assert(t1.take(t0.len() as int) =~= t0);
        },
        Ok(entries) => {
            let (mid, m) = choose|mid: u64, m: Seq<Step>|
                #[trigger] counts_sweep(t0, m, other_generations(entries@, current), before, mid) && if current != 0 {
                    sweeps_root(files, m, t1, mid, after)
                } else {
                    t1 == m
                };
            lemma_counted_sweep_grows(t0, m, other_generations(entries@, current), before, mid);
            if current != 0 {
                lemma_root_sweep_grows(files, m, t1, mid, after);
                lemma_removed_on(t0, m, t1);
            }
        },
    }
}

proof fn lemma_root_sweep_grows<F: StoreRoot>(files: &F, t0: Seq<Step>, t1: Seq<Step>, before: u64, after: u64)
    requires
        sweeps_root(files, t0, t1, before, after),
    ensures
        only_removed(t0, t1),
{
    let (mid, m, l) = choose|mid: u64, m: Seq<Step>, l: Result<Vec<DirEntry>, EngineError>|
        {
            &&& #[trigger] counts_sweep(t0, m, root_records(), before, mid)
            &&& #[trigger] gives_readable(files, Seq::empty(), l)
            &&& match l {
                Ok(entries) => counts_sweep(m, t1, table_files(entries@), mid, after),
                Err(_) => t1 == m,
            }
        };
    lemma_counted_sweep_grows(t0, m, root_records(), before, mid);
    if let Ok(entries) = l {
        lemma_counted_sweep_grows(m, t1, table_files(entries@), mid, after);
        lemma_removed_on(t0, m, t1);
    }
}

/// Sweeping a superseded generation only removes.
pub proof fn lemma_old_sweep_grows<F: StoreRoot>(
    files: &F,
    t0: Seq<Step>,
    t1: Seq<Step>,
    dir: Seq<char>,
    current: u64,
    before: u64,
    after: u64,
)
    requires
        sweeps_old(files, t0, t1, dir, current, before, after),
    ensures
        only_removed(t0, t1),
{
    if dir.len() == 0 {
        lemma_root_sweep_grows(files, t0, t1, before, after);
    } else if dir == generation_dir_name(current) {
        assert(t1.take(t0.len() as int) =~= t0);
    } else {
        let l = choose|l: Result<Vec<DirEntry>, EngineError>|
            #[trigger] gives_readable(files, dir, l) && counts_sweep(t0, t1, old_directory(dir, l), before, after);
        lemma_counted_sweep_grows(t0, t1, old_directory(dir, l), before, after);
    }
}

} // verus!
