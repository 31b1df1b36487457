//! What a sweep removes: what no generation in use has, and nothing else.
use super::compact::{edits, publishes, retirements};
use super::io::{
    attempts, counted, counts_sweep, other_generations, removes, root_records, sweeps, table_files, tried, DoomedV,
    REMOVE_ATTEMPTS,
};
use super::Engine;
use crate::error::EngineError;
use crate::store::files::{generation_of, has_sst_extension, DirEntry};
use crate::store::sst_block::BlockSstFile;
use crate::store::trace::{goes_on, removed_dir, Step};
use crate::store::version::{Version, VersionEdit};
use crate::text::ends_in;
use std::sync::Arc;
use vstd::prelude::*;

verus! {

/// A sweep dooms something by its path.
pub open spec fn dooms(list: Seq<DoomedV>, path: Seq<char>, is_dir: bool) -> bool {
    exists|i: int| 0 <= i < list.len() && (#[trigger] list[i]).path == path && list[i].is_dir == is_dir
}

proof fn lemma_dooms_push(list: Seq<DoomedV>, one: DoomedV, path: Seq<char>, is_dir: bool)
    ensures
        dooms(list.push(one), path, is_dir) <==> dooms(list, path, is_dir)
            || (one.path == path && one.is_dir == is_dir),
{
    let all = list.push(one);
    if dooms(list, path, is_dir) {
        let i = choose|i: int| 0 <= i < list.len() && (#[trigger] list[i]).path == path && list[i].is_dir == is_dir;
        assert(all[i] == list[i]);
    }
    assert(all[list.len() as int] == one);
    if dooms(all, path, is_dir) {
        let i = choose|i: int| 0 <= i < all.len() && (#[trigger] all[i]).path == path && all[i].is_dir == is_dir;
        if i < list.len() {
            assert(list[i] == all[i]);
        }
    }
}

/// Some entry has a name, and is named after a generation other than `current`.
pub open spec fn is_other_generation(entries: Seq<DirEntry>, current: u64, name: Seq<char>) -> bool {
    exists|i: int|
        0 <= i < entries.len() && (#[trigger] entries[i]).name@ == name && (generation_of(name) matches Some(id) && id
            != current)
}

/// Some entry has a name, and is that of a table or of a table's temporary file.
pub open spec fn is_leftover(entries: Seq<DirEntry>, name: Seq<char>) -> bool {
    exists|i: int|
        0 <= i < entries.len() && (#[trigger] entries[i]).name@ == name && (has_sst_extension(name) || ends_in(
            name,
            ".sst.tmp"@,
        ))
}

/// Every generation but the current one is doomed, as a directory, and nothing
/// else is.
pub proof fn a_sweep_dooms_every_other_generation_alone(
    entries: Seq<DirEntry>,
    current: u64,
    name: Seq<char>,
    is_dir: bool,
)
    ensures
        dooms(other_generations(entries, current), name, is_dir) <==> is_dir && is_other_generation(
            entries,
            current,
            name,
        ),
    decreases entries.len(),
{
    if entries.len() > 0 {
        let head = entries.drop_last();
        let last = entries.last();
        let rest = other_generations(head, current);
        a_sweep_dooms_every_other_generation_alone(head, current, name, is_dir);
        lemma_dooms_push(rest, DoomedV { path: last.name@, is_dir: true }, name, is_dir);
        assert(entries[entries.len() - 1] == last);
        if is_other_generation(head, current, name) {
            let i = choose|i: int| 0 <= i < head.len() && (#[trigger] head[i]).name@ == name;
            assert(entries[i].name@ == name);
        }
        if is_other_generation(entries, current, name) && last.name@ != name {
            let i = choose|i: int| 0 <= i < entries.len() && (#[trigger] entries[i]).name@ == name;
            assert(head[i].name@ == name);
        }
    }
}

/// Of the first generation every table file is doomed, and every temporary file
/// of one, and no other file of the listing.
pub proof fn a_sweep_dooms_every_table_of_the_first_generation_alone(
    entries: Seq<DirEntry>,
    name: Seq<char>,
    is_dir: bool,
)
    ensures
        dooms(table_files(entries), name, is_dir) <==> !is_dir && is_leftover(entries, name),
    decreases entries.len(),
{
    if entries.len() > 0 {
        let head = entries.drop_last();
        let last = entries.last();
        let rest = table_files(head);
        a_sweep_dooms_every_table_of_the_first_generation_alone(head, name, is_dir);
        lemma_dooms_push(rest, DoomedV { path: last.name@, is_dir: false }, name, is_dir);
        assert(entries[entries.len() - 1] == last);
        if is_leftover(head, name) {
            let i = choose|i: int| 0 <= i < head.len() && (#[trigger] head[i]).name@ == name;
            assert(entries[i].name@ == name);
        }
        if is_leftover(entries, name) && last.name@ != name {
            let i = choose|i: int| 0 <= i < entries.len() && (#[trigger] entries[i]).name@ == name;
            assert(head[i].name@ == name);
        }
    }
}

/// Of the first generation the log and the key record go, and what a crash left
/// of the latter; never the store's record, its pointer or its lock.
pub proof fn a_sweep_of_the_root_spares_the_store(name: Seq<char>, is_dir: bool)
    ensures
        dooms(root_records(), name, is_dir) <==> !is_dir && (name == "wal.log"@ || name == "crypto.meta"@ || name
            == "crypto.meta.tmp"@),
{
    let list = root_records();
    assert(list[0].path == "wal.log"@ && !list[0].is_dir);
    assert(list[1].path == "crypto.meta"@ && !list[1].is_dir);
    assert(list[2].path == "crypto.meta.tmp"@ && !list[2].is_dir);
}

/// A step tried to remove something, with `ok` telling its end.
pub open spec fn tells_removal(step: Step, what: DoomedV, ok: bool) -> bool {
    match step {
        Step::RemoveFile { path, r } => !what.is_dir && path == what.path && r == ok,
        Step::RemoveDir { path, r } => what.is_dir && path == what.path && (r is Ok) == ok,
        _ => false,
    }
}

proof fn lemma_attempted(t0: Seq<Step>, t1: Seq<Step>, what: DoomedV, ok: bool)
    requires
        attempts(t0, t1, what, ok),
    ensures
        t1.len() == t0.len() + 1,
        goes_on(t0, t1),
        tells_removal(t1.last(), what, ok),
{
    if what.is_dir {
        let r = choose|r: Result<(), EngineError>| #[trigger] removed_dir(t0, t1, what.path, r) && ok == (r is Ok);
        assert(t1.take(t0.len() as int) =~= t0);
    } else {
        assert(t1.take(t0.len() as int) =~= t0);
    }
}

proof fn lemma_tried(t0: Seq<Step>, t1: Seq<Step>, what: DoomedV, tries: nat, ok: bool)
    requires
        tried(t0, t1, what, tries, ok),
    ensures
        t1.len() == t0.len() + tries,
        goes_on(t0, t1),
        tries > 0 ==> tells_removal(t1.last(), what, ok),
        forall|i: int| t0.len() <= i < t1.len() - 1 ==> tells_removal(#[trigger] t1[i], what, false),
    decreases tries,
{
    if tries == 0 {
        assert(t1.take(t0.len() as int) =~= t0);
    } else {
        let m = choose|m: Seq<Step>|
            tried(t0, m, what, (tries - 1) as nat, false) && #[trigger] attempts(m, t1, what, ok);
        lemma_tried(t0, m, what, (tries - 1) as nat, false);
        lemma_attempted(m, t1, what, ok);
        assert(t1.take(t0.len() as int) =~= t0) by {
            assert forall|i: int| 0 <= i < t0.len() implies t1[i] == t0[i] by {
                assert(t1.take(m.len() as int)[i] == m[i]);
                assert(m.take(t0.len() as int)[i] == t0[i]);
            }
        }
        assert forall|i: int| t0.len() <= i < t1.len() - 1 implies tells_removal(#[trigger] t1[i], what, false) by {
            assert(t1.take(m.len() as int)[i] == m[i]);
            if i == m.len() - 1 {
                assert(m[i] == m.last());
            }
        }
    }
}

/// A removal is tried until it succeeds, and given up only after as many
/// attempts as are allowed.
pub proof fn a_removal_is_tried_until_it_succeeds(t0: Seq<Step>, t1: Seq<Step>, what: DoomedV, ok: bool)
    requires
        removes(t0, t1, what, ok),
    ensures
        goes_on(t0, t1),
        t0.len() < t1.len() <= t0.len() + REMOVE_ATTEMPTS,
        forall|i: int| t0.len() <= i < t1.len() - 1 ==> tells_removal(#[trigger] t1[i], what, false),
        tells_removal(t1.last(), what, ok),
        !ok ==> t1.len() == t0.len() + REMOVE_ATTEMPTS,
{
    let tries = choose|tries: nat|
        1 <= tries <= REMOVE_ATTEMPTS && #[trigger] tried(t0, t1, what, tries, ok) && (ok || tries == REMOVE_ATTEMPTS);
    lemma_tried(t0, t1, what, tries, ok);
}

/// How many of some tests hold.
pub open spec fn how_many(tests: Seq<bool>) -> nat
    decreases tests.len(),
{
    if tests.len() == 0 {
        0
    } else {
        how_many(tests.drop_last()) + if tests.last() {
            1nat
        } else {
            0
        }
    }
}

proof fn lemma_counted(before: u64, failed: Seq<bool>)
    ensures
        counted(before, failed) == (before + how_many(failed)) % 0x1_0000_0000_0000_0000,
    decreases failed.len(),
{
    if failed.len() > 0 {
        lemma_counted(before, failed.drop_last());
    }
}

/// One of the steps from `from` on tried to remove something.
pub open spec fn was_tried(from: int, t: Seq<Step>, what: DoomedV, ok: bool) -> bool {
    exists|k: int| from <= k < t.len() && tells_removal(#[trigger] t[k], what, ok)
}

proof fn lemma_swept(t0: Seq<Step>, t1: Seq<Step>, list: Seq<DoomedV>, failed: Seq<bool>)
    requires
        sweeps(t0, t1, list, failed),
    ensures
        goes_on(t0, t1),
        failed.len() == list.len(),
        forall|i: int|
            0 <= i < list.len() ==> was_tried(t0.len() as int, t1, #[trigger] list[i], !failed[i]),
    decreases list.len(),
{
    if list.len() == 0 {
        assert(t1.take(t0.len() as int) =~= t0);
    } else {
        let n = list.len() - 1;
        let (m, ok) = choose|m: Seq<Step>, ok: bool|
            sweeps(t0, m, list.drop_last(), failed.drop_last()) && #[trigger] removes(m, t1, list.last(), ok)
                && failed.last() == !ok;
        lemma_swept(t0, m, list.drop_last(), failed.drop_last());
        a_removal_is_tried_until_it_succeeds(m, t1, list.last(), ok);
        assert forall|k: int| 0 <= k < m.len() implies t1[k] == m[k] by {
            assert(t1.take(m.len() as int)[k] == m[k]);
        }
        assert(t1.take(t0.len() as int) =~= t0) by {
            assert forall|i: int| 0 <= i < t0.len() implies t1[i] == t0[i] by {
                assert(m.take(t0.len() as int)[i] == t0[i]);
            }
        }
        assert forall|i: int| 0 <= i < list.len() implies was_tried(
            t0.len() as int,
            t1,
            #[trigger] list[i],
            !failed[i],
        ) by {
            if i < n {
                assert(list.drop_last()[i] == list[i]);
                assert(failed.drop_last()[i] == failed[i]);
                let k = choose|k: int|
                    t0.len() <= k < m.len() && tells_removal(#[trigger] m[k], list[i], !failed[i]);
                assert(t1[k] == m[k]);
            } else {
                assert(tells_removal(t1[t1.len() - 1], list[i], ok));
            }
        }
    }
}

/// A sweep tries to remove everything on its list, and counts what it could not
/// remove, each once; the counter wraps around.
pub proof fn a_sweep_tries_everything_and_counts_its_failures(
    t0: Seq<Step>,
    t1: Seq<Step>,
    list: Seq<DoomedV>,
    before: u64,
    after: u64,
) -> (failed: Seq<bool>)
    requires
        counts_sweep(t0, t1, list, before, after),
    ensures
        failed.len() == list.len(),
        forall|i: int|
            0 <= i < list.len() ==> was_tried(t0.len() as int, t1, #[trigger] list[i], !failed[i]),
        after == (before + how_many(failed)) % 0x1_0000_0000_0000_0000,
{
    let failed = choose|failed: Seq<bool>| #[trigger] sweeps(t0, t1, list, failed) && after == counted(before, failed);
    lemma_swept(t0, t1, list, failed);
    lemma_counted(before, failed);
    failed
}

/// A step gives up the file of a table.
pub open spec fn gives_up(step: Step, table: Arc<BlockSstFile>) -> bool {
    step matches Step::Retire { path } && path == table.path@
}

/// One of the steps from `from` on gives up a table.
pub open spec fn is_given_up(from: int, t: Seq<Step>, table: Arc<BlockSstFile>) -> bool {
    exists|k: int| from <= k < t.len() && gives_up(#[trigger] t[k], table)
}

/// A step gives up one of the deleted tables.
pub open spec fn gives_up_deleted(step: Step, ssts: Seq<Arc<BlockSstFile>>, deleted: Seq<u64>) -> bool {
    exists|i: int| 0 <= i < ssts.len() && deleted.contains((#[trigger] ssts[i]).id) && gives_up(step, ssts[i])
}

proof fn lemma_given_up(ssts: Seq<Arc<BlockSstFile>>, deleted: Seq<u64>)
    ensures
        forall|i: int|
            0 <= i < ssts.len() && deleted.contains((#[trigger] ssts[i]).id) ==> is_given_up(
                0,
                retirements(ssts, deleted),
                ssts[i],
            ),
        forall|k: int|
            0 <= k < retirements(ssts, deleted).len() ==> gives_up_deleted(
                #[trigger] retirements(ssts, deleted)[k],
                ssts,
                deleted,
            ),
    decreases ssts.len(),
{
    if ssts.len() > 0 {
        let n = ssts.len() - 1;
        let head = ssts.drop_last();
        let some = retirements(head, deleted);
        let all = retirements(ssts, deleted);
        lemma_given_up(head, deleted);
        assert forall|i: int| 0 <= i < ssts.len() && deleted.contains((#[trigger] ssts[i]).id) implies is_given_up(
            0,
            all,
            ssts[i],
        ) by {
            if i < n {
                assert(head[i] == ssts[i]);
                let k = choose|k: int| 0 <= k < some.len() && gives_up(#[trigger] some[k], ssts[i]);
                assert(all[k] == some[k]);
            } else {
                assert(gives_up(all[some.len() as int], ssts[i]));
            }
        }
        assert forall|k: int| 0 <= k < all.len() implies gives_up_deleted(#[trigger] all[k], ssts, deleted) by {
            if k < some.len() {
                assert(all[k] == some[k]);
                let i = choose|i: int|
                    0 <= i < head.len() && deleted.contains((#[trigger] head[i]).id) && gives_up(some[k], head[i]);
                assert(ssts[i] == head[i]);
            } else {
                assert(deleted.contains(ssts[n].id));
                assert(gives_up(all[k], ssts[n]));
            }
        }
    }
}

/// An edit that was applied published, and then gave its tables up.
proof fn lemma_edited(
    t0: Seq<Step>,
    t1: Seq<Step>,
    before: Engine,
    after: Engine,
    edit: VersionEdit,
    r: Result<(), EngineError>,
)
    requires
        edits(t0, t1, before, after, edit, r),
        r is Ok,
    ensures
        exists|step: Step|
            !(step is Retire) && t1 == #[trigger] t0.push(step) + retirements(before.current.ssts@, edit.deleted@),
{
    let all = retirements(before.current.ssts@, edit.deleted@);
    let (m, next, p) = choose|m: Seq<Step>, next: Version, p: Result<(), EngineError>|
        #[trigger] publishes(t0, m, before.dir@, next, p) && p is Ok && t1 == m + all;
    let step = m.last();
    assert(m =~= t0.push(step));
}

/// An edit gives up the file of every table that it deletes, and of no other.
pub proof fn an_edit_gives_up_every_table_it_deletes(
    t0: Seq<Step>,
    t1: Seq<Step>,
    before: Engine,
    after: Engine,
    edit: VersionEdit,
    r: Result<(), EngineError>,
)
    requires
        edits(t0, t1, before, after, edit, r),
        r is Ok,
    ensures
        forall|i: int|
            0 <= i < before.current.ssts@.len() && edit.deleted@.contains((#[trigger] before.current.ssts@[i]).id)
                ==> is_given_up(t0.len() as int, t1, before.current.ssts@[i]),
        forall|k: int|
            t0.len() <= k < t1.len() && (#[trigger] t1[k]) is Retire ==> gives_up_deleted(
                t1[k],
                before.current.ssts@,
                edit.deleted@,
            ),
{
    lemma_edited(t0, t1, before, after, edit, r);
    lemma_gives_up(t0, t1, before.current.ssts@, edit.deleted@);
}

proof fn lemma_gives_up(t0: Seq<Step>, t1: Seq<Step>, ssts: Seq<Arc<BlockSstFile>>, deleted: Seq<u64>)
    requires
        exists|step: Step| !(step is Retire) && t1 == #[trigger] t0.push(step) + retirements(ssts, deleted),
    ensures
        forall|i: int|
            0 <= i < ssts.len() && deleted.contains((#[trigger] ssts[i]).id) ==> is_given_up(
                t0.len() as int,
                t1,
                ssts[i],
            ),
        forall|k: int|
            t0.len() <= k < t1.len() && (#[trigger] t1[k]) is Retire ==> gives_up_deleted(t1[k], ssts, deleted),
{
    let all = retirements(ssts, deleted);
    let step = choose|step: Step| !(step is Retire) && t1 == #[trigger] t0.push(step) + all;
    lemma_given_up(ssts, deleted);
    let n = t0.len() + 1;
    assert forall|i: int| 0 <= i < ssts.len() && deleted.contains((#[trigger] ssts[i]).id) implies is_given_up(
        t0.len() as int,
        t1,
        ssts[i],
    ) by {
        let k = choose|k: int| 0 <= k < all.len() && gives_up(#[trigger] all[k], ssts[i]);
        assert(t1[n + k] == all[k]);
    }
    assert forall|k: int| t0.len() <= k < t1.len() && (#[trigger] t1[k]) is Retire implies gives_up_deleted(
        t1[k],
        ssts,
        deleted,
    ) by {
        if k >= n {
            assert(t1[k] == all[k - n]);
        } else {
            assert(t1[k] == step);
        }
    }
}

} // verus!
