//! Versions: the published sets of live tables.
//!
//! A version never changes. An edit makes the next one, and the manifest lists
//! exactly its tables. Tables stand in ascending id order, which is the order
//! in which they shadow one another: a table's id is taken when what it holds
//! is fixed. Tables of one id, which only file names that read as the same
//! number give, stay in the order in which they were listed.
use crate::error::EngineError;
use crate::store::sst_block::BlockSstFile;
use std::sync::Arc;
use vstd::prelude::*;

verus! {

/// The ids of tables, in order.
pub open spec fn ids_of(ssts: Seq<Arc<BlockSstFile>>) -> Seq<u64> {
    Seq::new(ssts.len(), |i: int| ssts[i].id)
}

/// The ids ascend strictly.
pub open spec fn ids_ascend(ssts: Seq<Arc<BlockSstFile>>) -> bool {
    forall|i: int, j: int|
        0 <= i < j < ssts.len() ==> (#[trigger] ssts[i]).id < (#[trigger] ssts[j]).id
}

/// The ids do not descend.
pub open spec fn ids_in_order(ssts: Seq<Arc<BlockSstFile>>) -> bool {
    forall|i: int, j: int|
        0 <= i < j < ssts.len() ==> (#[trigger] ssts[i]).id <= (#[trigger] ssts[j]).id
}

/// `ssts` with one more, behind every table whose id is not above its own.
pub open spec fn with_sst(ssts: Seq<Arc<BlockSstFile>>, sst: Arc<BlockSstFile>) -> Seq<Arc<BlockSstFile>>
    decreases ssts.len(),
{
    if ssts.len() == 0 || ssts.last().id <= sst.id {
        ssts.push(sst)
    } else {
        with_sst(ssts.drop_last(), sst).push(ssts.last())
    }
}

/// `ssts` in ascending id order; tables of one id keep their order.
pub open spec fn by_id(ssts: Seq<Arc<BlockSstFile>>) -> Seq<Arc<BlockSstFile>>
    decreases ssts.len(),
{
    if ssts.len() == 0 {
        ssts
    } else {
        with_sst(by_id(ssts.drop_last()), ssts.last())
    }
}

/// Every table is well-formed.
pub open spec fn all_wf(ssts: Seq<Arc<BlockSstFile>>) -> bool {
    forall|i: int| 0 <= i < ssts.len() ==> (#[trigger] ssts[i]).wf()
}

/// The tables whose ids are not in `deleted`, in order.
pub open spec fn survivors(ssts: Seq<Arc<BlockSstFile>>, deleted: Seq<u64>) -> Seq<Arc<BlockSstFile>>
    decreases ssts.len(),
{
    if ssts.len() == 0 {
        Seq::empty()
    } else if deleted.contains(ssts.last().id) {
        survivors(ssts.drop_last(), deleted)
    } else {
        survivors(ssts.drop_last(), deleted).push(ssts.last())
    }
}

/// The set of live tables, and the number of publications before this one.
#[derive(Debug)]
pub struct Version {
    pub manifest_generation: u64,
    pub ssts: Vec<Arc<BlockSstFile>>,
}

/// A change of the live set: tables that come and tables that go.
#[derive(Debug)]
pub struct VersionEdit {
    pub added: Vec<Arc<BlockSstFile>>,
    pub deleted: Vec<u64>,
}

impl Version {
    /// The tables are well-formed and in ascending id order.
    pub open spec fn wf(&self) -> bool {
        ids_in_order(self.ssts@) && all_wf(self.ssts@)
    }

    /// A version of `ssts`, put in ascending id order.
    pub fn build(manifest_generation: u64, ssts: Vec<Arc<BlockSstFile>>) -> (v: Version)
        ensures
            v.manifest_generation == manifest_generation,
            v.ssts@ == by_id(ssts@),
            all_wf(ssts@) ==> v.wf(),
    {
        let mut sorted: Vec<Arc<BlockSstFile>> = Vec::new();
        let mut i: usize = 0;
        assert(ssts@.subrange(0, 0) =~= Seq::<Arc<BlockSstFile>>::empty());
        assert(sorted@ =~= by_id(ssts@.subrange(0, 0)));
        while i < ssts.len()
            invariant
                i <= ssts@.len(),
                sorted@ == by_id(ssts@.subrange(0, i as int)),
            decreases ssts@.len() - i,
        {
            let handle = ssts[i].clone();
            let ghost before = sorted@;
            let mut pos: usize = sorted.len();
            assert(before.take(pos as int) =~= before);
            assert(with_sst(before, handle) =~= with_sst(before.take(pos as int), handle) + before.skip(pos as int));
            while pos > 0 && sorted[pos - 1].id > handle.id
                invariant
                    pos <= sorted@.len(),
                    sorted@ == before,
                    with_sst(before, handle) == with_sst(before.take(pos as int), handle) + before.skip(pos as int),
                decreases pos,
            {
                proof {
                    let part = before.take(pos as int);
                    assert(part.drop_last() =~= before.take(pos - 1));
                    assert(part.last() == before[pos - 1]);
                    assert(with_sst(part.drop_last(), handle).push(part.last()) + before.skip(pos as int) =~= with_sst(
                        before.take(pos - 1),
                        handle,
                    ) + before.skip(pos - 1));
                }
                pos = pos - 1;
            }
            proof {
                let part = before.take(pos as int);
                if pos > 0 {
                    assert(part.last() == before[pos - 1]);
                }
                assert(with_sst(part, handle) == part.push(handle));
                let next = ssts@.subrange(0, i + 1);
                assert(next.drop_last() =~= ssts@.subrange(0, i as int));
            }
            sorted.insert(pos, handle);
            assert(sorted@ =~= before.take(pos as int).push(handle) + before.skip(pos as int));
            i = i + 1;
        }
        proof {
            assert(ssts@.subrange(0, i as int) =~= ssts@);
            lemma_by_id(ssts@);
            lemma_same_elements(ssts@, sorted@);
        }
        Version { manifest_generation, ssts: sorted }
    }

    /// The ids of the live tables, in ascending order.
    pub fn ids(&self) -> (ids: Vec<u64>)
        ensures
            ids@ == ids_of(self.ssts@),
    {
        let mut ids: Vec<u64> = Vec::new();
        let mut i: usize = 0;
        while i < self.ssts.len()
            invariant
                i <= self.ssts@.len(),
                ids@ =~= ids_of(self.ssts@).subrange(0, i as int),
            decreases self.ssts@.len() - i,
        {
            ids.push(self.ssts[i].id);
            i = i + 1;
            assert(ids@ =~= ids_of(self.ssts@).subrange(0, i as int));
        }
        assert(ids_of(self.ssts@).subrange(0, i as int) =~= ids_of(self.ssts@));
        ids
    }
}

/// Sequences of the same elements contain the same tables.
pub proof fn lemma_same_tables(a: Seq<Arc<BlockSstFile>>, b: Seq<Arc<BlockSstFile>>, x: Arc<BlockSstFile>)
    requires
        a.to_multiset() == b.to_multiset(),
    ensures
        a.contains(x) <==> b.contains(x),
{
    vstd::seq_lib::to_multiset_contains(a, x);
    vstd::seq_lib::to_multiset_contains(b, x);
}

proof fn lemma_same_elements(a: Seq<Arc<BlockSstFile>>, b: Seq<Arc<BlockSstFile>>)
    requires
        a.to_multiset() == b.to_multiset(),
    ensures
        all_wf(a) ==> all_wf(b),
{
    if all_wf(a) {
        assert forall|i: int| 0 <= i < b.len() implies (#[trigger] b[i]).wf() by {
            lemma_same_tables(a, b, b[i]);
            let j = choose|j: int| 0 <= j < a.len() && a[j] == b[i];
            assert(a[j].wf());
        }
    }
}

proof fn lemma_with_sst(ssts: Seq<Arc<BlockSstFile>>, sst: Arc<BlockSstFile>)
    requires
        ids_in_order(ssts),
    ensures
        ids_in_order(with_sst(ssts, sst)),
        with_sst(ssts, sst).to_multiset() == ssts.to_multiset().insert(sst),
        with_sst(ssts, sst).len() == ssts.len() + 1,
        forall|i: int|
            0 <= i < with_sst(ssts, sst).len() ==> (#[trigger] with_sst(ssts, sst)[i]).id <= (if ssts.len() > 0
                && ssts.last().id > sst.id {
                ssts.last().id
            } else {
                sst.id
            }),
    decreases ssts.len(),
{
    let out = with_sst(ssts, sst);
    ssts.to_multiset_ensures();
    if ssts.len() == 0 || ssts.last().id <= sst.id {
        assert forall|i: int, j: int| 0 <= i < j < out.len() implies (#[trigger] out[i]).id <= (#[trigger] out[j]).id by {
            if j == ssts.len() {
                if i < ssts.len() - 1 {
                    assert(ssts[i].id <= ssts[ssts.len() - 1].id);
                }
            } else {
                assert(ssts[i].id <= ssts[j].id);
            }
        }
        assert forall|i: int| 0 <= i < out.len() implies (#[trigger] out[i]).id <= sst.id by {
            if i < ssts.len() - 1 {
                assert(ssts[i].id <= ssts[ssts.len() - 1].id);
            }
        }
    } else {
        let head = ssts.drop_last();
        let rest = with_sst(head, sst);
        assert forall|i: int, j: int| 0 <= i < j < head.len() implies (#[trigger] head[i]).id <= (
        #[trigger] head[j]).id by {
            assert(ssts[i].id <= ssts[j].id);
        }
        lemma_with_sst(head, sst);
        if head.len() > 0 {
            assert(ssts[head.len() - 1].id <= ssts[ssts.len() - 1].id);
        }
        head.to_multiset_ensures();
        rest.to_multiset_ensures();
        assert(ssts =~= head.push(ssts.last()));
        assert(out.to_multiset() =~= ssts.to_multiset().insert(sst));
        assert forall|i: int, j: int| 0 <= i < j < out.len() implies (#[trigger] out[i]).id <= (#[trigger] out[j]).id by {
            if j == rest.len() {
                assert(out[i] == rest[i]);
            } else {
                assert(rest[i].id <= rest[j].id);
            }
        }
        assert forall|i: int| 0 <= i < out.len() implies (#[trigger] out[i]).id <= ssts.last().id by {
            if i < rest.len() {
                assert(out[i] == rest[i]);
            }
        }
    }
}

/// Putting tables in order keeps them all.
pub proof fn lemma_by_id(ssts: Seq<Arc<BlockSstFile>>)
    ensures
        ids_in_order(by_id(ssts)),
        by_id(ssts).to_multiset() == ssts.to_multiset(),
        by_id(ssts).len() == ssts.len(),
    decreases ssts.len(),
{
    if ssts.len() > 0 {
        let head = ssts.drop_last();
        lemma_by_id(head);
        lemma_with_sst(by_id(head), ssts.last());
        head.to_multiset_ensures();
        assert(ssts =~= head.push(ssts.last()));
    }
}

/// Tables that are in order stay as they are.
pub proof fn lemma_in_order_already(ssts: Seq<Arc<BlockSstFile>>)
    requires
        ids_in_order(ssts),
    ensures
        by_id(ssts) == ssts,
    decreases ssts.len(),
{
    if ssts.len() > 0 {
        let head = ssts.drop_last();
        assert forall|i: int, j: int| 0 <= i < j < head.len() implies (#[trigger] head[i]).id <= (
        #[trigger] head[j]).id by {
            assert(ssts[i].id <= ssts[j].id);
        }
        lemma_in_order_already(head);
        if head.len() > 0 {
            assert(ssts[head.len() - 1].id <= ssts[ssts.len() - 1].id);
        }
        assert(ssts =~= head.push(ssts.last()));
    }
}

/// Tables in strictly ascending id order stand in one order only.
pub proof fn lemma_ascending_order_is_unique(a: Seq<Arc<BlockSstFile>>, b: Seq<Arc<BlockSstFile>>)
    requires
        a.to_multiset() == b.to_multiset(),
        ids_ascend(a),
        ids_ascend(b),
    ensures
        a == b,
    decreases a.len(),
{
    a.to_multiset_ensures();
    b.to_multiset_ensures();
    assert(a.len() == b.len());
    if a.len() == 0 {
        assert(a =~= b);
    } else {
        let x = a.last();
        let y = b.last();
        assert(a.contains(x)) by {
            assert(a[a.len() - 1] == x);
        }
        assert(b.contains(y)) by {
            assert(b[b.len() - 1] == y);
        }
        lemma_same_tables(a, b, x);
        lemma_same_tables(a, b, y);
        let j = choose|j: int| 0 <= j < b.len() && b[j] == x;
        let i = choose|i: int| 0 <= i < a.len() && a[i] == y;
        if j < b.len() - 1 {
            assert(b[j].id < b[b.len() - 1].id);
            if i < a.len() - 1 {
                assert(a[i].id < a[a.len() - 1].id);
            }
        }
        assert(x == y);
        let a0 = a.drop_last();
        let b0 = b.drop_last();
        assert(a =~= a0.push(x));
        assert(b =~= b0.push(y));
        a0.to_multiset_ensures();
        b0.to_multiset_ensures();
        assert(a0.to_multiset() =~= a.to_multiset().remove(x));
        assert(b0.to_multiset() =~= b.to_multiset().remove(y));
        lemma_ascending_order_is_unique(a0, b0);
        assert(a =~= b);
    }
}

/// A surviving table is one of the tables, and not deleted.
pub proof fn lemma_survivors(ssts: Seq<Arc<BlockSstFile>>, deleted: Seq<u64>)
    ensures
        forall|i: int|
            0 <= i < survivors(ssts, deleted).len() ==> ssts.contains(#[trigger] survivors(ssts, deleted)[i])
                && !deleted.contains(survivors(ssts, deleted)[i].id),
        forall|i: int|
            0 <= i < ssts.len() && !deleted.contains((#[trigger] ssts[i]).id) ==> survivors(
                ssts,
                deleted,
            ).contains(ssts[i]),
        ids_ascend(ssts) ==> ids_ascend(survivors(ssts, deleted)),
        ids_in_order(ssts) ==> ids_in_order(survivors(ssts, deleted)),
        all_wf(ssts) ==> all_wf(survivors(ssts, deleted)),
    decreases ssts.len(),
{
    let kept = survivors(ssts, deleted);
    if ssts.len() > 0 {
        let head = ssts.drop_last();
        let last = ssts.last();
        lemma_survivors(head, deleted);
        let before = survivors(head, deleted);
        assert forall|i: int| 0 <= i < kept.len() implies ssts.contains(#[trigger] kept[i])
            && !deleted.contains(kept[i].id) by {
            if i < before.len() {
                assert(kept[i] == before[i]);
                let j = choose|j: int| 0 <= j < head.len() && head[j] == before[i];
                assert(ssts[j] == kept[i]);
            } else {
                assert(ssts[ssts.len() - 1] == kept[i]);
            }
        }
        assert forall|i: int| 0 <= i < ssts.len() && !deleted.contains((#[trigger] ssts[i]).id) implies kept.contains(
            ssts[i],
        ) by {
            if i < head.len() {
                assert(head[i] == ssts[i]);
                let j = choose|j: int| 0 <= j < before.len() && before[j] == head[i];
                assert(kept[j] == ssts[i]);
            } else {
                assert(kept[kept.len() - 1] == ssts[i]);
            }
        }
        if ids_ascend(ssts) {
            assert forall|i: int, j: int| 0 <= i < j < head.len() implies (#[trigger] head[i]).id < (
            #[trigger] head[j]).id by {
                assert(ssts[i].id < ssts[j].id);
            }
            assert forall|i: int, j: int| 0 <= i < j < kept.len() implies (#[trigger] kept[i]).id < (
            #[trigger] kept[j]).id by {
                if j < before.len() {
                    assert(before[i].id < before[j].id);
                } else {
                    assert(kept[i] == before[i]);
                    let k = choose|k: int| 0 <= k < head.len() && head[k] == before[i];
                    assert(ssts[k].id < ssts[ssts.len() - 1].id);
                }
            }
        }
        if ids_in_order(ssts) {
            assert forall|i: int, j: int| 0 <= i < j < head.len() implies (#[trigger] head[i]).id <= (
            #[trigger] head[j]).id by {
                assert(ssts[i].id <= ssts[j].id);
            }
            assert forall|i: int, j: int| 0 <= i < j < kept.len() implies (#[trigger] kept[i]).id <= (
            #[trigger] kept[j]).id by {
                if j < before.len() {
                    assert(before[i].id <= before[j].id);
                } else {
                    assert(kept[i] == before[i]);
                    let k = choose|k: int| 0 <= k < head.len() && head[k] == before[i];
                    assert(ssts[k].id <= ssts[ssts.len() - 1].id);
                }
            }
        }
        if all_wf(ssts) {
            assert forall|i: int| 0 <= i < head.len() implies (#[trigger] head[i]).wf() by {
                assert(ssts[i].wf());
            }
            assert forall|i: int| 0 <= i < kept.len() implies (#[trigger] kept[i]).wf() by {
                if i < before.len() {
                    assert(kept[i] == before[i]);
                    assert(before[i].wf());
                } else {
                    assert(ssts[ssts.len() - 1].wf());
                }
            }
        }
    }
}

/// Whether `ids` has `id`.
pub fn has_id(ids: &Vec<u64>, id: u64) -> (r: bool)
    ensures
        r == ids@.contains(id),
{
    let mut i: usize = 0;
    while i < ids.len()
        invariant
            i <= ids@.len(),
            forall|k: int| 0 <= k < i ==> ids@[k] != id,
        decreases ids@.len() - i,
    {
        if ids[i] == id {
            assert(ids@[i as int] == id);
            return true;
        }
        i = i + 1;
    }
    false
}

/// The deletions of an edit that are not live come first at position `i`.
pub open spec fn first_missing(live: Seq<u64>, deleted: Seq<u64>, i: int) -> bool {
    &&& 0 <= i < deleted.len()
    &&& !live.contains(deleted[i])
    &&& forall|j: int| 0 <= j < i ==> live.contains(#[trigger] deleted[j])
}

/// The version after `edit`: the tables that were there and do not go, and
/// those that come, in ascending id order. An edit that deletes a table that
/// is not live is refused.
pub fn next_version(current: &Version, edit: VersionEdit) -> (r: Result<Version, EngineError>)
    requires
        current.wf(),
        all_wf(edit.added@),
    ensures
        match r {
            Ok(next) => {
                &&& next.wf()
                &&& next.manifest_generation == current.manifest_generation.wrapping_add(1)
                &&& next.ssts@ == by_id(survivors(current.ssts@, edit.deleted@) + edit.added@)
                &&& forall|i: int|
                    0 <= i < edit.deleted@.len() ==> ids_of(current.ssts@).contains(
                        #[trigger] edit.deleted@[i],
                    )
            },
            Err(e) => exists|i: int|
                #[trigger] first_missing(ids_of(current.ssts@), edit.deleted@, i) && e
                    == (EngineError::VersionEditMissingInput { id: edit.deleted@[i] }),
        },
{
    let live = current.ids();
    let mut i: usize = 0;
    while i < edit.deleted.len()
        invariant
            i <= edit.deleted@.len(),
            live@ == ids_of(current.ssts@),
            forall|j: int| 0 <= j < i ==> live@.contains(#[trigger] edit.deleted@[j]),
        decreases edit.deleted@.len() - i,
    {
        let id: u64 = edit.deleted[i];
        if !has_id(&live, id) {
            assert(first_missing(ids_of(current.ssts@), edit.deleted@, i as int));
            return Err(EngineError::VersionEditMissingInput { id });
        }
        i = i + 1;
    }
    let mut ssts: Vec<Arc<BlockSstFile>> = Vec::new();
    let mut k: usize = 0;
    assert(current.ssts@.subrange(0, 0) =~= Seq::<Arc<BlockSstFile>>::empty());
    while k < current.ssts.len()
        invariant
            k <= current.ssts@.len(),
            ssts@ == survivors(current.ssts@.subrange(0, k as int), edit.deleted@),
        decreases current.ssts@.len() - k,
    {
        proof {
            let next = current.ssts@.subrange(0, k + 1);
            assert(next.drop_last() =~= current.ssts@.subrange(0, k as int));
        }
        if !has_id(&edit.deleted, current.ssts[k].id) {
            ssts.push(current.ssts[k].clone());
        }
        k = k + 1;
    }
    proof {
        assert(current.ssts@.subrange(0, k as int) =~= current.ssts@);
        lemma_survivors(current.ssts@, edit.deleted@);
    }
    let mut added = edit.added;
    ssts.append(&mut added);
    proof {
        let all = survivors(current.ssts@, edit.deleted@) + edit.added@;
        assert(ssts@ =~= all);
        assert forall|j: int| 0 <= j < all.len() implies (#[trigger] all[j]).wf() by {
            if j < survivors(current.ssts@, edit.deleted@).len() {
                assert(survivors(current.ssts@, edit.deleted@)[j].wf());
            } else {
                assert(edit.added@[j - survivors(current.ssts@, edit.deleted@).len()].wf());
            }
        }
    }
    Ok(Version::build(current.manifest_generation.wrapping_add(1), ssts))
}

/// A table published while an edit was being prepared, and therefore not among
/// its deletions, is live in the version after the edit.
pub proof fn a_table_flushed_meanwhile_survives(
    current: Version,
    edit: VersionEdit,
    next: Version,
    i: int,
)
    requires
        0 <= i < current.ssts@.len(),
        !edit.deleted@.contains(current.ssts@[i].id),
        next.ssts@ == by_id(survivors(current.ssts@, edit.deleted@) + edit.added@),
    ensures
        next.ssts@.contains(current.ssts@[i]),
{
    let all = survivors(current.ssts@, edit.deleted@) + edit.added@;
    lemma_by_id(all);
    lemma_survivors(current.ssts@, edit.deleted@);
    let k = choose|k: int|
        0 <= k < survivors(current.ssts@, edit.deleted@).len() && survivors(current.ssts@, edit.deleted@)[k]
            == current.ssts@[i];
    assert(all[k] == current.ssts@[i]);
    lemma_same_tables(all, next.ssts@, current.ssts@[i]);
}

/// A deleted table is live no more.
pub proof fn a_deleted_table_is_gone(current: Version, edit: VersionEdit, next: Version, id: u64)
    requires
        edit.deleted@.contains(id),
        !ids_of(edit.added@).contains(id),
        next.ssts@ == by_id(survivors(current.ssts@, edit.deleted@) + edit.added@),
    ensures
        !ids_of(next.ssts@).contains(id),
{
    let kept = survivors(current.ssts@, edit.deleted@);
    let all = kept + edit.added@;
    lemma_by_id(all);
    lemma_survivors(current.ssts@, edit.deleted@);
    if ids_of(next.ssts@).contains(id) {
        let n = choose|n: int| 0 <= n < ids_of(next.ssts@).len() && ids_of(next.ssts@)[n] == id;
        lemma_same_tables(all, next.ssts@, next.ssts@[n]);
        let k = choose|k: int| 0 <= k < all.len() && all[k] == next.ssts@[n];
        if k < kept.len() {
            assert(kept[k] == next.ssts@[n]);
        } else {
            assert(ids_of(edit.added@)[k - kept.len()] == id);
        }
    }
}

} // verus!
