//! What an edit makes of the live tables.
use crate::error::EngineError;
use crate::store::sst_block::BlockSstFile;
use crate::store::version::{
    all_wf, by_id, first_missing, ids_of, lemma_by_id, lemma_same_tables, lemma_survivors, next_version, survivors,
    Version, VersionEdit,
};
use std::sync::Arc;
use vstd::prelude::*;

verus! {

/// Some of the tables has an id.
pub open spec fn has_table(ssts: Seq<Arc<BlockSstFile>>, id: u64) -> bool {
    exists|i: int| 0 <= i < ssts.len() && (#[trigger] ssts[i]).id == id
}

proof fn lemma_has_table(ssts: Seq<Arc<BlockSstFile>>, id: u64)
    ensures
        ids_of(ssts).contains(id) <==> has_table(ssts, id),
{
    if ids_of(ssts).contains(id) {
        let i = choose|i: int| 0 <= i < ids_of(ssts).len() && ids_of(ssts)[i] == id;
        assert(ssts[i].id == id);
    }
    if has_table(ssts, id) {
        let i = choose|i: int| 0 <= i < ssts.len() && (#[trigger] ssts[i]).id == id;
        assert(ids_of(ssts)[i] == id);
    }
}

/// After an edit the live tables are those that it adds and those that were
/// live and that it does not delete, lowest id first. It counts as one more
/// publication.
pub proof fn an_edit_adds_and_deletes_what_it_says(
    current: &Version,
    edit: VersionEdit,
    next: Version,
    x: Arc<BlockSstFile>,
)
    requires
        current.wf(),
        all_wf(edit.added@),
        call_ensures(next_version, (current, edit), Ok(next)),
    ensures
        next.ssts@.contains(x) <==> edit.added@.contains(x) || (current.ssts@.contains(x) && !edit.deleted@.contains(
            x.id,
        )),
        forall|i: int, j: int| 0 <= i < j < next.ssts@.len() ==> next.ssts@[i].id <= next.ssts@[j].id,
        current.manifest_generation < u64::MAX ==> next.manifest_generation == current.manifest_generation + 1,
{
    let kept = survivors(current.ssts@, edit.deleted@);
    let all = kept + edit.added@;
    lemma_by_id(all);
    lemma_survivors(current.ssts@, edit.deleted@);
    lemma_same_tables(all, next.ssts@, x);
    if edit.added@.contains(x) {
        let k = choose|k: int| 0 <= k < edit.added@.len() && edit.added@[k] == x;
        assert(all[kept.len() + k] == x);
    }
    if current.ssts@.contains(x) && !edit.deleted@.contains(x.id) {
        let k = choose|k: int| 0 <= k < current.ssts@.len() && current.ssts@[k] == x;
        assert(!edit.deleted@.contains(current.ssts@[k].id));
        let j = choose|j: int| 0 <= j < kept.len() && kept[j] == x;
        assert(all[j] == x);
    }
    if all.contains(x) {
        let k = choose|k: int| 0 <= k < all.len() && all[k] == x;
        if k < kept.len() {
            assert(kept[k] == x);
        } else {
            assert(edit.added@[k - kept.len()] == x);
        }
    }
    assert(by_id(all) == next.ssts@);
}

/// An edit is refused exactly if it deletes a table that is not live, and the
/// error names one.
pub proof fn an_edit_of_a_table_that_is_not_live_is_refused(
    current: &Version,
    edit: VersionEdit,
    r: Result<Version, EngineError>,
)
    requires
        current.wf(),
        all_wf(edit.added@),
        call_ensures(next_version, (current, edit), r),
    ensures
        r is Err <==> exists|i: int|
            0 <= i < edit.deleted@.len() && !has_table(current.ssts@, #[trigger] edit.deleted@[i]),
        r matches Err(e) ==> (e matches EngineError::VersionEditMissingInput { id } && edit.deleted@.contains(id)
            && !has_table(current.ssts@, id)),
{
    let live = ids_of(current.ssts@);
    assert forall|i: int| 0 <= i < edit.deleted@.len() implies live.contains(edit.deleted@[i]) == has_table(
        current.ssts@,
        #[trigger] edit.deleted@[i],
    ) by {
        lemma_has_table(current.ssts@, edit.deleted@[i]);
    }
    if let Err(e) = r {
        let i = choose|i: int|
            #[trigger] first_missing(live, edit.deleted@, i) && e == (EngineError::VersionEditMissingInput {
                id: edit.deleted@[i],
            });
        assert(!has_table(current.ssts@, edit.deleted@[i]));
    }
}

} // verus!
