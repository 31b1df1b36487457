//! What an audit does not pass over: everything that is wrong with a table is
//! told, and a healthy report means that all of it is whole.
use super::audit::{audits_table, audits_tables};
use super::checks::{
    audits_blocks, block_end, block_errors, blocks_tally, denies_in, denies_some, due_offset, first_denied,
    first_unordered, layout_errors, layout_errors_at, reads_blocks, rows_read, BlockReads,
};
use super::{flat, sst_error_kind, table_error_kind, Finding, IssueKind, Listed, Tally, VerifyMode};
use crate::bytes::bytes_lt;
use crate::error::EngineError;
use crate::key::Key;
use crate::store::files::StoreAudit;
use crate::store::rows::{rows_view, Row, Slot};
use crate::store::sst_block::bloom::Bloom;
use crate::store::sst_block::read::{loads, reads_block};
use crate::store::sst_block::write::tombstones_in;
use crate::store::sst_block::{BlockSstFile, SstBlockIndexEntry};
use crate::store::verify_logical::laws::lemma_flat_empty;
use crate::store::Value;
use vstd::prelude::*;

verus! {

/// The kind is the one that stands for an error met while reading a table: the
/// part that is corrupt, or of another version.
pub open spec fn blames(e: EngineError, kind: IssueKind) -> bool {
    &&& kind is SstHeaderCorrupt <==> e is CorruptSstHeader || e is UnsupportedSstHeaderVersion
    &&& kind is SstFooterCorrupt <==> e is CorruptSstFooter || e is UnsupportedSstFooterVersion
    &&& kind is SstBlockIndexCorrupt <==> e is CorruptSstBlockIndex || e is UnsupportedSstBlockIndexVersion
    &&& kind is SstBloomCorrupt <==> e is CorruptSstBloomFilter || e is UnsupportedSstBloomFilterVersion
    &&& kind is SstDataBlockCorrupt <==> e is CorruptSstDataBlock || e is UnsupportedSstDataBlockVersion
    &&& kind is SstSealedSectionCorrupt <==> e is CorruptEncryptedSstBlock || e is UnsupportedEncryptedSstBlockVersion
    &&& kind is Io <==> e is Io
    &&& kind is SstHeaderCorrupt || kind is SstFooterCorrupt || kind is SstBlockIndexCorrupt || kind is SstBloomCorrupt
        || kind is SstDataBlockCorrupt || kind is SstSealedSectionCorrupt || kind is Io || kind is Other
}

/// Each error is told as the kind that stands for it.
pub proof fn an_error_is_told_as_its_kind(e: &EngineError, kind: IssueKind)
    requires
        call_ensures(sst_error_kind, (e,), kind),
    ensures
        blames(*e, kind),
{
}

/// Some finding is of a kind, in a file.
pub open spec fn tells_of(found: Seq<Finding>, kind: IssueKind, path: Seq<char>) -> bool {
    exists|k: int| 0 <= k < found.len() && (#[trigger] found[k]).kind == kind && found[k].path == path
}

/// Some finding stands for an error, in a file.
pub open spec fn tells_error(found: Seq<Finding>, e: EngineError, path: Seq<char>) -> bool {
    exists|k: int| 0 <= k < found.len() && blames(e, (#[trigger] found[k]).kind) && found[k].path == path
}

/// How many of the first `n` rows are tombstones.
pub open spec fn tombstones_counted(block: Seq<(Key, Option<Value>)>, n: int) -> int
    decreases n,
{
    if n <= 0 {
        0
    } else {
        tombstones_counted(block, n - 1) + if block[n - 1].1 is None {
            1int
        } else {
            0int
        }
    }
}

/// The keys of a block ascend strictly.
pub open spec fn block_ascends(block: Seq<(Key, Option<Value>)>) -> bool {
    forall|k: int| 0 <= k < block.len() - 1 ==> bytes_lt((#[trigger] block[k]).0@, block[k + 1].0@)
}

/// A block has as many tombstones as its index entry declares.
pub open spec fn block_counts(entry: SstBlockIndexEntry, block: Seq<(Key, Option<Value>)>) -> bool {
    entry.tombstone_count == tombstones_counted(block, block.len() as int) as u32
}

/// The filter admits every key of a block.
pub open spec fn block_is_admitted(bloom: Bloom, block: Seq<(Key, Option<Value>)>) -> bool {
    forall|k: int| 0 <= k < block.len() ==> bloom.may_contain((#[trigger] block[k]).0@)
}

/// The answer to the read of a block is a block that is in order, counted and
/// admitted.
pub open spec fn is_whole_block(
    sst: BlockSstFile,
    i: int,
    read: Result<Vec<(Key, Option<Value>)>, EngineError>,
) -> bool {
    read matches Ok(v) && block_ascends(v@) && block_counts(sst.block_index@[i], v@) && block_is_admitted(sst.bloom, v@)
}

/// What is wrong with block `i`, given the answer to its read, is told.
pub open spec fn tells_block(
    found: Seq<Finding>,
    sst: BlockSstFile,
    path: Seq<char>,
    i: int,
    read: Result<Vec<(Key, Option<Value>)>, EngineError>,
) -> bool {
    match read {
        Err(e) => tells_error(found, e, path),
        Ok(v) => {
            &&& block_ascends(v@) || tells_of(found, IssueKind::SstKeyOrder, path)
            &&& block_counts(sst.block_index@[i], v@) || tells_of(found, IssueKind::SstMetadataMismatch, path)
            &&& block_is_admitted(sst.bloom, v@) || tells_of(found, IssueKind::SstBloomFalseNegative, path)
        },
    }
}

/// Every finding is told of a file.
pub open spec fn all_of_file(found: Seq<Finding>, path: Seq<char>) -> bool {
    forall|k: int| 0 <= k < found.len() ==> (#[trigger] found[k]).path == path
}

/// Block `i` starts where the one before it ends, the first behind the header,
/// and ends within the file.
pub open spec fn is_in_place(sst: BlockSstFile, header_len: u64, i: int) -> bool {
    let entry = sst.block_index@[i];
    let before = sst.block_index@[i - 1];
    let end = before.offset + before.len;
    &&& if i == 0 {
        entry.offset == header_len
    } else if end <= u64::MAX {
        entry.offset == end
    } else {
        entry.offset == u64::MAX
    }
    &&& entry.offset + entry.len <= sst.file_bytes || sst.file_bytes == u64::MAX
}

/// The keys of block `i` are the right way round, behind those of the block
/// before it.
pub open spec fn is_in_key_order(sst: BlockSstFile, i: int) -> bool {
    let entry = sst.block_index@[i];
    &&& !bytes_lt(entry.last_key@, entry.first_key@)
    &&& i > 0 ==> bytes_lt(sst.block_index@[i - 1].last_key@, entry.first_key@)
}

proof fn lemma_with_path(found: Seq<Finding>, more: Seq<Finding>, path: Seq<char>)
    ensures
        all_of_file(found + more, path) <==> all_of_file(found, path) && all_of_file(more, path),
        forall|kind: IssueKind| #[trigger]
            tells_of(found + more, kind, path) <==> tells_of(found, kind, path) || tells_of(more, kind, path),
        forall|e: EngineError| #[trigger]
            tells_error(found + more, e, path) <==> tells_error(found, e, path) || tells_error(more, e, path),
{
    let all = found + more;
    let n = found.len();
    assert forall|k: int| 0 <= k < found.len() implies #[trigger] all[k] == found[k] by {}
    assert forall|k: int| 0 <= k < more.len() implies #[trigger] more[k] == all[n + k] by {}
    if all_of_file(all, path) {
        assert forall|k: int| 0 <= k < found.len() implies (#[trigger] found[k]).path == path by {
            assert(all[k].path == path);
        }
        assert forall|k: int| 0 <= k < more.len() implies (#[trigger] more[k]).path == path by {
            assert(all[n + k].path == path);
        }
    }
    assert forall|kind: IssueKind| #[trigger] tells_of(all, kind, path) <==> tells_of(found, kind, path) || tells_of(
        more,
        kind,
        path,
    ) by {
        if tells_of(found, kind, path) {
            let k = choose|k: int| 0 <= k < found.len() && (#[trigger] found[k]).kind == kind && found[k].path == path;
            assert(all[k].kind == kind);
        }
        if tells_of(more, kind, path) {
            let k = choose|k: int| 0 <= k < more.len() && (#[trigger] more[k]).kind == kind && more[k].path == path;
            assert(all[n + k].kind == kind);
        }
        if tells_of(all, kind, path) {
            let k = choose|k: int| 0 <= k < all.len() && (#[trigger] all[k]).kind == kind && all[k].path == path;
            if k < n {
                assert(found[k].kind == kind);
            } else {
                assert(more[k - n].kind == kind);
            }
        }
    }
    assert forall|e: EngineError| #[trigger] tells_error(all, e, path) <==> tells_error(found, e, path) || tells_error(
        more,
        e,
        path,
    ) by {
        if tells_error(found, e, path) {
            let k = choose|k: int| 0 <= k < found.len() && blames(e, (#[trigger] found[k]).kind)
                && found[k].path == path;
            assert(blames(e, all[k].kind));
        }
        if tells_error(more, e, path) {
            let k = choose|k: int| 0 <= k < more.len() && blames(e, (#[trigger] more[k]).kind) && more[k].path == path;
            assert(blames(e, all[n + k].kind));
        }
        if tells_error(all, e, path) {
            let k = choose|k: int| 0 <= k < all.len() && blames(e, (#[trigger] all[k]).kind) && all[k].path == path;
            if k < n {
                assert(blames(e, found[k].kind));
            } else {
                assert(blames(e, more[k - n].kind));
            }
        }
    }
}

proof fn lemma_unordered(block: Seq<(Key, Option<Value>)>, from: int)
    requires
        0 <= from,
    ensures
        first_unordered(rows_view(block), from) is None <==> forall|k: int|
            from <= k < block.len() - 1 ==> bytes_lt((#[trigger] block[k]).0@, block[k + 1].0@),
    decreases block.len() - from,
{
    let view = rows_view(block);
    if from + 1 < block.len() {
        assert(view[from].0 == block[from].0@ && view[from + 1].0 == block[from + 1].0@);
        lemma_unordered(block, from + 1);
    }
}

proof fn lemma_denied(bloom: Bloom, block: Seq<(Key, Option<Value>)>, from: int)
    requires
        0 <= from,
    ensures
        first_denied(bloom, rows_view(block), from) is None <==> forall|k: int|
            from <= k < block.len() ==> bloom.may_contain((#[trigger] block[k]).0@),
    decreases block.len() - from,
{
    let view = rows_view(block);
    if from < block.len() {
        assert(view[from].0 == block[from].0@);
        lemma_denied(bloom, block, from + 1);
    }
}

proof fn lemma_tombstones(block: Seq<(Key, Option<Value>)>, n: int)
    requires
        0 <= n <= block.len(),
    ensures
        tombstones_counted(block, n) == tombstones_in(rows_view(block).take(n)),
    decreases n,
{
    let view = rows_view(block);
    if n > 0 {
        lemma_tombstones(block, n - 1);
        assert(view.take(n).drop_last() =~= view.take(n - 1));
        assert(view.take(n).last() == view[n - 1]);
    }
}

proof fn lemma_block(sst: BlockSstFile, path: Seq<char>, i: int, v: Vec<(Key, Option<Value>)>, denied: bool)
    requires
        0 <= i < sst.block_index@.len(),
    ensures
        ({
            let more = block_errors(sst, path, i, rows_view(v@), denied);
            &&& all_of_file(more, path)
            &&& block_ascends(v@) || tells_of(more, IssueKind::SstKeyOrder, path)
            &&& block_counts(sst.block_index@[i], v@) || tells_of(more, IssueKind::SstMetadataMismatch, path)
            &&& block_is_admitted(sst.bloom, v@) || denied || tells_of(more, IssueKind::SstBloomFalseNegative, path)
            &&& is_whole_block(sst, i, Ok(v)) ==> more.len() == 0
        }),
{
    let more = block_errors(sst, path, i, rows_view(v@), denied);
    lemma_unordered(v@, 0);
    lemma_denied(sst.bloom, v@, 0);
    lemma_tombstones(v@, v@.len() as int);
    assert(rows_view(v@).take(v@.len() as int) =~= rows_view(v@));
    let order = if block_ascends(v@) {
        0int
    } else {
        1int
    };
    let count = if block_counts(sst.block_index@[i], v@) {
        0int
    } else {
        1int
    };
    if !block_ascends(v@) {
        assert(more[0].kind == IssueKind::SstKeyOrder && more[0].path == path);
    }
    if !block_counts(sst.block_index@[i], v@) {
        assert(more[order].kind == IssueKind::SstMetadataMismatch && more[order].path == path);
    }
    if !block_is_admitted(sst.bloom, v@) && !denied {
        assert(more[order + count].kind == IssueKind::SstBloomFalseNegative && more[order + count].path == path);
    }
}

/// What the blocks add to the errors of a report tells of every block.
proof fn lemma_blocks(sst: BlockSstFile, path: Seq<char>, reads: BlockReads, t: Tally) -> (more: Seq<Finding>)
    requires
        reads.len() <= sst.block_index@.len(),
    ensures
        blocks_tally(sst, path, reads, t).errors == t.errors + more,
        blocks_tally(sst, path, reads, t).warnings == t.warnings,
        all_of_file(more, path),
        forall|i: int| 0 <= i < reads.len() ==> tells_block(more, sst, path, i, #[trigger] reads[i]),
        (forall|i: int| 0 <= i < reads.len() ==> is_whole_block(sst, i, #[trigger] reads[i])) ==> more.len() == 0,
    decreases reads.len(),
{
    if reads.len() == 0 {
        assert(t.errors + Seq::<Finding>::empty() =~= t.errors);
        Seq::empty()
    } else {
        let head = reads.drop_last();
        let last = reads.len() - 1;
        let before = blocks_tally(sst, path, head, t);
        let found = lemma_blocks(sst, path, head, t);
        let denied = denies_some(sst.bloom, head);
        let added = match reads.last() {
            Err(e) => seq![super::issue(table_error_kind(e), path, e.text())],
            Ok(v) => block_errors(sst, path, last, rows_view(v@), denied),
        };
        let more = found + added;
        let after = blocks_tally(sst, path, reads, t);
        assert(after.errors =~= t.errors + more);
        assert(after.warnings =~= t.warnings);
        lemma_with_path(found, added, path);
        match reads.last() {
            Err(e) => {
                assert(blames(e, added[0].kind));
                assert(tells_error(added, e, path));
            },
            Ok(v) => {
                lemma_block(sst, path, last, v, denied);
                if denied && !block_is_admitted(sst.bloom, v@) {
                    let i = choose|i: int| 0 <= i < head.len() && #[trigger] denies_in(sst.bloom, head[i]);
                    let w = head[i]->Ok_0;
                    lemma_denied(sst.bloom, w@, 0);
                    assert(tells_block(found, sst, path, i, head[i]));
                    assert(tells_of(found, IssueKind::SstBloomFalseNegative, path));
                }
            },
        }
        assert forall|i: int| 0 <= i < reads.len() implies tells_block(more, sst, path, i, #[trigger] reads[i]) by {
            if i < last {
                assert(head[i] == reads[i]);
                assert(tells_block(found, sst, path, i, head[i]));
                if let Err(e) = reads[i] {
                    assert(tells_error(found, e, path));
                }
            }
        }
        if forall|i: int| 0 <= i < reads.len() ==> is_whole_block(sst, i, #[trigger] reads[i]) {
            assert forall|i: int| 0 <= i < head.len() implies is_whole_block(sst, i, #[trigger] head[i]) by {
                assert(is_whole_block(sst, i, reads[i]));
            }
            assert(is_whole_block(sst, last, reads[last]));
        }
        more
    }
}

/// What the layout of a table adds to the errors of a report tells of every
/// block that is out of place or out of order.
proof fn lemma_layout(sst: BlockSstFile, header_len: u64, path: Seq<char>)
    ensures
        ({
            let found = flat(
                sst.block_index@.len(),
                layout_errors(sst.block_index@, sst.file_bytes, header_len, path),
            );
            &&& all_of_file(found, path)
            &&& forall|i: int|
                0 <= i < sst.block_index@.len() ==> #[trigger] is_in_place(sst, header_len, i) || tells_of(
                    found,
                    IssueKind::SstBlockLayout,
                    path,
                )
            &&& forall|i: int|
                0 <= i < sst.block_index@.len() ==> #[trigger] is_in_key_order(sst, i) || tells_of(
                    found,
                    IssueKind::SstKeyOrder,
                    path,
                )
            &&& (forall|i: int|
                0 <= i < sst.block_index@.len() ==> #[trigger] is_in_place(sst, header_len, i) && is_in_key_order(
                    sst,
                    i,
                )) ==> found.len() == 0
        }),
{
    let index = sst.block_index@;
    let f = layout_errors(index, sst.file_bytes, header_len, path);
    let found = flat(index.len(), f);
    assert forall|i: int| 0 <= i < index.len() implies lays_out(sst, header_len, path, i, #[trigger] f(i)) by {
        lemma_layout_at(sst, header_len, path, i);
    }
    lemma_layouts(sst, header_len, path, f, index.len());
    lemma_flat_empty(index.len(), f);
    if forall|i: int|
        0 <= i < index.len() ==> #[trigger] is_in_place(sst, header_len, i) && is_in_key_order(sst, i) {
        assert forall|i: int| 0 <= i < index.len() implies (#[trigger] f(i)).len() == 0 by {
            assert(is_in_place(sst, header_len, i));
            assert(lays_out(sst, header_len, path, i, f(i)));
        }
    }
}

/// What is wrong with the place of block `i` is told.
spec fn lays_out(sst: BlockSstFile, header_len: u64, path: Seq<char>, i: int, found: Seq<Finding>) -> bool {
    &&& all_of_file(found, path)
    &&& is_in_place(sst, header_len, i) || tells_of(found, IssueKind::SstBlockLayout, path)
    &&& is_in_key_order(sst, i) || tells_of(found, IssueKind::SstKeyOrder, path)
    &&& is_in_place(sst, header_len, i) && is_in_key_order(sst, i) ==> found.len() == 0
}

proof fn lemma_layout_at(sst: BlockSstFile, header_len: u64, path: Seq<char>, i: int)
    requires
        0 <= i < sst.block_index@.len(),
    ensures
        lays_out(
            sst,
            header_len,
            path,
            i,
            layout_errors_at(sst.block_index@, sst.file_bytes, header_len, path, i),
        ),
{
    let index = sst.block_index@;
    let entry = index[i];
    let found = layout_errors_at(index, sst.file_bytes, header_len, path, i);
    let a = if entry.offset != due_offset(index, header_len, i) {
        1int
    } else {
        0int
    };
    let b = if block_end(entry) > sst.file_bytes {
        1int
    } else {
        0int
    };
    if a + b > 0 {
        assert(found[0].kind == IssueKind::SstBlockLayout && found[0].path == path);
    }
    if !is_in_key_order(sst, i) {
        assert(found[a + b].kind == IssueKind::SstKeyOrder && found[a + b].path == path);
    }
}

proof fn lemma_layouts(
    sst: BlockSstFile,
    header_len: u64,
    path: Seq<char>,
    f: spec_fn(int) -> Seq<Finding>,
    n: nat,
)
    requires
        forall|i: int| 0 <= i < n ==> lays_out(sst, header_len, path, i, #[trigger] f(i)),
    ensures
        all_of_file(flat(n, f), path),
        forall|i: int|
            0 <= i < n ==> #[trigger] is_in_place(sst, header_len, i) || tells_of(
                flat(n, f),
                IssueKind::SstBlockLayout,
                path,
            ),
        forall|i: int|
            0 <= i < n ==> #[trigger] is_in_key_order(sst, i) || tells_of(flat(n, f), IssueKind::SstKeyOrder, path),
    decreases n,
{
    if n > 0 {
        let m = (n - 1) as nat;
        lemma_layouts(sst, header_len, path, f, m);
        lemma_with_path(flat(m, f), f(n - 1), path);
        assert(lays_out(sst, header_len, path, n - 1, f(n - 1)));
    }
}

/// The answer to the load of a table, and, of a full audit, the answers to the
/// reads of its blocks, with what is told of them.
pub open spec fn tells_table<F: StoreAudit>(
    found: Seq<Finding>,
    files: &F,
    mode: VerifyMode,
    lens: (u64, u64),
    table: Listed,
    l: Result<BlockSstFile, EngineError>,
    o: Result<(), String>,
    reads: BlockReads,
) -> bool {
    let path = table.path;
    &&& loads(files, path, table.id, table.len, lens.0, lens.1, l)
    &&& all_of_file(found, path)
    &&& match l {
        Err(e) => tells_error(found, e, path),
        Ok(sst) => {
            &&& forall|i: int|
                0 <= i < sst.block_index@.len() ==> #[trigger] is_in_place(sst, lens.0, i) || tells_of(
                    found,
                    IssueKind::SstBlockLayout,
                    path,
                )
            &&& forall|i: int|
                0 <= i < sst.block_index@.len() ==> #[trigger] is_in_key_order(sst, i) || tells_of(
                    found,
                    IssueKind::SstKeyOrder,
                    path,
                )
            &&& !(mode is Quick) ==> {
                &&& exists|p: &str| p@ == path && #[trigger] call_ensures(F::open_table, (files, p), o)
                &&& o is Err ==> tells_of(found, IssueKind::Io, path)
                &&& o is Ok ==> {
                    &&& reads.len() == sst.block_index@.len()
                    &&& forall|i: int|
                        0 <= i < reads.len() ==> reads_block(files, &sst, i, #[trigger] reads[i]) && tells_block(
                            found,
                            sst,
                            path,
                            i,
                            reads[i],
                        )
                }
            }
        },
    }
    &&& is_whole_table(mode, lens, l, o, reads) ==> found.len() == 0
}

/// The answers are those of a whole table: it loads, its blocks follow one
/// another in the file and in key order, and, where they are read, every one
/// of them is read and is whole.
pub open spec fn is_whole_table(
    mode: VerifyMode,
    lens: (u64, u64),
    l: Result<BlockSstFile, EngineError>,
    o: Result<(), String>,
    reads: BlockReads,
) -> bool {
    l matches Ok(sst) && {
        &&& forall|i: int|
            0 <= i < sst.block_index@.len() ==> #[trigger] is_in_place(sst, lens.0, i) && is_in_key_order(sst, i)
        &&& !(mode is Quick) ==> o is Ok && reads.len() == sst.block_index@.len() && forall|i: int|
            0 <= i < reads.len() ==> is_whole_block(sst, i, #[trigger] reads[i])
    }
}

proof fn lemma_table_told<F: StoreAudit>(
    files: &F,
    mode: VerifyMode,
    lens: (u64, u64),
    table: Listed,
    sst: BlockSstFile,
    o: Result<(), String>,
    reads: BlockReads,
    laid: Seq<Finding>,
    added: Seq<Finding>,
)
    requires
        loads(files, table.path, table.id, table.len, lens.0, lens.1, Ok(sst)),
        o is Ok,
        exists|p: &str| p@ == table.path && #[trigger] call_ensures(F::open_table, (files, p), o),
        reads_blocks(files, &sst, reads),
        laid == flat(
            sst.block_index@.len(),
            layout_errors(sst.block_index@, sst.file_bytes, lens.0, table.path),
        ),
        !(mode is Quick),
        all_of_file(added, table.path),
        forall|i: int| 0 <= i < reads.len() ==> tells_block(added, sst, table.path, i, #[trigger] reads[i]),
        (forall|i: int| 0 <= i < reads.len() ==> is_whole_block(sst, i, #[trigger] reads[i])) ==> added.len() == 0,
    ensures
        tells_table(laid + added, files, mode, lens, table, Ok(sst), o, reads),
{
    let path = table.path;
    let found = laid + added;
    lemma_layout(sst, lens.0, path);
    lemma_with_path(laid, added, path);
    assert forall|i: int| 0 <= i < reads.len() implies reads_block(files, &sst, i, #[trigger] reads[i]) && tells_block(
        found,
        sst,
        path,
        i,
        reads[i],
    ) by {
        assert(tells_block(added, sst, path, i, reads[i]));
        if let Err(e) = reads[i] {
            assert(tells_error(added, e, path));
        }
    }
    if is_whole_table(mode, lens, Ok(sst), o, reads) {
        assert(laid.len() == 0);
        assert(added.len() == 0);
    }
}

/// Everything that is wrong with a table is told, of its file, as what it is;
/// and of a whole table nothing is told. The errors told before stay.
pub proof fn what_is_wrong_with_a_table_is_told<F: StoreAudit>(
    files: &F,
    mode: VerifyMode,
    lens: (u64, u64),
    table: Listed,
    t: Tally,
    kv: Map<Seq<u8>, Slot>,
    u: Tally,
    collected: Map<Seq<u8>, Slot>,
) -> (r: (Seq<Finding>, Result<BlockSstFile, EngineError>, Result<(), String>, BlockReads))
    requires
        audits_table(files, mode, lens, table, t, kv, u, collected),
    ensures
        u.errors == t.errors + r.0,
        u.warnings == t.warnings,
        tells_table(r.0, files, mode, lens, table, r.1, r.2, r.3),
{
    let path = table.path;
    let l = choose|l: Result<BlockSstFile, EngineError>|
        #[trigger] loads(files, path, table.id, table.len, lens.0, lens.1, l) && match l {
            Err(e) => u == t.with_file().with_error(table_error_kind(e), path, e.text()) && collected == kv,
            Ok(sst) => {
                let a = t.with_file().with(
                    flat(
                        sst.block_index@.len(),
                        layout_errors(sst.block_index@, sst.file_bytes, lens.0, path),
                    ),
                    Seq::empty(),
                );
                if mode == VerifyMode::Quick {
                    u == a && collected == kv
                } else {
                    audits_blocks(files, &sst, path, mode == VerifyMode::FullLogical, a, kv, u, collected)
                }
            },
        };
    let none: BlockReads = Seq::empty();
    match l {
        Err(e) => {
            let found = seq![super::issue(table_error_kind(e), path, e.text())];
            assert(u.errors =~= t.errors + found);
            assert(u.warnings =~= t.warnings);
            assert(blames(e, found[0].kind));
            assert(tells_table(found, files, mode, lens, table, l, Ok(()), none));
            (found, l, Ok(()), none)
        },
        Ok(sst) => {
            let laid = flat(
                sst.block_index@.len(),
                layout_errors(sst.block_index@, sst.file_bytes, lens.0, path),
            );
            let a = t.with_file().with(laid, Seq::empty());
            lemma_layout(sst, lens.0, path);
            assert(a.warnings =~= t.warnings);
            if mode == VerifyMode::Quick {
                assert(tells_table(laid, files, mode, lens, table, l, Ok(()), none));
                (laid, l, Ok(()), none)
            } else {
                let (p, o) = choose|p: &str, o: Result<(), String>|
                    p@ == path && #[trigger] call_ensures(F::open_table, (files, p), o) && match o {
                        Err(why) => u == a.with_error(IssueKind::Io, path, "cannot open for block audit: "@ + why@),
                        Ok(()) => exists|reads: BlockReads|
                            #[trigger] reads_blocks(files, &sst, reads) && u == blocks_tally(sst, path, reads, a),
                    };
                match o {
                    Err(why) => {
                        let added = seq![super::issue(IssueKind::Io, path, "cannot open for block audit: "@ + why@)];
                        let found = laid + added;
                        lemma_with_path(laid, added, path);
                        assert(added[0].kind == IssueKind::Io);
                        assert(tells_of(added, IssueKind::Io, path));
                        assert(u.errors =~= t.errors + found);
                        assert(tells_table(found, files, mode, lens, table, l, o, none));
                        (found, l, o, none)
                    },
                    Ok(()) => {
                        let reads = choose|reads: BlockReads|
                            #[trigger] reads_blocks(files, &sst, reads) && u == blocks_tally(sst, path, reads, a);
                        let added = lemma_blocks(sst, path, reads, a);
                        let found = laid + added;
                        assert(u.errors =~= t.errors + found);
                        lemma_table_told(files, mode, lens, table, sst, o, reads, laid, added);
                        (found, l, o, reads)
                    },
                }
            }
        },
    }
}

/// How many of the first `n` reads gave a block, and how many rows these have.
pub open spec fn reads_counted(reads: BlockReads, n: int) -> (int, int)
    decreases n,
{
    if n <= 0 {
        (0, 0)
    } else {
        let (blocks, rows) = reads_counted(reads, n - 1);
        match reads[n - 1] {
            Ok(v) => (blocks + 1, rows + v@.len()),
            Err(_) => (blocks, rows),
        }
    }
}

/// The counters of a report count every block that was read, and every row of
/// it, and nothing else; they wrap around.
pub proof fn every_block_that_was_read_is_counted(sst: BlockSstFile, path: Seq<char>, reads: BlockReads, t: Tally)
    ensures
        ({
            let (blocks, rows) = reads_counted(reads, reads.len() as int);
            let u = blocks_tally(sst, path, reads, t);
            &&& u.blocks == (t.blocks + blocks) % 0x1_0000_0000_0000_0000
            &&& u.records == (t.records + rows) % 0x1_0000_0000_0000_0000
            &&& u.files == t.files
        }),
    decreases reads.len(),
{
    if reads.len() > 0 {
        let head = reads.drop_last();
        let n = head.len() as int;
        every_block_that_was_read_is_counted(sst, path, head, t);
        lemma_same_reads(head, reads, n);
        assert(reads[n] == reads.last());
        if let Ok(v) = reads.last() {
            assert(v@.len() == v.len());
        }
    }
}

proof fn lemma_same_reads(a: BlockReads, b: BlockReads, n: int)
    requires
        0 <= n <= a.len(),
        n <= b.len(),
        forall|i: int| 0 <= i < n ==> a[i] == b[i],
    ensures
        reads_counted(a, n) == reads_counted(b, n),
    decreases n,
{
    if n > 0 {
        lemma_same_reads(a, b, n - 1);
    }
}

/// One of the blocks that were read has a row.
pub open spec fn was_read(reads: BlockReads, row: Row) -> bool {
    exists|i: int| 0 <= i < reads.len() && (#[trigger] reads[i] matches Ok(v) && rows_view(v@).contains(row))
}

/// What is gathered of a table is every row of every block that was read, and
/// no other.
pub proof fn every_row_that_was_read_is_gathered(reads: BlockReads, row: Row)
    ensures
        rows_read(reads).contains(row) <==> was_read(reads, row),
    decreases reads.len(),
{
    if reads.len() > 0 {
        let n = reads.len() - 1;
        let head = reads.drop_last();
        let some = rows_read(head);
        let all = rows_read(reads);
        let last: Seq<Row> = match reads.last() {
            Ok(v) => rows_view(v@),
            Err(_) => Seq::empty(),
        };
        every_row_that_was_read_is_gathered(head, row);
        assert(all =~= some + last);
        if some.contains(row) {
            let k = choose|k: int| 0 <= k < some.len() && some[k] == row;
            assert(all[k] == row);
        }
        if last.contains(row) {
            let k = choose|k: int| 0 <= k < last.len() && last[k] == row;
            assert(all[some.len() + k] == row);
            assert(reads[n] is Ok);
        }
        if all.contains(row) {
            let k = choose|k: int| 0 <= k < all.len() && all[k] == row;
            if k < some.len() {
                assert(some[k] == row);
                let i = choose|i: int|
                    0 <= i < head.len() && (#[trigger] head[i] matches Ok(v) && rows_view(v@).contains(row));
                assert(reads[i] == head[i]);
            } else {
                assert(last[k - some.len()] == row);
            }
        }
        if was_read(reads, row) {
            let i = choose|i: int|
                0 <= i < reads.len() && (#[trigger] reads[i] matches Ok(v) && rows_view(v@).contains(row));
            if i < n {
                assert(head[i] == reads[i]);
            }
        }
    }
}

/// Each table that is audited counts as one file.
pub proof fn every_table_that_is_audited_is_counted<F: StoreAudit>(
    files: &F,
    mode: VerifyMode,
    lens: (u64, u64),
    tables: Seq<Listed>,
    n: int,
    t: Tally,
    u: Tally,
    collected: Map<Seq<u8>, Slot>,
)
    requires
        0 <= n <= tables.len(),
        audits_tables(files, mode, lens, tables, n, t, u, collected),
    ensures
        u.files == (t.files + n) % 0x1_0000_0000_0000_0000,
    decreases n,
{
    if n > 0 {
        let (m, kv) = choose|m: Tally, kv: Map<Seq<u8>, Slot>|
            audits_tables(files, mode, lens, tables, n - 1, t, m, kv) && #[trigger] audits_table(
                files,
                mode,
                lens,
                tables[n - 1],
                m,
                kv,
                u,
                collected,
            );
        every_table_that_is_audited_is_counted(files, mode, lens, tables, n - 1, t, m, kv);
        lemma_one_file(files, mode, lens, tables[n - 1], m, kv, u, collected);
        lemma_one_more(t.files as int, n, m.files as int);
    }
}

proof fn lemma_one_more(from: int, n: int, count: int)
    requires
        count == (from + (n - 1)) % 0x1_0000_0000_0000_0000,
    ensures
        (count + 1) % 0x1_0000_0000_0000_0000 == (from + n) % 0x1_0000_0000_0000_0000,
{
}

proof fn lemma_one_file<F: StoreAudit>(
    files: &F,
    mode: VerifyMode,
    lens: (u64, u64),
    table: Listed,
    t: Tally,
    kv: Map<Seq<u8>, Slot>,
    u: Tally,
    collected: Map<Seq<u8>, Slot>,
)
    requires
        audits_table(files, mode, lens, table, t, kv, u, collected),
    ensures
        u.files == (t.files + 1) % 0x1_0000_0000_0000_0000,
{
    let path = table.path;
    let l = choose|l: Result<BlockSstFile, EngineError>|
        #[trigger] loads(files, path, table.id, table.len, lens.0, lens.1, l) && match l {
            Err(e) => u == t.with_file().with_error(table_error_kind(e), path, e.text()) && collected == kv,
            Ok(sst) => {
                let a = t.with_file().with(
                    flat(
                        sst.block_index@.len(),
                        layout_errors(sst.block_index@, sst.file_bytes, lens.0, path),
                    ),
                    Seq::empty(),
                );
                if mode == VerifyMode::Quick {
                    u == a && collected == kv
                } else {
                    audits_blocks(files, &sst, path, mode == VerifyMode::FullLogical, a, kv, u, collected)
                }
            },
        };
    if let Ok(sst) = l {
        let a = t.with_file().with(
            flat(sst.block_index@.len(), layout_errors(sst.block_index@, sst.file_bytes, lens.0, path)),
            Seq::empty(),
        );
        if mode != VerifyMode::Quick {
            let (p, o) = choose|p: &str, o: Result<(), String>|
                p@ == path && #[trigger] call_ensures(F::open_table, (files, p), o) && match o {
                    Err(why) => u == a.with_error(IssueKind::Io, path, "cannot open for block audit: "@ + why@)
                        && collected == kv,
                    Ok(()) => exists|reads: BlockReads|
                        {
                            &&& #[trigger] reads_blocks(files, &sst, reads)
                            &&& u == blocks_tally(sst, path, reads, a)
                        },
                };
            if o is Ok {
                let reads = choose|reads: BlockReads|
                    #[trigger] reads_blocks(files, &sst, reads) && u == blocks_tally(sst, path, reads, a);
                every_block_that_was_read_is_counted(sst, path, reads, a);
            }
        }
    }
}

} // verus!
