//! What an audit finds in a table that was written: nothing.
use super::audit::audits_table;
use super::checks::{
    audits_blocks, block_errors, blocks_tally, denies_some, first_denied, first_unordered, layout_errors,
    layout_errors_at, reads_blocks, rows_read, BlockReads,
};
use super::{flat, Finding, Listed, Tally, VerifyMode};
use crate::bytes;
use crate::error::EngineError;
use crate::store::files::StoreAudit;
use crate::store::rows;
use crate::store::rows::{put_rows, rows_view, Row, Slot};
use crate::store::sst_block::bloom::{probe, Bloom, BLOOM_NUM_HASHES};
use crate::store::sst_block::read::{filter_denies_no_stored_key, loads};
use crate::store::sst_block::roundtrip::{
    a_written_block_reads_back, a_written_table_loads_as_written, gives_back, lemma_offset_bounds, same_entry,
};
use crate::store::sst_block::write::{
    block_offset, entry_states, laid_out, split_blocks, splitting_keeps_every_row, tombstones_in, writes_new, written,
    Sections, WrittenSst,
};
use crate::store::sst_block::{all_rows, block_matches, index_describes, BlockSstFile, SstWriter};
use vstd::prelude::*;

verus! {

/// The audit of a table adds a file to what was checked, but no error and no
/// warning, and, where rows are collected, collects `rows`.
pub open spec fn audits_clean<F: StoreAudit>(
    files: &F,
    mode: VerifyMode,
    lens: (u64, u64),
    table: Listed,
    run: Seq<Row>,
) -> bool {
    forall|t: Tally, kv: Map<Seq<u8>, Slot>, u: Tally, collected: Map<Seq<u8>, Slot>|
        #[trigger] audits_table(files, mode, lens, table, t, kv, u, collected) ==> {
            &&& u.errors == t.errors
            &&& u.warnings == t.warnings
            &&& collected == (if mode == VerifyMode::FullLogical {
                put_rows(kv, run)
            } else {
                kv
            })
        }
}

/// Where no part adds anything, nothing is added.
pub proof fn lemma_flat_none(n: nat, f: spec_fn(int) -> Seq<Finding>)
    requires
        forall|i: int| 0 <= i < n ==> (#[trigger] f(i)).len() == 0,
    ensures
        flat(n, f) == Seq::<Finding>::empty(),
    decreases n,
{
    if n > 0 {
        lemma_flat_none((n - 1) as nat, f);
        assert(f(n - 1).len() == 0);
        assert(flat(n, f) =~= Seq::<Finding>::empty());
    } else {
        assert(flat(n, f) =~= Seq::<Finding>::empty());
    }
}

proof fn lemma_ordered_block(block: Seq<Row>, from: int)
    requires
        rows::sorted(block),
        0 <= from,
    ensures
        first_unordered(block, from) is None,
    decreases block.len() - from,
{
    if from + 1 < block.len() {
        lemma_ordered_block(block, from + 1);
    }
}

proof fn lemma_undenied_block(bloom: Bloom, block: Seq<Row>, from: int)
    requires
        0 <= from,
        forall|k: int| 0 <= k < block.len() ==> bloom.may_contain((#[trigger] block[k]).0),
    ensures
        first_denied(bloom, block, from) is None,
    decreases block.len() - from,
{
    if from < block.len() {
        lemma_undenied_block(bloom, block, from + 1);
    }
}

proof fn lemma_row_of_block(blocks: Seq<Seq<Row>>, i: int, k: int)
    requires
        0 <= i < blocks.len(),
        0 <= k < blocks[i].len(),
    ensures
        rows::mentions(all_rows(blocks), blocks[i][k].0),
    decreases blocks.len(),
{
    let head = blocks.drop_last();
    let all = all_rows(blocks);
    if i < head.len() {
        lemma_row_of_block(head, i, k);
        let n = choose|n: int| 0 <= n < all_rows(head).len() && #[trigger] all_rows(head)[n].0 == blocks[i][k].0;
        assert(all[n].0 == blocks[i][k].0);
    } else {
        let n = all_rows(head).len() + k;
        assert(all[n].0 == blocks[i][k].0);
    }
}

/// Filters of the same bits answer alike.
proof fn lemma_same_filter(a: Bloom, b: Bloom, key: Seq<u8>)
    requires
        a.spec_num_bits() == b.spec_num_bits(),
        a.spec_bits() == b.spec_bits(),
        a.may_contain(key),
    ensures
        b.may_contain(key),
{
    assert forall|i: u64| i < BLOOM_NUM_HASHES implies b.is_set(#[trigger] probe(key, b.spec_num_bits(), i)) by {
        assert(a.is_set(probe(key, a.spec_num_bits(), i)));
    }
}

/// Blocks that were read as they were cut have nothing wrong with them.
proof fn lemma_blocks_clean(
    sst: BlockSstFile,
    path: Seq<char>,
    reads: BlockReads,
    blocks: Seq<Seq<Row>>,
    t: Tally,
)
    requires
        reads.len() <= blocks.len() == sst.block_index@.len(),
        forall|i: int| 0 <= i < reads.len() ==> (#[trigger] reads[i] matches Ok(v) && rows_view(v@) == blocks[i]),
        forall|i: int| 0 <= i < blocks.len() ==> rows::sorted(#[trigger] blocks[i]),
        forall|i: int|
            0 <= i < blocks.len() ==> (#[trigger] sst.block_index@[i]).tombstone_count == tombstones_in(blocks[i]),
        forall|i: int, k: int|
            0 <= i < blocks.len() && 0 <= k < blocks[i].len() ==> sst.bloom.may_contain((#[trigger] blocks[i][k]).0),
    ensures
        blocks_tally(sst, path, reads, t).errors == t.errors,
        blocks_tally(sst, path, reads, t).warnings == t.warnings,
        rows_read(reads) == all_rows(blocks.take(reads.len() as int)),
    decreases reads.len(),
{
    let n = reads.len() as int;
    if n == 0 {
        assert(blocks.take(0) =~= Seq::<Seq<Row>>::empty());
        assert(rows_read(reads) =~= Seq::<Row>::empty());
    } else {
        let head = reads.drop_last();
        let block = blocks[n - 1];
        assert forall|i: int| 0 <= i < head.len() implies (#[trigger] head[i] matches Ok(v) && rows_view(v@) == blocks[i]) by {
            assert(head[i] == reads[i]);
        }
        lemma_blocks_clean(sst, path, head, blocks, t);
        assert(reads[n - 1] matches Ok(v) && rows_view(v@) == block);
        let before = blocks_tally(sst, path, head, t);
        lemma_ordered_block(block, 0);
        lemma_undenied_block(sst.bloom, block, 0);
        assert(sst.block_index@[n - 1].tombstone_count == tombstones_in(block));
        let more = block_errors(sst, path, n - 1, block, denies_some(sst.bloom, head));
        assert(more =~= Seq::<Finding>::empty());
        assert(before.errors + more =~= before.errors);
        assert(before.warnings + Seq::<Finding>::empty() =~= before.warnings);
        assert(blocks.take(n).drop_last() =~= blocks.take(n - 1));
        assert(blocks.take(n).last() == block);
    }
}

/// A table that was written audits clean in every mode, where the codec decodes
/// what it encoded and the file can be opened: no error, no warning, and its
/// rows collected.
pub proof fn a_written_table_audits_clean<W: SstWriter, F: StoreAudit>(
    writer: &W,
    files: &F,
    dir: &str,
    id: u64,
    run: Seq<Row>,
    block_size: u32,
    sections: Sections,
    w: WrittenSst,
    mode: VerifyMode,
    lens: (u64, u64),
)
    requires
        writes_new(writer, dir@, id, run, block_size, Ok(w)),
        written(writer, dir, id, run, block_size, sections, w.file),
        w.bytes@ == sections.file(),
        gives_back(files, w.file, sections, split_blocks(run, block_size as nat)),
        lens.0 == sections.header.len(),
        lens.1 == sections.footer.len(),
        forall|p: &str, o: Result<(), String>|
            p@ == w.file.path@ && #[trigger] call_ensures(F::open_table, (files, p), o) ==> o is Ok,
    ensures
        audits_clean(
            files,
            mode,
            lens,
            (Listed { id, path: w.file.path@, len: w.file.file_bytes }),
            run,
        ),
{
    let table = Listed { id, path: w.file.path@, len: w.file.file_bytes };
    let blocks = split_blocks(run, block_size as nat);
    assert forall|t: Tally, kv: Map<Seq<u8>, Slot>, u: Tally, collected: Map<Seq<u8>, Slot>| #[trigger]
        audits_table(files, mode, lens, table, t, kv, u, collected) implies u.errors == t.errors
            && u.warnings == t.warnings
        && collected == (if mode == VerifyMode::FullLogical {
        put_rows(kv, run)
    } else {
        kv
    }) by {
        lemma_one_audit(
            writer,
            files,
            dir,
            id,
            run,
            block_size,
            sections,
            w,
            mode,
            lens,
            t,
            kv,
            u,
            collected,
        );
    }
}

proof fn lemma_one_audit<W: SstWriter, F: StoreAudit>(
    writer: &W,
    files: &F,
    dir: &str,
    id: u64,
    run: Seq<Row>,
    block_size: u32,
    sections: Sections,
    w: WrittenSst,
    mode: VerifyMode,
    lens: (u64, u64),
    t: Tally,
    kv: Map<Seq<u8>, Slot>,
    u: Tally,
    collected: Map<Seq<u8>, Slot>,
)
    requires
        writes_new(writer, dir@, id, run, block_size, Ok(w)),
        written(writer, dir, id, run, block_size, sections, w.file),
        w.bytes@ == sections.file(),
        gives_back(files, w.file, sections, split_blocks(run, block_size as nat)),
        lens.0 == sections.header.len(),
        lens.1 == sections.footer.len(),
        forall|p: &str, o: Result<(), String>|
            p@ == w.file.path@ && #[trigger] call_ensures(F::open_table, (files, p), o) ==> o is Ok,
        audits_table(
            files,
            mode,
            lens,
            (Listed { id, path: w.file.path@, len: w.file.file_bytes }),
            t,
            kv,
            u,
            collected,
        ),
    ensures
        u.errors == t.errors,
        u.warnings == t.warnings,
        collected == (if mode == VerifyMode::FullLogical {
            put_rows(kv, run)
        } else {
            kv
        }),
{
    let path = w.file.path@;
    let blocks = split_blocks(run, block_size as nat);
    let full = mode == VerifyMode::FullLogical;
    let l = choose|l: Result<BlockSstFile, EngineError>|
        #[trigger] loads(files, path, id, w.file.file_bytes, lens.0, lens.1, l) && match l {
            Err(e) => true,
            Ok(sst) => {
                let a = t.with_file().with(
                    flat(
                        sst.block_index@.len(),
                        layout_errors(sst.block_index@, sst.file_bytes, lens.0, path),
                    ),
                    Seq::empty(),
                );
                if mode == VerifyMode::Quick {
                    u == a && collected == kv
                } else {
                    audits_blocks(files, &sst, path, full, a, kv, u, collected)
                }
            },
        };
    a_written_table_loads_as_written(
        writer,
        files,
        dir,
        id,
        run,
        block_size,
        sections,
        w,
        lens.0,
        lens.1,
        l,
    );
    let sst = l->Ok_0;
    let index = sst.block_index@;
    let f = layout_errors(index, sst.file_bytes, lens.0, path);
    assert(laid_out(writer, dir, id, run, block_size, sections, w.file.block_index));
    assert(index_describes(w.file.block_index@, blocks));
    let sealed = sections.blocks;
    let start = sections.header.len();
    assert(sealed.take(sealed.len() as int) =~= sealed);
    assert forall|i: int| 0 <= i < index.len() implies (#[trigger] f(i)).len() == 0 by {
        let entry = w.file.block_index@[i];
        assert(same_entry(index[i], entry));
        assert(entry_states(entry, blocks[i], block_offset(start, sealed, i), sealed[i]));
        assert(block_matches(entry, blocks[i]));
        lemma_offset_bounds(start, sealed, i + 1, sealed.len() as int);
        assert(block_offset(start, sealed, i + 1) == entry.offset + entry.len);
        assert(w.file.file_bytes == sections.file().len());
        if i > 0 {
            let prior = w.file.block_index@[i - 1];
            assert(same_entry(index[i - 1], prior));
            assert(entry_states(prior, blocks[i - 1], block_offset(start, sealed, i - 1), sealed[i - 1]));
            assert(block_offset(start, sealed, i) == prior.offset + prior.len);
        }
        bytes::lemma_lt_total(entry.first_key@, entry.last_key@);
        assert(layout_errors_at(index, sst.file_bytes, lens.0, path, i) =~= Seq::<Finding>::empty());
    }
    lemma_flat_none(index.len(), f);
    let a = t.with_file().with(flat(index.len(), f), Seq::empty());
    assert(a.errors =~= t.errors);
    assert(a.warnings =~= t.warnings);
    splitting_keeps_every_row(run, block_size as nat);
    if mode != VerifyMode::Quick {
        let (p, o) = choose|p: &str, o: Result<(), String>|
            p@ == path && #[trigger] call_ensures(F::open_table, (files, p), o) && match o {
                Err(why) => true,
                Ok(()) => exists|reads: BlockReads|
                    {
                        &&& #[trigger] reads_blocks(files, &sst, reads)
                        &&& u == blocks_tally(sst, path, reads, a)
                        &&& collected == if full {
                            put_rows(kv, rows_read(reads))
                        } else {
                            kv
                        }
                    },
            };
        let reads = choose|reads: BlockReads|
            {
                &&& #[trigger] reads_blocks(files, &sst, reads)
                &&& u == blocks_tally(sst, path, reads, a)
                &&& collected == if full {
                    put_rows(kv, rows_read(reads))
                } else {
                    kv
                }
            };
        assert forall|i: int| 0 <= i < reads.len() implies (#[trigger] reads[i] matches Ok(v) && rows_view(v@)
            == blocks[i]) by {
            a_written_block_reads_back(
                writer,
                files,
                dir,
                id,
                run,
                block_size,
                sections,
                w,
                sst,
                i,
                reads[i],
            );
        }
        assert forall|i: int| 0 <= i < blocks.len() implies rows::sorted(#[trigger] blocks[i]) by {
            assert(block_matches(w.file.block_index@[i], blocks[i]));
        }
        assert forall|i: int| 0 <= i < blocks.len() implies (#[trigger] sst.block_index@[i]).tombstone_count
            == tombstones_in(blocks[i]) by {
            let entry = w.file.block_index@[i];
            assert(same_entry(index[i], entry));
            assert(entry_states(entry, blocks[i], block_offset(start, sealed, i), sealed[i]));
        }
        assert forall|i: int, k: int|
            0 <= i < blocks.len()
                && 0 <= k < blocks[i].len() implies sst.bloom.may_contain((#[trigger] blocks[i][k]).0) by {
            lemma_row_of_block(blocks, i, k);
            filter_denies_no_stored_key(w.file.bloom, run, blocks[i][k].0);
            lemma_same_filter(w.file.bloom, sst.bloom, blocks[i][k].0);
        }
        lemma_blocks_clean(sst, path, reads, blocks, a);
        assert(blocks.take(reads.len() as int) =~= blocks);
    }
}

} // verus!
