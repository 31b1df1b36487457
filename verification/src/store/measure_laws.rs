//! What sizes and counts are: sums over what is measured.
use crate::key::Key;
use crate::store::batch::wire_bytes;
use crate::store::block_cache::{payload_bytes, total_bytes, Resident};
use crate::store::engine::compact::table_bytes;
use crate::store::engine::table_tombstones;
use crate::store::rows::{row_view, rows_view, slot_view, Row};
use crate::store::sst_block::write::{block_size_of, tombstones_in};
use crate::store::sst_block::{entries_counted, joined, tombstones_counted, BlockSstFile, SstBlockIndexEntry};
use crate::store::stats::Counters;
use crate::store::verify::{findings, IntegrityIssue, VerifyReport};
use crate::store::Value;
use std::sync::Arc;
use vstd::prelude::*;

verus! {

/// A stored row says its key and its value, every byte of both, or that there
/// is none.
pub proof fn a_row_says_its_key_and_value(row: (Key, Option<Value>))
    ensures
        row_view(row).0 == row.0@,
        row.1 matches Some(v) ==> row_view(row).1 == Some(v@) && slot_view(row.1) == Some(v@),
        row.1 is None ==> row_view(row).1 is None && slot_view(row.1) is None,
{
}

/// Stored rows say what each of them says, in order.
pub proof fn rows_say_what_each_says(rows: Seq<(Key, Option<Value>)>)
    ensures
        rows_view(rows).len() == rows.len(),
        forall|i: int|
            0 <= i < rows.len() ==> (#[trigger] rows_view(rows)[i]).0 == rows[i].0@ && (match rows[i].1 {
                Some(v) => rows_view(rows)[i].1 == Some(v@),
                None => rows_view(rows)[i].1 is None,
            }),
{
}

/// A report says its counts and its findings, each by its kind, its path and
/// its words.
pub proof fn a_report_says_its_findings(report: VerifyReport)
    ensures
        report.tally().files == report.files_checked,
        report.tally().blocks == report.blocks_checked,
        report.tally().records == report.records_checked,
        report.tally().errors.len() == report.errors@.len(),
        report.tally().warnings.len() == report.warnings@.len(),
        forall|i: int| 0 <= i < report.errors@.len() ==> says(#[trigger] report.errors@[i], report.tally().errors[i]),
        forall|i: int|
            0 <= i < report.warnings@.len() ==> says(#[trigger] report.warnings@[i], report.tally().warnings[i]),
{
    assert(findings(report.errors@).len() == report.errors@.len());
}

/// An issue says a finding.
pub open spec fn says(issue: IntegrityIssue, f: crate::store::verify::Finding) -> bool {
    f.kind == issue.kind && f.path == issue.path@ && f.detail == issue.detail@
}

/// The bytes of the first `n` rows: of every key, and of every value there is.
pub open spec fn bytes_summed(rows: Seq<Row>, n: int) -> int
    decreases n,
{
    if n <= 0 {
        0
    } else {
        bytes_summed(rows, n - 1) + rows[n - 1].0.len() + match rows[n - 1].1 {
            Some(v) => v.len() as int,
            None => 0,
        }
    }
}

proof fn lemma_bytes_summed(rows: Seq<Row>, n: int)
    requires
        0 <= n <= rows.len(),
    ensures
        payload_bytes(rows.take(n)) == bytes_summed(rows, n),
        wire_bytes(rows.take(n)) == bytes_summed(rows, n) + 16 * n,
        block_size_of(rows.take(n)) == bytes_summed(rows, n) + 9 * n,
    decreases n,
{
    if n > 0 {
        lemma_bytes_summed(rows, n - 1);
        assert(rows.take(n).drop_last() =~= rows.take(n - 1));
        assert(rows.take(n).last() == rows[n - 1]);
    }
}

/// Payload is keys and values, all of their bytes; on the wire each operation
/// has a frame besides, and in a block each row a header.
pub proof fn sizes_are_sums_of_keys_and_values(rows: Seq<Row>)
    ensures
        payload_bytes(rows) == bytes_summed(rows, rows.len() as int),
        wire_bytes(rows) == bytes_summed(rows, rows.len() as int) + 16 * rows.len(),
        block_size_of(rows) == bytes_summed(rows, rows.len() as int) + 9 * rows.len(),
{
    lemma_bytes_summed(rows, rows.len() as int);
    assert(rows.take(rows.len() as int) =~= rows);
}

/// The payload of resident blocks.
pub open spec fn resident_summed(blocks: Seq<Resident>, n: int) -> int
    decreases n,
{
    if n <= 0 {
        0
    } else {
        resident_summed(blocks, n - 1) + bytes_summed(blocks[n - 1].rows, blocks[n - 1].rows.len() as int)
    }
}

proof fn lemma_total_push(blocks: Seq<Resident>, last: Resident)
    ensures
        total_bytes(blocks.push(last)) == total_bytes(blocks) + crate::store::block_cache::capped(
            payload_bytes(last.rows),
        ),
    decreases blocks.len(),
{
    let all = blocks.push(last);
    if blocks.len() == 0 {
        assert(all.drop_first() =~= Seq::<Resident>::empty());
        reveal_with_fuel(total_bytes, 2);
    } else {
        assert(all.drop_first() =~= blocks.drop_first().push(last));
        lemma_total_push(blocks.drop_first(), last);
    }
}

/// What resident blocks count for is their payload, as long as the payload of
/// each can be counted.
pub proof fn residents_count_for_their_payload(blocks: Seq<Resident>)
    requires
        forall|i: int| 0 <= i < blocks.len() ==> payload_bytes((#[trigger] blocks[i]).rows) <= usize::MAX,
    ensures
        total_bytes(blocks) == resident_summed(blocks, blocks.len() as int),
    decreases blocks.len(),
{
    if blocks.len() > 0 {
        let head = blocks.drop_last();
        assert forall|i: int| 0 <= i < head.len() implies payload_bytes((#[trigger] head[i]).rows) <= usize::MAX by {
            assert(head[i] == blocks[i]);
        }
        residents_count_for_their_payload(head);
        assert(blocks =~= head.push(blocks.last()));
        lemma_total_push(head, blocks.last());
        assert(blocks[blocks.len() - 1] == blocks.last());
        sizes_are_sums_of_keys_and_values(blocks.last().rows);
        lemma_same_sum(head, blocks, head.len() as int);
    }
}

proof fn lemma_same_sum(a: Seq<Resident>, b: Seq<Resident>, n: int)
    requires
        0 <= n <= a.len(),
        n <= b.len(),
        forall|i: int| 0 <= i < n ==> a[i] == b[i],
    ensures
        resident_summed(a, n) == resident_summed(b, n),
    decreases n,
{
    if n > 0 {
        lemma_same_sum(a, b, n - 1);
    }
}

/// How many of the first `n` rows are tombstones.
pub open spec fn tombstones_summed(rows: Seq<Row>, n: int) -> int
    decreases n,
{
    if n <= 0 {
        0
    } else {
        tombstones_summed(rows, n - 1) + if rows[n - 1].1 is None {
            1int
        } else {
            0int
        }
    }
}

proof fn lemma_tombstones_summed(rows: Seq<Row>, n: int)
    requires
        0 <= n <= rows.len(),
    ensures
        tombstones_in(rows.take(n)) == tombstones_summed(rows, n),
    decreases n,
{
    if n > 0 {
        lemma_tombstones_summed(rows, n - 1);
        assert(rows.take(n).drop_last() =~= rows.take(n - 1));
        assert(rows.take(n).last() == rows[n - 1]);
    }
}

/// Tombstones are the rows without a value.
pub proof fn tombstones_are_the_rows_without_a_value(rows: Seq<Row>)
    ensures
        tombstones_in(rows) == tombstones_summed(rows, rows.len() as int),
{
    lemma_tombstones_summed(rows, rows.len() as int);
    assert(rows.take(rows.len() as int) =~= rows);
}

/// The file lengths of the first `n` tables, and their tombstones.
pub open spec fn tables_summed(ssts: Seq<Arc<BlockSstFile>>, n: int) -> (int, int)
    decreases n,
{
    if n <= 0 {
        (0, 0)
    } else {
        let (bytes, tombstones) = tables_summed(ssts, n - 1);
        (bytes + ssts[n - 1].file_bytes, tombstones + ssts[n - 1].tombstones)
    }
}

proof fn lemma_tables_summed(ssts: Seq<Arc<BlockSstFile>>, n: int)
    requires
        0 <= n <= ssts.len(),
    ensures
        tables_summed(ssts, n) == (table_bytes(ssts.take(n)) as int, table_tombstones(ssts.take(n)) as int),
    decreases n,
{
    if n > 0 {
        lemma_tables_summed(ssts, n - 1);
        assert(ssts.take(n).drop_last() =~= ssts.take(n - 1));
        assert(ssts.take(n).last() == ssts[n - 1]);
    }
}

/// The size of tables is the sum of their files' lengths, and their tombstones
/// are the sum of each one's.
pub proof fn tables_are_measured_one_by_one(ssts: Seq<Arc<BlockSstFile>>)
    ensures
        tables_summed(ssts, ssts.len() as int) == (table_bytes(ssts) as int, table_tombstones(ssts) as int),
{
    lemma_tables_summed(ssts, ssts.len() as int);
    assert(ssts.take(ssts.len() as int) =~= ssts);
}

/// The entries of the first `n` blocks, and their tombstones, as an index has
/// them.
pub open spec fn index_summed(index: Seq<SstBlockIndexEntry>, n: int) -> (int, int)
    decreases n,
{
    if n <= 0 {
        (0, 0)
    } else {
        let (entries, tombstones) = index_summed(index, n - 1);
        (entries + index[n - 1].entry_count, tombstones + index[n - 1].tombstone_count)
    }
}

proof fn lemma_index_summed(index: Seq<SstBlockIndexEntry>, n: int)
    requires
        0 <= n <= index.len(),
    ensures
        index_summed(index, n) == (entries_counted(index.take(n)) as int, tombstones_counted(index.take(n)) as int),
    decreases n,
{
    if n > 0 {
        lemma_index_summed(index, n - 1);
        assert(index.take(n).drop_last() =~= index.take(n - 1));
        assert(index.take(n).last() == index[n - 1]);
    }
}

/// An index counts the entries of its blocks, and their tombstones.
pub proof fn an_index_counts_its_blocks(index: Seq<SstBlockIndexEntry>)
    ensures
        index_summed(index, index.len() as int) == (
            entries_counted(index) as int,
            tombstones_counted(index) as int,
        ),
{
    lemma_index_summed(index, index.len() as int);
    assert(index.take(index.len() as int) =~= index);
}

/// Each act is counted as what it is, and as nothing else.
pub proof fn each_act_is_counted_as_what_it_is(c: Counters, bytes: u64, input: u64, output: u64)
    ensures
        ({
            let n = c.with_log_record(bytes);
            &&& n.wal_records == c.wal_records.wrapping_add(1)
            &&& n.bytes_written == c.bytes_written.wrapping_add(bytes)
            &&& n.flush_count == c.flush_count
            &&& n.compaction_count == c.compaction_count
            &&& n.compaction_input_bytes == c.compaction_input_bytes
            &&& n.compaction_output_bytes == c.compaction_output_bytes
            &&& n.bytes_read == c.bytes_read
            &&& n.fsync_count == c.fsync_count
        }),
        ({
            let n = c.with_flush(bytes);
            &&& n.flush_count == c.flush_count.wrapping_add(1)
            &&& n.bytes_written == c.bytes_written.wrapping_add(bytes)
            &&& n.fsync_count == c.fsync_count.wrapping_add(1)
            &&& n.wal_records == c.wal_records
            &&& n.compaction_count == c.compaction_count
            &&& n.compaction_input_bytes == c.compaction_input_bytes
            &&& n.compaction_output_bytes == c.compaction_output_bytes
            &&& n.bytes_read == c.bytes_read
        }),
        ({
            let n = c.with_manifest();
            &&& n.fsync_count == c.fsync_count.wrapping_add(1)
            &&& n.flush_count == c.flush_count
            &&& n.bytes_written == c.bytes_written
            &&& n.wal_records == c.wal_records
            &&& n.compaction_count == c.compaction_count
            &&& n.compaction_input_bytes == c.compaction_input_bytes
            &&& n.compaction_output_bytes == c.compaction_output_bytes
            &&& n.bytes_read == c.bytes_read
        }),
        ({
            let n = c.with_compaction(input, output);
            &&& n.compaction_count == c.compaction_count.wrapping_add(1)
            &&& n.compaction_input_bytes == c.compaction_input_bytes.wrapping_add(input)
            &&& n.compaction_output_bytes == c.compaction_output_bytes.wrapping_add(output)
            &&& n.bytes_written == c.bytes_written.wrapping_add(output)
            &&& n.fsync_count == c.fsync_count.wrapping_add(1)
            &&& n.wal_records == c.wal_records
            &&& n.flush_count == c.flush_count
            &&& n.bytes_read == c.bytes_read
        }),
{
}

/// A path leads through its directory; at the root it is the name.
pub proof fn a_path_leads_through_its_directory(dir: Seq<char>, name: Seq<char>)
    ensures
        dir.len() == 0 ==> joined(dir, name) == name,
        dir.len() > 0 ==> joined(dir, name) == dir + seq!['/'] + name,
{
    reveal_strlit("/");
    assert("/"@ =~= seq!['/']);
}

} // verus!
