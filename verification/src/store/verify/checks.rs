//! The physical checks of one table.
use super::{flat, found_if, issue, sst_error_kind, table_error_kind, Finding, IssueKind, Tally, VerifyReport};
use crate::bytes;
use crate::error::EngineError;
use crate::key::Key;
use crate::store::files::StoreAudit;
use crate::store::rows::{put_rows, rows_view, Row, RowMap, Slot};
use crate::store::sst_block::bloom::Bloom;
use crate::store::sst_block::read::reads_block;
use crate::store::sst_block::write::{count_tombstones, tombstones_in};
use crate::store::sst_block::{capped64, BlockSstFile, SstBlockIndexEntry};
use crate::store::{rows, Value};
use crate::text;
use crate::text::{dec_text, lossy_text, quoted_text};
use vstd::prelude::*;

verus! {

/// Where a block ends, as its index entry has it.
pub open spec fn block_end(entry: SstBlockIndexEntry) -> u64 {
    capped64(entry.offset as nat + entry.len as nat)
}

/// Where block `i` should start: where the one before it ends.
pub open spec fn due_offset(index: Seq<SstBlockIndexEntry>, header_len: u64, i: int) -> u64 {
    if i <= 0 {
        header_len
    } else {
        block_end(index[i - 1])
    }
}

/// The diagnosis of a block that does not start where it is due.
pub open spec fn displaced_text(no: nat, offset: u64, due: u64) -> Seq<char> {
    "block "@ + dec_text(no) + " starts at offset "@ + dec_text(offset as nat)
        + " but the previous section ends at "@ + dec_text(due as nat)
        + " — a displaced, missing or duplicated block span"@
}

/// The diagnosis of a block that ends past its file.
pub open spec fn overlong_text(no: nat, offset: u64, len: u32, file_bytes: u64) -> Seq<char> {
    "block "@ + dec_text(no) + " (offset "@ + dec_text(offset as nat) + ", len "@ + dec_text(len as nat)
        + ") extends past the file's "@ + dec_text(file_bytes as nat) + " bytes"@
}

/// The diagnosis of a block whose bounds are the wrong way round.
pub open spec fn inverted_text(no: nat) -> Seq<char> {
    "block "@ + dec_text(no) + "'s index entry has first_key > last_key"@
}

/// The diagnosis of a block that starts before the one before it ends.
pub open spec fn overlap_text(no: nat, before: nat) -> Seq<char> {
    "block "@ + dec_text(no) + "'s first_key does not sort after block "@ + dec_text(before) + "'s last_key"@
}

/// What is wrong with block `i` as the index has it.
pub open spec fn layout_errors_at(
    index: Seq<SstBlockIndexEntry>,
    file_bytes: u64,
    header_len: u64,
    path: Seq<char>,
    i: int,
) -> Seq<Finding> {
    let entry = index[i];
    let due = due_offset(index, header_len, i);
    found_if(
        entry.offset != due,
        issue(IssueKind::SstBlockLayout, path, displaced_text(i as nat, entry.offset, due)),
    ) + found_if(
        block_end(entry) > file_bytes,
        issue(
            IssueKind::SstBlockLayout,
            path,
            overlong_text(i as nat, entry.offset, entry.len, file_bytes),
        ),
    ) + found_if(
        bytes::bytes_lt(entry.last_key@, entry.first_key@),
        issue(IssueKind::SstKeyOrder, path, inverted_text(i as nat)),
    ) + found_if(
        i > 0 && !bytes::bytes_lt(index[i - 1].last_key@, entry.first_key@),
        issue(IssueKind::SstKeyOrder, path, overlap_text(i as nat, (i - 1) as nat)),
    )
}

/// What is wrong with each block as the index has it.
pub open spec fn layout_errors(
    index: Seq<SstBlockIndexEntry>,
    file_bytes: u64,
    header_len: u64,
    path: Seq<char>,
) -> spec_fn(int) -> Seq<Finding> {
    |i: int| layout_errors_at(index, file_bytes, header_len, path, i)
}

fn displaced_detail(no: u64, offset: u64, due: u64) -> (s: String)
    ensures
        s@ == displaced_text(no as nat, offset, due),
{
    String::from_str("block ").concat(text::dec(no).as_str()).concat(" starts at offset ").concat(
        text::dec(offset).as_str(),
    ).concat(" but the previous section ends at ").concat(text::dec(due).as_str()).concat(
        " — a displaced, missing or duplicated block span",
    )
}

fn overlong_detail(no: u64, offset: u64, len: u32, file_bytes: u64) -> (s: String)
    ensures
        s@ == overlong_text(no as nat, offset, len, file_bytes),
{
    String::from_str("block ").concat(text::dec(no).as_str()).concat(" (offset ").concat(
        text::dec(offset).as_str(),
    ).concat(", len ").concat(text::dec(len as u64).as_str()).concat(") extends past the file's ").concat(
        text::dec(file_bytes).as_str(),
    ).concat(" bytes")
}

fn inverted_detail(no: u64) -> (s: String)
    ensures
        s@ == inverted_text(no as nat),
{
    String::from_str("block ").concat(text::dec(no).as_str()).concat("'s index entry has first_key > last_key")
}

fn overlap_detail(no: u64, before: u64) -> (s: String)
    ensures
        s@ == overlap_text(no as nat, before as nat),
{
    String::from_str("block ").concat(text::dec(no).as_str()).concat("'s first_key does not sort after block ").concat(
        text::dec(before).as_str(),
    ).concat("'s last_key")
}

/// Holds one index entry against the file and the entry before it.
fn check_entry_layout(sst: &BlockSstFile, path: &str, header_len: u64, i: usize, due: u64, report: &mut VerifyReport)
    requires
        i < sst.block_index@.len(),
        due == due_offset(sst.block_index@, header_len, i as int),
    ensures
        final(report).tally() == old(report).tally().with(
            layout_errors_at(sst.block_index@, sst.file_bytes, header_len, path@, i as int),
            Seq::empty(),
        ),
{
    let ghost start = report.tally();
    let entry = &sst.block_index[i];
    let no: u64 = i as u64;
    if entry.offset != due {
        report.error(IssueKind::SstBlockLayout, path, displaced_detail(no, entry.offset, due));
    }
    if entry.offset.saturating_add(entry.len as u64) > sst.file_bytes {
        report.error(
            IssueKind::SstBlockLayout,
            path,
            overlong_detail(no, entry.offset, entry.len, sst.file_bytes),
        );
    }
    if bytes::lt(entry.last_key.as_slice(), entry.first_key.as_slice()) {
        report.error(IssueKind::SstKeyOrder, path, inverted_detail(no));
    }
    if i > 0 && !bytes::lt(sst.block_index[i - 1].last_key.as_slice(), entry.first_key.as_slice()) {
        report.error(IssueKind::SstKeyOrder, path, overlap_detail(no, no - 1));
    }
    proof {
        let more = layout_errors_at(sst.block_index@, sst.file_bytes, header_len, path@, i as int);
        assert(report.tally().errors =~= start.errors + more);
        assert(report.tally().warnings =~= start.warnings + Seq::<Finding>::empty());
    }
}

/// Holds the index against the file: blocks follow one another within it, and
/// their keys ascend. No block is read. One displaced block is reported once.
pub fn check_sst_layout(sst: &BlockSstFile, path: &str, header_len: u64, report: &mut VerifyReport)
    ensures
        final(report).tally() == old(report).tally().with(
            flat(
                sst.block_index@.len(),
                layout_errors(sst.block_index@, sst.file_bytes, header_len, path@),
            ),
            Seq::empty(),
        ),
{
    let ghost index = sst.block_index@;
    let ghost f = layout_errors(index, sst.file_bytes, header_len, path@);
    let ghost start = report.tally();
    let mut due: u64 = header_len;
    let mut i: usize = 0;
    proof {
        assert(start.errors + Seq::<Finding>::empty() =~= start.errors);
        assert(start.warnings + Seq::<Finding>::empty() =~= start.warnings);
    }
    while i < sst.block_index.len()
        invariant
            index == sst.block_index@,
            i <= index.len(),
            f == layout_errors(index, sst.file_bytes, header_len, path@),
            due == due_offset(index, header_len, i as int),
            report.tally() == start.with(flat(i as nat, f), Seq::empty()),
        decreases index.len() - i,
    {
        check_entry_layout(sst, path, header_len, i, due, report);
        due = sst.block_index[i].offset.saturating_add(sst.block_index[i].len as u64);
        proof {
            assert(flat((i + 1) as nat, f) == flat(i as nat, f) + f(i as int));
            assert(report.tally().errors =~= start.errors + flat((i + 1) as nat, f));
            assert(report.tally().warnings =~= start.warnings + Seq::<Finding>::empty());
        }
        i = i + 1;
    }
}

/// The first row, from `from` on, that the next one does not follow.
pub open spec fn first_unordered(block: Seq<Row>, from: int) -> Option<int>
    decreases block.len() - from,
{
    if from < 0 || from + 1 >= block.len() {
        None
    } else if !bytes::bytes_lt(block[from].0, block[from + 1].0) {
        Some(from)
    } else {
        first_unordered(block, from + 1)
    }
}

/// The first row, from `from` on, whose key the filter denies.
pub open spec fn first_denied(bloom: Bloom, block: Seq<Row>, from: int) -> Option<int>
    decreases block.len() - from,
{
    if from < 0 || from >= block.len() {
        None
    } else if !bloom.may_contain(block[from].0) {
        Some(from)
    } else {
        first_denied(bloom, block, from + 1)
    }
}

/// The answers to the reads of a table's blocks, from the first.
pub type BlockReads = Seq<Result<Vec<(Key, Option<Value>)>, EngineError>>;

/// Some block that was read holds a key that the filter denies.
pub open spec fn denies_some(bloom: Bloom, reads: BlockReads) -> bool {
    exists|i: int| 0 <= i < reads.len() && #[trigger] denies_in(bloom, reads[i])
}

/// A block that was read holds a key that the filter denies.
pub open spec fn denies_in(bloom: Bloom, read: Result<Vec<(Key, Option<Value>)>, EngineError>) -> bool {
    read matches Ok(v) && first_denied(bloom, rows_view(v@), 0) is Some
}

/// The text of a denied key, shown as `shown`.
pub open spec fn denied_text(shown: Seq<char>, block_no: nat) -> Seq<char> {
    "key "@ + shown + " (block "@ + dec_text(block_no)
        + ") is stored but absent from the bloom filter — a false negative the filter must never produce"@
}

/// What is wrong with the rows of block `no`.
pub open spec fn block_errors(
    sst: BlockSstFile,
    path: Seq<char>,
    no: int,
    block: Seq<Row>,
    denied_before: bool,
) -> Seq<Finding> {
    let declared = sst.block_index@[no].tombstone_count;
    let tombstones = tombstones_in(block) as u32;
    (match first_unordered(block, 0) {
        Some(w) => seq![
            issue(
                IssueKind::SstKeyOrder,
                path,
                "block "@ + dec_text(no as nat) + ": entries "@ + dec_text(w as nat) + " and "@ + dec_text(
                    (w + 1) as nat,
                ) + " are not in strict ascending key order"@,
            ),
        ],
        None => Seq::empty(),
    }) + found_if(
        tombstones != declared,
        issue(
            IssueKind::SstMetadataMismatch,
            path,
            "block "@ + dec_text(no as nat) + " holds "@ + dec_text(tombstones as nat)
                + " tombstones but its index entry declares "@ + dec_text(declared as nat),
        ),
    ) + (match first_denied(sst.bloom, block, 0) {
        Some(k) => found_if(
            !denied_before,
            issue(
                IssueKind::SstBloomFalseNegative,
                path,
                denied_text(quoted_text(lossy_text(block[k].0)), no as nat),
            ),
        ),
        None => Seq::empty(),
    })
}

/// What an audit of a table's blocks adds to a report, given what was read.
pub open spec fn blocks_tally(sst: BlockSstFile, path: Seq<char>, reads: BlockReads, start: Tally) -> Tally
    decreases reads.len(),
{
    if reads.len() == 0 {
        start
    } else {
        let before = blocks_tally(sst, path, reads.drop_last(), start);
        let no = reads.len() - 1;
        match reads.last() {
            Err(e) => before.with_error(table_error_kind(e), path, e.text()),
            Ok(v) => before.with_block(v@.len()).with(
                block_errors(
                    sst,
                    path,
                    no,
                    rows_view(v@),
                    denies_some(sst.bloom, reads.drop_last()),
                ),
                Seq::empty(),
            ),
        }
    }
}

/// The rows that were read, in order.
pub open spec fn rows_read(reads: BlockReads) -> Seq<Row>
    decreases reads.len(),
{
    if reads.len() == 0 {
        Seq::empty()
    } else {
        match reads.last() {
            Err(e) => rows_read(reads.drop_last()),
            Ok(v) => rows_read(reads.drop_last()) + rows_view(v@),
        }
    }
}

/// Reading all blocks of a table may give `reads`.
pub open spec fn reads_blocks<F: StoreAudit>(files: &F, sst: &BlockSstFile, reads: BlockReads) -> bool {
    &&& reads.len() == sst.block_index@.len()
    &&& forall|i: int| 0 <= i < reads.len() ==> reads_block(files, sst, i, #[trigger] reads[i])
}

/// What an audit of a table's blocks does.
pub open spec fn audits_blocks<F: StoreAudit>(
    files: &F,
    sst: &BlockSstFile,
    path: Seq<char>,
    collect: bool,
    before: Tally,
    kv: Map<Seq<u8>, Slot>,
    after: Tally,
    collected: Map<Seq<u8>, Slot>,
) -> bool {
    exists|p: &str, o: Result<(), String>|
        p@ == path && #[trigger] call_ensures(F::open_table, (files, p), o) && match o {
            Err(why) => after == before.with_error(
                IssueKind::Io,
                path,
                "cannot open for block audit: "@ + why@,
            ) && collected == kv,
            Ok(()) => exists|reads: BlockReads|
                {
                    &&& #[trigger] reads_blocks(files, sst, reads)
                    &&& after == blocks_tally(*sst, path, reads, before)
                    &&& collected == if collect {
                        put_rows(kv, rows_read(reads))
                    } else {
                        kv
                    }
                },
        }
}

fn find_unordered(block: &Vec<(Key, Option<Value>)>) -> (r: Option<usize>)
    ensures
        match r {
            Some(w) => first_unordered(rows_view(block@), 0) == Some(w as int) && w + 1 < block@.len(),
            None => first_unordered(rows_view(block@), 0) is None,
        },
{
    let ghost view = rows_view(block@);
    let mut w: usize = 0;
    while w < block.len() && block.len() - w > 1
        invariant
            view == rows_view(block@),
            w <= block@.len(),
            first_unordered(view, 0) == first_unordered(view, w as int),
        decreases block@.len() - w,
    {
        if !bytes::lt(block[w].0.as_bytes(), block[w + 1].0.as_bytes()) {
            return Some(w);
        }
        w = w + 1;
    }
    None
}

fn find_denied(sst: &BlockSstFile, block: &Vec<(Key, Option<Value>)>) -> (r: Option<usize>)
    requires
        sst.wf(),
    ensures
        match r {
            Some(k) => first_denied(sst.bloom, rows_view(block@), 0) == Some(k as int) && k < block@.len(),
            None => first_denied(sst.bloom, rows_view(block@), 0) is None,
        },
{
    let ghost view = rows_view(block@);
    let mut k: usize = 0;
    while k < block.len()
        invariant
            sst.wf(),
            view == rows_view(block@),
            k <= block@.len(),
            first_denied(sst.bloom, view, 0) == first_denied(sst.bloom, view, k as int),
        decreases block@.len() - k,
    {
        if !sst.bloom.contains(block[k].0.as_bytes()) {
            return Some(k);
        }
        k = k + 1;
    }
    None
}

/// The diagnosis of a denied key, shown as `shown`.
pub fn denied_detail(shown: &str, block_no: u64) -> (s: String)
    ensures
        s@ == denied_text(shown@, block_no as nat),
{
    String::from_str("key ").concat(shown).concat(" (block ").concat(text::dec(block_no).as_str()).concat(
        ") is stored but absent from the bloom filter — a false negative the filter must never produce",
    )
}

/// Holds the rows of block `no` against its index entry and the filter; tells
/// whether the filter denies one of them.
pub fn check_block_rows(
    sst: &BlockSstFile,
    path: &str,
    no: usize,
    block: &Vec<(Key, Option<Value>)>,
    denied_before: bool,
    report: &mut VerifyReport,
) -> (denies: bool)
    requires
        sst.wf(),
        no < sst.block_index@.len(),
    ensures
        denies == (first_denied(sst.bloom, rows_view(block@), 0) is Some),
        final(report).tally() == old(report).tally().with_block(block@.len()).with(
            block_errors(*sst, path@, no as int, rows_view(block@), denied_before),
            Seq::empty(),
        ),
{
    report.count_block(block.len());
    let ghost start = report.tally();
    let shown_no = text::dec(no as u64);
    if let Some(w) = find_unordered(block) {
        report.error(
            IssueKind::SstKeyOrder,
            path,
            String::from_str("block ").concat(shown_no.as_str()).concat(": entries ").concat(
                text::dec(w as u64).as_str(),
            ).concat(" and ").concat(text::dec((w + 1) as u64).as_str()).concat(
                " are not in strict ascending key order",
            ),
        );
    }
    let tombstones: u32 = count_tombstones(block) as u32;
    let declared: u32 = sst.block_index[no].tombstone_count;
    if tombstones != declared {
        report.error(
            IssueKind::SstMetadataMismatch,
            path,
            String::from_str("block ").concat(shown_no.as_str()).concat(" holds ").concat(
                text::dec(tombstones as u64).as_str(),
            ).concat(" tombstones but its index entry declares ").concat(text::dec(declared as u64).as_str()),
        );
    }
    let denied = find_denied(sst, block);
    if let Some(k) = denied {
        if !denied_before {
            let shown = text::quoted(text::lossy(block[k].0.as_bytes()).as_str());
            report.error(IssueKind::SstBloomFalseNegative, path, denied_detail(shown.as_str(), no as u64));
        }
    }
    proof {
        let more = block_errors(*sst, path@, no as int, rows_view(block@), denied_before);
        assert(report.tally().errors =~= start.errors + more);
        assert(report.tally().warnings =~= start.warnings + Seq::<Finding>::empty());
    }
    denied.is_some()
}

/// Reads every block of a table through the same path as lookups, and checks
/// what only rows can tell: their order, their tombstones, the filter. With
/// `collect`, the rows are put over `kv`, so that tables visited oldest first
/// layer as they do in a scan.
pub fn check_sst_blocks<F: StoreAudit>(
    files: &F,
    sst: &BlockSstFile,
    path: &str,
    report: &mut VerifyReport,
    collect: bool,
    kv: &mut RowMap,
)
    requires
        sst.wf(),
        old(kv).wf(),
    ensures
        final(kv).wf(),
        audits_blocks(
            files,
            sst,
            path@,
            collect,
            old(report).tally(),
            old(kv)@,
            final(report).tally(),
            final(kv)@,
        ),
{
    let o = files.open_table(path);
    assert(call_ensures(F::open_table, (files, path), o));
    match o {
        Err(why) => {
            report.error(
                IssueKind::Io,
                path,
                String::from_str("cannot open for block audit: ").concat(why.as_str()),
            );
            return;
        },
        Ok(()) => {},
    }
    let mut denied: bool = false;
    let mut no: usize = 0;
    let ghost mut reads: BlockReads = Seq::empty();
    let ghost start = report.tally();
    let ghost base = kv@;
    while no < sst.block_index.len()
        invariant
            sst.wf(),
            no <= sst.block_index@.len(),
            no == reads.len(),
            forall|i: int| 0 <= i < reads.len() ==> reads_block(files, sst, i, #[trigger] reads[i]),
            denied == denies_some(sst.bloom, reads),
            report.tally() == blocks_tally(*sst, path@, reads, start),
            kv.wf(),
            kv@ == if collect {
                put_rows(base, rows_read(reads))
            } else {
                base
            },
        decreases sst.block_index@.len() - no,
    {
        let read = sst.read_and_verify_block(files, no);
        let ghost more = reads.push(read);
        proof {
            assert(more.drop_last() =~= reads);
            lemma_denies_push(sst.bloom, reads, read);
        }
        match read {
            Err(e) => {
                report.error(sst_error_kind(&e), path, e.message());
            },
            Ok(block) => {
                let denies = check_block_rows(sst, path, no, &block, denied, report);
                denied = denied || denies;
                if collect {
                    kv.put_all(&block);
                    proof {
                        rows::lemma_put_rows_concat(base, rows_read(reads), rows_view(block@));
                    }
                }
            },
        }
        proof {
            reads = more;
        }
        no = no + 1;
    }
    assert(reads_blocks(files, sst, reads));
}

proof fn lemma_denies_push(bloom: Bloom, reads: BlockReads, read: Result<Vec<(Key, Option<Value>)>, EngineError>)
    ensures
        denies_some(bloom, reads.push(read)) == (denies_some(bloom, reads) || denies_in(bloom, read)),
{
    let more = reads.push(read);
    if denies_some(bloom, reads) {
        let i = choose|i: int| 0 <= i < reads.len() && #[trigger] denies_in(bloom, reads[i]);
        assert(denies_in(bloom, more[i]));
    }
    if denies_in(bloom, read) {
        assert(denies_in(bloom, more[reads.len() as int]));
    }
    if denies_some(bloom, more) {
        let i = choose|i: int| 0 <= i < more.len() && #[trigger] denies_in(bloom, more[i]);
        if i < reads.len() {
            assert(denies_in(bloom, reads[i]));
        }
    }
}

} // verus!
