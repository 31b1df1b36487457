//! Writing a table: rows are cut into data blocks once the accumulated size
//! reaches the target, every block is described in the index, and the
//! sections are laid out one behind the other.
use super::bloom::{is_probed, sized_bits, Bloom, SstBloomFilter, BLOOM_MAX_KEYS};
use super::{
    block_matches, capped64, index_describes, tombstones_counted, BlockSstFile, SstBlockIndexEntry, SstFooter,
    SstHeader, SstWriter,
};
use crate::bytes;
use crate::error::EngineError;
use crate::key::Key;
use crate::store::batch::row_bytes;
use crate::store::rows::{rows_view, Row};
use crate::store::{rows, Value};
use vstd::prelude::*;

verus! {

/// What a data block spends on each row besides its key and value.
pub const ENTRY_HEADER_BYTES: usize = 9;

/// The size that a row has in a data block.
pub open spec fn wire_size(row: Row) -> nat {
    ENTRY_HEADER_BYTES as nat + row_bytes(row)
}

/// How rows are cut into blocks when the block under way already holds
/// `current`, of size `size`: a block ends with the row that brings it to
/// `target`, and the last one where the rows end.
pub open spec fn split_from(rows: Seq<Row>, current: Seq<Row>, size: nat, target: nat) -> Seq<Seq<Row>>
    decreases rows.len(),
{
    if rows.len() == 0 {
        if current.len() == 0 {
            Seq::empty()
        } else {
            seq![current]
        }
    } else {
        let grown = current.push(rows[0]);
        let grown_size = size + wire_size(rows[0]);
        if grown_size >= target {
            seq![grown] + split_from(rows.drop_first(), Seq::empty(), 0, target)
        } else {
            split_from(rows.drop_first(), grown, grown_size, target)
        }
    }
}

/// How rows are cut into data blocks.
pub open spec fn split_blocks(rows: Seq<Row>, target: nat) -> Seq<Seq<Row>> {
    split_from(rows, Seq::empty(), 0, target)
}

/// Number of tombstones among rows.
pub open spec fn tombstones_in(rows: Seq<Row>) -> nat
    decreases rows.len(),
{
    if rows.len() == 0 {
        0
    } else {
        tombstones_in(rows.drop_last()) + if rows.last().1 is None {
            1nat
        } else {
            0nat
        }
    }
}

/// Where block `n` starts when the blocks before it have the given bytes.
pub open spec fn block_offset(start: nat, sealed: Seq<Seq<u8>>, n: int) -> nat
    decreases n,
{
    if n <= 0 {
        start
    } else {
        block_offset(start, sealed, n - 1) + (sealed[n - 1].len() as u32) as nat
    }
}

/// An index entry states a block's bounds, its place and its counts.
pub open spec fn entry_states(entry: SstBlockIndexEntry, block: Seq<Row>, offset: nat, sealed: Seq<u8>) -> bool {
    &&& entry.first_key@ == block[0].0
    &&& entry.last_key@ == block.last().0
    &&& entry.offset == offset
    &&& entry.len == sealed.len() as u32
    &&& entry.entry_count == block.len()
    &&& entry.tombstone_count == tombstones_in(block)
}

/// An index states every block of a table whose first block starts at `start`.
pub open spec fn index_states(
    index: Seq<SstBlockIndexEntry>,
    blocks: Seq<Seq<Row>>,
    sealed: Seq<Seq<u8>>,
    start: nat,
) -> bool {
    &&& index.len() == blocks.len() == sealed.len()
    &&& forall|i: int|
        0 <= i < index.len() ==> entry_states(
            #[trigger] index[i],
            blocks[i],
            block_offset(start, sealed, i),
            sealed[i],
        )
}

/// The bytes of sections, one behind the other.
pub open spec fn concatenated(parts: Seq<Seq<u8>>) -> Seq<u8>
    decreases parts.len(),
{
    if parts.len() == 0 {
        Seq::empty()
    } else {
        concatenated(parts.drop_last()) + parts.last()
    }
}

/// The filter holds exactly the keys of `rows`.
pub open spec fn bloom_holds(bloom: Bloom, rows: Seq<Row>) -> bool {
    &&& bloom.wf()
    &&& bloom.spec_num_bits() == sized_bits(if rows.len() > BLOOM_MAX_KEYS { BLOOM_MAX_KEYS as nat } else { rows.len() })
    &&& forall|b: u64|
        b < bloom.spec_num_bits() ==> (#[trigger] bloom.is_set(b) <==> exists|i: int|
            0 <= i < rows.len() && #[trigger] is_probed(rows[i].0, bloom.spec_num_bits(), b))
}

/// `writer` may turn block `block_no`, holding `block`, into `r`.
pub open spec fn seals_block<W: SstWriter>(
    writer: &W,
    dir: &str,
    sst_id: u64,
    block_no: u32,
    block: Seq<Row>,
    r: Result<Vec<u8>, EngineError>,
) -> bool {
    exists|v: Vec<(Key, Option<Value>)>|
        rows_view(v@) == block && #[trigger] call_ensures(W::data_block, (writer, dir, sst_id, block_no, &v), r)
}

/// `writer` may turn block `block_no`, holding `block`, into `bytes`.
pub open spec fn sealed_as<W: SstWriter>(
    writer: &W,
    dir: &str,
    sst_id: u64,
    block_no: u32,
    block: Seq<Row>,
    bytes: Seq<u8>,
) -> bool {
    exists|v: Vec<u8>| v@ == bytes && #[trigger] seals_block(writer, dir, sst_id, block_no, block, Ok(v))
}

/// `writer` may turn every block, numbered from 0, into the bytes beside it.
pub open spec fn seals_blocks<W: SstWriter>(
    writer: &W,
    dir: &str,
    sst_id: u64,
    blocks: Seq<Seq<Row>>,
    sealed: Seq<Seq<u8>>,
) -> bool {
    &&& blocks.len() == sealed.len()
    &&& forall|i: int|
        0 <= i < blocks.len() ==> sealed_as(writer, dir, sst_id, i as u32, #[trigger] blocks[i], sealed[i])
}

proof fn lemma_seals_push<W: SstWriter>(
    writer: &W,
    dir: &str,
    sst_id: u64,
    blocks: Seq<Seq<Row>>,
    sealed: Seq<Seq<u8>>,
    block: Seq<Row>,
    v: Vec<u8>,
)
    requires
        seals_blocks(writer, dir, sst_id, blocks, sealed),
        seals_block(writer, dir, sst_id, blocks.len() as u32, block, Ok(v)),
    ensures
        seals_blocks(writer, dir, sst_id, blocks.push(block), sealed.push(v@)),
{
    let more = blocks.push(block);
    let more_sealed = sealed.push(v@);
    assert(sealed_as(writer, dir, sst_id, blocks.len() as u32, block, v@));
    assert forall|k: int| 0 <= k < more.len() implies sealed_as(
        writer,
        dir,
        sst_id,
        k as u32,
        #[trigger] more[k],
        more_sealed[k],
    ) by {
        if k < blocks.len() {
            assert(more[k] == blocks[k] && more_sealed[k] == sealed[k]);
        }
    }
}

/// A table just written: what stays resident, and the bytes of its file.
pub struct WrittenSst {
    pub file: BlockSstFile,
    pub bytes: Vec<u8>,
}

/// The sections that a writer made of a table.
pub struct Sections {
    pub header: Seq<u8>,
    pub blocks: Seq<Seq<u8>>,
    pub index: Seq<u8>,
    pub bloom: Seq<u8>,
    pub footer: Seq<u8>,
}

impl Sections {
    /// The file: header, data blocks, index, filter, footer.
    pub open spec fn file(self) -> Seq<u8> {
        self.header + concatenated(self.blocks) + self.index + self.bloom + self.footer
    }

    /// Where the index starts.
    pub open spec fn index_offset(self) -> nat {
        block_offset(self.header.len(), self.blocks, self.blocks.len() as int)
    }

    /// The footer that points at the index and the filter.
    pub open spec fn states_footer(self, footer: SstFooter) -> bool {
        &&& footer.index_offset == self.index_offset()
        &&& footer.index_len == self.index.len() as u32
        &&& footer.bloom_offset == self.index_offset() + self.index.len()
        &&& footer.bloom_len == self.bloom.len() as u32
        &&& footer.block_count == self.blocks.len() as u32
    }
}

/// The header and the data blocks of `sections` are what `writer` made of rows
/// cut at `block_size`, and `index` states those blocks.
pub open spec fn laid_out<W: SstWriter>(
    writer: &W,
    dir: &str,
    id: u64,
    rows: Seq<Row>,
    block_size: u32,
    sections: Sections,
    index: Vec<SstBlockIndexEntry>,
) -> bool {
    let blocks = split_blocks(rows, block_size as nat);
    &&& exists|header: SstHeader, v: Vec<u8>|
        {
            &&& header.sst_id == id
            &&& header.block_size == block_size
            &&& header.entry_count == rows.len()
            &&& header.dim == 0
            &&& v@ == sections.header
            &&& #[trigger] call_ensures(W::header, (writer, &header), v)
        }
    &&& seals_blocks(writer, dir, id, blocks, sections.blocks)
    &&& index_states(index@, blocks, sections.blocks, sections.header.len())
}

/// `filter` is the file form of `bloom`.
pub open spec fn is_filter_of(filter: SstBloomFilter, bloom: Bloom) -> bool {
    &&& filter.num_bits == bloom.spec_num_bits()
    &&& filter.num_hashes == 7
    &&& filter.bits@ == bloom.spec_bits()
}

/// `sections` are what `writer` made of rows cut at `block_size`, and `file`
/// is what stays resident of them.
pub open spec fn written<W: SstWriter>(
    writer: &W,
    dir: &str,
    id: u64,
    rows: Seq<Row>,
    block_size: u32,
    sections: Sections,
    file: BlockSstFile,
) -> bool {
    &&& laid_out(writer, dir, id, rows, block_size, sections, file.block_index)
    &&& bloom_holds(file.bloom, rows)
    &&& exists|v: Vec<u8>|
        v@ == sections.index && #[trigger] call_ensures(
            W::block_index,
            (writer, dir, id, &file.block_index),
            Ok(v),
        )
    &&& exists|filter: SstBloomFilter, v: Vec<u8>|
        {
            &&& is_filter_of(filter, file.bloom)
            &&& v@ == sections.bloom
            &&& #[trigger] call_ensures(W::bloom_filter, (writer, dir, id, &filter), Ok(v))
        }
    &&& exists|footer: SstFooter, v: Vec<u8>|
        {
            &&& sections.states_footer(footer)
            &&& v@ == sections.footer
            &&& #[trigger] call_ensures(W::footer, (writer, dir, id, &footer), Ok(v))
        }
}

/// `writer` may turn `index` into `bytes`.
pub open spec fn index_sealed_as<W: SstWriter>(
    writer: &W,
    dir: &str,
    id: u64,
    index: Vec<SstBlockIndexEntry>,
    bytes: Seq<u8>,
) -> bool {
    exists|v: Vec<u8>| v@ == bytes && #[trigger] call_ensures(W::block_index, (writer, dir, id, &index), Ok(v))
}

/// `writer` may turn a filter of the keys of `rows` into `bytes`.
pub open spec fn filter_sealed_as<W: SstWriter>(
    writer: &W,
    dir: &str,
    id: u64,
    rows: Seq<Row>,
    bytes: Seq<u8>,
) -> bool {
    exists|bloom: Bloom, filter: SstBloomFilter, v: Vec<u8>|
        {
            &&& bloom_holds(bloom, rows)
            &&& #[trigger] is_filter_of(filter, bloom)
            &&& v@ == bytes
            &&& #[trigger] call_ensures(W::bloom_filter, (writer, dir, id, &filter), Ok(v))
        }
}

/// `writer` refused with `e` the first of the sections that rows cut at
/// `block_size` make that it did not turn into bytes: a data block, the index,
/// the filter, or the footer.
pub open spec fn refused<W: SstWriter>(
    writer: &W,
    dir: &str,
    id: u64,
    rows: Seq<Row>,
    block_size: u32,
    e: EngineError,
) -> bool {
    let blocks = split_blocks(rows, block_size as nat);
    ||| exists|sealed: Seq<Seq<u8>>|
        {
            &&& sealed.len() < blocks.len()
            &&& #[trigger] seals_blocks(writer, dir, id, blocks.take(sealed.len() as int), sealed)
            &&& seals_block(writer, dir, id, sealed.len() as u32, blocks[sealed.len() as int], Err(e))
        }
    ||| exists|s: Sections, index: Vec<SstBlockIndexEntry>|
        #[trigger] laid_out(writer, dir, id, rows, block_size, s, index) && call_ensures(
            W::block_index,
            (writer, dir, id, &index),
            Err(e),
        )
    ||| exists|s: Sections, index: Vec<SstBlockIndexEntry>, bloom: Bloom, filter: SstBloomFilter|
        {
            &&& #[trigger] laid_out(writer, dir, id, rows, block_size, s, index)
            &&& index_sealed_as(writer, dir, id, index, s.index)
            &&& bloom_holds(bloom, rows)
            &&& #[trigger] is_filter_of(filter, bloom)
            &&& call_ensures(W::bloom_filter, (writer, dir, id, &filter), Err(e))
        }
    ||| exists|s: Sections, index: Vec<SstBlockIndexEntry>, footer: SstFooter|
        {
            &&& #[trigger] laid_out(writer, dir, id, rows, block_size, s, index)
            &&& index_sealed_as(writer, dir, id, index, s.index)
            &&& filter_sealed_as(writer, dir, id, rows, s.bloom)
            &&& #[trigger] s.states_footer(footer)
            &&& call_ensures(W::footer, (writer, dir, id, &footer), Err(e))
        }
}

/// What writing rows as table `id` of directory `dir` gives.
pub open spec fn writes_new<W: SstWriter>(
    writer: &W,
    dir: Seq<char>,
    id: u64,
    rows: Seq<Row>,
    block_size: u32,
    r: Result<WrittenSst, EngineError>,
) -> bool {
    match r {
        Ok(w) => {
            &&& exists|d: &str, s: Sections|
                d@ == dir && #[trigger] written(writer, d, id, rows, block_size, s, w.file) && w.bytes@
                    == s.file()
            &&& w.file.wf()
            &&& index_describes(w.file.block_index@, split_blocks(rows, block_size as nat))
            &&& w.file.id == id
            &&& w.file.path@ == super::joined(dir, super::sst_name(id))
            &&& w.file.file_bytes == w.bytes@.len()
            &&& w.file.tombstones == capped64(tombstones_counted(w.file.block_index@))
            &&& w.file.bytes_read_at_open == 0
            &&& w.file.entry_count == rows.len()
        },
        Err(e) => exists|d: &str| d@ == dir && #[trigger] refused(writer, d, id, rows, block_size, e),
    }
}

/// Cutting rows into blocks loses and reorders nothing.
pub proof fn splitting_keeps_every_row(rows: Seq<Row>, target: nat)
    ensures
        super::all_rows(split_blocks(rows, target)) == rows,
{
    lemma_split_rows(rows, Seq::empty(), 0, target);
    assert(Seq::<Row>::empty() + rows =~= rows);
}

proof fn lemma_all_rows_front(first: Seq<Row>, rest: Seq<Seq<Row>>)
    ensures
        super::all_rows(seq![first] + rest) == first + super::all_rows(rest),
    decreases rest.len(),
{
    let all = seq![first] + rest;
    if rest.len() == 0 {
        assert(all =~= seq![first]);
        assert(all.drop_last() =~= Seq::<Seq<Row>>::empty());
        assert(super::all_rows(all.drop_last()) =~= Seq::<Row>::empty());
        assert(super::all_rows(all) =~= first + super::all_rows(rest));
    } else {
        assert(all.drop_last() =~= seq![first] + rest.drop_last());
        lemma_all_rows_front(first, rest.drop_last());
        assert(super::all_rows(all) =~= first + super::all_rows(rest));
    }
}

proof fn lemma_split_rows(rows: Seq<Row>, current: Seq<Row>, size: nat, target: nat)
    ensures
        super::all_rows(split_from(rows, current, size, target)) == current + rows,
    decreases rows.len(),
{
    if rows.len() == 0 {
        if current.len() == 0 {
            assert(current + rows =~= Seq::<Row>::empty());
        } else {
            let one = seq![current];
            assert(one.drop_last() =~= Seq::<Seq<Row>>::empty());
            assert(super::all_rows(one.drop_last()) =~= Seq::<Row>::empty());
            assert(super::all_rows(one) =~= current + rows);
        }
    } else {
        let grown = current.push(rows[0]);
        let grown_size = size + wire_size(rows[0]);
        let rest = rows.drop_first();
        if grown_size >= target {
            let tail = split_from(rest, Seq::empty(), 0, target);
            lemma_split_rows(rest, Seq::empty(), 0, target);
            lemma_all_rows_front(grown, tail);
            assert(grown + (Seq::<Row>::empty() + rest) =~= current + rows);
        } else {
            lemma_split_rows(rest, grown, grown_size, target);
            assert(grown + rest =~= current + rows);
        }
    }
}

/// No block is empty, and every block but the last reaches the target with
/// its last row and not before it.
pub proof fn blocks_end_at_the_target(rows: Seq<Row>, target: nat, i: int)
    requires
        0 <= i < split_blocks(rows, target).len(),
    ensures
        split_blocks(rows, target)[i].len() > 0,
        i < split_blocks(rows, target).len() - 1 ==> block_size_of(split_blocks(rows, target)[i]) >= target,
        split_blocks(rows, target)[i].len() == 1 || block_size_of(split_blocks(rows, target)[i].drop_last()) < target,
{
    assert(block_size_of(Seq::<Row>::empty()) == 0);
    lemma_split_sizes(rows, Seq::empty(), 0, target, i);
}

/// The size of a block's rows.
pub open spec fn block_size_of(block: Seq<Row>) -> nat
    decreases block.len(),
{
    if block.len() == 0 {
        0
    } else {
        block_size_of(block.drop_last()) + wire_size(block.last())
    }
}

proof fn lemma_split_sizes(rows: Seq<Row>, current: Seq<Row>, size: nat, target: nat, i: int)
    requires
        0 <= i < split_from(rows, current, size, target).len(),
        size == block_size_of(current),
        current.len() == 0 || size < target,
    ensures
        split_from(rows, current, size, target)[i].len() > 0,
        i < split_from(rows, current, size, target).len() - 1 ==> block_size_of(
            split_from(rows, current, size, target)[i],
        ) >= target,
        split_from(rows, current, size, target)[i].len() == 1 || block_size_of(
            split_from(rows, current, size, target)[i].drop_last(),
        ) < target,
    decreases rows.len(),
{
    if rows.len() == 0 {
        if current.len() > 1 {
            assert(block_size_of(current.drop_last()) <= size);
        }
    } else {
        let grown = current.push(rows[0]);
        assert(grown.drop_last() =~= current);
        let grown_size = size + wire_size(rows[0]);
        let rest = rows.drop_first();
        if grown_size >= target {
            if i > 0 {
                assert(block_size_of(Seq::<Row>::empty()) == 0);
                lemma_split_sizes(rest, Seq::empty(), 0, target, i - 1);
            }
        } else {
            lemma_split_sizes(rest, grown, grown_size, target, i);
        }
    }
}

/// The bytes of one row in a data block, short of the machine's limit.
fn entry_wire_size(row: &(Key, Option<Value>)) -> (n: usize)
    ensures
        n == crate::store::block_cache::capped(wire_size(rows::row_view(*row))),
{
    let value_len: usize = match &row.1 {
        Some(v) => v.len(),
        None => 0,
    };
    ENTRY_HEADER_BYTES.saturating_add(row.0.as_bytes().len()).saturating_add(value_len)
}

/// Counts the tombstones of rows.
pub fn count_tombstones(block: &Vec<(Key, Option<Value>)>) -> (n: usize)
    ensures
        n == tombstones_in(rows_view(block@)),
        n <= block@.len(),
{
    let ghost view = rows_view(block@);
    let mut n: usize = 0;
    let mut i: usize = 0;
    assert(view.subrange(0, 0) =~= Seq::<Row>::empty());
    while i < block.len()
        invariant
            i <= block@.len(),
            view == rows_view(block@),
            n == tombstones_in(view.subrange(0, i as int)),
            n <= i,
        decreases block@.len() - i,
    {
        proof {
            let next = view.subrange(0, i + 1);
            assert(next.drop_last() =~= view.subrange(0, i as int));
            assert(next.last() == rows::row_view(block@[i as int]));
        }
        if block[i].1.is_none() {
            n = n + 1;
        }
        i = i + 1;
    }
    assert(view.subrange(0, i as int) =~= view);
    n
}

/// Appends the bytes of one data block to the file and its description to the
/// index. `cursor` is where the block starts.
fn flush_block(
    current: &Vec<(Key, Option<Value>)>,
    sealed: &Vec<u8>,
    file_bytes: &mut Vec<u8>,
    cursor: u64,
    block_index: &mut Vec<SstBlockIndexEntry>,
) -> (next: u64)
    requires
        0 < current@.len() <= u32::MAX,
        cursor <= old(file_bytes)@.len(),
    ensures
        final(file_bytes)@ == old(file_bytes)@ + sealed@,
        next == cursor + (sealed@.len() as u32),
        next <= final(file_bytes)@.len(),
        final(block_index)@.len() == old(block_index)@.len() + 1,
        final(block_index)@.subrange(0, old(block_index)@.len() as int) == old(block_index)@,
        entry_states(final(block_index)@.last(), rows_view(current@), cursor as nat, sealed@),
{
    let ghost view = rows_view(current@);
    let last: usize = current.len() - 1;
    let tombstones: usize = count_tombstones(current);
    let len: u32 = sealed.len() as u32;
    let sealed_len: usize = sealed.len();
    assert(len <= sealed_len) by (bit_vector)
        requires
            len == sealed_len as u32,
    ;
    let entry = SstBlockIndexEntry {
        first_key: bytes::copy(current[0].0.as_bytes()),
        last_key: bytes::copy(current[last].0.as_bytes()),
        offset: cursor,
        len,
        entry_count: current.len() as u32,
        tombstone_count: tombstones as u32,
    };
    proof {
        assert(view[0].0 == current@[0].0@);
        assert(view.last().0 == current@[last as int].0@);
    }
    bytes::push_all(file_bytes, sealed.as_slice());
    block_index.push(entry);
    assert(block_index@.subrange(0, old(block_index)@.len() as int) =~= old(block_index)@);
    assert(file_bytes.len() == file_bytes@.len());
    cursor + len as u64
}

proof fn lemma_concat_push(parts: Seq<Seq<u8>>, part: Seq<u8>)
    ensures
        concatenated(parts.push(part)) == concatenated(parts) + part,
{
    assert(parts.push(part).drop_last() =~= parts);
}

proof fn lemma_offset_prefix(start: nat, a: Seq<Seq<u8>>, b: Seq<Seq<u8>>, n: int)
    requires
        0 <= n <= a.len(),
        n <= b.len(),
        forall|i: int| 0 <= i < n ==> a[i] == b[i],
    ensures
        block_offset(start, a, n) == block_offset(start, b, n),
    decreases n,
{
    if n > 0 {
        lemma_offset_prefix(start, a, b, n - 1);
    }
}

/// Number of rows in the blocks before block `n`.
pub open spec fn rows_before(blocks: Seq<Seq<Row>>, n: int) -> nat
    decreases n,
{
    if n <= 0 {
        0
    } else {
        rows_before(blocks, n - 1) + blocks[n - 1].len()
    }
}

/// Row `k` of block `i` stands where the rows of the blocks before it end.
pub proof fn lemma_row_position(blocks: Seq<Seq<Row>>, i: int, k: int)
    requires
        0 <= i < blocks.len(),
        0 <= k < blocks[i].len(),
    ensures
        rows_before(blocks, i) + k < super::all_rows(blocks).len(),
        super::all_rows(blocks)[rows_before(blocks, i) + k] == blocks[i][k],
    decreases blocks.len(),
{
    let head = blocks.drop_last();
    lemma_all_rows_len(head);
    lemma_rows_before_prefix(blocks, head, i);
    if i < head.len() {
        lemma_row_position(head, i, k);
        assert(head[i] == blocks[i]);
    }
}

proof fn lemma_rows_before_prefix(a: Seq<Seq<Row>>, b: Seq<Seq<Row>>, n: int)
    requires
        0 <= n <= a.len(),
        n <= b.len(),
        forall|i: int| 0 <= i < n ==> a[i] == b[i],
    ensures
        rows_before(a, n) == rows_before(b, n),
    decreases n,
{
    if n > 0 {
        lemma_rows_before_prefix(a, b, n - 1);
    }
}

proof fn lemma_all_rows_len(blocks: Seq<Seq<Row>>)
    ensures
        super::all_rows(blocks).len() == rows_before(blocks, blocks.len() as int),
    decreases blocks.len(),
{
    if blocks.len() > 0 {
        let head = blocks.drop_last();
        lemma_all_rows_len(head);
        lemma_rows_before_prefix(blocks, head, head.len() as int);
    }
}

proof fn lemma_rows_before_monotone(blocks: Seq<Seq<Row>>, i: int, j: int)
    requires
        0 <= i < j <= blocks.len(),
    ensures
        rows_before(blocks, i) + blocks[i].len() <= rows_before(blocks, j),
    decreases j,
{
    if i < j - 1 {
        lemma_rows_before_monotone(blocks, i, j - 1);
    }
}

/// The index that a writer states of sorted rows describes their blocks.
pub proof fn lemma_stated_index_describes(
    index: Seq<SstBlockIndexEntry>,
    rows: Seq<Row>,
    target: nat,
    sealed: Seq<Seq<u8>>,
    start: nat,
)
    requires
        rows::sorted(rows),
        index_states(index, split_blocks(rows, target), sealed, start),
    ensures
        index_describes(index, split_blocks(rows, target)),
{
    let blocks = split_blocks(rows, target);
    splitting_keeps_every_row(rows, target);
    assert forall|i: int| 0 <= i < blocks.len() implies block_matches(#[trigger] index[i], blocks[i]) by {
        blocks_end_at_the_target(rows, target, i);
        let block = blocks[i];
        assert forall|a: int, b: int| 0 <= a < b < block.len() implies bytes::bytes_lt(
            #[trigger] block[a].0,
            #[trigger] block[b].0,
        ) by {
            lemma_row_position(blocks, i, a);
            lemma_row_position(blocks, i, b);
            let base = rows_before(blocks, i);
            assert(bytes::bytes_lt(rows[base + a].0, rows[base + b].0));
        }
    }
    assert forall|i: int| 0 <= i < index.len() implies bytes::bytes_le(
        (#[trigger] index[i]).first_key@,
        index[i].last_key@,
    ) by {
        let block = blocks[i];
        assert(block_matches(index[i], block));
        if block.len() > 1 {
            assert(bytes::bytes_lt(block[0].0, block[block.len() - 1].0));
        }
    }
    assert forall|i: int, j: int| 0 <= i < j < index.len() implies bytes::bytes_lt(
        (#[trigger] index[i]).last_key@,
        (#[trigger] index[j]).first_key@,
    ) by {
        let a = blocks[i];
        let b = blocks[j];
        assert(block_matches(index[i], a) && block_matches(index[j], b));
        lemma_row_position(blocks, i, a.len() - 1);
        lemma_row_position(blocks, j, 0);
        lemma_rows_before_monotone(blocks, i, j);
        assert(bytes::bytes_lt(
            rows[rows_before(blocks, i) + a.len() - 1].0,
            rows[rows_before(blocks, j) as int].0,
        ));
    }
}

/// Seals the block under way and appends it.
fn seal_and_flush<W: SstWriter>(
    writer: &W,
    dir: &str,
    id: u64,
    current: &Vec<(Key, Option<Value>)>,
    file_bytes: &mut Vec<u8>,
    cursor: u64,
    block_index: &mut Vec<SstBlockIndexEntry>,
) -> (r: Result<u64, EngineError>)
    requires
        0 < current@.len() <= u32::MAX,
        cursor <= old(file_bytes)@.len(),
    ensures
        match r {
            Ok(next) => exists|v: Vec<u8>|
                {
                    &&& #[trigger] seals_block(
                        writer,
                        dir,
                        id,
                        old(block_index)@.len() as u32,
                        rows_view(current@),
                        Ok(v),
                    )
                    &&& final(file_bytes)@ == old(file_bytes)@ + v@
                    &&& next == cursor + (v@.len() as u32)
                    &&& next <= final(file_bytes)@.len()
                    &&& final(block_index)@.len() == old(block_index)@.len() + 1
                    &&& final(block_index)@.subrange(0, old(block_index)@.len() as int) == old(block_index)@
                    &&& entry_states(final(block_index)@.last(), rows_view(current@), cursor as nat, v@)
                },
            Err(e) => seals_block(
                writer,
                dir,
                id,
                old(block_index)@.len() as u32,
                rows_view(current@),
                Err(e),
            ),
        },
{
    let block_no: u32 = block_index.len() as u32;
    let sealed = writer.data_block(dir, id, block_no, current);
    assert(call_ensures(W::data_block, (writer, dir, id, block_no, current), sealed));
    match sealed {
        Ok(v) => {
            let next: u64 = flush_block(current, &v, file_bytes, cursor, block_index);
            assert(seals_block(writer, dir, id, block_no, rows_view(current@), Ok(v)));
            Ok(next)
        },
        Err(e) => Err(e),
    }
}

proof fn lemma_index_states_push(
    before: Seq<SstBlockIndexEntry>,
    after: Seq<SstBlockIndexEntry>,
    blocks: Seq<Seq<Row>>,
    block: Seq<Row>,
    sealed: Seq<Seq<u8>>,
    part: Seq<u8>,
    start: nat,
)
    requires
        index_states(before, blocks, sealed, start),
        after.len() == before.len() + 1,
        after.subrange(0, before.len() as int) == before,
        entry_states(after.last(), block, block_offset(start, sealed, sealed.len() as int), part),
    ensures
        index_states(after, blocks.push(block), sealed.push(part), start),
        block_offset(start, sealed.push(part), (sealed.len() + 1) as int) == block_offset(
            start,
            sealed,
            sealed.len() as int,
        ) + (part.len() as u32),
{
    let more = sealed.push(part);
    lemma_offset_prefix(start, more, sealed, sealed.len() as int);
    assert forall|i: int| 0 <= i < after.len() implies entry_states(
        #[trigger] after[i],
        blocks.push(block)[i],
        block_offset(start, more, i),
        more[i],
    ) by {
        lemma_offset_prefix(start, more, sealed, i);
        if i < before.len() {
            assert(after.subrange(0, before.len() as int)[i] == after[i]);
            assert(before[i] == after[i]);
        }
    }
}

impl BlockSstFile {
    /// Writes `entries`, in ascending key order, as table `id` of directory
    /// `dir`: cuts them into blocks of about `block_size` bytes and lays out
    /// every section. The bytes still have to go to disk.
    pub fn write_new<W: SstWriter>(
        writer: &W,
        dir: &str,
        id: u64,
        entries: &Vec<(Key, Option<Value>)>,
        block_size: u32,
    ) -> (r: Result<WrittenSst, EngineError>)
        requires
            rows::sorted(rows_view(entries@)),
        ensures
            writes_new(writer, dir@, id, rows_view(entries@), block_size, r),
    {
        let ghost rows = rows_view(entries@);
        let ghost target = block_size as nat;
        let ghost blocks = split_blocks(rows, target);
        let header = SstHeader { sst_id: id, block_size, entry_count: entries.len() as u64, dim: 0 };
        let header_bytes = writer.header(&header);
        assert(call_ensures(W::header, (writer, &header), header_bytes));
        let ghost head = header_bytes@;

        let mut file_bytes: Vec<u8> = bytes::copy(header_bytes.as_slice());
        let mut cursor: u64 = header_bytes.len() as u64;
        let mut block_index: Vec<SstBlockIndexEntry> = Vec::new();
        let mut bloom = Bloom::new(entries.len());
        let mut current: Vec<(Key, Option<Value>)> = Vec::new();
        let mut current_size: usize = 0;

        let ghost mut done: Seq<Seq<Row>> = Seq::empty();
        let ghost mut sealed: Seq<Seq<u8>> = Seq::empty();
        let ghost mut size: nat = 0;
        let ghost bits = bloom.spec_num_bits();

        proof {
            assert(rows_view(current@) =~= Seq::<Row>::empty());
            assert(rows.subrange(0, rows.len() as int) =~= rows);
            assert(done + blocks =~= blocks);
            assert(file_bytes@ =~= head + concatenated(sealed));
            assert(block_size_of(Seq::<Row>::empty()) == 0);
        }

        let mut i: usize = 0;
        while i < entries.len()
            invariant
                i <= entries@.len(),
                rows == rows_view(entries@),
                target == block_size,
                blocks == split_blocks(rows, target),
                blocks == done + split_from(
                    rows.subrange(i as int, rows.len() as int),
                    rows_view(current@),
                    size,
                    target,
                ),
                size == block_size_of(rows_view(current@)),
                9 * current@.len() <= size,
                current@.len() == 0 || size < target,
                current_size == crate::store::block_cache::capped(size),
                index_states(block_index@, done, sealed, head.len()),
                file_bytes@ == head + concatenated(sealed),
                cursor == block_offset(head.len(), sealed, sealed.len() as int),
                cursor <= file_bytes@.len(),
                seals_blocks(writer, dir, id, done, sealed),
                bloom.wf(),
                bloom.spec_num_bits() == bits,
                forall|b: u64|
                    b < bits ==> (#[trigger] bloom.is_set(b) <==> exists|k: int|
                        0 <= k < i && #[trigger] is_probed(rows[k].0, bits, b)),
            decreases entries@.len() - i,
        {
            let ghost rest = rows.subrange(i as int, rows.len() as int);
            let ghost before_bloom = bloom;
            bloom.insert(entries[i].0.as_bytes());
            proof {
                assert(rows[i as int].0 == entries@[i as int].0@);
                assert forall|b: u64| b < bits implies (#[trigger] bloom.is_set(b) <==> exists|k: int|
                    0 <= k < i + 1 && #[trigger] is_probed(rows[k].0, bits, b)) by {
                    assert(before_bloom.is_set(b) <==> exists|k: int|
                        0 <= k < i && #[trigger] is_probed(rows[k].0, bits, b));
                    if before_bloom.is_set(b) {
                        let k = choose|k: int| 0 <= k < i && #[trigger] is_probed(rows[k].0, bits, b);
                        assert(0 <= k < i + 1 && is_probed(rows[k].0, bits, b));
                    }
                    if is_probed(rows[i as int].0, bits, b) {
                        assert(0 <= i < i + 1);
                    }
                }
            }
            let row = rows::copy_row(&entries[i]);
            let row_size: usize = entry_wire_size(&entries[i]);
            current_size = current_size.saturating_add(row_size);
            let ghost cur = rows_view(current@);
            current.push(row);
            proof {
                assert(rows_view(current@) =~= cur.push(rows[i as int]));
                assert(rows_view(current@).drop_last() =~= cur);
                assert(rest[0] == rows[i as int]);
                assert(rest.drop_first() =~= rows.subrange(i + 1, rows.len() as int));
                size = size + wire_size(rows[i as int]);
            }
            if current_size >= block_size as usize {
                let ghost grown = rows_view(current@);
                let ghost tail = split_from(rest.drop_first(), Seq::empty(), 0, target);
                let ghost index_before = block_index@;
                proof {
                    assert(blocks == done + (seq![grown] + tail));
                    assert(blocks[done.len() as int] == grown);
                }
                match seal_and_flush(writer, dir, id, &current, &mut file_bytes, cursor, &mut block_index) {
                    Ok(next) => {
                        proof {
                            let v = choose|v: Vec<u8>|
                                {
                                    &&& #[trigger] seals_block(writer, dir, id, done.len() as u32, grown, Ok(v))
                                    &&& file_bytes@ == head + concatenated(sealed) + v@
                                    &&& next == cursor + (v@.len() as u32)
                                    &&& entry_states(block_index@.last(), grown, cursor as nat, v@)
                                };
                            lemma_index_states_push(
                                index_before,
                                block_index@,
                                done,
                                grown,
                                sealed,
                                v@,
                                head.len(),
                            );
                            lemma_concat_push(sealed, v@);
                            assert(file_bytes@ =~= head + concatenated(sealed.push(v@)));
                            lemma_seals_push(writer, dir, id, done, sealed, grown, v);
                            assert(done + (seq![grown] + tail) =~= done.push(grown) + tail);
                            done = done.push(grown);
                            sealed = sealed.push(v@);
                            size = 0;
                        }
                        cursor = next;
                        current.clear();
                        current_size = 0;
                        assert(rows_view(current@) =~= Seq::<Row>::empty());
                    },
                    Err(e) => {
                        assert(blocks.take(sealed.len() as int) =~= done);
                        assert(seals_block(writer, dir, id, sealed.len() as u32, blocks[done.len() as int], Err(e)));
                        assert(refused(writer, dir, id, rows, block_size, e));
                        return Err(e);
                    },
                }
            }
            i = i + 1;
        }
        proof {
            assert(rows.subrange(i as int, rows.len() as int) =~= Seq::<Row>::empty());
        }
        if current.len() > 0 {
            let ghost grown = rows_view(current@);
            let ghost index_before = block_index@;
            proof {
                assert(blocks == done + seq![grown]);
                assert(blocks[done.len() as int] == grown);
                assert(blocks =~= done.push(grown));
            }
            match seal_and_flush(writer, dir, id, &current, &mut file_bytes, cursor, &mut block_index) {
                Ok(next) => {
                    proof {
                        let v = choose|v: Vec<u8>|
                            {
                                &&& #[trigger] seals_block(writer, dir, id, done.len() as u32, grown, Ok(v))
                                &&& file_bytes@ == head + concatenated(sealed) + v@
                                &&& next == cursor + (v@.len() as u32)
                                &&& entry_states(block_index@.last(), grown, cursor as nat, v@)
                            };
                        lemma_index_states_push(index_before, block_index@, done, grown, sealed, v@, head.len());
                        lemma_concat_push(sealed, v@);
                        assert(file_bytes@ =~= head + concatenated(sealed.push(v@)));
                        lemma_seals_push(writer, dir, id, done, sealed, grown, v);
                        done = done.push(grown);
                        sealed = sealed.push(v@);
                    }
                    cursor = next;
                },
                Err(e) => {
                    assert(blocks.take(sealed.len() as int) =~= done);
                    assert(seals_block(writer, dir, id, sealed.len() as u32, blocks[done.len() as int], Err(e)));
                    assert(refused(writer, dir, id, rows, block_size, e));
                    return Err(e);
                },
            }
        }
        assert(blocks =~= done);

        let index_sealed = writer.block_index(dir, id, &block_index);
        assert(call_ensures(W::block_index, (writer, dir, id, &block_index), index_sealed));
        let ghost plain = Sections {
            header: head,
            blocks: sealed,
            index: Seq::empty(),
            bloom: Seq::empty(),
            footer: Seq::empty(),
        };
        assert(laid_out(writer, dir, id, rows, block_size, plain, block_index));
        let index_bytes = match index_sealed {
            Ok(v) => v,
            Err(e) => {
                assert(refused(writer, dir, id, rows, block_size, e));
                return Err(e);
            },
        };
        let ghost indexed = Sections { index: index_bytes@, ..plain };
        assert(index_sealed_as(writer, dir, id, block_index, index_bytes@));
        assert(laid_out(writer, dir, id, rows, block_size, indexed, block_index));
        let filter = bloom.to_filter();
        let bloom_sealed = writer.bloom_filter(dir, id, &filter);
        assert(call_ensures(W::bloom_filter, (writer, dir, id, &filter), bloom_sealed));
        assert(bloom_holds(bloom, rows));
        assert(is_filter_of(filter, bloom));
        let bloom_bytes = match bloom_sealed {
            Ok(v) => v,
            Err(e) => {
                assert(refused(writer, dir, id, rows, block_size, e));
                return Err(e);
            },
        };
        assert(filter_sealed_as(writer, dir, id, rows, bloom_bytes@));
        bytes::push_all(&mut file_bytes, index_bytes.as_slice());
        assert(file_bytes.len() == file_bytes@.len());
        let footer = SstFooter {
            index_offset: cursor,
            index_len: index_bytes.len() as u32,
            bloom_offset: cursor + index_bytes.len() as u64,
            bloom_len: bloom_bytes.len() as u32,
            block_count: block_index.len() as u32,
        };
        let footer_sealed = writer.footer(dir, id, &footer);
        assert(call_ensures(W::footer, (writer, dir, id, &footer), footer_sealed));
        let ghost stated = Sections { index: index_bytes@, bloom: bloom_bytes@, ..plain };
        assert(laid_out(writer, dir, id, rows, block_size, stated, block_index));
        assert(stated.states_footer(footer));
        let footer_bytes = match footer_sealed {
            Ok(v) => v,
            Err(e) => {
                assert(refused(writer, dir, id, rows, block_size, e));
                return Err(e);
            },
        };
        bytes::push_all(&mut file_bytes, bloom_bytes.as_slice());
        bytes::push_all(&mut file_bytes, footer_bytes.as_slice());

        let tombstones: u64 = super::sum_tombstones(&block_index);
        let file = BlockSstFile {
            id,
            path: super::sst_path(dir, id),
            file_bytes: file_bytes.len() as u64,
            tombstones,
            bytes_read_at_open: 0,
            entry_count: entries.len() as u64,
            block_index,
            bloom,
        };
        proof {
            let s = Sections { footer: footer_bytes@, ..stated };
            assert(s.states_footer(footer));
            lemma_stated_index_describes(file.block_index@, rows, target, sealed, head.len());
            assert(written(writer, dir, id, rows, block_size, s, file));
            assert(file_bytes@ =~= s.file());
        }
        Ok(WrittenSst { file, bytes: file_bytes })
    }
}

} // verus!
