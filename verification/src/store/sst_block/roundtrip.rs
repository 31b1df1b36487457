//! What a table gives back that was written.
use super::bloom::SstBloomFilter;
use super::read::{
    assembles, checks_block, inverted_at, loads, loads_bloom, loads_footer, loads_header, loads_index, overlapping_at,
    reads_block, span_refusal, Metadata,
};
use super::scan::{reads_as, reads_run, reads_whole};
use super::write::{
    block_offset, concatenated, entry_states, index_states, laid_out, split_blocks, tombstones_in, writes_new, written,
    Sections, WrittenSst,
};
use super::{
    all_rows, capped64, entries_counted, index_describes, tombstones_counted, BlockSstFile, SstBlockIndexEntry, SstFooter,
    SstHeader, SstReader, SstWriter,
};
use crate::error::EngineError;
use crate::key::Key;
use crate::store::rows::{rows_view, Row};
use crate::store::Value;
use vstd::prelude::*;

verus! {

/// Two index entries say the same.
pub open spec fn same_entry(a: SstBlockIndexEntry, b: SstBlockIndexEntry) -> bool {
    &&& a.first_key@ == b.first_key@
    &&& a.last_key@ == b.last_key@
    &&& a.offset == b.offset
    &&& a.len == b.len
    &&& a.entry_count == b.entry_count
    &&& a.tombstone_count == b.tombstone_count
}

/// Two indexes say the same.
pub open spec fn same_index(a: Seq<SstBlockIndexEntry>, b: Seq<SstBlockIndexEntry>) -> bool {
    &&& a.len() == b.len()
    &&& forall|i: int| 0 <= i < a.len() ==> same_entry(#[trigger] a[i], b[i])
}

/// A header that is read is that of `file`.
pub open spec fn reads_header<R: SstReader>(reader: &R, file: BlockSstFile, len: nat) -> bool {
    forall|p: &str, n: u64, r: Result<SstHeader, EngineError>|
        p@ == file.path@ && n == len
            && #[trigger] call_ensures(R::header, (reader, p, file.id, n), r) ==> (r matches Ok(
            header,
        ) && header.sst_id == file.id && header.entry_count == file.entry_count)
}

/// A footer that is read at the end of the file is that of `sections`.
pub open spec fn reads_footer<R: SstReader>(reader: &R, file: BlockSstFile, sections: Sections) -> bool {
    forall|p: &str, offset: u64, n: u64, r: Result<SstFooter, EngineError>|
        p@ == file.path@ && n == sections.footer.len() && offset == file.file_bytes - n && #[trigger] call_ensures(
            R::footer,
            (reader, p, file.id, offset, n),
            r,
        ) ==> (r matches Ok(footer) && sections.states_footer(footer))
}

/// An index that is read where the footer says is that of `file`.
pub open spec fn reads_index<R: SstReader>(reader: &R, file: BlockSstFile, sections: Sections) -> bool {
    forall|p: &str, offset: u64, n: u32, r: Result<Vec<SstBlockIndexEntry>, EngineError>|
        p@ == file.path@ && offset == sections.index_offset() && n == sections.index.len() as u32
            && #[trigger] call_ensures(R::block_index, (reader, p, file.id, offset, n), r) ==> (r matches Ok(index)
            && same_index(index@, file.block_index@))
}

/// A filter that is read where the footer says is that of `file`.
pub open spec fn reads_filter<R: SstReader>(reader: &R, file: BlockSstFile, sections: Sections) -> bool {
    forall|p: &str, offset: u64, n: u32, r: Result<SstBloomFilter, EngineError>|
        p@ == file.path@ && offset == sections.index_offset() + sections.index.len() && n == sections.bloom.len() as u32
            && #[trigger] call_ensures(R::bloom_filter, (reader, p, file.id, offset, n), r) ==> (r matches Ok(filter)
            && filter.num_bits == file.bloom.spec_num_bits() && filter.bits@ == file.bloom.spec_bits())
}

/// A block that is read where the index of `file` says is one of `blocks`.
pub open spec fn reads_blocks_of<R: SstReader>(reader: &R, file: BlockSstFile, blocks: Seq<Seq<Row>>) -> bool {
    forall|p: &str, i: int, no: u32, offset: u64, n: u32, r: Result<Vec<(Key, Option<Value>)>, EngineError>|
        {
            &&& p@ == file.path@
            &&& 0 <= i < blocks.len()
            &&& no == i as u32
            &&& offset == (#[trigger] file.block_index@[i]).offset
            &&& n == file.block_index@[i].len
            &&& #[trigger] call_ensures(R::data_block, (reader, p, file.id, no, offset, n), r)
        } ==> (r matches Ok(v) && rows_view(v@) == blocks[i])
}

/// The codec decodes what it encoded: every section that is read back of the
/// file of `file` is the one that was written.
pub open spec fn gives_back<R: SstReader>(
    reader: &R,
    file: BlockSstFile,
    sections: Sections,
    blocks: Seq<Seq<Row>>,
) -> bool {
    &&& reads_header(reader, file, sections.header.len())
    &&& reads_footer(reader, file, sections)
    &&& reads_index(reader, file, sections)
    &&& reads_filter(reader, file, sections)
    &&& reads_blocks_of(reader, file, blocks)
}

/// Blocks start in order, inside the bytes of those before.
pub proof fn lemma_offset_bounds(start: nat, sealed: Seq<Seq<u8>>, n: int, m: int)
    requires
        0 <= n <= m <= sealed.len(),
    ensures
        block_offset(start, sealed, n) <= block_offset(start, sealed, m),
        block_offset(start, sealed, m) <= start + concatenated(sealed.take(m)).len(),
    decreases m,
{
    if m > 0 {
        assert(sealed.take(m).drop_last() =~= sealed.take(m - 1));
        assert(sealed.take(m).last() == sealed[m - 1]);
        if n < m {
            lemma_offset_bounds(start, sealed, n, m - 1);
        } else {
            lemma_offset_bounds(start, sealed, n - 1, m - 1);
        }
    } else {
        assert(sealed.take(0) =~= Seq::<Seq<u8>>::empty());
    }
}

proof fn lemma_same_counts(a: Seq<SstBlockIndexEntry>, b: Seq<SstBlockIndexEntry>)
    requires
        same_index(a, b),
    ensures
        entries_counted(a) == entries_counted(b),
        tombstones_counted(a) == tombstones_counted(b),
    decreases a.len(),
{
    if a.len() > 0 {
        assert(same_entry(a[a.len() - 1], b[b.len() - 1]));
        assert(same_index(a.drop_last(), b.drop_last())) by {
            assert forall|i: int| 0 <= i < a.len() - 1 implies same_entry(#[trigger] a.drop_last()[i], b.drop_last()[i]) by {
                assert(same_entry(a[i], b[i]));
            }
        }
        lemma_same_counts(a.drop_last(), b.drop_last());
    }
}

proof fn lemma_counted_rows(index: Seq<SstBlockIndexEntry>, blocks: Seq<Seq<Row>>)
    requires
        index.len() == blocks.len(),
        forall|i: int| 0 <= i < blocks.len() ==> (#[trigger] index[i]).entry_count == blocks[i].len(),
    ensures
        entries_counted(index) == all_rows(blocks).len(),
    decreases index.len(),
{
    if index.len() > 0 {
        assert(index[index.len() - 1].entry_count == blocks[blocks.len() - 1].len());
        assert forall|i: int| 0 <= i < blocks.len() - 1 implies (#[trigger] index.drop_last()[i]).entry_count
            == blocks.drop_last()[i].len() by {
            assert(index[i].entry_count == blocks[i].len());
        }
        lemma_counted_rows(index.drop_last(), blocks.drop_last());
    }
}

proof fn lemma_tombstones_concat(a: Seq<Row>, b: Seq<Row>)
    ensures
        tombstones_in(a + b) == tombstones_in(a) + tombstones_in(b),
    decreases b.len(),
{
    if b.len() == 0 {
        assert(a + b =~= a);
    } else {
        assert((a + b).drop_last() =~= a + b.drop_last());
        lemma_tombstones_concat(a, b.drop_last());
    }
}

proof fn lemma_counted_tombstones(index: Seq<SstBlockIndexEntry>, blocks: Seq<Seq<Row>>)
    requires
        index.len() == blocks.len(),
        forall|i: int| 0 <= i < blocks.len() ==> (#[trigger] index[i]).tombstone_count == tombstones_in(blocks[i]),
    ensures
        tombstones_counted(index) == tombstones_in(all_rows(blocks)),
    decreases index.len(),
{
    if index.len() > 0 {
        assert(index[index.len() - 1].tombstone_count == tombstones_in(blocks[blocks.len() - 1]));
        assert forall|i: int| 0 <= i < blocks.len() - 1 implies (#[trigger] index.drop_last()[i]).tombstone_count
            == tombstones_in(blocks.drop_last()[i]) by {
            assert(index[i].tombstone_count == tombstones_in(blocks[i]));
        }
        lemma_counted_tombstones(index.drop_last(), blocks.drop_last());
        lemma_tombstones_concat(all_rows(blocks.drop_last()), blocks.last());
    }
}

/// A table that was written knows how many of its rows are tombstones.
pub proof fn a_written_table_counts_its_tombstones<W: SstWriter>(
    writer: &W,
    dir: Seq<char>,
    id: u64,
    rows: Seq<Row>,
    block_size: u32,
    w: WrittenSst,
)
    requires
        writes_new(writer, dir, id, rows, block_size, Ok(w)),
    ensures
        w.file.tombstones == capped64(tombstones_in(rows)),
{
    let blocks = split_blocks(rows, block_size as nat);
    let index = w.file.block_index@;
    let (d, s) = choose|d: &str, s: Sections|
        d@ == dir && #[trigger] written(writer, d, id, rows, block_size, s, w.file) && w.bytes@ == s.file();
    assert(laid_out(writer, d, id, rows, block_size, s, w.file.block_index));
    assert forall|i: int| 0 <= i < blocks.len() implies (#[trigger] index[i]).tombstone_count == tombstones_in(
        blocks[i],
    ) by {
        assert(entry_states(index[i], blocks[i], block_offset(s.header.len(), s.blocks, i), s.blocks[i]));
    }
    lemma_counted_tombstones(index, blocks);
    super::write::splitting_keeps_every_row(rows, block_size as nat);
}

/// A table that was written loads as it was written: the same index, filter
/// and counts, the same tombstones and the same length.
pub proof fn a_written_table_loads_as_written<W: SstWriter, R: SstReader>(
    writer: &W,
    reader: &R,
    dir: &str,
    id: u64,
    rows: Seq<Row>,
    block_size: u32,
    sections: Sections,
    w: WrittenSst,
    header_len: u64,
    footer_len: u64,
    r: Result<BlockSstFile, EngineError>,
)
    requires
        writes_new(writer, dir@, id, rows, block_size, Ok(w)),
        written(writer, dir, id, rows, block_size, sections, w.file),
        w.bytes@ == sections.file(),
        gives_back(reader, w.file, sections, split_blocks(rows, block_size as nat)),
        header_len == sections.header.len(),
        footer_len == sections.footer.len(),
        loads(reader, w.file.path@, id, w.file.file_bytes, header_len, footer_len, r),
    ensures
        r matches Ok(file) && {
            &&& file.wf()
            &&& file.id == w.file.id
            &&& file.path@ == w.file.path@
            &&& same_index(file.block_index@, w.file.block_index@)
            &&& file.bloom.spec_num_bits() == w.file.bloom.spec_num_bits()
            &&& file.bloom.spec_bits() == w.file.bloom.spec_bits()
            &&& file.entry_count == w.file.entry_count
            &&& file.tombstones == w.file.tombstones
            &&& file.tombstones == capped64(tombstones_in(rows))
            &&& file.file_bytes == w.file.file_bytes
        },
{
    let path = w.file.path@;
    let len = w.file.file_bytes;
    let fixed = header_len as nat + footer_len as nat;
    let blocks = split_blocks(rows, block_size as nat);
    let index = w.file.block_index@;
    assert(laid_out(writer, dir, id, rows, block_size, sections, w.file.block_index));
    assert(sections.blocks.take(sections.blocks.len() as int) =~= sections.blocks);
    lemma_offset_bounds(
        sections.header.len(),
        sections.blocks,
        sections.blocks.len() as int,
        sections.blocks.len() as int,
    );
    assert(len == sections.file().len());
    let (p, h) = choose|p: &str, h: Result<SstHeader, EngineError>|
        p@ == path && #[trigger] call_ensures(R::header, (reader, p, id, header_len), h) && loads_header(
            reader,
            path,
            id,
            len,
            header_len,
            footer_len,
            h,
            r,
        );
    let header = h->Ok_0;
    let (p, f) = choose|p: &str, f: Result<SstFooter, EngineError>|
        p@ == path && #[trigger] call_ensures(R::footer, (reader, p, id, (len - footer_len) as u64, footer_len), f)
            && loads_footer(reader, path, id, len, fixed, header, f, r);
    let footer = f->Ok_0;
    assert(sections.states_footer(footer));
    assert(span_refusal(footer.index_offset, footer.index_len as u64, len) is None);
    let (p, x) = choose|p: &str, x: Result<Vec<SstBlockIndexEntry>, EngineError>|
        p@ == path && #[trigger] call_ensures(
            R::block_index,
            (reader, p, id, footer.index_offset, footer.index_len),
            x,
        ) && loads_index(reader, path, id, len, fixed, header, footer, x, r);
    let found = x->Ok_0;
    assert(span_refusal(footer.bloom_offset, footer.bloom_len as u64, len) is None);
    let (p, b) = choose|p: &str, b: Result<SstBloomFilter, EngineError>|
        p@ == path && #[trigger] call_ensures(
            R::bloom_filter,
            (reader, p, id, footer.bloom_offset, footer.bloom_len),
            b,
        ) && loads_bloom(path, id, len, fixed, header, footer, found, b, r);
    let filter = b->Ok_0;
    let m = Metadata { header, footer, index: found, filter };
    a_written_table_counts_its_tombstones(writer, dir@, id, rows, block_size, w);
    assert(assembles(path, id, len, fixed, m, r));
    w.file.bloom.lemma_well_formed();
    lemma_same_counts(found@, index);
    assert forall|i: int| 0 <= i < blocks.len() implies (#[trigger] index[i]).entry_count == blocks[i].len() by {
        assert(super::block_matches(index[i], blocks[i]));
    }
    lemma_counted_rows(index, blocks);
    super::write::splitting_keeps_every_row(rows, block_size as nat);
    assert forall|i: int| !inverted_at(found@, i) by {
        if 0 <= i < found@.len() {
            assert(same_entry(found@[i], index[i]));
            crate::bytes::lemma_lt_total(index[i].first_key@, index[i].last_key@);
        }
    }
    assert forall|i: int| !overlapping_at(found@, i) by {
        if 0 <= i < found@.len() - 1 {
            assert(same_entry(found@[i], index[i]));
            assert(same_entry(found@[i + 1], index[i + 1]));
        }
    }
}

/// `file` is the table of `w`, as it was written or as it was loaded.
pub open spec fn is_table_of(file: BlockSstFile, w: WrittenSst) -> bool {
    &&& file.id == w.file.id
    &&& file.path@ == w.file.path@
    &&& file.file_bytes == w.file.file_bytes
    &&& same_index(file.block_index@, w.file.block_index@)
}

/// Every block of a table that was written reads as it was cut, whether the
/// table was loaded since or not.
pub proof fn a_written_block_reads_back<W: SstWriter, R: SstReader>(
    writer: &W,
    reader: &R,
    dir: &str,
    id: u64,
    rows: Seq<Row>,
    block_size: u32,
    sections: Sections,
    w: WrittenSst,
    file: BlockSstFile,
    i: int,
    r: Result<Vec<(Key, Option<Value>)>, EngineError>,
)
    requires
        writes_new(writer, dir@, id, rows, block_size, Ok(w)),
        written(writer, dir, id, rows, block_size, sections, w.file),
        w.bytes@ == sections.file(),
        gives_back(reader, w.file, sections, split_blocks(rows, block_size as nat)),
        is_table_of(file, w),
        0 <= i < split_blocks(rows, block_size as nat).len(),
        reads_block(reader, &file, i, r),
    ensures
        r matches Ok(v) && rows_view(v@) == split_blocks(rows, block_size as nat)[i],
{
    let blocks = split_blocks(rows, block_size as nat);
    let index = w.file.block_index@;
    let sealed = sections.blocks;
    let start = sections.header.len();
    assert(laid_out(writer, dir, id, rows, block_size, sections, w.file.block_index));
    assert(index_states(index, blocks, sealed, start));
    let entry = file.block_index@[i];
    assert(same_entry(file.block_index@[i], index[i]));
    assert(entry_states(index[i], blocks[i], block_offset(start, sealed, i), sealed[i]));
    assert(sealed.take(sealed.len() as int) =~= sealed);
    lemma_offset_bounds(start, sealed, i + 1, sealed.len() as int);
    assert(w.file.file_bytes == sections.file().len());
    assert(block_offset(start, sealed, i + 1) == entry.offset + entry.len);
    assert(span_refusal(entry.offset, entry.len as u64, file.file_bytes) is None);
    let (p, d) = choose|p: &str, d: Result<Vec<(Key, Option<Value>)>, EngineError>|
        p@ == file.path@ && #[trigger] call_ensures(
            R::data_block,
            (reader, p, file.id, i as u32, entry.offset, entry.len),
            d,
        ) && match d {
            Err(e) => r == Err::<Vec<(Key, Option<Value>)>, EngineError>(e),
            Ok(v) => checks_block(file.path@, entry, v, r),
        };
    assert(index[i].offset == entry.offset && index[i].len == entry.len);
    assert(d matches Ok(v) && rows_view(v@) == blocks[i]);
    assert(super::block_matches(index[i], blocks[i]));
}

/// A table that was written and loaded gives its rows back, tombstones
/// among them, where the codec decodes what it encoded.
pub proof fn a_written_table_gives_its_rows_back<W: SstWriter, R: SstReader>(
    writer: &W,
    reader: &R,
    dir: &str,
    id: u64,
    rows: Seq<Row>,
    block_size: u32,
    sections: Sections,
    w: WrittenSst,
    header_len: u64,
    footer_len: u64,
    file: BlockSstFile,
    found: Seq<Seq<Row>>,
)
    requires
        writes_new(writer, dir@, id, rows, block_size, Ok(w)),
        written(writer, dir, id, rows, block_size, sections, w.file),
        w.bytes@ == sections.file(),
        gives_back(reader, w.file, sections, split_blocks(rows, block_size as nat)),
        header_len == sections.header.len(),
        footer_len == sections.footer.len(),
        loads(reader, w.file.path@, id, w.file.file_bytes, header_len, footer_len, Ok(file)),
        found.len() == file.block_index@.len(),
        reads_run(reader, &file, 0, found),
    ensures
        all_rows(found) == rows,
{
    let blocks = split_blocks(rows, block_size as nat);
    a_written_table_loads_as_written(
        writer,
        reader,
        dir,
        id,
        rows,
        block_size,
        sections,
        w,
        header_len,
        footer_len,
        Ok(file),
    );
    assert(index_describes(w.file.block_index@, blocks));
    assert forall|i: int| 0 <= i < found.len() implies #[trigger] found[i] == blocks[i] by {
        assert(reads_as(reader, &file, 0 + i, found[i]));
        let v = choose|v: Vec<(Key, Option<Value>)>|
            rows_view(v@) == found[i] && #[trigger] reads_block(reader, &file, i, Ok(v));
        a_written_block_reads_back(writer, reader, dir, id, rows, block_size, sections, w, file, i, Ok(v));
    }
    assert(found =~= blocks);
    super::write::splitting_keeps_every_row(rows, block_size as nat);
}

/// Reading such a table whole does not fail, and gives the rows that were
/// written, in their order.
pub proof fn a_written_table_is_read_whole<W: SstWriter, R: SstReader>(
    writer: &W,
    reader: &R,
    dir: &str,
    id: u64,
    rows: Seq<Row>,
    block_size: u32,
    sections: Sections,
    w: WrittenSst,
    header_len: u64,
    footer_len: u64,
    l: Result<BlockSstFile, EngineError>,
    r: Result<Vec<(Key, Option<Value>)>, EngineError>,
)
    requires
        writes_new(writer, dir@, id, rows, block_size, Ok(w)),
        written(writer, dir, id, rows, block_size, sections, w.file),
        w.bytes@ == sections.file(),
        gives_back(reader, w.file, sections, split_blocks(rows, block_size as nat)),
        header_len == sections.header.len(),
        footer_len == sections.footer.len(),
        loads(reader, w.file.path@, id, w.file.file_bytes, header_len, footer_len, l),
        l matches Ok(file) ==> reads_whole(reader, &file, r),
    ensures
        l is Ok,
        r matches Ok(out) && rows_view(out@) == rows,
{
    a_written_table_loads_as_written(
        writer,
        reader,
        dir,
        id,
        rows,
        block_size,
        sections,
        w,
        header_len,
        footer_len,
        l,
    );
    let file = l->Ok_0;
    match r {
        Err(e) => {
            let read = choose|read: Seq<Seq<Row>>|
                {
                    &&& #[trigger] reads_run(reader, &file, 0, read)
                    &&& read.len() < file.block_index@.len()
                    &&& reads_block(reader, &file, read.len() as int, Err(e))
                };
            assert(index_describes(w.file.block_index@, split_blocks(rows, block_size as nat)));
            a_written_block_reads_back(
                writer,
                reader,
                dir,
                id,
                rows,
                block_size,
                sections,
                w,
                file,
                read.len() as int,
                Err(e),
            );
        },
        Ok(out) => {
            let read = choose|read: Seq<Seq<Row>>|
                {
                    &&& #[trigger] reads_run(reader, &file, 0, read)
                    &&& read.len() == file.block_index@.len()
                    &&& rows_view(out@) == all_rows(read)
                };
            a_written_table_gives_its_rows_back(
                writer,
                reader,
                dir,
                id,
                rows,
                block_size,
                sections,
                w,
                header_len,
                footer_len,
                file,
                read,
            );
        },
    }
}

} // verus!
