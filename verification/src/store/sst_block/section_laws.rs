//! What a table that was opened, and a block that was read, were read from.
use super::read::{checks_block, loads, loads_bloom, loads_footer, loads_header, loads_index, reads_block};
use super::{
    capped64, entries_counted, tombstones_counted, BlockSstFile, SstBlockIndexEntry, SstFooter, SstHeader, SstReader,
};
use crate::bytes::bytes_lt;
use crate::error::EngineError;
use crate::key::Key;
use crate::store::rows::rows_view;
use crate::store::sst_block::bloom::SstBloomFilter;
use crate::store::Value;
use vstd::prelude::*;

verus! {

/// The sections that a table was opened from.
pub struct Opened {
    pub header: SstHeader,
    pub footer: SstFooter,
    pub index: Vec<SstBlockIndexEntry>,
    pub filter: SstBloomFilter,
}

/// Each section was read where it lies: the header at the start, the footer at
/// the end, the index and the filter where the footer says, within the file.
pub open spec fn are_sections_of<R: SstReader>(
    reader: &R,
    path: Seq<char>,
    id: u64,
    file_len: u64,
    header_len: u64,
    footer_len: u64,
    s: Opened,
) -> bool {
    &&& header_len <= file_len
    &&& footer_len <= file_len
    &&& exists|p: &str| p@ == path && #[trigger] call_ensures(R::header, (reader, p, id, header_len), Ok(s.header))
    &&& exists|p: &str|
        p@ == path && #[trigger] call_ensures(
            R::footer,
            (reader, p, id, (file_len - footer_len) as u64, footer_len),
            Ok(s.footer),
        )
    &&& exists|p: &str|
        p@ == path && #[trigger] call_ensures(
            R::block_index,
            (reader, p, id, s.footer.index_offset, s.footer.index_len),
            Ok(s.index),
        )
    &&& exists|p: &str|
        p@ == path && #[trigger] call_ensures(
            R::bloom_filter,
            (reader, p, id, s.footer.bloom_offset, s.footer.bloom_len),
            Ok(s.filter),
        )
    &&& s.footer.index_offset + s.footer.index_len <= file_len
    &&& s.footer.bloom_offset + s.footer.bloom_len <= file_len
}

/// The sections do not contradict one another: the header is of this table, it
/// counts the entries that the index does, the footer counts its blocks, and the
/// blocks are in key order.
pub open spec fn are_consistent(id: u64, s: Opened) -> bool {
    let index = s.index@;
    &&& s.header.sst_id == id
    &&& s.footer.block_count == index.len() as u32
    &&& s.header.entry_count == capped64(entries_counted(index))
    &&& forall|i: int|
        0 <= i < index.len() ==> !bytes_lt((#[trigger] index[i]).last_key@, index[i].first_key@)
    &&& forall|i: int|
        0 <= i < index.len() - 1 ==> bytes_lt((#[trigger] index[i]).last_key@, index[i + 1].first_key@)
}

/// A table that opens is what its sections say, and these do not contradict one
/// another.
pub proof fn an_opened_table_is_what_its_sections_say<R: SstReader>(
    reader: &R,
    path: Seq<char>,
    id: u64,
    file_len: u64,
    header_len: u64,
    footer_len: u64,
    file: BlockSstFile,
) -> (s: Opened)
    requires
        loads(reader, path, id, file_len, header_len, footer_len, Ok(file)),
    ensures
        are_sections_of(reader, path, id, file_len, header_len, footer_len, s),
        are_consistent(id, s),
        file.id == id,
        file.path@ == path,
        file.file_bytes == file_len,
        file.block_index@ == s.index@,
        file.bloom.spec_bits() == s.filter.bits@,
        file.bloom.spec_num_bits() == s.filter.num_bits,
        file.tombstones == capped64(tombstones_counted(s.index@)),
{
    let r: Result<BlockSstFile, EngineError> = Ok(file);
    let (p, h) = choose|p: &str, h: Result<SstHeader, EngineError>|
        p@ == path && #[trigger] call_ensures(R::header, (reader, p, id, header_len), h) && loads_header(
            reader,
            path,
            id,
            file_len,
            header_len,
            footer_len,
            h,
            r,
        );
    let header = h->Ok_0;
    let fixed = header_len as nat + footer_len as nat;
    let (q, f) = choose|q: &str, f: Result<SstFooter, EngineError>|
        q@ == path && #[trigger] call_ensures(
            R::footer,
            (reader, q, id, (file_len - footer_len) as u64, footer_len),
            f,
        ) && loads_footer(reader, path, id, file_len, fixed, header, f, r);
    let footer = f->Ok_0;
    let (o, x) = choose|o: &str, x: Result<Vec<SstBlockIndexEntry>, EngineError>|
        o@ == path && #[trigger] call_ensures(
            R::block_index,
            (reader, o, id, footer.index_offset, footer.index_len),
            x,
        ) && loads_index(reader, path, id, file_len, fixed, header, footer, x, r);
    let index = x->Ok_0;
    let (n, b) = choose|n: &str, b: Result<SstBloomFilter, EngineError>|
        n@ == path && #[trigger] call_ensures(
            R::bloom_filter,
            (reader, n, id, footer.bloom_offset, footer.bloom_len),
            b,
        ) && loads_bloom(path, id, file_len, fixed, header, footer, index, b, r);
    let filter = b->Ok_0;
    let s = Opened { header, footer, index, filter };
    assert(call_ensures(R::header, (reader, p, id, header_len), Ok(s.header)));
    assert(call_ensures(R::footer, (reader, q, id, (file_len - footer_len) as u64, footer_len), Ok(s.footer)));
    assert(call_ensures(R::block_index, (reader, o, id, s.footer.index_offset, s.footer.index_len), Ok(s.index)));
    assert(call_ensures(R::bloom_filter, (reader, n, id, s.footer.bloom_offset, s.footer.bloom_len), Ok(s.filter)));
    assert(s.footer.index_offset + s.footer.index_len <= file_len);
    assert(s.footer.bloom_offset + s.footer.bloom_len <= file_len);
    let view = index@;
    assert forall|i: int| 0 <= i < view.len() implies !bytes_lt((#[trigger] view[i]).last_key@, view[i].first_key@) by {
        assert(!super::read::inverted_at(view, i));
    }
    assert forall|i: int| 0 <= i < view.len() - 1 implies bytes_lt(
        (#[trigger] view[i]).last_key@,
        view[i + 1].first_key@,
    ) by {
        assert(!super::read::overlapping_at(view, i));
    }
    s
}

/// A block that is read is read where its index entry says, within the file, and
/// is what the entry says: its first key, its last key, and how many rows.
pub proof fn a_block_is_what_its_index_entry_says<R: SstReader>(
    reader: &R,
    file: &BlockSstFile,
    i: int,
    v: Vec<(Key, Option<Value>)>,
)
    requires
        reads_block(reader, file, i, Ok(v)),
    ensures
        ({
            let entry = file.block_index@[i];
            &&& entry.offset + entry.len <= file.file_bytes
            &&& exists|p: &str|
                p@ == file.path@ && #[trigger] call_ensures(
                    R::data_block,
                    (reader, p, file.id, i as u32, entry.offset, entry.len),
                    Ok(v),
                )
            &&& v@.len() > 0
            &&& v@[0].0@ == entry.first_key@
            &&& v@[v@.len() - 1].0@ == entry.last_key@
            &&& v@.len() == entry.entry_count
        }),
{
    let entry = file.block_index@[i];
    let r: Result<Vec<(Key, Option<Value>)>, EngineError> = Ok(v);
    let (p, d) = choose|p: &str, d: Result<Vec<(Key, Option<Value>)>, EngineError>|
        p@ == file.path@ && #[trigger] call_ensures(
            R::data_block,
            (reader, p, file.id, i as u32, entry.offset, entry.len),
            d,
        ) && match d {
            Err(e) => false,
            Ok(w) => checks_block(file.path@, entry, w, r),
        };
    assert(call_ensures(R::data_block, (reader, p, file.id, i as u32, entry.offset, entry.len), Ok(v)));
    let view = rows_view(v@);
    assert(view.len() == v@.len());
    assert(view[0].0 == v@[0].0@);
    assert(view.last().0 == v@[v@.len() - 1].0@);
}

/// A block that decodes, lies within its file and is what its index entry says
/// is read.
pub proof fn a_block_as_its_index_entry_says_is_read<R: SstReader>(
    reader: &R,
    file: &BlockSstFile,
    i: int,
    r: Result<Vec<(Key, Option<Value>)>, EngineError>,
)
    requires
        file.block_index@[i].offset + file.block_index@[i].len <= file.file_bytes,
        forall|p: &str, d: Result<Vec<(Key, Option<Value>)>, EngineError>|
            p@ == file.path@ && #[trigger] call_ensures(
                R::data_block,
                (reader, p, file.id, i as u32, file.block_index@[i].offset, file.block_index@[i].len),
                d,
            ) ==> (d matches Ok(v) && v@.len() > 0 && v@[0].0@ == file.block_index@[i].first_key@ && v@[v@.len()
                - 1].0@ == file.block_index@[i].last_key@ && v@.len() == file.block_index@[i].entry_count),
        reads_block(reader, file, i, r),
    ensures
        r is Ok,
{
    let entry = file.block_index@[i];
    let (p, d) = choose|p: &str, d: Result<Vec<(Key, Option<Value>)>, EngineError>|
        p@ == file.path@ && #[trigger] call_ensures(
            R::data_block,
            (reader, p, file.id, i as u32, entry.offset, entry.len),
            d,
        ) && match d {
            Err(e) => r == Err::<Vec<(Key, Option<Value>)>, EngineError>(e),
            Ok(v) => checks_block(file.path@, entry, v, r),
        };
    let v = d->Ok_0;
    let view = rows_view(v@);
    assert(view.len() == v@.len());
    assert(view[0].0 == v@[0].0@);
    assert(view.last().0 == v@[v@.len() - 1].0@);
}

} // verus!
