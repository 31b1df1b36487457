//! Opening a table from its metadata, reading one block, looking up one key.
use super::bloom::{Bloom, SstBloomFilter};
use super::{
    capped64, entries_counted, index_describes, index_ordered, tombstones_counted, BlockSstFile, SstBlockIndexEntry,
    SstFooter, SstHeader, SstReader,
};
use crate::bytes;
use crate::error::EngineError;
use crate::key::Key;
use crate::store::block_cache::{after_insert, after_touch, is_resident, resident_at, BlockCache, Resident};
use crate::store::rows::{rows_view, slot_view, Row};
use crate::store::{rows, Value};
use crate::text;
use crate::text::{byte_list_text, dec_text};
use vstd::prelude::*;

verus! {

/// `e` reports the header of `path`.
pub open spec fn is_header_error(e: EngineError, path: Seq<char>, reason: Seq<char>) -> bool {
    e matches EngineError::CorruptSstHeader { path: p, reason: r } && p@ == path && r@ == reason
}

/// `e` reports the footer of `path`.
pub open spec fn is_footer_error(e: EngineError, path: Seq<char>, reason: Seq<char>) -> bool {
    e matches EngineError::CorruptSstFooter { path: p, reason: r } && p@ == path && r@ == reason
}

/// `e` reports the block index of `path`.
pub open spec fn is_index_error(e: EngineError, path: Seq<char>, reason: Seq<char>) -> bool {
    e matches EngineError::CorruptSstBlockIndex { path: p, reason: r } && p@ == path && r@ == reason
}

/// `e` reports the bloom filter of `path`.
pub open spec fn is_bloom_error(e: EngineError, path: Seq<char>, reason: Seq<char>) -> bool {
    e matches EngineError::CorruptSstBloomFilter { path: p, reason: r } && p@ == path && r@ == reason
}

/// `e` reports a data block of `path`.
pub open spec fn is_block_error(e: EngineError, path: Seq<char>, reason: Seq<char>) -> bool {
    e matches EngineError::CorruptSstDataBlock { path: p, reason: r } && p@ == path && r@ == reason
}

/// Why a section of `len` bytes at `offset` cannot be read from a file of
/// `file_len` bytes; `None` where it lies within the file.
pub open spec fn span_refusal(offset: u64, len: u64, file_len: u64) -> Option<Seq<char>> {
    if offset + len > u64::MAX {
        Some(
            "section offset "@ + dec_text(offset as nat) + " + length "@ + dec_text(len as nat)
                + " overflows a 64-bit length"@,
        )
    } else if offset + len > file_len {
        Some(
            "section ["@ + dec_text(offset as nat) + ", "@ + dec_text((offset + len) as nat)
                + ") extends past the file's actual on-disk length ("@ + dec_text(file_len as nat) + " bytes)"@,
        )
    } else {
        None
    }
}

/// Holds a section's span against the length of its file, before anything of
/// that length is allocated. Offsets and lengths come out of the file and are
/// not trusted.
pub fn check_span(offset: u64, len: u64, file_len: u64) -> (r: Option<String>)
    ensures
        text::text_of(r) == span_refusal(offset, len, file_len),
{
    match offset.checked_add(len) {
        None => Some(
            String::from_str("section offset ").concat(text::dec(offset).as_str()).concat(" + length ").concat(
                text::dec(len).as_str(),
            ).concat(" overflows a 64-bit length"),
        ),
        Some(end) => {
            if end > file_len {
                Some(
                    String::from_str("section [").concat(text::dec(offset).as_str()).concat(", ").concat(
                        text::dec(end).as_str(),
                    ).concat(") extends past the file's actual on-disk length (").concat(
                        text::dec(file_len).as_str(),
                    ).concat(" bytes)"),
                )
            } else {
                None
            }
        },
    }
}

/// The bounds of entry `i` are the wrong way round.
pub open spec fn inverted_at(index: Seq<SstBlockIndexEntry>, i: int) -> bool {
    0 <= i < index.len() && bytes::bytes_lt(index[i].last_key@, index[i].first_key@)
}

/// Entry `i` does not end below where the next one starts.
pub open spec fn overlapping_at(index: Seq<SstBlockIndexEntry>, i: int) -> bool {
    0 <= i < index.len() - 1 && !bytes::bytes_lt(index[i].last_key@, index[i + 1].first_key@)
}

/// What is said of an entry whose bounds are the wrong way round.
pub open spec fn inverted_text(entry: SstBlockIndexEntry) -> Seq<char> {
    "block index entry has first_key "@ + byte_list_text(entry.first_key@) + " after its own last_key "@
        + byte_list_text(entry.last_key@)
}

/// What is said of two entries that overlap or are out of order.
pub open spec fn overlapping_text(entry: SstBlockIndexEntry, next: SstBlockIndexEntry) -> Seq<char> {
    "block index is not strictly ascending/non-overlapping: block last_key "@ + byte_list_text(entry.last_key@)
        + " is not less than the next block's first_key "@ + byte_list_text(next.first_key@)
}

/// The metadata of a file, once it is all read.
pub struct Metadata {
    pub header: SstHeader,
    pub footer: SstFooter,
    pub index: Vec<SstBlockIndexEntry>,
    pub filter: SstBloomFilter,
}

/// What opening `path` gives once its metadata is read: the first
/// contradiction in it, or the resident table.
pub open spec fn assembles(
    path: Seq<char>,
    id: u64,
    file_len: u64,
    fixed_len: nat,
    m: Metadata,
    r: Result<BlockSstFile, EngineError>,
) -> bool {
    let index = m.index@;
    if !m.filter.wf() {
        r matches Err(e) && is_bloom_error(e, path, "bloom filter does not hold the bits it declares"@)
    } else if index.len() as u32 != m.footer.block_count {
        r matches Err(e) && is_index_error(
            e,
            path,
            "footer declares block_count "@ + dec_text(m.footer.block_count as nat) + " but the index has "@
                + dec_text(index.len()) + " entries"@,
        )
    } else if capped64(entries_counted(index)) != m.header.entry_count {
        r matches Err(e) && is_header_error(
            e,
            path,
            "header entry_count "@ + dec_text(m.header.entry_count as nat) + " does not match "@ + dec_text(
                capped64(entries_counted(index)) as nat,
            ) + " entries implied by the block index"@,
        )
    } else if exists|i: int| inverted_at(index, i) {
        r matches Err(e) && exists|i: int|
            {
                &&& #[trigger] inverted_at(index, i)
                &&& forall|j: int| 0 <= j < i ==> !#[trigger] inverted_at(index, j)
                &&& is_index_error(e, path, inverted_text(index[i]))
            }
    } else if exists|i: int| overlapping_at(index, i) {
        r matches Err(e) && exists|i: int|
            {
                &&& #[trigger] overlapping_at(index, i)
                &&& forall|j: int| 0 <= j < i ==> !#[trigger] overlapping_at(index, j)
                &&& is_index_error(e, path, overlapping_text(index[i], index[i + 1]))
            }
    } else {
        r matches Ok(f) && {
            &&& f.wf()
            &&& f.id == id
            &&& f.path@ == path
            &&& f.file_bytes == file_len
            &&& f.tombstones == capped64(tombstones_counted(index))
            &&& f.bytes_read_at_open == capped64(
                fixed_len + m.footer.index_len as nat + m.footer.bloom_len as nat,
            )
            &&& f.entry_count == m.header.entry_count
            &&& f.block_index@ == index
            &&& f.bloom.spec_num_bits() == m.filter.num_bits
            &&& f.bloom.spec_bits() == m.filter.bits@
        }
    }
}

/// What opening `path` gives once its header, footer and index are read, if
/// the reader may give `b` for the bloom filter.
pub open spec fn loads_bloom(
    path: Seq<char>,
    id: u64,
    file_len: u64,
    fixed_len: nat,
    header: SstHeader,
    footer: SstFooter,
    index: Vec<SstBlockIndexEntry>,
    b: Result<SstBloomFilter, EngineError>,
    r: Result<BlockSstFile, EngineError>,
) -> bool {
    match b {
        Err(e) => r == Err::<BlockSstFile, EngineError>(e),
        Ok(filter) => assembles(path, id, file_len, fixed_len, Metadata { header, footer, index, filter }, r),
    }
}

/// What opening `path` gives once its header and footer are read, if the
/// reader may give `x` for the block index.
pub open spec fn loads_index<R: SstReader>(
    reader: &R,
    path: Seq<char>,
    id: u64,
    file_len: u64,
    fixed_len: nat,
    header: SstHeader,
    footer: SstFooter,
    x: Result<Vec<SstBlockIndexEntry>, EngineError>,
    r: Result<BlockSstFile, EngineError>,
) -> bool {
    match x {
        Err(e) => r == Err::<BlockSstFile, EngineError>(e),
        Ok(index) => match span_refusal(footer.bloom_offset, footer.bloom_len as u64, file_len) {
            Some(reason) => r matches Err(e) && is_bloom_error(e, path, reason),
            None => exists|p: &str, b: Result<SstBloomFilter, EngineError>|
                p@ == path && #[trigger] call_ensures(
                    R::bloom_filter,
                    (reader, p, id, footer.bloom_offset, footer.bloom_len),
                    b,
                ) && loads_bloom(path, id, file_len, fixed_len, header, footer, index, b, r),
        },
    }
}

/// What opening `path` gives once its header is read, if the reader may give
/// `f` for the footer.
pub open spec fn loads_footer<R: SstReader>(
    reader: &R,
    path: Seq<char>,
    id: u64,
    file_len: u64,
    fixed_len: nat,
    header: SstHeader,
    f: Result<SstFooter, EngineError>,
    r: Result<BlockSstFile, EngineError>,
) -> bool {
    match f {
        Err(e) => r == Err::<BlockSstFile, EngineError>(e),
        Ok(footer) => match span_refusal(footer.index_offset, footer.index_len as u64, file_len) {
            Some(reason) => r matches Err(e) && is_index_error(e, path, reason),
            None => exists|p: &str, x: Result<Vec<SstBlockIndexEntry>, EngineError>|
                p@ == path && #[trigger] call_ensures(
                    R::block_index,
                    (reader, p, id, footer.index_offset, footer.index_len),
                    x,
                ) && loads_index(reader, path, id, file_len, fixed_len, header, footer, x, r),
        },
    }
}

/// What opening `path` gives, if the reader may give `h` for the header.
pub open spec fn loads_header<R: SstReader>(
    reader: &R,
    path: Seq<char>,
    id: u64,
    file_len: u64,
    header_len: u64,
    footer_len: u64,
    h: Result<SstHeader, EngineError>,
    r: Result<BlockSstFile, EngineError>,
) -> bool {
    match h {
        Err(e) => r == Err::<BlockSstFile, EngineError>(e),
        Ok(header) => if header.sst_id != id {
            r matches Err(e) && is_header_error(
                e,
                path,
                "header sst_id "@ + dec_text(header.sst_id as nat)
                    + " does not match this file's numeric id "@ + dec_text(id as nat),
            )
        } else if file_len < footer_len {
            r matches Err(e) && is_footer_error(
                e,
                path,
                "file shorter than the fixed footer ("@ + dec_text(footer_len as nat) + " bytes)"@,
            )
        } else {
            exists|p: &str, f: Result<SstFooter, EngineError>|
                p@ == path && #[trigger] call_ensures(
                    R::footer,
                    (reader, p, id, (file_len - footer_len) as u64, footer_len),
                    f,
                ) && loads_footer(
                    reader,
                    path,
                    id,
                    file_len,
                    header_len as nat + footer_len as nat,
                    header,
                    f,
                    r,
                )
        },
    }
}

/// What opening `path`, a file of `file_len` bytes, gives.
pub open spec fn loads<R: SstReader>(
    reader: &R,
    path: Seq<char>,
    id: u64,
    file_len: u64,
    header_len: u64,
    footer_len: u64,
    r: Result<BlockSstFile, EngineError>,
) -> bool {
    if file_len < header_len {
        r matches Err(e) && is_header_error(
            e,
            path,
            "file shorter than the fixed header ("@ + dec_text(header_len as nat) + " bytes)"@,
        )
    } else {
        exists|p: &str, h: Result<SstHeader, EngineError>|
            p@ == path && #[trigger] call_ensures(R::header, (reader, p, id, header_len), h) && loads_header(
                reader,
                path,
                id,
                file_len,
                header_len,
                footer_len,
                h,
                r,
            )
    }
}

/// A table that was opened is well-formed, and is the one that was asked for.
pub proof fn lemma_loaded_is_wf<R: SstReader>(
    reader: &R,
    path: Seq<char>,
    id: u64,
    file_len: u64,
    header_len: u64,
    footer_len: u64,
    file: BlockSstFile,
)
    requires
        loads(reader, path, id, file_len, header_len, footer_len, Ok(file)),
    ensures
        file.wf(),
        file.id == id,
        file.path@ == path,
        file.file_bytes == file_len,
{
}

/// Neighbours in order make the whole index ordered.
proof fn lemma_neighbours_order(index: Seq<SstBlockIndexEntry>)
    requires
        forall|i: int| !inverted_at(index, i),
        forall|i: int| !overlapping_at(index, i),
    ensures
        index_ordered(index),
{
    assert forall|i: int| 0 <= i < index.len() implies bytes::bytes_le(
        (#[trigger] index[i]).first_key@,
        index[i].last_key@,
    ) by {
        assert(!inverted_at(index, i));
        bytes::lemma_lt_total(index[i].first_key@, index[i].last_key@);
    }
    assert forall|i: int, j: int| 0 <= i < j < index.len() implies bytes::bytes_lt(
        (#[trigger] index[i]).last_key@,
        (#[trigger] index[j]).first_key@,
    ) by {
        lemma_neighbours_reach(index, i, j);
    }
}

proof fn lemma_neighbours_reach(index: Seq<SstBlockIndexEntry>, i: int, j: int)
    requires
        forall|k: int| !inverted_at(index, k),
        forall|k: int| !overlapping_at(index, k),
        0 <= i < j < index.len(),
    ensures
        bytes::bytes_lt(index[i].last_key@, index[j].first_key@),
    decreases j - i,
{
    assert(!overlapping_at(index, j - 1));
    if i < j - 1 {
        lemma_neighbours_reach(index, i, j - 1);
        assert(!inverted_at(index, j - 1));
        let first = index[j - 1].first_key@;
        let last = index[j - 1].last_key@;
        bytes::lemma_lt_total(first, last);
        bytes::lemma_le_lt(index[i].last_key@, first, last);
        bytes::lemma_lt_transitive(index[i].last_key@, last, index[j].first_key@);
    }
}

/// Holds the metadata of a file against itself; `fixed_len` is what the
/// header and the footer took to read.
fn assemble(path: String, id: u64, file_len: u64, fixed_len: u64, Ghost(fixed): Ghost<nat>, m: Metadata) -> (r: Result<
    BlockSstFile,
    EngineError,
>)
    requires
        fixed_len == capped64(fixed),
    ensures
        assembles(path@, id, file_len, fixed, m, r),
{
    let header = m.header;
    let footer = m.footer;
    let index = m.index;
    if !m.filter.is_well_formed() {
        let reason = String::from_str("bloom filter does not hold the bits it declares");
        return Err(EngineError::CorruptSstBloomFilter { path, reason });
    }
    if index.len() as u32 != footer.block_count {
        let reason = String::from_str("footer declares block_count ").concat(
            text::dec(footer.block_count as u64).as_str(),
        ).concat(" but the index has ").concat(text::dec(index.len() as u64).as_str()).concat(" entries");
        return Err(EngineError::CorruptSstBlockIndex { path, reason });
    }
    let total: u64 = super::sum_entries(&index);
    if total != header.entry_count {
        let reason = String::from_str("header entry_count ").concat(
            text::dec(header.entry_count).as_str(),
        ).concat(" does not match ").concat(text::dec(total).as_str()).concat(
            " entries implied by the block index",
        );
        return Err(EngineError::CorruptSstHeader { path, reason });
    }
    let mut i: usize = 0;
    while i < index.len()
        invariant
            i <= index@.len(),
            index == m.index,
            path@ == path@,
            m.filter.wf(),
            index@.len() as u32 == m.footer.block_count,
            capped64(entries_counted(index@)) == m.header.entry_count,
            forall|j: int| 0 <= j < i ==> !#[trigger] inverted_at(index@, j),
        decreases index@.len() - i,
    {
        if bytes::lt(index[i].last_key.as_slice(), index[i].first_key.as_slice()) {
            assert(inverted_at(index@, i as int));
            let reason = String::from_str("block index entry has first_key ").concat(
                text::byte_list(index[i].first_key.as_slice()).as_str(),
            ).concat(" after its own last_key ").concat(
                text::byte_list(index[i].last_key.as_slice()).as_str(),
            );
            return Err(EngineError::CorruptSstBlockIndex { path, reason });
        }
        i = i + 1;
    }
    assert(forall|j: int| !inverted_at(index@, j));
    let mut k: usize = 1;
    while k < index.len()
        invariant
            1 <= k,
            index == m.index,
            m.filter.wf(),
            index@.len() as u32 == m.footer.block_count,
            capped64(entries_counted(index@)) == m.header.entry_count,
            forall|j: int| !inverted_at(index@, j),
            forall|j: int| 0 <= j < k - 1 ==> !#[trigger] overlapping_at(index@, j),
        decreases index@.len() - k,
    {
        if !bytes::lt(index[k - 1].last_key.as_slice(), index[k].first_key.as_slice()) {
            assert(overlapping_at(index@, k - 1));
            let reason = String::from_str(
                "block index is not strictly ascending/non-overlapping: block last_key ",
            ).concat(text::byte_list(index[k - 1].last_key.as_slice()).as_str()).concat(
                " is not less than the next block's first_key ",
            ).concat(text::byte_list(index[k].first_key.as_slice()).as_str());
            return Err(EngineError::CorruptSstBlockIndex { path, reason });
        }
        k = k + 1;
    }
    proof {
        assert(forall|j: int| !overlapping_at(index@, j));
        lemma_neighbours_order(index@);
    }
    let tombstones: u64 = super::sum_tombstones(&index);
    let bytes_read_at_open: u64 = fixed_len.saturating_add(footer.index_len as u64).saturating_add(
        footer.bloom_len as u64,
    );
    Ok(
        BlockSstFile {
            id,
            path,
            file_bytes: file_len,
            tombstones,
            bytes_read_at_open,
            entry_count: header.entry_count,
            block_index: index,
            bloom: Bloom::from_filter(m.filter),
        },
    )
}

impl BlockSstFile {
    /// Opens table `id` at `path` from its header, footer, index and filter,
    /// and never reads a data block. `header_len` and `footer_len` are what
    /// those two sections take on disk. The metadata is held against itself:
    /// ids, counts, and the order of the index, on which every later lookup
    /// rests.
    pub fn load<R: SstReader>(
        reader: &R,
        path: String,
        id: u64,
        file_len: u64,
        header_len: u64,
        footer_len: u64,
    ) -> (r: Result<BlockSstFile, EngineError>)
        ensures
            loads(reader, path@, id, file_len, header_len, footer_len, r),
    {
        if file_len < header_len {
            let reason = String::from_str("file shorter than the fixed header (").concat(
                text::dec(header_len).as_str(),
            ).concat(" bytes)");
            return Err(EngineError::CorruptSstHeader { path, reason });
        }
        let h = reader.header(path.as_str(), id, header_len);
        let header = match h {
            Ok(header) => header,
            Err(e) => {
                return Err(e);
            },
        };
        if header.sst_id != id {
            let reason = String::from_str("header sst_id ").concat(text::dec(header.sst_id).as_str()).concat(
                " does not match this file's numeric id ",
            ).concat(text::dec(id).as_str());
            return Err(EngineError::CorruptSstHeader { path, reason });
        }
        if file_len < footer_len {
            let reason = String::from_str("file shorter than the fixed footer (").concat(
                text::dec(footer_len).as_str(),
            ).concat(" bytes)");
            return Err(EngineError::CorruptSstFooter { path, reason });
        }
        let f = reader.footer(path.as_str(), id, file_len - footer_len, footer_len);
        let footer = match f {
            Ok(footer) => footer,
            Err(e) => {
                return Err(e);
            },
        };
        if let Some(reason) = check_span(footer.index_offset, footer.index_len as u64, file_len) {
            return Err(EngineError::CorruptSstBlockIndex { path, reason });
        }
        let x = reader.block_index(path.as_str(), id, footer.index_offset, footer.index_len);
        let index = match x {
            Ok(index) => index,
            Err(e) => {
                return Err(e);
            },
        };
        if let Some(reason) = check_span(footer.bloom_offset, footer.bloom_len as u64, file_len) {
            return Err(EngineError::CorruptSstBloomFilter { path, reason });
        }
        let b = reader.bloom_filter(path.as_str(), id, footer.bloom_offset, footer.bloom_len);
        let filter = match b {
            Ok(filter) => filter,
            Err(e) => {
                return Err(e);
            },
        };
        let fixed_len: u64 = header_len.saturating_add(footer_len);
        assemble(
            path,
            id,
            file_len,
            fixed_len,
            Ghost(header_len as nat + footer_len as nat),
            Metadata { header, footer, index, filter },
        )
    }
}

/// What a block that decodes to `v` is taken for, given its index entry.
pub open spec fn checks_block(
    path: Seq<char>,
    entry: SstBlockIndexEntry,
    v: Vec<(Key, Option<Value>)>,
    r: Result<Vec<(Key, Option<Value>)>, EngineError>,
) -> bool {
    let block = rows_view(v@);
    if block.len() == 0 {
        r matches Err(e) && is_index_error(e, path, "block index references an empty data block"@)
    } else if block[0].0 != entry.first_key@ || block.last().0 != entry.last_key@ {
        r matches Err(e) && is_index_error(
            e,
            path,
            "block index first/last key does not match the block's actual entries"@,
        )
    } else if block.len() != entry.entry_count {
        r matches Err(e) && is_index_error(
            e,
            path,
            "block index entry_count does not match the block's actual entry count"@,
        )
    } else {
        r == Ok::<Vec<(Key, Option<Value>)>, EngineError>(v)
    }
}

/// What reading block `block_no` of `file` gives.
pub open spec fn reads_block<R: SstReader>(
    reader: &R,
    file: &BlockSstFile,
    block_no: int,
    r: Result<Vec<(Key, Option<Value>)>, EngineError>,
) -> bool {
    let entry = file.block_index@[block_no];
    match span_refusal(entry.offset, entry.len as u64, file.file_bytes) {
        Some(reason) => r matches Err(e) && is_block_error(e, file.path@, reason),
        None => exists|p: &str, d: Result<Vec<(Key, Option<Value>)>, EngineError>|
            p@ == file.path@ && #[trigger] call_ensures(
                R::data_block,
                (reader, p, file.id, block_no as u32, entry.offset, entry.len),
                d,
            ) && match d {
                Err(e) => r == Err::<Vec<(Key, Option<Value>)>, EngineError>(e),
                Ok(v) => checks_block(file.path@, entry, v, r),
            },
    }
}

/// Block `i` is the one whose bounds enclose `key`.
pub open spec fn covers(index: Seq<SstBlockIndexEntry>, i: int, key: Seq<u8>) -> bool {
    0 <= i < index.len() && bytes::bytes_le(index[i].first_key@, key) && bytes::bytes_le(
        key,
        index[i].last_key@,
    )
}

/// What searching a block's rows for `key` gives: a row of that key; nothing
/// only where sorted rows do not have it.
pub open spec fn searches(block: Seq<Row>, key: Seq<u8>, hit: Option<Option<Value>>) -> bool {
    match hit {
        Some(v) => exists|i: int|
            0 <= i < block.len() && #[trigger] block[i] == (key, slot_view(v)),
        None => rows::sorted(block) ==> !rows::mentions(block, key),
    }
}

/// What a point lookup gives, and what it does to the cache.
pub open spec fn looks_up<R: SstReader>(
    reader: &R,
    file: &BlockSstFile,
    key: Seq<u8>,
    before: BlockCache,
    after: BlockCache,
    r: Result<(Option<Option<Value>>, u64), EngineError>,
) -> bool {
    let index = file.block_index@;
    if !file.bloom.may_contain(key) || !exists|i: int| covers(index, i, key) {
        &&& r matches Ok((hit, blocks_read)) && hit is None && blocks_read == 0
        &&& after == before
    } else {
        exists|i: int| #[trigger] covers(index, i, key) && looks_up_in(reader, file, key, i, before, after, r)
    }
}

/// What a point lookup gives whose key block `i` encloses.
pub open spec fn looks_up_in<R: SstReader>(
    reader: &R,
    file: &BlockSstFile,
    key: Seq<u8>,
    i: int,
    before: BlockCache,
    after: BlockCache,
    r: Result<(Option<Option<Value>>, u64), EngineError>,
) -> bool {
    let no = i as u32;
    if is_resident(before@, file.id, no) {
        r matches Ok((hit, blocks_read)) && {
            &&& blocks_read == 0
            &&& after.spec_hits() == before.spec_hits().wrapping_add(1)
            &&& after.spec_misses() == before.spec_misses()
            &&& exists|c: int|
                {
                    &&& #[trigger] resident_at(before@, file.id, no, c)
                    &&& after@ == after_touch(before@, c)
                    &&& searches(before@[c].rows, key, hit)
                }
        }
    } else {
        &&& after.spec_hits() == before.spec_hits()
        &&& after.spec_misses() == before.spec_misses().wrapping_add(1)
        &&& exists|d: Result<Vec<(Key, Option<Value>)>, EngineError>|
            #[trigger] reads_block(reader, file, i, d) && match d {
                Err(e) => r == Err::<(Option<Option<Value>>, u64), EngineError>(e) && after@ == before@,
                Ok(v) => r matches Ok((hit, blocks_read)) && {
                    &&& blocks_read == 1
                    &&& searches(rows_view(v@), key, hit)
                    &&& after@ == after_insert(
                        before@,
                        before.capacity(),
                        Resident { sst_id: file.id, block_no: no, rows: rows_view(v@) },
                    )
                },
            }
    }
}

/// Of an ordered index at most one block encloses a key.
pub proof fn at_most_one_block_covers(index: Seq<SstBlockIndexEntry>, i: int, j: int, key: Seq<u8>)
    requires
        index_ordered(index),
        covers(index, i, key),
        covers(index, j, key),
    ensures
        i == j,
{
    if i < j {
        bytes::lemma_le_lt(key, index[i].last_key@, index[j].first_key@);
        bytes::lemma_lt_total(key, index[j].first_key@);
    } else if j < i {
        bytes::lemma_le_lt(key, index[j].last_key@, index[i].first_key@);
        bytes::lemma_lt_total(key, index[i].first_key@);
    }
}

/// A key that a table has lies in the block that encloses it, and nowhere
/// else; a key that no block encloses is in none.
pub proof fn point_lookup_finds_what_a_full_scan_finds(
    index: Seq<SstBlockIndexEntry>,
    blocks: Seq<Seq<Row>>,
    key: Seq<u8>,
)
    requires
        index_describes(index, blocks),
    ensures
        rows::mentions(super::all_rows(blocks), key) <==> exists|i: int|
            #[trigger] covers(index, i, key) && rows::mentions(blocks[i], key),
        forall|i: int|
            #[trigger] covers(index, i, key) ==> (rows::mentions(super::all_rows(blocks), key) <==> rows::mentions(
                blocks[i],
                key,
            )),
{
    let all = super::all_rows(blocks);
    if rows::mentions(all, key) {
        let p = choose|p: int| 0 <= p < all.len() && #[trigger] all[p].0 == key;
        let (i, k) = lemma_find_row(blocks, p);
        lemma_row_within_bounds(index[i], blocks[i], k);
        assert(covers(index, i, key));
        assert(blocks[i][k].0 == key);
        assert(rows::mentions(blocks[i], key));
        assert forall|j: int| #[trigger] covers(index, j, key) implies rows::mentions(blocks[j], key) by {
            at_most_one_block_covers(index, i, j, key);
        }
    }
    assert forall|i: int| #[trigger] covers(index, i, key) && rows::mentions(blocks[i], key) implies rows::mentions(
        all,
        key,
    ) by {
        let k = choose|k: int| 0 <= k < blocks[i].len() && #[trigger] blocks[i][k].0 == key;
        super::write::lemma_row_position(blocks, i, k);
        assert(all[super::write::rows_before(blocks, i) + k].0 == key);
    }
}

/// Every row of a block lies within the bounds of the block's index entry.
pub proof fn lemma_row_within_bounds(entry: SstBlockIndexEntry, block: Seq<Row>, k: int)
    requires
        super::block_matches(entry, block),
        0 <= k < block.len(),
    ensures
        bytes::bytes_le(entry.first_key@, block[k].0),
        bytes::bytes_le(block[k].0, entry.last_key@),
{
    let last = block.len() - 1;
    if k > 0 {
        assert(bytes::bytes_lt(block[0].0, block[k].0));
    }
    if k < last {
        assert(bytes::bytes_lt(block[k].0, block[last].0));
    }
}

/// Every row of a table is some row of some block.
pub proof fn lemma_find_row(blocks: Seq<Seq<Row>>, p: int) -> (r: (int, int))
    requires
        0 <= p < super::all_rows(blocks).len(),
    ensures
        0 <= r.0 < blocks.len(),
        0 <= r.1 < blocks[r.0].len(),
        blocks[r.0][r.1] == super::all_rows(blocks)[p],
    decreases blocks.len(),
{
    let head = blocks.drop_last();
    let n = super::all_rows(head).len();
    if p < n {
        let r = lemma_find_row(head, p);
        assert(head[r.0] == blocks[r.0]);
        r
    } else {
        (blocks.len() - 1, p - n)
    }
}

/// The filter of a table says "maybe" to every key the table has: a lookup
/// that it turns away loses nothing.
pub proof fn filter_denies_no_stored_key(bloom: Bloom, rows: Seq<Row>, key: Seq<u8>)
    requires
        super::write::bloom_holds(bloom, rows),
        rows::mentions(rows, key),
    ensures
        bloom.may_contain(key),
{
    let i = choose|i: int| 0 <= i < rows.len() && #[trigger] rows[i].0 == key;
    let n = bloom.spec_num_bits();
    bloom.lemma_some_bits();
    assert forall|p: u64| p < super::bloom::BLOOM_NUM_HASHES implies bloom.is_set(
        #[trigger] super::bloom::probe(key, n, p),
    ) by {
        let b = super::bloom::probe(key, n, p);
        assert(super::bloom::is_probed(rows[i].0, n, b));
    }
}

/// A lookup that reads or holds the block its key falls in, as the table has
/// it, answers as a scan of the whole table would: the row of that key if the
/// table has one, nothing if it has none.
pub proof fn searched_block_answers_for_the_table(
    index: Seq<SstBlockIndexEntry>,
    blocks: Seq<Seq<Row>>,
    i: int,
    key: Seq<u8>,
    hit: Option<Option<Value>>,
)
    requires
        index_describes(index, blocks),
        rows::sorted(super::all_rows(blocks)),
        covers(index, i, key),
        searches(blocks[i], key, hit),
    ensures
        match hit {
            Some(v) => rows::rows_map(super::all_rows(blocks)).contains_key(key) && rows::rows_map(
                super::all_rows(blocks),
            )[key] == slot_view(v),
            None => !rows::rows_map(super::all_rows(blocks)).contains_key(key),
        },
{
    let all = super::all_rows(blocks);
    point_lookup_finds_what_a_full_scan_finds(index, blocks, key);
    rows::lemma_put_rows_dom(Map::empty(), all, key);
    match hit {
        Some(v) => {
            let k = choose|k: int|
                0 <= k < blocks[i].len() && #[trigger] blocks[i][k] == (key, slot_view(v));
            super::write::lemma_row_position(blocks, i, k);
            rows::lemma_sorted_slot(all, super::write::rows_before(blocks, i) + k);
        },
        None => {
            assert(super::block_matches(index[i], blocks[i]));
        },
    }
}

/// Holds a decoded block against its index entry.
pub fn check_block(
    path: &str,
    entry: &SstBlockIndexEntry,
    decoded: Vec<(Key, Option<Value>)>,
) -> (r: Result<Vec<(Key, Option<Value>)>, EngineError>)
    ensures
        checks_block(path@, *entry, decoded, r),
{
    if decoded.len() == 0 {
        return Err(
            EngineError::CorruptSstBlockIndex {
                path: String::from_str(path),
                reason: String::from_str("block index references an empty data block"),
            },
        );
    }
    let last: usize = decoded.len() - 1;
    if !bytes::eq(decoded[0].0.as_bytes(), entry.first_key.as_slice()) || !bytes::eq(
        decoded[last].0.as_bytes(),
        entry.last_key.as_slice(),
    ) {
        return Err(
            EngineError::CorruptSstBlockIndex {
                path: String::from_str(path),
                reason: String::from_str(
                    "block index first/last key does not match the block's actual entries",
                ),
            },
        );
    }
    if decoded.len() as u64 != entry.entry_count as u64 {
        return Err(
            EngineError::CorruptSstBlockIndex {
                path: String::from_str(path),
                reason: String::from_str(
                    "block index entry_count does not match the block's actual entry count",
                ),
            },
        );
    }
    Ok(decoded)
}

/// The first entry of an ordered index that does not end below `key`.
pub fn block_at_or_after(index: &Vec<SstBlockIndexEntry>, key: &[u8]) -> (pos: usize)
    requires
        index_ordered(index@),
    ensures
        pos <= index@.len(),
        forall|i: int| 0 <= i < pos ==> bytes::bytes_lt((#[trigger] index@[i]).last_key@, key@),
        forall|i: int| pos <= i < index@.len() ==> !bytes::bytes_lt((#[trigger] index@[i]).last_key@, key@),
{
    let mut lo: usize = 0;
    let mut hi: usize = index.len();
    while lo < hi
        invariant
            lo <= hi <= index@.len(),
            index_ordered(index@),
            forall|i: int| 0 <= i < lo ==> bytes::bytes_lt((#[trigger] index@[i]).last_key@, key@),
            forall|i: int|
                hi <= i < index@.len() ==> !bytes::bytes_lt((#[trigger] index@[i]).last_key@, key@),
        decreases hi - lo,
    {
        let mid: usize = lo + (hi - lo) / 2;
        if bytes::lt(index[mid].last_key.as_slice(), key) {
            proof {
                assert forall|i: int| 0 <= i < mid + 1 implies bytes::bytes_lt(
                    (#[trigger] index@[i]).last_key@,
                    key@,
                ) by {
                    if i < mid {
                        lemma_last_keys_ascend(index@, i, mid as int);
                        bytes::lemma_lt_transitive(index@[i].last_key@, index@[mid as int].last_key@, key@);
                    }
                }
            }
            lo = mid + 1;
        } else {
            proof {
                assert forall|i: int| mid <= i < index@.len() implies !bytes::bytes_lt(
                    (#[trigger] index@[i]).last_key@,
                    key@,
                ) by {
                    if mid < i && bytes::bytes_lt(index@[i].last_key@, key@) {
                        lemma_last_keys_ascend(index@, mid as int, i);
                        bytes::lemma_lt_transitive(index@[mid as int].last_key@, index@[i].last_key@, key@);
                    }
                }
            }
            hi = mid;
        }
    }
    lo
}

/// In an ordered index the last keys ascend.
pub proof fn lemma_last_keys_ascend(index: Seq<SstBlockIndexEntry>, i: int, j: int)
    requires
        index_ordered(index),
        0 <= i < j < index.len(),
    ensures
        bytes::bytes_lt(index[i].last_key@, index[j].last_key@),
{
    bytes::lemma_le_lt(index[i].last_key@, index[j].first_key@, index[j].last_key@);
}

/// Searches a block's rows for `key` by bisection.
pub fn search_block(block: &Vec<(Key, Option<Value>)>, key: &[u8]) -> (hit: Option<Option<Value>>)
    ensures
        searches(rows_view(block@), key@, hit),
{
    let ghost view = rows_view(block@);
    let mut lo: usize = 0;
    let mut hi: usize = block.len();
    while lo < hi
        invariant
            lo <= hi <= block@.len(),
            view == rows_view(block@),
            rows::sorted(view) ==> forall|i: int| 0 <= i < lo ==> #[trigger] view[i].0 != key@,
            rows::sorted(view) ==> forall|i: int| hi <= i < view.len() ==> #[trigger] view[i].0 != key@,
        decreases hi - lo,
    {
        let mid: usize = lo + (hi - lo) / 2;
        assert(view[mid as int].0 == block@[mid as int].0@);
        if bytes::eq(block[mid].0.as_bytes(), key) {
            let slot = rows::copy_value(&block[mid].1);
            assert(view[mid as int] == (key@, slot_view(slot)));
            return Some(slot);
        }
        if bytes::lt(block[mid].0.as_bytes(), key) {
            proof {
                if rows::sorted(view) {
                    assert forall|i: int| 0 <= i < mid + 1 implies #[trigger] view[i].0 != key@ by {
                        if i < mid {
                            bytes::lemma_lt_total(view[i].0, view[mid as int].0);
                            bytes::lemma_lt_total(view[mid as int].0, key@);
                        }
                    }
                }
            }
            lo = mid + 1;
        } else {
            proof {
                if rows::sorted(view) {
                    bytes::lemma_lt_total(view[mid as int].0, key@);
                    assert forall|i: int| mid <= i < view.len() implies #[trigger] view[i].0 != key@ by {
                        if mid < i {
                            bytes::lemma_lt_total(view[mid as int].0, view[i].0);
                        }
                    }
                }
            }
            hi = mid;
        }
    }
    None
}

impl BlockSstFile {
    /// Reads block `block_no` and holds it against its index entry. Every
    /// reader goes through here.
    pub fn read_and_verify_block<R: SstReader>(&self, reader: &R, block_no: usize) -> (r: Result<
        Vec<(Key, Option<Value>)>,
        EngineError,
    >)
        requires
            block_no < self.block_index@.len(),
        ensures
            reads_block(reader, self, block_no as int, r),
    {
        let entry = &self.block_index[block_no];
        if let Some(reason) = check_span(entry.offset, entry.len as u64, self.file_bytes) {
            return Err(EngineError::CorruptSstDataBlock { path: self.path.clone(), reason });
        }
        let path = self.path.as_str();
        let d = reader.data_block(path, self.id, block_no as u32, entry.offset, entry.len);
        assert(call_ensures(
            R::data_block,
            (reader, path, self.id, block_no as u32, entry.offset, entry.len),
            d,
        ));
        match d {
            Ok(v) => check_block(self.path.as_str(), entry, v),
            Err(e) => Err(e),
        }
    }

    /// Looks up one key: the filter first, then the one block whose bounds
    /// enclose the key, from `cache` if it is resident there, else read and
    /// cached. Also tells how many blocks were read: never more than one.
    pub fn get<R: SstReader>(&self, reader: &R, key: &[u8], cache: &mut BlockCache) -> (r: Result<
        (Option<Option<Value>>, u64),
        EngineError,
    >)
        requires
            self.wf(),
            old(cache).wf(),
        ensures
            final(cache).wf(),
            final(cache).capacity() == old(cache).capacity(),
            looks_up(reader, self, key@, *old(cache), *final(cache), r),
            r matches Ok((_, blocks_read)) ==> blocks_read <= 1,
    {
        if !self.bloom.contains(key) {
            return Ok((None, 0));
        }
        let idx: usize = block_at_or_after(&self.block_index, key);
        let ghost index = self.block_index@;
        if idx == self.block_index.len() {
            proof {
                assert forall|i: int| !covers(index, i, key@) by {
                    if covers(index, i, key@) {
                        assert(bytes::bytes_lt(index[i].last_key@, key@));
                        bytes::lemma_lt_total(index[i].last_key@, key@);
                    }
                }
            }
            return Ok((None, 0));
        }
        if bytes::lt(key, self.block_index[idx].first_key.as_slice()) {
            proof {
                assert forall|i: int| !covers(index, i, key@) by {
                    if covers(index, i, key@) {
                        if i < idx {
                            assert(bytes::bytes_lt(index[i].last_key@, key@));
                            bytes::lemma_lt_total(index[i].last_key@, key@);
                        } else {
                            bytes::lemma_lt_total(key@, index[i].first_key@);
                            if i > idx {
                                assert(bytes::bytes_lt(index[idx as int].last_key@, index[i].first_key@));
                                bytes::lemma_le_lt(
                                    index[idx as int].first_key@,
                                    index[idx as int].last_key@,
                                    index[i].first_key@,
                                );
                                bytes::lemma_lt_transitive(
                                    key@,
                                    index[idx as int].first_key@,
                                    index[i].first_key@,
                                );
                            }
                        }
                    }
                }
            }
            return Ok((None, 0));
        }
        proof {
            bytes::lemma_lt_total(key@, index[idx as int].first_key@);
            bytes::lemma_lt_total(index[idx as int].last_key@, key@);
            assert(covers(index, idx as int, key@));
        }
        match cache.get(self.id, idx as u32) {
            Some(block) => {
                let hit = search_block(&block, key);
                proof {
                    let c = choose|c: int|
                        {
                            &&& #[trigger] resident_at(old(cache)@, self.id, idx as u32, c)
                            &&& rows_view(block@) == old(cache)@[c].rows
                            &&& cache@ == after_touch(old(cache)@, c)
                        };
                    assert(is_resident(old(cache)@, self.id, idx as u32));
                    assert(looks_up_in(reader, self, key@, idx as int, *old(cache), *cache, Ok((hit, 0u64))));
                }
                Ok((hit, 0))
            },
            None => {
                let d = self.read_and_verify_block(reader, idx);
                match d {
                    Err(e) => {
                        assert(reads_block(reader, self, idx as int, Err(e)));
                        Err(e)
                    },
                    Ok(block) => {
                        assert(reads_block(reader, self, idx as int, Ok(block)));
                        let hit = search_block(&block, key);
                        let copy = rows::copy_rows(&block);
                        cache.insert(self.id, idx as u32, copy);
                        assert(looks_up_in(reader, self, key@, idx as int, *old(cache), *cache, Ok((hit, 1u64))));
                        Ok((hit, 1))
                    },
                }
            },
        }
    }
}

} // verus!
