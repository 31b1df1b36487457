//! Block-based sorted tables (SSTs).
//!
//! A table file is a header, data blocks, a block index, a bloom filter and a
//! footer. [`write`] lays a file out from rows; [`read`] opens one from its
//! metadata alone and answers point lookups by reading at most one block;
//! [`scan`] walks the blocks that a prefix or a range can touch.
//!
//! How one section becomes bytes, sealed or plain, and how bytes are read
//! back, is the business of the two traits [`SstWriter`] and [`SstReader`].
//! Nothing is taken for granted of what they return.
use crate::bytes;
use crate::error::EngineError;
use crate::key::Key;
use crate::store::rows::Row;
use crate::store::{rows, Value};
use crate::text;
use crate::text::dec20_text;
use vstd::prelude::*;

pub mod bloom;
pub mod filter_laws;
pub mod read;
pub mod roundtrip;
pub mod scan;
pub mod section_laws;
pub mod write;

use bloom::{Bloom, SstBloomFilter};

verus! {

/// The header of a table file; it is never sealed.
#[derive(Debug, Clone, Copy)]
pub struct SstHeader {
    pub sst_id: u64,
    pub block_size: u32,
    pub entry_count: u64,
    pub dim: u32,
}

/// The footer of a table file: where the metadata sections are.
#[derive(Debug, Clone, Copy)]
pub struct SstFooter {
    pub index_offset: u64,
    pub index_len: u32,
    pub bloom_offset: u64,
    pub bloom_len: u32,
    pub block_count: u32,
}

/// What the block index says of one data block.
#[derive(Debug)]
pub struct SstBlockIndexEntry {
    pub first_key: Vec<u8>,
    pub last_key: Vec<u8>,
    pub offset: u64,
    pub len: u32,
    pub entry_count: u32,
    pub tombstone_count: u32,
}

/// Turns the sections of table `sst_id` of directory `dir` into the bytes that
/// go to disk, sealed under the directory's key where the store is encrypted.
pub trait SstWriter {
    fn header(&self, header: &SstHeader) -> Vec<u8>;

    fn data_block(&self, dir: &str, sst_id: u64, block_no: u32, block: &Vec<(Key, Option<Value>)>) -> Result<
        Vec<u8>,
        EngineError,
    >;

    fn block_index(&self, dir: &str, sst_id: u64, index: &Vec<SstBlockIndexEntry>) -> Result<
        Vec<u8>,
        EngineError,
    >;

    fn bloom_filter(&self, dir: &str, sst_id: u64, filter: &SstBloomFilter) -> Result<Vec<u8>, EngineError>;

    fn footer(&self, dir: &str, sst_id: u64, footer: &SstFooter) -> Result<Vec<u8>, EngineError>;
}

/// Reads, unseals and decodes sections of table `sst_id`, which is the file at
/// `path`. Every span it is asked for lies within the file.
pub trait SstReader {
    fn header(&self, path: &str, sst_id: u64, len: u64) -> Result<SstHeader, EngineError>;

    fn footer(&self, path: &str, sst_id: u64, offset: u64, len: u64) -> Result<SstFooter, EngineError>;

    fn block_index(&self, path: &str, sst_id: u64, offset: u64, len: u32) -> Result<
        Vec<SstBlockIndexEntry>,
        EngineError,
    >;

    fn bloom_filter(&self, path: &str, sst_id: u64, offset: u64, len: u32) -> Result<
        SstBloomFilter,
        EngineError,
    >;

    fn data_block(&self, path: &str, sst_id: u64, block_no: u32, offset: u64, len: u32) -> Result<
        Vec<(Key, Option<Value>)>,
        EngineError,
    >;
}

/// The resident part of a table: its index and filter, never its rows.
#[derive(Debug)]
pub struct BlockSstFile {
    pub id: u64,
    pub path: String,
    /// Length of the file on disk.
    pub file_bytes: u64,
    /// Tombstones over all blocks, summed from the index.
    pub tombstones: u64,
    /// What opening the file read: its metadata, never a data block. Zero for
    /// a file just written.
    pub bytes_read_at_open: u64,
    pub entry_count: u64,
    pub block_index: Vec<SstBlockIndexEntry>,
    pub bloom: Bloom,
}

/// The index is in ascending key order and no two blocks overlap.
pub open spec fn index_ordered(index: Seq<SstBlockIndexEntry>) -> bool {
    &&& forall|i: int|
        0 <= i < index.len() ==> bytes::bytes_le(
            (#[trigger] index[i]).first_key@,
            index[i].last_key@,
        )
    &&& forall|i: int, j: int|
        0 <= i < j < index.len() ==> bytes::bytes_lt(
            (#[trigger] index[i]).last_key@,
            (#[trigger] index[j]).first_key@,
        )
}

impl BlockSstFile {
    /// The index is ordered and the filter can be asked.
    pub open spec fn wf(&self) -> bool {
        index_ordered(self.block_index@) && self.bloom.wf()
    }
}

/// `n`, or the greatest 64-bit number where `n` is greater.
pub open spec fn capped64(n: nat) -> u64 {
    if n > u64::MAX {
        u64::MAX
    } else {
        n as u64
    }
}

/// The entries that an index counts.
pub open spec fn entries_counted(index: Seq<SstBlockIndexEntry>) -> nat
    decreases index.len(),
{
    if index.len() == 0 {
        0
    } else {
        entries_counted(index.drop_last()) + index.last().entry_count as nat
    }
}

/// The tombstones that an index counts.
pub open spec fn tombstones_counted(index: Seq<SstBlockIndexEntry>) -> nat
    decreases index.len(),
{
    if index.len() == 0 {
        0
    } else {
        tombstones_counted(index.drop_last()) + index.last().tombstone_count as nat
    }
}

/// Sums the entry counts of an index.
pub fn sum_entries(index: &Vec<SstBlockIndexEntry>) -> (n: u64)
    ensures
        n == capped64(entries_counted(index@)),
{
    let mut total: u64 = 0;
    let mut i: usize = 0;
    assert(index@.subrange(0, 0) =~= Seq::<SstBlockIndexEntry>::empty());
    while i < index.len()
        invariant
            i <= index@.len(),
            total == capped64(entries_counted(index@.subrange(0, i as int))),
        decreases index@.len() - i,
    {
        proof {
            assert(index@.subrange(0, i + 1).drop_last() =~= index@.subrange(0, i as int));
        }
        total = total.saturating_add(index[i].entry_count as u64);
        i = i + 1;
    }
    assert(index@.subrange(0, i as int) =~= index@);
    total
}

/// Sums the tombstone counts of an index.
pub fn sum_tombstones(index: &Vec<SstBlockIndexEntry>) -> (n: u64)
    ensures
        n == capped64(tombstones_counted(index@)),
{
    let mut total: u64 = 0;
    let mut i: usize = 0;
    assert(index@.subrange(0, 0) =~= Seq::<SstBlockIndexEntry>::empty());
    while i < index.len()
        invariant
            i <= index@.len(),
            total == capped64(tombstones_counted(index@.subrange(0, i as int))),
        decreases index@.len() - i,
    {
        proof {
            assert(index@.subrange(0, i + 1).drop_last() =~= index@.subrange(0, i as int));
        }
        total = total.saturating_add(index[i].tombstone_count as u64);
        i = i + 1;
    }
    assert(index@.subrange(0, i as int) =~= index@);
    total
}

/// The path of `name` inside directory `dir`; the root directory is empty.
pub open spec fn joined(dir: Seq<char>, name: Seq<char>) -> Seq<char> {
    if dir.len() == 0 {
        name
    } else {
        dir + "/"@ + name
    }
}

/// The path of `name` inside directory `dir`.
pub fn join(dir: &str, name: &str) -> (path: String)
    ensures
        path@ == joined(dir@, name@),
{
    if dir.unicode_len() == 0 {
        String::from_str(name)
    } else {
        String::from_str(dir).concat("/").concat(name)
    }
}

/// The name of the file of table `id`.
pub open spec fn sst_name(id: u64) -> Seq<char> {
    dec20_text(id as nat) + ".sst"@
}

/// The path of the file of table `id` in `dir`.
pub fn sst_path(dir: &str, id: u64) -> (path: String)
    ensures
        path@ == joined(dir@, sst_name(id)),
{
    let name = text::dec20(id).concat(".sst");
    join(dir, name.as_str())
}

/// The id that a file name names a table by: a number, then `.sst`.
pub open spec fn sst_id_of(name: Seq<char>) -> Option<u64> {
    if text::ends_in(name, ".sst"@) {
        text::parsed_u64(name.subrange(0, name.len() - 4))
    } else {
        None
    }
}

/// The file of a table is found again by its name, and by no other table's.
pub proof fn a_table_is_found_by_its_name(id: u64)
    ensures
        sst_id_of(sst_name(id)) == Some(id),
{
    reveal_strlit(".sst");
    let name = sst_name(id);
    let digits = dec20_text(id as nat);
    assert(name.subrange(name.len() - 4, name.len() as int) =~= ".sst"@);
    assert(name.subrange(0, name.len() - 4) =~= digits);
    text::written_numbers_read_back(id);
}

/// The id that a file name names a table by; `None` for any other name, a
/// table's temporary file among them.
pub fn sst_id(name: &str) -> (id: Option<u64>)
    ensures
        id == sst_id_of(name@),
{
    proof {
        reveal_strlit(".sst");
    }
    if !text::ends_with(name, ".sst") {
        return None;
    }
    let n: usize = name.unicode_len();
    text::parse_u64(name.substring_char(0, n - 4))
}

/// The tables that a directory listing names, without their order.
pub open spec fn sst_ids_of(names: Seq<String>) -> Seq<u64>
    decreases names.len(),
{
    if names.len() == 0 {
        Seq::empty()
    } else {
        match sst_id_of(names.last()@) {
            Some(id) => sst_ids_of(names.drop_last()).push(id),
            None => sst_ids_of(names.drop_last()),
        }
    }
}

/// The ids ascend.
pub open spec fn ascending(ids: Seq<u64>) -> bool {
    forall|i: int, j: int| 0 <= i < j < ids.len() ==> #[trigger] ids[i] <= #[trigger] ids[j]
}

/// The tables that a directory listing names, oldest (lowest id) first. Other
/// files, the orphans of an interrupted write among them, are passed over.
pub fn scan_existing(names: &Vec<String>) -> (ids: Vec<u64>)
    ensures
        ascending(ids@),
        ids@.to_multiset() == sst_ids_of(names@).to_multiset(),
{
    let mut ids: Vec<u64> = Vec::new();
    let mut i: usize = 0;
    assert(names@.subrange(0, 0) =~= Seq::<String>::empty());
    while i < names.len()
        invariant
            i <= names@.len(),
            ascending(ids@),
            ids@.to_multiset() == sst_ids_of(names@.subrange(0, i as int)).to_multiset(),
        decreases names@.len() - i,
    {
        let ghost done = names@.subrange(0, i as int);
        let ghost next = names@.subrange(0, i + 1);
        proof {
            assert(next.drop_last() =~= done);
            assert(next.last() == names@[i as int]);
        }
        if let Some(id) = sst_id(names[i].as_str()) {
            let mut pos: usize = ids.len();
            while pos > 0 && ids[pos - 1] > id
                invariant
                    pos <= ids@.len(),
                    ascending(ids@),
                    forall|k: int| pos <= k < ids@.len() ==> id < #[trigger] ids@[k],
                decreases pos,
            {
                pos = pos - 1;
            }
            let ghost before = ids@;
            ids.insert(pos, id);
            proof {
                let after = ids@;
                after.to_multiset_ensures();
                sst_ids_of(done).to_multiset_ensures();
                assert(after.remove(pos as int) =~= before);
                assert(after[pos as int] == id);
                assert(after.contains(id));
                assert(after.to_multiset() =~= before.to_multiset().insert(id));
            }
        }
        i = i + 1;
    }
    assert(names@.subrange(0, i as int) =~= names@);
    ids
}

/// Rows that a table's blocks hold, in order.
pub open spec fn all_rows(blocks: Seq<Seq<Row>>) -> Seq<Row>
    decreases blocks.len(),
{
    if blocks.len() == 0 {
        Seq::empty()
    } else {
        all_rows(blocks.drop_last()) + blocks.last()
    }
}

/// The index tells the truth about the blocks: bounds, counts and order.
pub open spec fn index_describes(index: Seq<SstBlockIndexEntry>, blocks: Seq<Seq<Row>>) -> bool {
    &&& index.len() == blocks.len()
    &&& index_ordered(index)
    &&& forall|i: int| 0 <= i < blocks.len() ==> block_matches(#[trigger] index[i], blocks[i])
}

/// A block has the bounds and the count that its index entry gives, and its
/// rows are sorted.
pub open spec fn block_matches(entry: SstBlockIndexEntry, block: Seq<Row>) -> bool {
    &&& block.len() > 0
    &&& block[0].0 == entry.first_key@
    &&& block.last().0 == entry.last_key@
    &&& block.len() == entry.entry_count
    &&& rows::sorted(block)
}

} // verus!
