//! A bounded cache of decoded data blocks, least recently used first out.
//!
//! One byte budget is shared by every table of an engine. Blocks are kept in
//! recency order: a lookup moves its block to the recent end, an eviction
//! takes from the other end.
use crate::key::Key;
use crate::store::rows::Row;
use crate::store::{rows, Value};
use vstd::prelude::*;

verus! {

/// The rows of one decoded data block.
pub type CachedBlock = Vec<(Key, Option<Value>)>;

/// A resident block: the table it belongs to, its number there, its rows.
pub struct Resident {
    pub sst_id: u64,
    pub block_no: u32,
    pub rows: Seq<Row>,
}

/// `n`, or the greatest machine size where `n` is greater.
pub open spec fn capped(n: nat) -> nat {
    if n > usize::MAX {
        usize::MAX as nat
    } else {
        n
    }
}

/// The key and value bytes of rows.
pub open spec fn payload_bytes(rows: Seq<Row>) -> nat
    decreases rows.len(),
{
    if rows.len() == 0 {
        0
    } else {
        payload_bytes(rows.drop_last()) + crate::store::batch::row_bytes(rows.last())
    }
}

/// The bytes that resident blocks count for.
pub open spec fn total_bytes(blocks: Seq<Resident>) -> nat
    decreases blocks.len(),
{
    if blocks.len() == 0 {
        0
    } else {
        capped(payload_bytes(blocks[0].rows)) + total_bytes(blocks.drop_first())
    }
}

/// The block `(sst_id, block_no)` is at position `i`.
pub open spec fn resident_at(blocks: Seq<Resident>, sst_id: u64, block_no: u32, i: int) -> bool {
    0 <= i < blocks.len() && blocks[i].sst_id == sst_id && blocks[i].block_no == block_no
}

/// The block `(sst_id, block_no)` is resident.
pub open spec fn is_resident(blocks: Seq<Resident>, sst_id: u64, block_no: u32) -> bool {
    exists|i: int| resident_at(blocks, sst_id, block_no, i)
}

/// No block is resident twice.
pub open spec fn distinct(blocks: Seq<Resident>) -> bool {
    forall|i: int, j: int|
        0 <= i < j < blocks.len() ==> !((#[trigger] blocks[i]).sst_id == (#[trigger] blocks[j]).sst_id
            && blocks[i].block_no == blocks[j].block_no)
}

/// What stays when `need` more bytes have to fit: the least recently used
/// blocks leave, one by one, until they fit or nothing is left.
pub open spec fn evicted(blocks: Seq<Resident>, capacity: nat, need: nat) -> Seq<Resident>
    decreases blocks.len(),
{
    if blocks.len() > 0 && total_bytes(blocks) + need > capacity {
        evicted(blocks.drop_first(), capacity, need)
    } else {
        blocks
    }
}

/// A block already resident stays as it is; another one evicts and enters as
/// the most recent.
pub open spec fn after_insert(blocks: Seq<Resident>, capacity: nat, block: Resident) -> Seq<Resident> {
    if is_resident(blocks, block.sst_id, block.block_no) {
        blocks
    } else {
        evicted(blocks, capacity, capped(payload_bytes(block.rows))).push(block)
    }
}

/// The block at `i` becomes the most recent.
pub open spec fn after_touch(blocks: Seq<Resident>, i: int) -> Seq<Resident> {
    blocks.remove(i).push(blocks[i])
}

/// What stays when the blocks of one table leave.
pub open spec fn without_sst(blocks: Seq<Resident>, sst_id: u64) -> Seq<Resident>
    decreases blocks.len(),
{
    if blocks.len() == 0 {
        blocks
    } else if blocks.last().sst_id == sst_id {
        without_sst(blocks.drop_last(), sst_id)
    } else {
        without_sst(blocks.drop_last(), sst_id).push(blocks.last())
    }
}

/// What stays when the blocks of several tables leave.
pub open spec fn without_ssts(blocks: Seq<Resident>, ids: Seq<u64>) -> Seq<Resident>
    decreases ids.len(),
{
    if ids.len() == 0 {
        blocks
    } else {
        without_sst(without_ssts(blocks, ids.drop_last()), ids.last())
    }
}

proof fn lemma_total_push(blocks: Seq<Resident>, block: Resident)
    ensures
        total_bytes(blocks.push(block)) == total_bytes(blocks) + capped(payload_bytes(block.rows)),
    decreases blocks.len(),
{
    let more = blocks.push(block);
    if blocks.len() == 0 {
        assert(more.drop_first() =~= blocks);
    } else {
        assert(more.drop_first() =~= blocks.drop_first().push(block));
        lemma_total_push(blocks.drop_first(), block);
    }
}

proof fn lemma_total_remove(blocks: Seq<Resident>, i: int)
    requires
        0 <= i < blocks.len(),
    ensures
        total_bytes(blocks.remove(i)) == total_bytes(blocks) - capped(payload_bytes(blocks[i].rows)),
    decreases blocks.len(),
{
    let less = blocks.remove(i);
    if i == 0 {
        assert(less =~= blocks.drop_first());
    } else {
        assert(less.drop_first() =~= blocks.drop_first().remove(i - 1));
        lemma_total_remove(blocks.drop_first(), i - 1);
    }
}

/// What an eviction leaves is the recent end.
pub proof fn lemma_evicted_suffix(blocks: Seq<Resident>, capacity: nat, need: nat) -> (k: int)
    ensures
        0 <= k <= blocks.len(),
        evicted(blocks, capacity, need) == blocks.subrange(k, blocks.len() as int),
    decreases blocks.len(),
{
    if blocks.len() > 0 && total_bytes(blocks) + need > capacity {
        let k = lemma_evicted_suffix(blocks.drop_first(), capacity, need);
        assert(blocks.drop_first().subrange(k, blocks.len() - 1) =~= blocks.subrange(
            k + 1,
            blocks.len() as int,
        ));
        k + 1
    } else {
        assert(blocks.subrange(0, blocks.len() as int) =~= blocks);
        0
    }
}

/// A block just inserted is resident, as the most recent one.
pub proof fn inserted_block_is_resident(blocks: Seq<Resident>, capacity: nat, block: Resident)
    ensures
        is_resident(after_insert(blocks, capacity, block), block.sst_id, block.block_no),
        !is_resident(blocks, block.sst_id, block.block_no) ==> after_insert(
            blocks,
            capacity,
            block,
        ).last() == block,
{
    if !is_resident(blocks, block.sst_id, block.block_no) {
        let after = after_insert(blocks, capacity, block);
        assert(resident_at(after, block.sst_id, block.block_no, after.len() - 1));
    }
}

/// After an insertion the resident blocks fit the budget, unless the one just
/// inserted is alone and larger than the whole budget.
pub proof fn insertion_stays_within_capacity(blocks: Seq<Resident>, capacity: nat, block: Resident)
    requires
        !is_resident(blocks, block.sst_id, block.block_no),
    ensures
        total_bytes(after_insert(blocks, capacity, block)) <= capacity || after_insert(
            blocks,
            capacity,
            block,
        ) == seq![block],
    decreases blocks.len(),
{
    let need = capped(payload_bytes(block.rows));
    let kept = evicted(blocks, capacity, need);
    lemma_evicted_fits(blocks, capacity, need);
    lemma_total_push(kept, block);
    if kept.len() == 0 {
        assert(kept.push(block) =~= seq![block]);
    }
}

proof fn lemma_evicted_fits(blocks: Seq<Resident>, capacity: nat, need: nat)
    ensures
        evicted(blocks, capacity, need).len() == 0 || total_bytes(evicted(blocks, capacity, need)) + need
            <= capacity,
    decreases blocks.len(),
{
    if blocks.len() > 0 && total_bytes(blocks) + need > capacity {
        lemma_evicted_fits(blocks.drop_first(), capacity, need);
    }
}

/// An eviction drops the least recently used blocks: whatever is more recent
/// than a block that stays, stays.
pub proof fn eviction_drops_least_recently_used(
    blocks: Seq<Resident>,
    capacity: nat,
    need: nat,
    i: int,
    j: int,
)
    requires
        0 <= i <= j < blocks.len(),
        evicted(blocks, capacity, need).contains(blocks[i]),
        distinct(blocks),
    ensures
        evicted(blocks, capacity, need).contains(blocks[j]),
{
    let k = lemma_evicted_suffix(blocks, capacity, need);
    let kept = evicted(blocks, capacity, need);
    let a = choose|a: int| 0 <= a < kept.len() && kept[a] == blocks[i];
    assert(blocks[k + a] == blocks[i]);
    if k + a != i {
        if k + a < i {
            assert(!(blocks[k + a].sst_id == blocks[i].sst_id && blocks[k + a].block_no
                == blocks[i].block_no));
        } else {
            assert(!(blocks[i].sst_id == blocks[k + a].sst_id && blocks[i].block_no
                == blocks[k + a].block_no));
        }
    }
    assert(kept[j - k] == blocks[j]);
}

/// A lookup keeps every resident block and makes its own the most recent.
pub proof fn lookup_makes_its_block_the_most_recent(blocks: Seq<Resident>, i: int)
    requires
        0 <= i < blocks.len(),
    ensures
        after_touch(blocks, i).last() == blocks[i],
        after_touch(blocks, i).len() == blocks.len(),
        total_bytes(after_touch(blocks, i)) == total_bytes(blocks),
        forall|j: int|
            0 <= j < blocks.len() ==> after_touch(blocks, i).contains(#[trigger] blocks[j]),
{
    let after = after_touch(blocks, i);
    lemma_total_remove(blocks, i);
    lemma_total_push(blocks.remove(i), blocks[i]);
    assert forall|j: int| 0 <= j < blocks.len() implies after.contains(#[trigger] blocks[j]) by {
        if j < i {
            assert(after[j] == blocks[j]);
        } else if j == i {
            assert(after[after.len() - 1] == blocks[j]);
        } else {
            assert(after[j - 1] == blocks[j]);
        }
    }
}

/// Invalidating a table drops that table's blocks and no others.
pub proof fn invalidation_drops_only_that_table(blocks: Seq<Resident>, sst_id: u64)
    ensures
        forall|i: int|
            0 <= i < without_sst(blocks, sst_id).len() ==> (#[trigger] without_sst(blocks, sst_id)[i]).sst_id
                != sst_id && blocks.contains(without_sst(blocks, sst_id)[i]),
        forall|i: int|
            0 <= i < blocks.len() && (#[trigger] blocks[i]).sst_id != sst_id ==> without_sst(
                blocks,
                sst_id,
            ).contains(blocks[i]),
    decreases blocks.len(),
{
    if blocks.len() > 0 {
        let head = blocks.drop_last();
        let last = blocks.last();
        invalidation_drops_only_that_table(head, sst_id);
        let before = without_sst(head, sst_id);
        let after = without_sst(blocks, sst_id);
        assert forall|i: int| 0 <= i < after.len() implies (#[trigger] after[i]).sst_id != sst_id
            && blocks.contains(after[i]) by {
            if i < before.len() {
                assert(after[i] == before[i]);
                let j = choose|j: int| 0 <= j < head.len() && head[j] == before[i];
                assert(blocks[j] == after[i]);
            } else {
                assert(blocks[blocks.len() - 1] == after[i]);
            }
        }
        assert forall|i: int| 0 <= i < blocks.len() && (#[trigger] blocks[i]).sst_id != sst_id implies after.contains(
            blocks[i],
        ) by {
            if i < head.len() {
                assert(head[i].sst_id != sst_id);
                let j = choose|j: int| 0 <= j < before.len() && before[j] == head[i];
                assert(after[j] == blocks[i]);
            } else {
                assert(after[after.len() - 1] == blocks[i]);
            }
        }
    }
}

#[derive(Debug)]
struct CacheEntry {
    sst_id: u64,
    block_no: u32,
    block: CachedBlock,
    bytes: usize,
}

/// The cache: resident blocks, the budget, and counters of lookups.
#[derive(Debug)]
pub struct BlockCache {
    entries: Vec<CacheEntry>,
    resident_bytes: usize,
    capacity_bytes: usize,
    hits: u64,
    misses: u64,
}

spec fn resident_view(e: CacheEntry) -> Resident {
    Resident { sst_id: e.sst_id, block_no: e.block_no, rows: rows::rows_view(e.block@) }
}

spec fn residents_view(entries: Seq<CacheEntry>) -> Seq<Resident> {
    Seq::new(entries.len(), |i: int| resident_view(entries[i]))
}

/// The byte size that one decoded block counts for: its keys and values.
fn block_bytes(block: &CachedBlock) -> (n: usize)
    ensures
        n == capped(payload_bytes(rows::rows_view(block@))),
{
    let ghost view = rows::rows_view(block@);
    let mut total: usize = 0;
    let mut i: usize = 0;
    assert(view.subrange(0, 0) =~= Seq::<Row>::empty());
    while i < block.len()
        invariant
            i <= block@.len(),
            view == rows::rows_view(block@),
            total == capped(payload_bytes(view.subrange(0, i as int))),
        decreases block@.len() - i,
    {
        let row = &block[i];
        let value_len: usize = match &row.1 {
            Some(v) => v.len(),
            None => 0,
        };
        proof {
            let next = view.subrange(0, i + 1);
            assert(next.drop_last() =~= view.subrange(0, i as int));
            assert(next.last() == rows::row_view(block@[i as int]));
        }
        total = total.saturating_add(row.0.as_bytes().len()).saturating_add(value_len);
        i = i + 1;
    }
    assert(view.subrange(0, i as int) =~= view);
    total
}

impl View for BlockCache {
    type V = Seq<Resident>;

    /// The resident blocks, least recently used first.
    closed spec fn view(&self) -> Seq<Resident> {
        residents_view(self.entries@)
    }
}

impl BlockCache {
    /// No block is resident twice, and the byte count is the sum over the
    /// resident blocks.
    pub closed spec fn wf(&self) -> bool {
        &&& distinct(self@)
        &&& self.resident_bytes == total_bytes(self@)
        &&& forall|i: int|
            0 <= i < self.entries@.len() ==> (#[trigger] self.entries@[i]).bytes == capped(
                payload_bytes(rows::rows_view(self.entries@[i].block@)),
            )
    }

    /// No block is resident twice.
    pub proof fn no_block_is_resident_twice(&self)
        requires
            self.wf(),
        ensures
            distinct(self@),
    {
    }

    /// The byte budget.
    pub closed spec fn capacity(&self) -> nat {
        self.capacity_bytes as nat
    }

    /// Lookups that found their block.
    pub closed spec fn spec_hits(&self) -> u64 {
        self.hits
    }

    /// Lookups that did not.
    pub closed spec fn spec_misses(&self) -> u64 {
        self.misses
    }

    /// An empty cache with a budget of `capacity_bytes`.
    pub fn new(capacity_bytes: usize) -> (cache: BlockCache)
        ensures
            cache.wf(),
            cache@ == Seq::<Resident>::empty(),
            cache.capacity() == capacity_bytes,
            cache.spec_hits() == 0,
            cache.spec_misses() == 0,
    {
        let cache = BlockCache {
            entries: Vec::new(),
            resident_bytes: 0,
            capacity_bytes,
            hits: 0,
            misses: 0,
        };
        assert(cache@ =~= Seq::<Resident>::empty());
        cache
    }

    fn position(&self, sst_id: u64, block_no: u32) -> (r: Option<usize>)
        ensures
            match r {
                Some(i) => resident_at(self@, sst_id, block_no, i as int),
                None => !is_resident(self@, sst_id, block_no),
            },
    {
        let mut i: usize = 0;
        while i < self.entries.len()
            invariant
                i <= self.entries@.len(),
                forall|j: int| 0 <= j < i ==> !#[trigger] resident_at(self@, sst_id, block_no, j),
            decreases self.entries@.len() - i,
        {
            if self.entries[i].sst_id == sst_id && self.entries[i].block_no == block_no {
                return Some(i);
            }
            i = i + 1;
        }
        None
    }

    /// Looks up `(sst_id, block_no)`: a copy of the block where it is
    /// resident, which makes it the most recent one; `None` otherwise.
    pub fn get(&mut self, sst_id: u64, block_no: u32) -> (r: Option<CachedBlock>)
        requires
            old(self).wf(),
        ensures
            final(self).wf(),
            final(self).capacity() == old(self).capacity(),
            match r {
                Some(block) => exists|i: int|
                    {
                        &&& #[trigger] resident_at(old(self)@, sst_id, block_no, i)
                        &&& rows::rows_view(block@) == old(self)@[i].rows
                        &&& final(self)@ == after_touch(old(self)@, i)
                    },
                None => !is_resident(old(self)@, sst_id, block_no) && final(self)@ == old(self)@,
            },
            r is Some ==> final(self).spec_hits() == old(self).spec_hits().wrapping_add(1)
                && final(self).spec_misses() == old(self).spec_misses(),
            r is None ==> final(self).spec_misses() == old(self).spec_misses().wrapping_add(1)
                && final(self).spec_hits() == old(self).spec_hits(),
    {
        match self.position(sst_id, block_no) {
            Some(i) => {
                let ghost before = self@;
                let entry = self.entries.remove(i);
                let block = rows::copy_rows(&entry.block);
                let ghost touched = resident_view(entry);
                self.entries.push(entry);
                self.hits = self.hits.wrapping_add(1);
                proof {
                    assert(touched == before[i as int]);
                    assert(self@ =~= after_touch(before, i as int));
                    lemma_total_remove(before, i as int);
                    lemma_total_push(before.remove(i as int), before[i as int]);
                    lemma_touch_keeps_distinct(before, i as int);
                    assert(resident_at(before, sst_id, block_no, i as int));
                }
                Some(block)
            },
            None => {
                self.misses = self.misses.wrapping_add(1);
                None
            },
        }
    }

    /// Inserts a freshly read block, evicting least recently used blocks until
    /// it fits. A block larger than the whole budget is still inserted, alone.
    /// A block already resident is left as it is.
    pub fn insert(&mut self, sst_id: u64, block_no: u32, block: CachedBlock)
        requires
            old(self).wf(),
        ensures
            final(self).wf(),
            final(self).capacity() == old(self).capacity(),
            final(self).spec_hits() == old(self).spec_hits(),
            final(self).spec_misses() == old(self).spec_misses(),
            final(self)@ == after_insert(
                old(self)@,
                old(self).capacity(),
                (Resident { sst_id, block_no, rows: rows::rows_view(block@) }),
            ),
    {
        if self.position(sst_id, block_no).is_some() {
            return;
        }
        let bytes: usize = block_bytes(&block);
        let ghost start = self@;
        while self.entries.len() > 0 && (bytes > self.capacity_bytes || self.resident_bytes
            > self.capacity_bytes - bytes)
            invariant
                self.wf(),
                self.capacity_bytes == old(self).capacity_bytes,
                self.hits == old(self).hits,
                self.misses == old(self).misses,
                !is_resident(self@, sst_id, block_no),
                evicted(start, self.capacity_bytes as nat, bytes as nat) == evicted(
                    self@,
                    self.capacity_bytes as nat,
                    bytes as nat,
                ),
            decreases self.entries@.len(),
        {
            let ghost before = self@;
            let victim = self.entries.remove(0);
            proof {
                assert(resident_view(victim) == before[0]);
                assert(self@ =~= before.drop_first());
                lemma_drop_first_keeps_distinct(before);
                assert forall|j: int| !#[trigger] resident_at(self@, sst_id, block_no, j) by {
                    if resident_at(self@, sst_id, block_no, j) {
                        assert(resident_at(before, sst_id, block_no, j + 1));
                    }
                }
            }
            self.resident_bytes = self.resident_bytes - victim.bytes;
        }
        let ghost kept = self@;
        self.resident_bytes = self.resident_bytes + bytes;
        let entry = CacheEntry { sst_id, block_no, block, bytes };
        let ghost added = resident_view(entry);
        self.entries.push(entry);
        proof {
            assert(self@ =~= kept.push(added));
            lemma_total_push(kept, added);
            assert(evicted(kept, self.capacity_bytes as nat, bytes as nat) == kept);
            assert forall|i: int, j: int| 0 <= i < j < self@.len() implies !((#[trigger] self@[i]).sst_id
                == (#[trigger] self@[j]).sst_id && self@[i].block_no == self@[j].block_no) by {
                if j < kept.len() {
                    assert(kept[i] == self@[i] && kept[j] == self@[j]);
                } else if self@[i].sst_id == sst_id && self@[i].block_no == block_no {
                    assert(resident_at(kept, sst_id, block_no, i));
                }
            }
        }
    }

    /// Drops every block of table `sst_id`.
    pub fn invalidate_sst(&mut self, sst_id: u64)
        requires
            old(self).wf(),
        ensures
            final(self).wf(),
            final(self).capacity() == old(self).capacity(),
            final(self).spec_hits() == old(self).spec_hits(),
            final(self).spec_misses() == old(self).spec_misses(),
            final(self)@ == without_sst(old(self)@, sst_id),
    {
        let ghost start = self@;
        let mut i: usize = self.entries.len();
        proof {
            assert(start.subrange(0, i as int) =~= start);
            assert(without_sst(start, sst_id) + self@.subrange(i as int, self@.len() as int)
                =~= without_sst(start, sst_id));
        }
        while i > 0
            invariant
                i <= self.entries@.len(),
                i <= start.len(),
                self.wf(),
                self.capacity_bytes == old(self).capacity_bytes,
                self.hits == old(self).hits,
                self.misses == old(self).misses,
                start == old(self)@,
                self@.subrange(0, i as int) == start.subrange(0, i as int),
                without_sst(start.subrange(0, i as int), sst_id) + self@.subrange(
                    i as int,
                    self@.len() as int,
                ) == without_sst(start, sst_id),
            decreases i,
        {
            i = i - 1;
            let ghost before = self@;
            let ghost head = start.subrange(0, i + 1);
            proof {
                assert(head.drop_last() =~= start.subrange(0, i as int));
                assert(before.subrange(0, i + 1)[i as int] == head[i as int]);
                assert(before[i as int] == head.last());
                assert(before.subrange(0, i as int) =~= before.subrange(0, i + 1).subrange(0, i as int));
            }
            if self.entries[i].sst_id == sst_id {
                let victim = self.entries.remove(i);
                proof {
                    assert(resident_view(victim) == before[i as int]);
                    assert(self@ =~= before.remove(i as int));
                    lemma_total_remove(before, i as int);
                    lemma_remove_keeps_distinct(before, i as int);
                    assert(self@.subrange(0, i as int) =~= start.subrange(0, i as int));
                    assert(self@.subrange(i as int, self@.len() as int) =~= before.subrange(
                        i + 1,
                        before.len() as int,
                    ));
                }
                self.resident_bytes = self.resident_bytes - victim.bytes;
            } else {
                proof {
                    assert(self@.subrange(0, i as int) =~= start.subrange(0, i as int));
                    assert(without_sst(head, sst_id) + before.subrange(i + 1, before.len() as int)
                        =~= without_sst(head.drop_last(), sst_id) + before.subrange(
                        i as int,
                        before.len() as int,
                    ));
                }
            }
        }
        proof {
            assert(start.subrange(0, 0) =~= Seq::<Resident>::empty());
            assert(self@.subrange(0, self@.len() as int) =~= self@);
            assert(without_sst(start.subrange(0, 0), sst_id) + self@ =~= self@);
        }
    }

    /// Lookups that found their block.
    pub fn hits(&self) -> (n: u64)
        ensures
            n == self.spec_hits(),
    {
        self.hits
    }

    /// Lookups that did not find their block.
    pub fn misses(&self) -> (n: u64)
        ensures
            n == self.spec_misses(),
    {
        self.misses
    }
}

proof fn lemma_remove_keeps_distinct(blocks: Seq<Resident>, k: int)
    requires
        distinct(blocks),
        0 <= k < blocks.len(),
    ensures
        distinct(blocks.remove(k)),
{
    let less = blocks.remove(k);
    assert forall|i: int, j: int| 0 <= i < j < less.len() implies !((#[trigger] less[i]).sst_id == (
    #[trigger] less[j]).sst_id && less[i].block_no == less[j].block_no) by {
        let a = if i < k { i } else { i + 1 };
        let b = if j < k { j } else { j + 1 };
        assert(less[i] == blocks[a] && less[j] == blocks[b]);
    }
}

proof fn lemma_drop_first_keeps_distinct(blocks: Seq<Resident>)
    requires
        distinct(blocks),
        blocks.len() > 0,
    ensures
        distinct(blocks.drop_first()),
{
    lemma_remove_keeps_distinct(blocks, 0);
    assert(blocks.remove(0) =~= blocks.drop_first());
}

proof fn lemma_touch_keeps_distinct(blocks: Seq<Resident>, k: int)
    requires
        distinct(blocks),
        0 <= k < blocks.len(),
    ensures
        distinct(after_touch(blocks, k)),
{
    lemma_remove_keeps_distinct(blocks, k);
    let less = blocks.remove(k);
    let after = after_touch(blocks, k);
    assert forall|i: int, j: int| 0 <= i < j < after.len() implies !((#[trigger] after[i]).sst_id == (
    #[trigger] after[j]).sst_id && after[i].block_no == after[j].block_no) by {
        if j < less.len() {
            assert(less[i] == after[i] && less[j] == after[j]);
        } else {
            let a = if i < k { i } else { i + 1 };
            assert(after[i] == blocks[a] && after[j] == blocks[k]);
            if a < k {
                assert(!(blocks[a].sst_id == blocks[k].sst_id && blocks[a].block_no == blocks[k].block_no));
            } else {
                assert(!(blocks[k].sst_id == blocks[a].sst_id && blocks[k].block_no == blocks[a].block_no));
            }
        }
    }
}

} // verus!
