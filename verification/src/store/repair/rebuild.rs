//! Building derived structures again from primary records and the vectors
//! that are left. A crash in between leaves a derived structure short, never a
//! primary record changed; another run completes it.
use crate::bytes;
use crate::bytes::has_prefix;
use crate::error::EngineError;
use crate::key::{memory_index, vector_index, Key};
use crate::store::batch::Batch;
use crate::store::engine::read::{gets, scans};
use crate::store::engine::write::applies;
use crate::store::engine::{Engine, StoreFiles};
use crate::store::rows::Row;
use crate::store::sst_block::scan::Wanted;
use crate::store::trace::{Step, Traced};
use crate::store::verify_logical::parse;
use crate::store::verify_logical::parse::{after, taken_pair};
use crate::store::verify_logical::{FtsPrefixes, IndexCodec, MemoryRecord, VectorIndexMeta, VectorNode};
use crate::store::Value;
use crate::text;
use crate::text::{byte_list_text, dec_text};
use vstd::prelude::*;

verus! {

/// Encodes derived values, and stages the indexes that are built outside the
/// store.
pub trait IndexBuilder: IndexCodec {
    fn encode_vecmap(&self, agent: &str, id: &str) -> Result<Vec<u8>, EngineError>;

    fn encode_memory_meta(&self, next_vec_id: u64) -> Result<Vec<u8>, EngineError>;

    /// Stages one document into the full-text index of the store as it is.
    fn stage_document(&self, engine: &Engine, agent: &str, vec_id: u64, content: &str) -> Result<Batch, EngineError>;

    /// Stages the vector graph of dimension `dim`, built again from the
    /// vectors in the store.
    fn stage_vectors(&self, engine: &Engine, dim: usize) -> Result<Batch, EngineError>;
}

/// What was rebuilt.
#[derive(Debug)]
pub struct RebuildReport {
    pub memory_mappings_rebuilt: u64,
    pub fts_documents_rebuilt: u64,
    pub vector_graph_rebuilt: bool,
    /// Records whose vector is gone: agent and id. They stay; their vectors
    /// have to be supplied again.
    pub reembedding_required: Vec<(String, String)>,
}

/// A primary memory record.
#[derive(Debug)]
pub struct LoadedRecord {
    pub agent: String,
    pub id: String,
    pub vec_id: u64,
    pub content: String,
}

/// What a primary memory record says.
pub struct LoadedV {
    pub agent: Seq<char>,
    pub id: Seq<char>,
    pub vec_id: u64,
    pub content: Seq<char>,
}

impl LoadedRecord {
    /// What the record says.
    pub open spec fn says(&self) -> LoadedV {
        LoadedV { agent: self.agent@, id: self.id@, vec_id: self.vec_id, content: self.content@ }
    }
}

/// What records say, in order.
pub open spec fn loaded(records: Seq<LoadedRecord>) -> Seq<LoadedV> {
    Seq::new(records.len(), |i: int| records[i].says())
}

/// What a scan of a prefix may give.
pub open spec fn scans_prefix<F: StoreFiles>(
    files: &F,
    engine: Engine,
    prefix: Seq<u8>,
    r: Result<Vec<(Key, Value)>, EngineError>,
) -> bool {
    exists|p: &[u8]| p@ == prefix && #[trigger] scans(files, engine, Wanted::Prefix(p), r)
}

/// The agent and the id that a record key names.
pub open spec fn record_pair(key: Seq<u8>) -> Option<(Seq<char>, Seq<char>)> {
    if has_prefix(key, memory_index::RECORD_PREFIX@) {
        taken_pair(after(key, memory_index::RECORD_PREFIX@))
    } else {
        None
    }
}

/// The agent and the id that a record key names.
pub fn parse_record_key(key: &[u8]) -> (r: Option<(String, String)>)
    ensures
        match r {
            Some((agent, id)) => record_pair(key@) == Some((agent@, id@)),
            None => record_pair(key@) is None,
        },
{
    if !bytes::starts_with(key, &memory_index::RECORD_PREFIX) {
        return None;
    }
    parse::take_pair(vstd::slice::slice_subrange(key, 15, key.len()))
}

/// An entry may decode to a record.
pub open spec fn decodes_to<C: IndexCodec>(codec: &C, entry: (Key, Value), rec: LoadedV) -> bool {
    match record_pair(entry.0@) {
        Some((agent, id)) => exists|d: MemoryRecord|
            #[trigger] call_ensures(C::record, (codec, &entry.1), Ok(d)) && rec == (LoadedV {
                agent,
                id,
                vec_id: d.vec_id,
                content: d.content@,
            }),
        None => false,
    }
}

/// `e` says that a key of the record keyspace does not parse.
pub open spec fn is_key_error(e: EngineError, key: Seq<u8>) -> bool {
    e matches EngineError::CorruptMemoryRecord { reason } && reason@
        == "malformed record key in the idx/memory/rec/ keyspace: "@ + byte_list_text(key)
}

/// An entry may be refused with `e`.
pub open spec fn refused_with<C: IndexCodec>(codec: &C, entry: (Key, Value), e: EngineError) -> bool {
    match record_pair(entry.0@) {
        Some((agent, id)) => call_ensures(C::record, (codec, &entry.1), Err(e)),
        None => is_key_error(e, entry.0@),
    }
}

/// An entry may decode to some record.
pub open spec fn decodes<C: IndexCodec>(codec: &C, entry: (Key, Value)) -> bool {
    exists|rec: LoadedV| #[trigger] decodes_to(codec, entry, rec)
}

/// Entry `i` may be the first that is refused, with `e`.
pub open spec fn refused_at<C: IndexCodec>(codec: &C, entries: Seq<(Key, Value)>, i: int, e: EngineError) -> bool {
    &&& 0 <= i < entries.len()
    &&& refused_with(codec, entries[i], e)
    &&& forall|k: int| 0 <= k < i ==> decodes(codec, #[trigger] entries[k])
}

/// What loading the primary records gives: all of them, or the first refusal.
pub open spec fn loads_records<F: StoreFiles, C: IndexCodec>(
    files: &F,
    codec: &C,
    engine: Engine,
    r: Result<Vec<LoadedRecord>, EngineError>,
) -> bool {
    exists|s: Result<Vec<(Key, Value)>, EngineError>|
        #[trigger] scans_prefix(files, engine, memory_index::RECORD_PREFIX@, s) && match s {
            Err(e) => r == Err::<Vec<LoadedRecord>, EngineError>(e),
            Ok(entries) => match r {
                Ok(records) => {
                    &&& records@.len() == entries@.len()
                    &&& forall|i: int|
                        0 <= i < records@.len() ==> decodes_to(codec, entries@[i], (#[trigger] records@[i]).says())
                },
                Err(e) => exists|i: int| #[trigger] refused_at(codec, entries@, i, e),
            },
        }
}

/// Loads every primary memory record.
pub fn load_records<F: StoreFiles, C: IndexCodec>(files: &F, codec: &C, engine: &Engine) -> (r: Result<
    Vec<LoadedRecord>,
    EngineError,
>)
    requires
        engine.wf(),
    ensures
        loads_records(files, codec, *engine, r),
{
    let prefix: &[u8] = &memory_index::RECORD_PREFIX;
    let s = engine.scan_prefix(files, prefix);
    assert(scans(files, *engine, Wanted::Prefix(prefix), s));
    assert(scans_prefix(files, *engine, memory_index::RECORD_PREFIX@, s));
    let entries = match s {
        Ok(entries) => entries,
        Err(e) => {
            return Err(e);
        },
    };
    let mut out: Vec<LoadedRecord> = Vec::new();
    let mut i: usize = 0;
    while i < entries.len()
        invariant
            i <= entries@.len(),
            s == Ok::<Vec<(Key, Value)>, EngineError>(entries),
            scans_prefix(files, *engine, memory_index::RECORD_PREFIX@, s),
            out@.len() == i,
            forall|k: int| 0 <= k < i ==> decodes_to(codec, entries@[k], (#[trigger] out@[k]).says()),
            forall|k: int| 0 <= k < i ==> decodes(codec, #[trigger] entries@[k]),
        decreases entries@.len() - i,
    {
        let key = entries[i].0.as_bytes();
        match parse_record_key(key) {
            None => {
                let e = EngineError::CorruptMemoryRecord {
                    reason: String::from_str("malformed record key in the idx/memory/rec/ keyspace: ").concat(
                        text::byte_list(key).as_str(),
                    ),
                };
                assert(refused_at(codec, entries@, i as int, e));
                return Err(e);
            },
            Some((agent, id)) => {
                let d = codec.record(&entries[i].1);
                assert(call_ensures(C::record, (codec, &entries@[i as int].1), d));
                match d {
                    Err(e) => {
                        assert(refused_at(codec, entries@, i as int, e));
                        return Err(e);
                    },
                    Ok(d) => {
                        let rec = LoadedRecord { agent, id, vec_id: d.vec_id, content: d.content };
                        assert(decodes_to(codec, entries@[i as int], rec.says()));
                        out.push(rec);
                    },
                }
            },
        }
        i = i + 1;
    }
    Ok(out)
}

/// `e` says that a key of the node keyspace does not parse.
pub open spec fn is_node_key_error(e: EngineError) -> bool {
    e matches EngineError::CorruptVectorNode { reason } && reason@ == "malformed vector node key during rebuild"@
}

/// A node entry may be live, or deleted.
pub open spec fn reads_node<C: IndexCodec>(codec: &C, entry: (Key, Value), before: Seq<u64>, ids: Seq<u64>) -> bool {
    exists|d: VectorNode|
        {
            &&& vector_index::node_id_of(entry.0@) is Some
            &&& #[trigger] call_ensures(C::node, (codec, &entry.1), Ok(d))
            &&& ids == if d.deleted {
                before
            } else {
                before.push(vector_index::node_id_of(entry.0@).unwrap())
            }
        }
}

/// The ids of the live nodes among the first `n` entries may be `ids`.
pub open spec fn reads_nodes<C: IndexCodec>(codec: &C, entries: Seq<(Key, Value)>, n: int, ids: Seq<u64>) -> bool
    decreases n,
{
    if n <= 0 {
        ids == Seq::<u64>::empty()
    } else {
        exists|before: Seq<u64>|
            reads_nodes(codec, entries, n - 1, before) && #[trigger] reads_node(codec, entries[n - 1], before, ids)
    }
}

/// A node entry may be refused with `e`.
pub open spec fn node_refused<C: IndexCodec>(codec: &C, entry: (Key, Value), e: EngineError) -> bool {
    if vector_index::node_id_of(entry.0@) is None {
        is_node_key_error(e)
    } else {
        call_ensures(C::node, (codec, &entry.1), Err(e))
    }
}

/// What looking for the live nodes gives.
pub open spec fn finds_nodes<F: StoreFiles, C: IndexCodec>(
    files: &F,
    codec: &C,
    engine: Engine,
    r: Result<Vec<u64>, EngineError>,
) -> bool {
    exists|s: Result<Vec<(Key, Value)>, EngineError>|
        #[trigger] scans_prefix(files, engine, vector_index::NODE_PREFIX@, s) && match s {
            Err(e) => r == Err::<Vec<u64>, EngineError>(e),
            Ok(entries) => match r {
                Ok(ids) => reads_nodes(codec, entries@, entries@.len() as int, ids@),
                Err(e) => exists|i: int, ids: Seq<u64>|
                    0 <= i < entries@.len() && #[trigger] reads_nodes(codec, entries@, i, ids) && node_refused(
                        codec,
                        entries@[i],
                        e,
                    ),
            },
        }
}

/// The ids of the vectors that are still live, ascending.
pub fn live_node_ids<F: StoreFiles, C: IndexCodec>(files: &F, codec: &C, engine: &Engine) -> (r: Result<
    Vec<u64>,
    EngineError,
>)
    requires
        engine.wf(),
    ensures
        finds_nodes(files, codec, *engine, r),
{
    let prefix: &[u8] = &vector_index::NODE_PREFIX;
    let s = engine.scan_prefix(files, prefix);
    assert(scans(files, *engine, Wanted::Prefix(prefix), s));
    assert(scans_prefix(files, *engine, vector_index::NODE_PREFIX@, s));
    let entries = match s {
        Ok(entries) => entries,
        Err(e) => {
            return Err(e);
        },
    };
    let mut ids: Vec<u64> = Vec::new();
    let mut i: usize = 0;
    assert(ids@ =~= Seq::<u64>::empty());
    while i < entries.len()
        invariant
            i <= entries@.len(),
            s == Ok::<Vec<(Key, Value)>, EngineError>(entries),
            scans_prefix(files, *engine, vector_index::NODE_PREFIX@, s),
            reads_nodes(codec, entries@, i as int, ids@),
        decreases entries@.len() - i,
    {
        let ghost before = ids@;
        match vector_index::node_id(entries[i].0.as_bytes()) {
            None => {
                let e = EngineError::CorruptVectorNode {
                    reason: String::from_str("malformed vector node key during rebuild"),
                };
                assert(node_refused(codec, entries@[i as int], e));
                return Err(e);
            },
            Some(id) => {
                let d = codec.node(&entries[i].1);
                assert(call_ensures(C::node, (codec, &entries@[i as int].1), d));
                match d {
                    Err(e) => {
                        assert(node_refused(codec, entries@[i as int], e));
                        return Err(e);
                    },
                    Ok(d) => {
                        if !d.deleted {
                            ids.push(id);
                        }
                    },
                }
            },
        }
        proof {
            let n = i + 1;
            assert(reads_nodes(codec, entries@, n - 1, before));
            assert(reads_node(codec, entries@[n - 1], before, ids@));
        }
        i = i + 1;
    }
    Ok(ids)
}

/// The records whose vector is gone.
pub open spec fn vectorless(records: Seq<LoadedV>, ids: Seq<u64>) -> Seq<(Seq<char>, Seq<char>)>
    decreases records.len(),
{
    if records.len() == 0 {
        Seq::empty()
    } else {
        let rest = vectorless(records.drop_last(), ids);
        if ids.contains(records.last().vec_id) {
            rest
        } else {
            rest.push((records.last().agent, records.last().id))
        }
    }
}

/// Pairs of texts, in order.
pub open spec fn pairs_of(pairs: Seq<(String, String)>) -> Seq<(Seq<char>, Seq<char>)> {
    Seq::new(pairs.len(), |i: int| (pairs[i].0@, pairs[i].1@))
}

/// The records whose vector is gone.
pub fn find_vectorless(records: &Vec<LoadedRecord>, ids: &Vec<u64>) -> (out: Vec<(String, String)>)
    ensures
        pairs_of(out@) == vectorless(loaded(records@), ids@),
{
    let ghost view = loaded(records@);
    let mut out: Vec<(String, String)> = Vec::new();
    let mut i: usize = 0;
    proof {
        assert(view.subrange(0, 0) =~= Seq::<LoadedV>::empty());
        assert(pairs_of(out@) =~= Seq::<(Seq<char>, Seq<char>)>::empty());
    }
    while i < records.len()
        invariant
            view == loaded(records@),
            i <= records@.len(),
            pairs_of(out@) == vectorless(view.subrange(0, i as int), ids@),
        decreases records@.len() - i,
    {
        let ghost before = pairs_of(out@);
        proof {
            let more = view.subrange(0, i + 1);
            assert(more.drop_last() =~= view.subrange(0, i as int));
            assert(more.last() == records@[i as int].says());
        }
        if !crate::store::version::has_id(ids, records[i].vec_id) {
            let pair = (records[i].agent.clone(), records[i].id.clone());
            out.push(pair);
            assert(pairs_of(out@) =~= before.push((records@[i as int].agent@, records@[i as int].id@)));
        }
        i = i + 1;
    }
    assert(view.subrange(0, i as int) =~= view);
    out
}

/// `e` says that no table id is left, so that nothing can be flushed.
pub open spec fn is_exhausted(e: EngineError, dir: Seq<char>) -> bool {
    e matches EngineError::Io { path, reason } && path@ == dir && reason@ == "no table id is left"@
}

/// What applying a staged batch does: refused where no table id is left for
/// the flush that it may bring.
pub open spec fn applies_staged<F: StoreFiles>(
    files: &F,
    t0: Seq<Step>,
    t1: Seq<Step>,
    before: Engine,
    after: Engine,
    rows: Seq<Row>,
    r: Result<(), EngineError>,
) -> bool {
    if before.next_sst_id >= u64::MAX - 1 {
        after == before && t1 == t0 && (r matches Err(e) && is_exhausted(e, before.dir@))
    } else {
        applies(files, t0, t1, before, after, rows, r)
    }
}

fn apply_staged<F: StoreFiles>(files: &mut Traced<F>, engine: &mut Engine, batch: &Batch) -> (r: Result<
    (),
    EngineError,
>)
    requires
        old(engine).wf(),
    ensures
        final(engine).wf(),
        final(files).spec_files() == old(files).spec_files(),
        applies_staged(
            &old(files).spec_files(),
            old(files).steps(),
            final(files).steps(),
            *old(engine),
            *final(engine),
            batch@,
            r,
        ),
{
    if engine.next_sst_id >= u64::MAX - 1 {
        return Err(
            EngineError::Io { path: engine.dir.clone(), reason: String::from_str("no table id is left") },
        );
    }
    engine.apply_batch(files, batch)
}

/// The deletion of every scanned key.
pub open spec fn deletions(entries: Seq<(Key, Value)>) -> Seq<Row> {
    Seq::new(entries.len(), |i: int| (entries[i].0@, None::<Seq<u8>>))
}

fn stage_deletions(entries: &Vec<(Key, Value)>) -> (batch: Batch)
    ensures
        batch@ == deletions(entries@),
{
    let mut batch = Batch::new();
    let mut i: usize = 0;
    assert(batch@ =~= deletions(entries@).subrange(0, 0));
    while i < entries.len()
        invariant
            i <= entries@.len(),
            batch@ == deletions(entries@).subrange(0, i as int),
        decreases entries@.len() - i,
    {
        batch.delete(entries[i].0.as_bytes());
        assert(batch@ =~= deletions(entries@).subrange(0, i + 1));
        i = i + 1;
    }
    assert(batch@ =~= deletions(entries@));
    batch
}

/// A record before `i` has the vector of record `i`.
pub open spec fn claimed_before(records: Seq<LoadedV>, i: int) -> bool {
    exists|j: int| 0 <= j < i && (#[trigger] records[j]).vec_id == records[i].vec_id
}

/// `e` says that two records claim one vector.
pub open spec fn is_claim_error(e: EngineError, vec_id: u64) -> bool {
    e matches EngineError::CorruptMemoryRecord { reason } && reason@
        == "multiple primary memory records claim vec_id "@ + dec_text(vec_id as nat)
}

/// The mapping of a record may be encoded as `r`.
pub open spec fn encodes_mapping<B: IndexBuilder>(builder: &B, rec: LoadedV, r: Result<Vec<u8>, EngineError>) -> bool {
    exists|a: &str, i: &str|
        a@ == rec.agent && i@ == rec.id && #[trigger] call_ensures(B::encode_vecmap, (builder, a, i), r)
}

/// A row that maps a record's vector back to it.
pub open spec fn is_mapping<B: IndexBuilder>(builder: &B, rec: LoadedV, row: Row) -> bool {
    exists|v: Vec<u8>|
        #[trigger] encodes_mapping(builder, rec, Ok(v)) && row == (
            memory_index::vecmap_key_bytes(rec.vec_id),
            Some(v@),
        )
}

/// The rows map the first `n` records, none of which shares a vector.
pub open spec fn maps_records<B: IndexBuilder>(builder: &B, records: Seq<LoadedV>, n: int, rows: Seq<Row>) -> bool {
    &&& rows.len() == n
    &&& forall|i: int| 0 <= i < n ==> is_mapping(builder, #[trigger] records[i], rows[i]) && !claimed_before(records, i)
}

/// The id above `id`, as far as there is one.
pub open spec fn above(id: u64) -> u64 {
    if id == u64::MAX {
        u64::MAX
    } else {
        (id + 1) as u64
    }
}

/// The greater of two ids.
pub open spec fn greater(a: u64, b: u64) -> u64 {
    if a > b {
        a
    } else {
        b
    }
}

/// The lowest id above those of the first `n` records, as far as there is one.
pub open spec fn id_above(records: Seq<LoadedV>, n: int) -> u64
    decreases n,
{
    if n <= 0 {
        0
    } else {
        greater(id_above(records, n - 1), above(records[n - 1].vec_id))
    }
}

/// The lowest id above those that the first `n` mapping keys name.
pub open spec fn above_mappings(entries: Seq<(Key, Value)>, n: int) -> u64
    decreases n,
{
    if n <= 0 {
        0
    } else {
        match memory_index::vecmap_id_of(entries[n - 1].0@) {
            Some(id) => greater(above_mappings(entries, n - 1), above(id)),
            None => above_mappings(entries, n - 1),
        }
    }
}

/// The lowest id above those that the first `n` node keys name, tombstones too.
pub open spec fn above_nodes(entries: Seq<(Key, Value)>, n: int) -> u64
    decreases n,
{
    if n <= 0 {
        0
    } else {
        match vector_index::node_id_of(entries[n - 1].0@) {
            Some(id) => greater(above_nodes(entries, n - 1), above(id)),
            None => above_nodes(entries, n - 1),
        }
    }
}

/// What entries may say that the allocator stood at: nothing, or a record that
/// does not decode, is zero.
pub open spec fn counter_in<C: IndexCodec>(codec: &C, entries: Seq<(Key, Value)>, counter: u64) -> bool {
    if exists|i: int| is_counter(entries, i) {
        exists|i: int, d: Result<u64, EngineError>|
            #[trigger] is_counter(entries, i) && #[trigger] call_ensures(C::memory_meta, (codec, &entries[i].1), d)
                && counter == (match d {
                Ok(n) => n,
                Err(_) => 0,
            })
    } else {
        counter == 0
    }
}

/// Entry `i` is the first of the allocator.
pub open spec fn is_counter(entries: Seq<(Key, Value)>, i: int) -> bool {
    &&& 0 <= i < entries.len()
    &&& entries[i].0@ == memory_index::META_KEY@
    &&& forall|k: int| 0 <= k < i ==> (#[trigger] entries[k]).0@ != memory_index::META_KEY@
}

/// Where the allocator is put: above every record, every node and every old
/// mapping, and never below where it stood. An id is not handed out twice.
pub open spec fn next_id(
    records: Seq<LoadedV>,
    mappings: Seq<(Key, Value)>,
    nodes: Seq<(Key, Value)>,
    counter: u64,
) -> u64 {
    greater(
        greater(id_above(records, records.len() as int), above_mappings(mappings, mappings.len() as int)),
        greater(above_nodes(nodes, nodes.len() as int), counter),
    )
}

fn floor_of_mappings(entries: &Vec<(Key, Value)>) -> (n: u64)
    ensures
        n == above_mappings(entries@, entries@.len() as int),
{
    let mut n: u64 = 0;
    let mut i: usize = 0;
    while i < entries.len()
        invariant
            i <= entries@.len(),
            n == above_mappings(entries@, i as int),
        decreases entries@.len() - i,
    {
        if let Some(id) = memory_index::vecmap_id(entries[i].0.as_bytes()) {
            let next: u64 = id.saturating_add(1);
            if next > n {
                n = next;
            }
        }
        i = i + 1;
    }
    n
}

fn floor_of_nodes(entries: &Vec<(Key, Value)>) -> (n: u64)
    ensures
        n == above_nodes(entries@, entries@.len() as int),
{
    let mut n: u64 = 0;
    let mut i: usize = 0;
    while i < entries.len()
        invariant
            i <= entries@.len(),
            n == above_nodes(entries@, i as int),
        decreases entries@.len() - i,
    {
        if let Some(id) = vector_index::node_id(entries[i].0.as_bytes()) {
            let next: u64 = id.saturating_add(1);
            if next > n {
                n = next;
            }
        }
        i = i + 1;
    }
    n
}

fn read_counter<C: IndexCodec>(codec: &C, entries: &Vec<(Key, Value)>) -> (counter: u64)
    ensures
        counter_in(codec, entries@, counter),
{
    let mut i: usize = 0;
    while i < entries.len()
        invariant
            i <= entries@.len(),
            forall|k: int| 0 <= k < i ==> (#[trigger] entries@[k]).0@ != memory_index::META_KEY@,
        decreases entries@.len() - i,
    {
        if bytes::eq(entries[i].0.as_bytes(), &memory_index::META_KEY) {
            let d = codec.memory_meta(&entries[i].1);
            assert(is_counter(entries@, i as int));
            assert(call_ensures(C::memory_meta, (codec, &entries@[i as int].1), d));
            return match d {
                Ok(n) => n,
                Err(_) => 0,
            };
        }
        i = i + 1;
    }
    0
}

/// The allocator may be encoded as `v`.
pub open spec fn encodes_allocator<B: IndexBuilder>(builder: &B, next: u64, r: Result<Vec<u8>, EngineError>) -> bool {
    call_ensures(B::encode_memory_meta, (builder, next), r)
}

/// Everything that the rebuilding of the mappings writes, as one batch: the
/// old mappings and the allocator go, the mappings of the records come, and
/// the allocator above them.
pub open spec fn mapping_rows(old_entries: Seq<(Key, Value)>, mappings: Seq<Row>, allocator: Seq<u8>) -> Seq<Row> {
    deletions(old_entries).push((memory_index::META_KEY@, None)) + mappings + seq![
        (memory_index::META_KEY@, Some(allocator)),
    ]
}

/// A mapping cannot be made, with `e`: the first record that shares its vector
/// or does not encode.
pub open spec fn mapping_failed<B: IndexBuilder>(builder: &B, records: Seq<LoadedV>, e: EngineError) -> bool {
    exists|i: int, rows: Seq<Row>|
        {
            &&& 0 <= i < records.len()
            &&& #[trigger] maps_records(builder, records, i, rows)
            &&& if claimed_before(records, i) {
                is_claim_error(e, records[i].vec_id)
            } else {
                encodes_mapping(builder, records[i], Err(e))
            }
        }
}

/// What rebuilding the mappings does. What the store holds is read first, and
/// a failure until then writes nothing.
pub open spec fn rebuilds_mappings<F: StoreFiles, B: IndexBuilder>(
    files: &F,
    t0: Seq<Step>,
    t1: Seq<Step>,
    builder: &B,
    records: Seq<LoadedV>,
    before: Engine,
    after: Engine,
    r: Result<(), EngineError>,
) -> bool {
    exists|
        s: Result<Vec<(Key, Value)>, EngineError>,
        n: Result<Vec<(Key, Value)>, EngineError>,
        c: Result<Vec<(Key, Value)>, EngineError>,
    |
        {
            &&& #[trigger] scans_prefix(files, before, memory_index::VECMAP_PREFIX@, s)
            &&& #[trigger] scans_prefix(files, before, vector_index::NODE_PREFIX@, n)
            &&& #[trigger] scans_prefix(files, before, memory_index::META_KEY@, c)
            &&& match (s, n, c) {
                (Err(e), _, _) => after == before && t1 == t0 && r == Err::<(), EngineError>(e),
                (Ok(_), Err(e), _) => after == before && t1 == t0 && r == Err::<(), EngineError>(e),
                (Ok(_), Ok(_), Err(e)) => after == before && t1 == t0 && r == Err::<(), EngineError>(e),
                (Ok(entries), Ok(nodes), Ok(stored)) => maps_anew(
                    files,
                    t0,
                    t1,
                    builder,
                    records,
                    entries@,
                    nodes@,
                    stored@,
                    before,
                    after,
                    r,
                ),
            }
        }
}

/// What rebuilding the mappings does, given what the store holds.
pub open spec fn maps_anew<F: StoreFiles, B: IndexBuilder>(
    files: &F,
    t0: Seq<Step>,
    t1: Seq<Step>,
    builder: &B,
    records: Seq<LoadedV>,
    entries: Seq<(Key, Value)>,
    nodes: Seq<(Key, Value)>,
    stored: Seq<(Key, Value)>,
    before: Engine,
    after: Engine,
    r: Result<(), EngineError>,
) -> bool {
    ||| after == before && t1 == t0 && (r matches Err(e) && mapping_failed(builder, records, e))
    ||| exists|rows: Seq<Row>, counter: u64, m: Result<Vec<u8>, EngineError>|
        {
            &&& #[trigger] maps_records(builder, records, records.len() as int, rows)
            &&& #[trigger] counter_in(builder, stored, counter)
            &&& #[trigger] encodes_allocator(builder, next_id(records, entries, nodes, counter), m)
            &&& match m {
                Err(e) => after == before && t1 == t0 && r == Err::<(), EngineError>(e),
                Ok(v) => applies_staged(files, t0, t1, before, after, mapping_rows(entries, rows, v@), r),
            }
        }
}

fn is_claimed_before(records: &Vec<LoadedRecord>, i: usize) -> (r: bool)
    requires
        i < records@.len(),
    ensures
        r == claimed_before(loaded(records@), i as int),
{
    let ghost view = loaded(records@);
    let vec_id: u64 = records[i].vec_id;
    let mut j: usize = 0;
    while j < i
        invariant
            view == loaded(records@),
            j <= i < records@.len(),
            vec_id == view[i as int].vec_id,
            forall|k: int| 0 <= k < j ==> (#[trigger] view[k]).vec_id != vec_id,
        decreases i - j,
    {
        assert(view[j as int] == records@[j as int].says());
        if records[j].vec_id == vec_id {
            return true;
        }
        j = j + 1;
    }
    false
}

/// Writes the mappings and the allocator anew, in one batch.
pub fn rebuild_memory_mappings<F: StoreFiles, B: IndexBuilder>(
    files: &mut Traced<F>,
    builder: &B,
    engine: &mut Engine,
    records: &Vec<LoadedRecord>,
) -> (r: Result<(), EngineError>)
    requires
        old(engine).wf(),
    ensures
        final(engine).wf(),
        final(files).spec_files() == old(files).spec_files(),
        rebuilds_mappings(
            &old(files).spec_files(),
            old(files).steps(),
            final(files).steps(),
            builder,
            loaded(records@),
            *old(engine),
            *final(engine),
            r,
        ),
{
    let disk = files.files();
    let s = scan_for(disk, &*engine, &memory_index::VECMAP_PREFIX);
    let n = scan_for(disk, &*engine, &vector_index::NODE_PREFIX);
    let c = scan_for(disk, &*engine, &memory_index::META_KEY);
    assert(scans_prefix(disk, *engine, memory_index::VECMAP_PREFIX@, s));
    assert(scans_prefix(disk, *engine, vector_index::NODE_PREFIX@, n));
    assert(scans_prefix(disk, *engine, memory_index::META_KEY@, c));
    match (s, n, c) {
        (Err(e), _, _) => Err(e),
        (Ok(_), Err(e), _) => Err(e),
        (Ok(_), Ok(_), Err(e)) => Err(e),
        (Ok(entries), Ok(nodes), Ok(stored)) => map_anew(files, builder, engine, records, &entries, &nodes, &stored),
    }
}

fn scan_for<F: StoreFiles>(files: &F, engine: &Engine, prefix: &[u8]) -> (r: Result<Vec<(Key, Value)>, EngineError>)
    requires
        engine.wf(),
    ensures
        scans_prefix(files, *engine, prefix@, r),
{
    let r = engine.scan_prefix(files, prefix);
    assert(scans(files, *engine, Wanted::Prefix(prefix), r));
    r
}

fn map_anew<F: StoreFiles, B: IndexBuilder>(
    files: &mut Traced<F>,
    builder: &B,
    engine: &mut Engine,
    records: &Vec<LoadedRecord>,
    entries: &Vec<(Key, Value)>,
    nodes: &Vec<(Key, Value)>,
    stored: &Vec<(Key, Value)>,
) -> (r: Result<(), EngineError>)
    requires
        old(engine).wf(),
    ensures
        final(engine).wf(),
        final(files).spec_files() == old(files).spec_files(),
        maps_anew(
            &old(files).spec_files(),
            old(files).steps(),
            final(files).steps(),
            builder,
            loaded(records@),
            entries@,
            nodes@,
            stored@,
            *old(engine),
            *final(engine),
            r,
        ),
{
    let ghost view = loaded(records@);
    let ghost start = *engine;
    let mut batch = stage_deletions(entries);
    batch.delete(&memory_index::META_KEY);
    let ghost base = deletions(entries@).push((memory_index::META_KEY@, None));
    let ghost mut rows: Seq<Row> = Seq::empty();
    let mut next: u64 = 0;
    let mut i: usize = 0;
    assert(base + rows =~= base);
    while i < records.len()
        invariant
            *engine == start,
            start.wf(),
            files.spec_files() == old(files).spec_files(),
            files.steps() == old(files).steps(),
            view == loaded(records@),
            i <= records@.len(),
            maps_records(builder, view, i as int, rows),
            batch@ == base + rows,
            next == id_above(view, i as int),
        decreases records@.len() - i,
    {
        let rec = &records[i];
        assert(view[i as int] == rec.says());
        if is_claimed_before(records, i) {
            let e = EngineError::CorruptMemoryRecord {
                reason: String::from_str("multiple primary memory records claim vec_id ").concat(
                    text::dec(rec.vec_id).as_str(),
                ),
            };
            assert(is_claim_error(e, view[i as int].vec_id));
            assert(mapping_failed(builder, view, e));
            return Err(e);
        }
        let a: &str = rec.agent.as_str();
        let id: &str = rec.id.as_str();
        let encoded = builder.encode_vecmap(a, id);
        assert(call_ensures(B::encode_vecmap, (builder, a, id), encoded));
        assert(encodes_mapping(builder, view[i as int], encoded));
        match encoded {
            Err(e) => {
                assert(mapping_failed(builder, view, e));
                return Err(e);
            },
            Ok(v) => {
                let key = memory_index::vecmap_key(rec.vec_id);
                batch.put(key.as_bytes(), v.as_slice());
                proof {
                    let row = (memory_index::vecmap_key_bytes(rec.vec_id), Some(v@));
                    assert(is_mapping(builder, view[i as int], row));
                    let more = rows.push(row);
                    assert(base + more =~= (base + rows).push(row));
                    assert forall|k: int| 0 <= k < i + 1 implies is_mapping(
                        builder,
                        #[trigger] view[k],
                        more[k],
                    ) && !claimed_before(view, k) by {
                        if k < i {
                            assert(is_mapping(builder, view[k], rows[k]));
                        }
                    }
                    rows = more;
                }
            },
        }
        let beyond: u64 = rec.vec_id.saturating_add(1);
        if beyond >= next {
            next = beyond;
        }
        i = i + 1;
    }
    assert(view.len() == records@.len());
    let mapped: u64 = floor_of_mappings(entries);
    let noded: u64 = floor_of_nodes(nodes);
    let counter: u64 = read_counter(builder, stored);
    assert(counter_in(builder, stored@, counter));
    if mapped > next {
        next = mapped;
    }
    if noded > next {
        next = noded;
    }
    if counter > next {
        next = counter;
    }
    let m = builder.encode_memory_meta(next);
    assert(call_ensures(B::encode_memory_meta, (builder, next), m));
    assert(encodes_allocator(builder, next_id(view, entries@, nodes@, counter), m));
    match m {
        Err(e) => Err(e),
        Ok(v) => {
            batch.put(&memory_index::META_KEY, v.as_slice());
            assert(batch@ =~= mapping_rows(entries@, rows, v@));
            let r = apply_staged(files, engine, &batch);
            assert(applies_staged(
                &old(files).spec_files(),
                old(files).steps(),
                files.steps(),
                start,
                *engine,
                mapping_rows(entries@, rows, v@),
                r,
            ));
            r
        },
    }
}

/// What indexing one document does, if it succeeds.
pub open spec fn indexes<F: StoreFiles, B: IndexBuilder>(
    files: &F,
    t0: Seq<Step>,
    t1: Seq<Step>,
    builder: &B,
    rec: LoadedV,
    before: Engine,
    after: Engine,
    r: Result<(), EngineError>,
) -> bool {
    exists|a: &str, c: &str, b: Result<Batch, EngineError>|
        {
            &&& a@ == rec.agent
            &&& c@ == rec.content
            &&& #[trigger] call_ensures(B::stage_document, (builder, &before, a, rec.vec_id, c), b)
            &&& match b {
                Err(e) => after == before && t1 == t0 && r == Err::<(), EngineError>(e),
                Ok(batch) => if batch@.len() == 0 {
                    after == before && t1 == t0 && r is Ok
                } else {
                    applies_staged(files, t0, t1, before, after, batch@, r)
                },
            }
        }
}

/// The first `n` documents were indexed, one after the other.
pub open spec fn indexed<F: StoreFiles, B: IndexBuilder>(
    files: &F,
    t0: Seq<Step>,
    t1: Seq<Step>,
    builder: &B,
    records: Seq<LoadedV>,
    n: int,
    before: Engine,
    after: Engine,
) -> bool
    decreases n,
{
    if n <= 0 {
        after == before && t1 == t0
    } else {
        exists|mid: Engine, m: Seq<Step>, r: Result<(), EngineError>|
            r is Ok && indexed(files, t0, m, builder, records, n - 1, before, mid) && #[trigger] indexes(
                files,
                m,
                t1,
                builder,
                records[n - 1],
                mid,
                after,
                r,
            )
    }
}

/// What indexing all documents does: all of them, or those before the first
/// that fails.
pub open spec fn indexes_all<F: StoreFiles, B: IndexBuilder>(
    files: &F,
    t0: Seq<Step>,
    t1: Seq<Step>,
    builder: &B,
    records: Seq<LoadedV>,
    before: Engine,
    after: Engine,
    r: Result<(), EngineError>,
) -> bool {
    match r {
        Ok(()) => indexed(files, t0, t1, builder, records, records.len() as int, before, after),
        Err(e) => exists|n: int, mid: Engine, m: Seq<Step>|
            {
                &&& 0 <= n < records.len()
                &&& indexed(files, t0, m, builder, records, n, before, mid)
                &&& #[trigger] indexes(files, m, t1, builder, records[n], mid, after, Err(e))
            },
    }
}

/// What emptying the full-text index does.
pub open spec fn purges<F: StoreFiles>(
    files: &F,
    t0: Seq<Step>,
    t1: Seq<Step>,
    prefix: Seq<u8>,
    before: Engine,
    after: Engine,
    r: Result<(), EngineError>,
) -> bool {
    exists|s: Result<Vec<(Key, Value)>, EngineError>|
        #[trigger] scans_prefix(files, before, prefix, s) && match s {
            Err(e) => after == before && t1 == t0 && r == Err::<(), EngineError>(e),
            Ok(entries) => if entries@.len() == 0 {
                after == before && t1 == t0 && r is Ok
            } else {
                applies_staged(files, t0, t1, before, after, deletions(entries@), r)
            },
        }
}

/// What rebuilding the full-text index does: it is emptied, then every record
/// is indexed.
pub open spec fn rebuilds_fts<F: StoreFiles, B: IndexBuilder>(
    files: &F,
    t0: Seq<Step>,
    t1: Seq<Step>,
    builder: &B,
    prefix: Seq<u8>,
    records: Seq<LoadedV>,
    before: Engine,
    after: Engine,
    r: Result<(), EngineError>,
) -> bool {
    exists|mid: Engine, m: Seq<Step>, p: Result<(), EngineError>|
        #[trigger] purges(files, t0, m, prefix, before, mid, p) && match p {
            Err(e) => after == mid && t1 == m && r == Err::<(), EngineError>(e),
            Ok(()) => indexes_all(files, m, t1, builder, records, mid, after, r),
        }
}

fn purge<F: StoreFiles>(files: &mut Traced<F>, prefix: &[u8], engine: &mut Engine) -> (r: Result<(), EngineError>)
    requires
        old(engine).wf(),
    ensures
        final(engine).wf(),
        final(files).spec_files() == old(files).spec_files(),
        purges(
            &old(files).spec_files(),
            old(files).steps(),
            final(files).steps(),
            prefix@,
            *old(engine),
            *final(engine),
            r,
        ),
{
    let s = scan_for(files.files(), &*engine, prefix);
    assert(scans_prefix(&old(files).spec_files(), *engine, prefix@, s));
    match s {
        Err(e) => Err(e),
        Ok(entries) => {
            let batch = stage_deletions(&entries);
            assert(deletions(entries@).len() == entries@.len());
            if batch.is_empty() {
                return Ok(());
            }
            apply_staged(files, engine, &batch)
        },
    }
}

/// Empties the full-text index and indexes every record again.
pub fn rebuild_fts<F: StoreFiles, B: IndexBuilder>(
    files: &mut Traced<F>,
    builder: &B,
    prefixes: &FtsPrefixes,
    engine: &mut Engine,
    records: &Vec<LoadedRecord>,
) -> (r: Result<(), EngineError>)
    requires
        old(engine).wf(),
    ensures
        final(engine).wf(),
        final(files).spec_files() == old(files).spec_files(),
        rebuilds_fts(
            &old(files).spec_files(),
            old(files).steps(),
            final(files).steps(),
            builder,
            prefixes.index@,
            loaded(records@),
            *old(engine),
            *final(engine),
            r,
        ),
{
    let ghost start = *engine;
    let ghost view = loaded(records@);
    let ghost disk = files.spec_files();
    let ghost t0 = files.steps();
    let p = purge(files, prefixes.index.as_slice(), engine);
    let ghost purged = *engine;
    let ghost t1 = files.steps();
    assert(purges(&disk, t0, t1, prefixes.index@, start, purged, p));
    match p {
        Err(e) => {
            return Err(e);
        },
        Ok(()) => {},
    }
    let mut i: usize = 0;
    while i < records.len()
        invariant
            engine.wf(),
            view == loaded(records@),
            i <= records@.len(),
            start == *old(engine),
            p is Ok,
            disk == old(files).spec_files(),
            files.spec_files() == disk,
            t0 == old(files).steps(),
            purges(&disk, t0, t1, prefixes.index@, start, purged, p),
            indexed(&disk, t1, files.steps(), builder, view, i as int, purged, *engine),
        decreases records@.len() - i,
    {
        let ghost mid = *engine;
        let ghost t = files.steps();
        let rec = &records[i];
        assert(view[i as int] == rec.says());
        let a: &str = rec.agent.as_str();
        let c: &str = rec.content.as_str();
        let ghost mut done: Result<(), EngineError> = Ok(());
        let b = builder.stage_document(&*engine, a, rec.vec_id, c);
        assert(call_ensures(B::stage_document, (builder, &mid, a, rec.vec_id, c), b));
        match b {
            Err(e) => {
                assert(indexes(&disk, t, files.steps(), builder, view[i as int], mid, *engine, Err(e)));
                assert(indexes_all(&disk, t1, files.steps(), builder, view, purged, *engine, Err(e)));
                return Err(e);
            },
            Ok(batch) => {
                if !batch.is_empty() {
                    let applied = apply_staged(files, engine, &batch);
                    assert(applies_staged(&disk, t, files.steps(), mid, *engine, batch@, applied));
                    match applied {
                        Err(e) => {
                            assert(indexes(&disk, t, files.steps(), builder, view[i as int], mid, *engine, Err(e)));
                            assert(indexes_all(&disk, t1, files.steps(), builder, view, purged, *engine, Err(e)));
                            return Err(e);
                        },
                        Ok(()) => {
                            proof {
                                done = applied;
                            }
                        },
                    }
                }
            },
        }
        proof {
            let n = i + 1;
            assert(indexed(&disk, t1, t, builder, view, n - 1, purged, mid));
            assert(indexes(&disk, t, files.steps(), builder, view[n - 1], mid, *engine, done));
        }
        i = i + 1;
    }
    Ok(())
}

/// The dimension of the vector index, if there is one: as its metadata says,
/// else as the first node has it.
pub open spec fn finds_dim<F: StoreFiles, C: IndexCodec>(
    files: &F,
    codec: &C,
    before: Engine,
    after: Engine,
    r: Result<Option<usize>, EngineError>,
) -> bool {
    after.wf() && exists|g: Result<Option<Value>, EngineError>|
        #[trigger] gets(files, before, after, vector_index::META_KEY@, g) && match g {
            Err(e) => r == Err::<Option<usize>, EngineError>(e),
            Ok(None) => finds_node_dim(files, codec, after, r),
            Ok(Some(v)) => exists|d: Result<VectorIndexMeta, EngineError>|
                #[trigger] call_ensures(C::vector_meta, (codec, &v), d) && match d {
                    Ok(meta) => r == Ok::<Option<usize>, EngineError>(Some(meta.dim)),
                    Err(_) => finds_node_dim(files, codec, after, r),
                },
        }
}

/// The dimension of the first node, if there is one.
pub open spec fn finds_node_dim<F: StoreFiles, C: IndexCodec>(
    files: &F,
    codec: &C,
    engine: Engine,
    r: Result<Option<usize>, EngineError>,
) -> bool {
    exists|s: Result<Vec<(Key, Value)>, EngineError>|
        #[trigger] scans_prefix(files, engine, vector_index::NODE_PREFIX@, s) && match s {
            Err(e) => r == Err::<Option<usize>, EngineError>(e),
            Ok(entries) => if entries@.len() == 0 {
                r == Ok::<Option<usize>, EngineError>(None)
            } else {
                exists|d: Result<VectorNode, EngineError>|
                    #[trigger] call_ensures(C::node, (codec, &entries@[0].1), d) && match d {
                        Ok(node) => r == Ok::<Option<usize>, EngineError>(Some(node.dim)),
                        Err(e) => r == Err::<Option<usize>, EngineError>(e),
                    }
            },
        }
}

fn node_dim<F: StoreFiles, C: IndexCodec>(files: &F, codec: &C, engine: &Engine) -> (r: Result<
    Option<usize>,
    EngineError,
>)
    requires
        engine.wf(),
    ensures
        finds_node_dim(files, codec, *engine, r),
{
    let prefix: &[u8] = &vector_index::NODE_PREFIX;
    let s = engine.scan_prefix(files, prefix);
    assert(scans(files, *engine, Wanted::Prefix(prefix), s));
    assert(scans_prefix(files, *engine, vector_index::NODE_PREFIX@, s));
    match s {
        Err(e) => Err(e),
        Ok(entries) => {
            if entries.len() == 0 {
                return Ok(None);
            }
            let d = codec.node(&entries[0].1);
            assert(call_ensures(C::node, (codec, &entries@[0].1), d));
            match d {
                Ok(node) => Ok(Some(node.dim)),
                Err(e) => Err(e),
            }
        },
    }
}

/// The dimension of the vector index, if there is one.
pub fn vector_params<F: StoreFiles, C: IndexCodec>(files: &F, codec: &C, engine: &mut Engine) -> (r: Result<
    Option<usize>,
    EngineError,
>)
    requires
        old(engine).wf(),
    ensures
        final(engine).wf(),
        finds_dim(files, codec, *old(engine), *final(engine), r),
{
    let ghost start = *engine;
    let key: &[u8] = &vector_index::META_KEY;
    let g = engine.get(files, key);
    assert(gets(files, start, *engine, vector_index::META_KEY@, g));
    match g {
        Err(e) => Err(e),
        Ok(None) => node_dim(files, codec, &*engine),
        Ok(Some(v)) => {
            let d = codec.vector_meta(&v);
            assert(call_ensures(C::vector_meta, (codec, &v), d));
            match d {
                Ok(meta) => Ok(Some(meta.dim)),
                Err(_) => node_dim(files, codec, &*engine),
            }
        },
    }
}

/// The records with something to index.
pub open spec fn documents(records: Seq<LoadedV>) -> nat
    decreases records.len(),
{
    if records.len() == 0 {
        0
    } else if records.last().content.len() > 0 {
        documents(records.drop_last()) + 1
    } else {
        documents(records.drop_last())
    }
}

fn count_documents(records: &Vec<LoadedRecord>) -> (n: usize)
    ensures
        n == documents(loaded(records@)),
{
    let ghost view = loaded(records@);
    let mut n: usize = 0;
    let mut i: usize = 0;
    assert(view.subrange(0, 0) =~= Seq::<LoadedV>::empty());
    while i < records.len()
        invariant
            view == loaded(records@),
            i <= records@.len(),
            n == documents(view.subrange(0, i as int)),
            n <= i,
        decreases records@.len() - i,
    {
        proof {
            let more = view.subrange(0, i + 1);
            assert(more.drop_last() =~= view.subrange(0, i as int));
            assert(more.last() == records@[i as int].says());
        }
        if records[i].content.as_str().unicode_len() > 0 {
            n = n + 1;
        }
        i = i + 1;
    }
    assert(view.subrange(0, i as int) =~= view);
    n
}

/// What rebuilding the vector graph does, where there is one.
pub open spec fn rebuilds_vectors<F: StoreFiles, B: IndexBuilder>(
    files: &F,
    t0: Seq<Step>,
    t1: Seq<Step>,
    builder: &B,
    before: Engine,
    after: Engine,
    r: Result<bool, EngineError>,
) -> bool {
    exists|mid: Engine, d: Result<Option<usize>, EngineError>|
        #[trigger] finds_dim(files, builder, before, mid, d) && match d {
            Err(e) => after == mid && t1 == t0 && r == Err::<bool, EngineError>(e),
            Ok(None) => after == mid && t1 == t0 && r == Ok::<bool, EngineError>(false),
            Ok(Some(dim)) => exists|b: Result<Batch, EngineError>|
                #[trigger] call_ensures(B::stage_vectors, (builder, &mid, dim), b) && match b {
                    Err(e) => after == mid && t1 == t0 && r == Err::<bool, EngineError>(e),
                    Ok(batch) => exists|a: Result<(), EngineError>|
                        #[trigger] applies_staged(files, t0, t1, mid, after, batch@, a) && match a {
                            Err(e) => r == Err::<bool, EngineError>(e),
                            Ok(()) => r == Ok::<bool, EngineError>(true),
                        },
                },
        }
}

fn rebuild_vectors<F: StoreFiles, B: IndexBuilder>(
    files: &mut Traced<F>,
    builder: &B,
    engine: &mut Engine,
) -> (r: Result<bool, EngineError>)
    requires
        old(engine).wf(),
    ensures
        final(engine).wf(),
        final(files).spec_files() == old(files).spec_files(),
        rebuilds_vectors(
            &old(files).spec_files(),
            old(files).steps(),
            final(files).steps(),
            builder,
            *old(engine),
            *final(engine),
            r,
        ),
{
    let ghost start = *engine;
    let d = vector_params(files.files(), builder, engine);
    let ghost mid = *engine;
    assert(finds_dim(&old(files).spec_files(), builder, start, mid, d));
    match d {
        Err(e) => Err(e),
        Ok(None) => Ok(false),
        Ok(Some(dim)) => {
            let b = builder.stage_vectors(&*engine, dim);
            assert(call_ensures(B::stage_vectors, (builder, &mid, dim), b));
            match b {
                Err(e) => Err(e),
                Ok(batch) => {
                    let a = apply_staged(files, engine, &batch);
                    assert(applies_staged(
                        &old(files).spec_files(),
                        old(files).steps(),
                        files.steps(),
                        mid,
                        *engine,
                        batch@,
                        a,
                    ));
                    match a {
                        Err(e) => Err(e),
                        Ok(()) => Ok(true),
                    }
                },
            }
        },
    }
}

/// What a rebuild says in the end.
pub open spec fn reports(
    report: RebuildReport,
    records: Seq<LoadedV>,
    ids: Seq<u64>,
    vectors: bool,
) -> bool {
    &&& report.memory_mappings_rebuilt == records.len() as u64
    &&& report.fts_documents_rebuilt == documents(records) as u64
    &&& report.vector_graph_rebuilt == vectors
    &&& pairs_of(report.reembedding_required@) == vectorless(records, ids)
}

/// What a rebuild does once the records are loaded and the live vectors are
/// known: mappings, full text, vector graph, in that order.
pub open spec fn rebuilds_from<F: StoreFiles, B: IndexBuilder>(
    files: &F,
    t0: Seq<Step>,
    t1: Seq<Step>,
    builder: &B,
    prefix: Seq<u8>,
    records: Seq<LoadedV>,
    ids: Seq<u64>,
    before: Engine,
    after: Engine,
    r: Result<RebuildReport, EngineError>,
) -> bool {
    exists|mapped: Engine, a: Seq<Step>, m: Result<(), EngineError>|
        #[trigger] rebuilds_mappings(files, t0, a, builder, records, before, mapped, m) && match m {
            Err(e) => after == mapped && t1 == a && r == Err::<RebuildReport, EngineError>(e),
            Ok(()) => exists|texted: Engine, b: Seq<Step>, t: Result<(), EngineError>|
                #[trigger] rebuilds_fts(files, a, b, builder, prefix, records, mapped, texted, t) && match t {
                    Err(e) => after == texted && t1 == b && r == Err::<RebuildReport, EngineError>(e),
                    Ok(()) => exists|v: Result<bool, EngineError>|
                        #[trigger] rebuilds_vectors(files, b, t1, builder, texted, after, v) && match v {
                            Err(e) => r == Err::<RebuildReport, EngineError>(e),
                            Ok(vectors) => r matches Ok(report) && reports(report, records, ids, vectors),
                        },
                },
        }
}

/// What a rebuild does.
pub open spec fn rebuilds<F: StoreFiles, B: IndexBuilder>(
    files: &F,
    t0: Seq<Step>,
    t1: Seq<Step>,
    builder: &B,
    prefix: Seq<u8>,
    before: Engine,
    after: Engine,
    r: Result<RebuildReport, EngineError>,
) -> bool {
    exists|l: Result<Vec<LoadedRecord>, EngineError>|
        #[trigger] loads_records(files, builder, before, l) && match l {
            Err(e) => after == before && t1 == t0 && r == Err::<RebuildReport, EngineError>(e),
            Ok(records) => exists|n: Result<Vec<u64>, EngineError>|
                #[trigger] finds_nodes(files, builder, before, n) && match n {
                    Err(e) => after == before && t1 == t0 && r == Err::<RebuildReport, EngineError>(e),
                    Ok(ids) => rebuilds_from(
                        files,
                        t0,
                        t1,
                        builder,
                        prefix,
                        loaded(records@),
                        ids@,
                        before,
                        after,
                        r,
                    ),
                },
        }
}

/// Builds mappings, full text and vector graph again from the primary records
/// and the vectors that are left, and names the records whose vector is gone.
pub fn rebuild_indexes<F: StoreFiles, B: IndexBuilder>(
    files: &mut Traced<F>,
    builder: &B,
    prefixes: &FtsPrefixes,
    engine: &mut Engine,
) -> (r: Result<RebuildReport, EngineError>)
    requires
        old(engine).wf(),
    ensures
        final(engine).wf(),
        final(files).spec_files() == old(files).spec_files(),
        rebuilds(
            &old(files).spec_files(),
            old(files).steps(),
            final(files).steps(),
            builder,
            prefixes.index@,
            *old(engine),
            *final(engine),
            r,
        ),
{
    let ghost start = *engine;
    let ghost disk = files.spec_files();
    let ghost t0 = files.steps();
    let l = load_records(files.files(), builder, &*engine);
    assert(loads_records(&disk, builder, start, l));
    let records = match l {
        Ok(records) => records,
        Err(e) => {
            return Err(e);
        },
    };
    let ghost view = loaded(records@);
    let n = live_node_ids(files.files(), builder, &*engine);
    assert(finds_nodes(&disk, builder, start, n));
    let ids = match n {
        Ok(ids) => ids,
        Err(e) => {
            return Err(e);
        },
    };
    let reembedding_required = find_vectorless(&records, &ids);
    let m = rebuild_memory_mappings(files, builder, engine, &records);
    let ghost mapped = *engine;
    let ghost a = files.steps();
    assert(rebuilds_mappings(&disk, t0, a, builder, view, start, mapped, m));
    match m {
        Err(e) => {
            assert(rebuilds_from(&disk, t0, files.steps(), builder, prefixes.index@, view, ids@, start, *engine, Err(e)));
            return Err(e);
        },
        Ok(()) => {},
    }
    let t = rebuild_fts(files, builder, prefixes, engine, &records);
    let ghost texted = *engine;
    let ghost b = files.steps();
    assert(rebuilds_fts(&disk, a, b, builder, prefixes.index@, view, mapped, texted, t));
    match t {
        Err(e) => {
            assert(rebuilds_from(&disk, t0, files.steps(), builder, prefixes.index@, view, ids@, start, *engine, Err(e)));
            return Err(e);
        },
        Ok(()) => {},
    }
    let v = rebuild_vectors(files, builder, engine);
    assert(rebuilds_vectors(&disk, b, files.steps(), builder, texted, *engine, v));
    match v {
        Err(e) => {
            assert(rebuilds_from(&disk, t0, files.steps(), builder, prefixes.index@, view, ids@, start, *engine, Err(e)));
            Err(e)
        },
        Ok(vectors) => {
            let report = RebuildReport {
                memory_mappings_rebuilt: records.len() as u64,
                fts_documents_rebuilt: count_documents(&records) as u64,
                vector_graph_rebuilt: vectors,
                reembedding_required,
            };
            assert(view.len() == records@.len());
            assert(reports(report, view, ids@, vectors));
            assert(rebuilds_from(&disk, t0, files.steps(), builder, prefixes.index@, view, ids@, start, *engine, Ok(report)));
            Ok(report)
        },
    }
}

/// Rebuilding the mappings touches no primary record: every key it writes or
/// deletes is a mapping key or the allocator's.
pub proof fn mappings_leave_records_alone<B: IndexBuilder>(
    builder: &B,
    old_entries: Seq<(Key, Value)>,
    records: Seq<LoadedV>,
    mappings: Seq<Row>,
    allocator: Seq<u8>,
    i: int,
)
    requires
        forall|k: int|
            0 <= k < old_entries.len() ==> has_prefix((#[trigger] old_entries[k]).0@, memory_index::VECMAP_PREFIX@),
        maps_records(builder, records, records.len() as int, mappings),
        0 <= i < mapping_rows(old_entries, mappings, allocator).len(),
    ensures
        !has_prefix(mapping_rows(old_entries, mappings, allocator)[i].0, memory_index::RECORD_PREFIX@),
{
    let rows = mapping_rows(old_entries, mappings, allocator);
    let key = rows[i].0;
    let d = deletions(old_entries).len() as int;
    memory_index::keyspaces_are_reserved_and_disjoint(Seq::empty(), Seq::empty(), 0);
    if i < d {
        assert(key == old_entries[i].0@);
        assert(has_prefix(old_entries[i].0@, memory_index::VECMAP_PREFIX@));
        if has_prefix(key, memory_index::RECORD_PREFIX@) {
            assert(key.subrange(0, 15)[11] == key[11]);
            assert(key.subrange(0, 18)[11] == key[11]);
        }
    } else if d < i && i < d + 1 + mappings.len() {
        let rec = records[i - d - 1];
        assert(is_mapping(builder, records[i - d - 1], mappings[i - d - 1]));
        assert(rows[i] == mappings[i - d - 1]);
        memory_index::keyspaces_are_reserved_and_disjoint(Seq::empty(), Seq::empty(), rec.vec_id);
    }
}

proof fn lemma_above_records(records: Seq<LoadedV>, n: int, i: int)
    requires
        0 <= i < n <= records.len(),
    ensures
        above(records[i].vec_id) <= id_above(records, n),
    decreases n,
{
    if i < n - 1 {
        lemma_above_records(records, n - 1, i);
    }
}

proof fn lemma_above_mappings(entries: Seq<(Key, Value)>, n: int, i: int)
    requires
        0 <= i < n <= entries.len(),
    ensures
        memory_index::vecmap_id_of(entries[i].0@) matches Some(id) ==> above(id) <= above_mappings(entries, n),
    decreases n,
{
    if i < n - 1 {
        lemma_above_mappings(entries, n - 1, i);
    }
}

proof fn lemma_above_nodes(entries: Seq<(Key, Value)>, n: int, i: int)
    requires
        0 <= i < n <= entries.len(),
    ensures
        vector_index::node_id_of(entries[i].0@) matches Some(id) ==> above(id) <= above_nodes(entries, n),
    decreases n,
{
    if i < n - 1 {
        lemma_above_nodes(entries, n - 1, i);
    }
}

/// `next` is above `id`, as long as there is an id above it.
pub open spec fn clears_id(next: u64, id: u64) -> bool {
    id < next || id == u64::MAX
}

/// The allocator never hands an id out again: a rebuild puts it above the
/// vector of every record, every node, a tombstoned one too, and every old
/// mapping, as long as there is an id above, and never below where it stood.
pub proof fn the_allocator_never_goes_back(
    records: Seq<LoadedV>,
    mappings: Seq<(Key, Value)>,
    nodes: Seq<(Key, Value)>,
    counter: u64,
)
    ensures
        counter <= next_id(records, mappings, nodes, counter),
        forall|i: int|
            0 <= i < records.len() ==> clears_id(
                next_id(records, mappings, nodes, counter),
                (#[trigger] records[i]).vec_id,
            ),
        forall|i: int|
            0 <= i < mappings.len() ==> (memory_index::vecmap_id_of((#[trigger] mappings[i]).0@) matches Some(id)
                ==> clears_id(next_id(records, mappings, nodes, counter), id)),
        forall|i: int|
            0 <= i < nodes.len() ==> (vector_index::node_id_of((#[trigger] nodes[i]).0@) matches Some(id)
                ==> clears_id(next_id(records, mappings, nodes, counter), id)),
{
    let next = next_id(records, mappings, nodes, counter);
    assert forall|i: int| 0 <= i < records.len() implies clears_id(next, (#[trigger] records[i]).vec_id) by {
        lemma_above_records(records, records.len() as int, i);
    }
    assert forall|i: int| 0 <= i < mappings.len() implies (memory_index::vecmap_id_of(
        (#[trigger] mappings[i]).0@,
    ) matches Some(id) ==> clears_id(next, id)) by {
        lemma_above_mappings(mappings, mappings.len() as int, i);
    }
    assert forall|i: int| 0 <= i < nodes.len() implies (vector_index::node_id_of(
        (#[trigger] nodes[i]).0@,
    ) matches Some(id) ==> clears_id(next, id)) by {
        lemma_above_nodes(nodes, nodes.len() as int, i);
    }
}

} // verus!
