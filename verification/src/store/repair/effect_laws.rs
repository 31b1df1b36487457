//! What a rebuild that succeeded did: a mapping for every record, every record
//! indexed, and the vector graph built where there is one.
use super::rebuild::{
    applies_staged, claimed_before, counter_in, decodes_to, deletions, documents, encodes_allocator, encodes_mapping,
    finds_dim, finds_node_dim, finds_nodes, indexed, indexes, indexes_all, is_counter, is_mapping, loaded, loads_records,
    mapping_rows, maps_anew, maps_records, next_id, pairs_of, purges, reads_node, reads_nodes, rebuilds, rebuilds_from,
    rebuilds_fts, rebuilds_mappings, rebuilds_vectors, record_pair, reports, scans_prefix,
    the_allocator_never_goes_back, vectorless, IndexBuilder, LoadedRecord, LoadedV, RebuildReport,
};
use super::rebuild_laws::{lemma_flush_spares, lemma_scanned_keys};
use crate::bytes::has_prefix;
use crate::error::EngineError;
use crate::key::{memory_index, vector_index, Key};
use crate::store::batch::Batch;
use crate::store::engine::read::gets;
use crate::store::engine::write::{applies, maybe_flushes, writes};
use crate::store::engine::{Engine, StoreFiles};
use crate::store::rows::{put_rows, Row};
use crate::store::trace::{appended_batch, goes_on, lemma_cut_early, Step};
use crate::store::verify_logical::{IndexCodec, MemoryRecord, VectorIndexMeta, VectorNode};
use crate::store::Value;
use vstd::prelude::*;

verus! {

/// From `t0` to `t1` operations were put into the log of an engine as one
/// batch, first of all, and the engine took them; none of them does nothing.
pub open spec fn is_applied<F: StoreFiles>(
    files: &F,
    t0: Seq<Step>,
    t1: Seq<Step>,
    before: Engine,
    after: Engine,
    ops: Seq<Row>,
) -> bool {
    &&& goes_on(t0, t1)
    &&& exists|r: Result<(), EngineError>| r is Ok && #[trigger] applies(files, t0, t1, before, after, ops, r)
    &&& if ops.len() == 0 {
        t1 == t0 && after == before
    } else {
        t0.len() < t1.len() && (t1[t0.len() as int] matches Step::AppendBatch { dir, ops: appended, r } && dir
            == before.dir@ && appended == ops && r is Ok)
    }
}

proof fn lemma_applied<F: StoreFiles>(
    files: &F,
    t0: Seq<Step>,
    t1: Seq<Step>,
    before: Engine,
    after: Engine,
    ops: Seq<Row>,
    r: Result<(), EngineError>,
)
    requires
        applies_staged(files, t0, t1, before, after, ops, r),
        r is Ok,
    ensures
        is_applied(files, t0, t1, before, after, ops),
{
    assert(applies(files, t0, t1, before, after, ops, r));
    if ops.len() == 0 {
        assert(t1.take(t0.len() as int) =~= t0);
    } else {
        let (m, w) = choose|m: Seq<Step>, w: Result<u64, EngineError>|
            #[trigger] appended_batch(t0, m, before.dir@, ops, w) && writes(
                files,
                m,
                t1,
                before,
                after,
                w,
                put_rows(before.memtable@, ops),
                r,
            );
        assert(w is Ok);
        let mid = choose|mid: Engine| #[trigger] maybe_flushes(files, m, t1, mid, after, r);
        if mid.memtable.spec_rows().len() >= mid.options.memtable_flush_threshold {
            lemma_flush_spares(files, m, t1, mid, after, r);
        } else {
            assert(t1.take(m.len() as int) =~= m);
        }
        let at = t0.len() as int;
        assert(m[at] == (Step::AppendBatch { dir: before.dir@, ops, r: w }));
        assert(t1.take(m.len() as int)[at] == t1[at]);
        assert(m.take(at) =~= t0);
        lemma_cut_early(t0, m, t1, 0);
    }
}

/// One record is indexed: the builder stages it, under its agent, its vector
/// and its whole content, on the store as it stands, and what it stages is
/// applied.
pub open spec fn indexes_one<F: StoreFiles, B: IndexBuilder>(
    files: &F,
    builder: &B,
    t0: Seq<Step>,
    t1: Seq<Step>,
    before: Engine,
    after: Engine,
    rec: LoadedV,
    batch: Batch,
) -> bool {
    &&& exists|agent: &str, content: &str|
        agent@ == rec.agent && content@ == rec.content && #[trigger] call_ensures(
            B::stage_document,
            (builder, &before, agent, rec.vec_id, content),
            Ok(batch),
        )
    &&& is_applied(files, t0, t1, before, after, batch@)
}

/// The stations of an indexing: the engine and the steps before each record,
/// and behind the last; and the batch that was staged for each.
pub struct Stations {
    pub engines: Seq<Engine>,
    pub steps: Seq<Seq<Step>>,
    pub batches: Seq<Batch>,
}

/// Every record is indexed, in order, each on the store as the one before left
/// it.
pub open spec fn indexes_every<F: StoreFiles, B: IndexBuilder>(
    files: &F,
    builder: &B,
    t0: Seq<Step>,
    t1: Seq<Step>,
    before: Engine,
    after: Engine,
    records: Seq<LoadedV>,
    s: Stations,
) -> bool {
    let n = records.len();
    &&& s.engines.len() == n + 1
    &&& s.steps.len() == n + 1
    &&& s.batches.len() == n
    &&& s.engines[0] == before
    &&& s.engines[n as int] == after
    &&& s.steps[0] == t0
    &&& s.steps[n as int] == t1
    &&& forall|i: int|
        0 <= i < n ==> indexes_one(
            files,
            builder,
            s.steps[i],
            s.steps[i + 1],
            s.engines[i],
            s.engines[i + 1],
            #[trigger] records[i],
            s.batches[i],
        )
}

proof fn lemma_indexed<F: StoreFiles, B: IndexBuilder>(
    files: &F,
    builder: &B,
    t0: Seq<Step>,
    t1: Seq<Step>,
    before: Engine,
    after: Engine,
    records: Seq<LoadedV>,
    n: int,
) -> (s: Stations)
    requires
        0 <= n <= records.len(),
        indexed(files, t0, t1, builder, records, n, before, after),
    ensures
        indexes_every(files, builder, t0, t1, before, after, records.take(n), s),
    decreases n,
{
    if n == 0 {
        let s = Stations { engines: seq![before], steps: seq![t0], batches: Seq::empty() };
        assert(indexes_every(files, builder, t0, t1, before, after, records.take(0), s));
        s
    } else {
        let (mid, m, r) = choose|mid: Engine, m: Seq<Step>, r: Result<(), EngineError>|
            r is Ok && indexed(files, t0, m, builder, records, n - 1, before, mid) && #[trigger] indexes(
                files,
                m,
                t1,
                builder,
                records[n - 1],
                mid,
                after,
                r,
            );
        let head = lemma_indexed(files, builder, t0, m, before, mid, records, n - 1);
        let rec = records[n - 1];
        let (a, c, batch) = choose|a: &str, c: &str, batch: Batch|
            {
                &&& a@ == rec.agent
                &&& c@ == rec.content
                &&& #[trigger] call_ensures(B::stage_document, (builder, &mid, a, rec.vec_id, c), Ok(batch))
                &&& if batch@.len() == 0 {
                    after == mid && t1 == m
                } else {
                    applies_staged(files, m, t1, mid, after, batch@, r)
                }
            };
        if batch@.len() == 0 {
            assert(t1.take(m.len() as int) =~= m);
            assert(applies(files, m, t1, mid, after, batch@, r));
        } else {
            lemma_applied(files, m, t1, mid, after, batch@, r);
        }
        assert(indexes_one(files, builder, m, t1, mid, after, rec, batch));
        let s = Stations {
            engines: head.engines.push(after),
            steps: head.steps.push(t1),
            batches: head.batches.push(batch),
        };
        let shown = records.take(n);
        assert forall|i: int| 0 <= i < shown.len() implies indexes_one(
            files,
            builder,
            s.steps[i],
            s.steps[i + 1],
            s.engines[i],
            s.engines[i + 1],
            #[trigger] shown[i],
            s.batches[i],
        ) by {
            if i < n - 1 {
                assert(records.take(n - 1)[i] == shown[i]);
            }
        }
        s
    }
}

/// No operation behind the `k`th is on its key.
pub open spec fn is_last_op(ops: Seq<Row>, k: int) -> bool {
    forall|j: int| k < j < ops.len() ==> (#[trigger] ops[j]).0 != ops[k].0
}

/// What a batch leaves of a key is a value.
pub open spec fn leaves(ops: Seq<Row>, key: Seq<u8>, value: Seq<u8>) -> bool {
    exists|k: int| 0 <= k < ops.len() && #[trigger] is_last_op(ops, k) && ops[k].0 == key && ops[k].1 == Some(value)
}

/// What a batch leaves of a key is nothing.
pub open spec fn removes(ops: Seq<Row>, key: Seq<u8>) -> bool {
    exists|k: int| 0 <= k < ops.len() && #[trigger] is_last_op(ops, k) && ops[k].0 == key && ops[k].1 is None
}

/// The vector of some record is mapped under the key.
pub open spec fn is_key_of(records: Seq<LoadedV>, key: Seq<u8>) -> bool {
    exists|i: int| 0 <= i < records.len() && key == memory_index::vecmap_key_bytes((#[trigger] records[i]).vec_id)
}

/// What operations leave under a record's vector is its mapping, of its agent
/// and its id.
pub open spec fn is_remapped<B: IndexBuilder>(builder: &B, rec: LoadedV, ops: Seq<Row>) -> bool {
    exists|agent: &str, id: &str, v: Vec<u8>|
        {
            &&& agent@ == rec.agent
            &&& id@ == rec.id
            &&& #[trigger] call_ensures(B::encode_vecmap, (builder, agent, id), Ok(v))
            &&& leaves(ops, memory_index::vecmap_key_bytes(rec.vec_id), v@)
        }
}

/// The operations map every record's vector back to it, remove every other
/// mapping, and put the allocator at `next`.
pub open spec fn remaps<B: IndexBuilder>(
    builder: &B,
    records: Seq<LoadedV>,
    mappings: Seq<(Key, Value)>,
    ops: Seq<Row>,
    next: u64,
) -> bool {
    &&& forall|i: int| 0 <= i < records.len() ==> is_remapped(builder, #[trigger] records[i], ops)
    &&& forall|i: int|
        0 <= i < mappings.len() && !is_key_of(records, (#[trigger] mappings[i]).0@) ==> removes(ops, mappings[i].0@)
    &&& exists|v: Vec<u8>|
        #[trigger] call_ensures(B::encode_memory_meta, (builder, next), Ok(v)) && leaves(
            ops,
            memory_index::META_KEY@,
            v@,
        )
    &&& forall|k: int|
        0 <= k < ops.len() ==> (#[trigger] ops[k]).0 == memory_index::META_KEY@ || has_prefix(
            ops[k].0,
            memory_index::VECMAP_PREFIX@,
        )
}

/// The next id is above that of every record, every mapping and every node, as
/// long as there is one, and no lower than where the allocator stood.
pub open spec fn clears_all(
    records: Seq<LoadedV>,
    mappings: Seq<(Key, Value)>,
    nodes: Seq<(Key, Value)>,
    counter: u64,
    next: u64,
) -> bool {
    &&& counter <= next
    &&& forall|i: int|
        0 <= i < records.len() ==> (#[trigger] records[i]).vec_id < next || records[i].vec_id == u64::MAX
    &&& forall|i: int, id: u64|
        0 <= i < mappings.len() && (#[trigger] mappings[i]).0@ == #[trigger] memory_index::vecmap_key_bytes(id) ==> id
            < next || id == u64::MAX
    &&& forall|i: int, id: u64|
        0 <= i < nodes.len() && (#[trigger] nodes[i]).0@ == #[trigger] vector_index::node_key_bytes(id) ==> id < next
            || id == u64::MAX
}

proof fn lemma_vecmap_key(a: u64, b: u64)
    ensures
        memory_index::vecmap_key_bytes(a) == memory_index::vecmap_key_bytes(b) <==> a == b,
        memory_index::vecmap_key_bytes(a) != memory_index::META_KEY@,
        has_prefix(memory_index::vecmap_key_bytes(a), memory_index::VECMAP_PREFIX@),
{
    memory_index::vecmap_key_roundtrips(a);
    memory_index::vecmap_key_roundtrips(b);
    memory_index::keyspaces_are_reserved_and_disjoint(Seq::empty(), Seq::empty(), a);
}

proof fn lemma_remaps<B: IndexBuilder>(
    builder: &B,
    records: Seq<LoadedV>,
    mappings: Seq<(Key, Value)>,
    mapped: Seq<Row>,
    v: Vec<u8>,
    next: u64,
)
    requires
        maps_records(builder, records, records.len() as int, mapped),
        call_ensures(B::encode_memory_meta, (builder, next), Ok(v)),
        forall|i: int|
            0 <= i < mappings.len() ==> has_prefix((#[trigger] mappings[i]).0@, memory_index::VECMAP_PREFIX@),
        forall|i: int, j: int|
            0 <= i < j < mappings.len() ==> (#[trigger] mappings[i]).0@ != (#[trigger] mappings[j]).0@,
    ensures
        remaps(builder, records, mappings, mapping_rows(mappings, mapped, v@), next),
        forall|i: int, j: int|
            0 <= i < j < records.len() ==> (#[trigger] records[i]).vec_id != (#[trigger] records[j]).vec_id,
{
    let ops = mapping_rows(mappings, mapped, v@);
    let d = mappings.len() as int;
    let n = records.len() as int;
    let last = ops.len() - 1;
    assert(last == d + 1 + n);
    assert(ops[last] == (memory_index::META_KEY@, Some(v@)));
    assert(ops[d] == (memory_index::META_KEY@, None::<Seq<u8>>));
    assert forall|i: int, j: int| 0 <= i < j < records.len() implies (#[trigger] records[i]).vec_id != (
    #[trigger] records[j]).vec_id by {
        assert(!claimed_before(records, j));
    }
    assert forall|i: int| 0 <= i < n implies #[trigger] ops[d + 1 + i] == mapped[i] by {}
    assert forall|i: int| 0 <= i < n implies #[trigger] ops[d + 1 + i].0 == memory_index::vecmap_key_bytes(
        records[i].vec_id,
    ) by {
        assert(is_mapping(builder, records[i], mapped[i]));
    }
    assert forall|i: int| 0 <= i < d implies #[trigger] ops[i] == (mappings[i].0@, None::<Seq<u8>>) by {
        assert(ops[i] == deletions(mappings)[i]);
    }
    memory_index::keyspaces_are_reserved_and_disjoint(Seq::empty(), Seq::empty(), 0);
    assert forall|i: int| 0 <= i < records.len() implies is_remapped(builder, #[trigger] records[i], ops) by {
        assert(is_mapping(builder, records[i], mapped[i]));
        let w = choose|w: Vec<u8>|
            #[trigger] encodes_mapping(builder, records[i], Ok(w)) && mapped[i] == (
                memory_index::vecmap_key_bytes(records[i].vec_id),
                Some(w@),
            );
        let k = d + 1 + i;
        assert(ops[k] == mapped[i]);
        assert forall|j: int| k < j < ops.len() implies (#[trigger] ops[j]).0 != ops[k].0 by {
            lemma_vecmap_key(records[i].vec_id, 0);
            if j < last {
                let other = j - d - 1;
                assert(ops[d + 1 + other].0 == memory_index::vecmap_key_bytes(records[other].vec_id));
                assert(records[i].vec_id != records[other].vec_id);
                lemma_vecmap_key(records[i].vec_id, records[other].vec_id);
            }
        }
        assert(is_last_op(ops, k));
        assert(leaves(ops, memory_index::vecmap_key_bytes(records[i].vec_id), w@));
        let (agent, id) = choose|agent: &str, id: &str|
            agent@ == records[i].agent && id@ == records[i].id && #[trigger] call_ensures(
                B::encode_vecmap,
                (builder, agent, id),
                Ok(w),
            );
        assert(call_ensures(B::encode_vecmap, (builder, agent, id), Ok(w)));
    }
    assert forall|i: int| 0 <= i < mappings.len() && !is_key_of(records, (#[trigger] mappings[i]).0@) implies removes(
        ops,
        mappings[i].0@,
    ) by {
        assert forall|j: int| i < j < ops.len() implies (#[trigger] ops[j]).0 != ops[i].0 by {
            assert(ops[i].0 == mappings[i].0@);
            if j < d {
                assert(ops[j].0 == mappings[j].0@);
            } else if j > d && j < last {
                let other = j - d - 1;
                assert(ops[d + 1 + other].0 == memory_index::vecmap_key_bytes(records[other].vec_id));
            } else {
                assert(ops[j].0 == memory_index::META_KEY@);
            }
        }
        assert(is_last_op(ops, i));
    }
    assert(is_last_op(ops, last));
    assert(leaves(ops, memory_index::META_KEY@, v@));
    assert forall|k: int| 0 <= k < ops.len() implies (#[trigger] ops[k]).0 == memory_index::META_KEY@ || has_prefix(
        ops[k].0,
        memory_index::VECMAP_PREFIX@,
    ) by {
        if k < d {
            assert(ops[k] == (mappings[k].0@, None::<Seq<u8>>));
        } else if k > d && k < last {
            let other = k - d - 1;
            assert(ops[d + 1 + other].0 == memory_index::vecmap_key_bytes(records[other].vec_id));
            lemma_vecmap_key(records[other].vec_id, 0);
        }
    }
}

/// The entries are those of the records, in order: each key is the record's
/// own, and the value decodes to its vector and its content.
pub open spec fn are_records<C: IndexCodec>(codec: &C, entries: Seq<(Key, Value)>, records: Seq<LoadedV>) -> bool {
    &&& entries.len() == records.len()
    &&& forall|i: int| 0 <= i < records.len() ==> is_record(codec, entries[i], #[trigger] records[i])
}

/// An entry is that of a record.
pub open spec fn is_record<C: IndexCodec>(codec: &C, entry: (Key, Value), rec: LoadedV) -> bool {
    &&& entry.0@ == memory_index::record_key_bytes(rec.agent, rec.id)
    &&& exists|d: MemoryRecord|
        #[trigger] call_ensures(C::record, (codec, &entry.1), Ok(d)) && d.vec_id == rec.vec_id && d.content@
            == rec.content
}

proof fn lemma_is_record<C: IndexCodec>(codec: &C, entry: (Key, Value), rec: LoadedV)
    requires
        decodes_to(codec, entry, rec),
    ensures
        is_record(codec, entry, rec),
{
    let key = entry.0@;
    let prefix = memory_index::RECORD_PREFIX@;
    let (agent, id) = record_pair(key)->Some_0;
    let suffix = crate::store::verify_logical::parse::after(key, prefix);
    crate::store::verify_logical::parse_laws::lemma_pair_taken(suffix, agent, id);
    assert(key =~= prefix + suffix) by {
        assert(key.subrange(0, prefix.len() as int) =~= prefix);
    }
    assert(key =~= memory_index::record_key_bytes(agent, id));
}

/// What is under a prefix, when it is scanned, is removed as one batch; where
/// there is nothing, nothing is done.
pub open spec fn empties<F: StoreFiles>(
    files: &F,
    t0: Seq<Step>,
    t1: Seq<Step>,
    prefix: Seq<u8>,
    before: Engine,
    after: Engine,
) -> bool {
    exists|entries: Vec<(Key, Value)>, ops: Seq<Row>|
        {
            &&& #[trigger] scans_prefix(files, before, prefix, Ok(entries))
            &&& #[trigger] is_applied(files, t0, t1, before, after, ops)
            &&& ops.len() == entries@.len()
            &&& forall|i: int| 0 <= i < entries@.len() ==> removes(ops, (#[trigger] entries@[i]).0@)
        }
}

proof fn lemma_empties<F: StoreFiles>(
    files: &F,
    t0: Seq<Step>,
    t1: Seq<Step>,
    prefix: Seq<u8>,
    before: Engine,
    after: Engine,
    r: Result<(), EngineError>,
)
    requires
        purges(files, t0, t1, prefix, before, after, r),
        r is Ok,
    ensures
        empties(files, t0, t1, prefix, before, after),
{
    let entries = choose|entries: Vec<(Key, Value)>|
        #[trigger] scans_prefix(files, before, prefix, Ok(entries)) && if entries@.len() == 0 {
            after == before && t1 == t0
        } else {
            applies_staged(files, t0, t1, before, after, deletions(entries@), r)
        };
    let ops = deletions(entries@);
    lemma_scanned_keys(files, before, prefix, entries);
    if entries@.len() == 0 {
        assert(t1.take(t0.len() as int) =~= t0);
        assert(applies(files, t0, t1, before, after, ops, r));
    } else {
        lemma_applied(files, t0, t1, before, after, ops, r);
    }
    assert(is_applied(files, t0, t1, before, after, ops));
    assert forall|i: int| 0 <= i < entries@.len() implies removes(ops, (#[trigger] entries@[i]).0@) by {
        assert(ops[i] == (entries@[i].0@, None::<Seq<u8>>));
        assert forall|j: int| i < j < ops.len() implies (#[trigger] ops[j]).0 != ops[i].0 by {
            assert(ops[j] == (entries@[j].0@, None::<Seq<u8>>));
        }
        assert(is_last_op(ops, i));
    }
}

/// The dimension of the vector graph: as its metadata says, if that is there
/// and decodes; else as the first node has it; none where there is no node.
pub open spec fn tells_dim<F: StoreFiles, C: IndexCodec>(
    files: &F,
    codec: &C,
    before: Engine,
    after: Engine,
    dim: Option<usize>,
) -> bool {
    exists|g: Option<Value>|
        #[trigger] gets(files, before, after, vector_index::META_KEY@, Ok(g)) && {
            ||| g matches Some(v) && exists|meta: VectorIndexMeta|
                #[trigger] call_ensures(C::vector_meta, (codec, &v), Ok(meta)) && dim == Some(meta.dim)
            ||| (g is None || (g matches Some(v) && exists|e: EngineError| #[trigger]
                call_ensures(C::vector_meta, (codec, &v), Err(e)))) && exists|nodes: Vec<(Key, Value)>|
                #[trigger] scans_prefix(files, after, vector_index::NODE_PREFIX@, Ok(nodes)) && if nodes@.len() == 0 {
                    dim is None
                } else {
                    exists|node: VectorNode|
                        #[trigger] call_ensures(C::node, (codec, &nodes@[0].1), Ok(node)) && dim == Some(node.dim)
                }
        }
}

proof fn lemma_tells_dim<F: StoreFiles, C: IndexCodec>(
    files: &F,
    codec: &C,
    before: Engine,
    after: Engine,
    d: Result<Option<usize>, EngineError>,
)
    requires
        finds_dim(files, codec, before, after, d),
        d is Ok,
    ensures
        tells_dim(files, codec, before, after, d->Ok_0),
{
    let g = choose|g: Result<Option<Value>, EngineError>|
        #[trigger] gets(files, before, after, vector_index::META_KEY@, g) && match g {
            Err(e) => false,
            Ok(None) => finds_node_dim(files, codec, after, d),
            Ok(Some(v)) => exists|x: Result<VectorIndexMeta, EngineError>|
                #[trigger] call_ensures(C::vector_meta, (codec, &v), x) && match x {
                    Ok(meta) => d == Ok::<Option<usize>, EngineError>(Some(meta.dim)),
                    Err(_) => finds_node_dim(files, codec, after, d),
                },
        };
    let got = g->Ok_0;
    assert(gets(files, before, after, vector_index::META_KEY@, Ok(got)));
    let by_node = match got {
        None => true,
        Some(v) => {
            let x = choose|x: Result<VectorIndexMeta, EngineError>|
                #[trigger] call_ensures(C::vector_meta, (codec, &v), x) && match x {
                    Ok(meta) => d == Ok::<Option<usize>, EngineError>(Some(meta.dim)),
                    Err(_) => finds_node_dim(files, codec, after, d),
                };
            match x {
                Ok(meta) => {
                    assert(call_ensures(C::vector_meta, (codec, &v), Ok(meta)));
                    false
                },
                Err(e) => {
                    assert(call_ensures(C::vector_meta, (codec, &v), Err(e)));
                    true
                },
            }
        },
    };
    if by_node {
        let nodes = choose|nodes: Vec<(Key, Value)>|
            #[trigger] scans_prefix(files, after, vector_index::NODE_PREFIX@, Ok(nodes)) && if nodes@.len() == 0 {
                d == Ok::<Option<usize>, EngineError>(None)
            } else {
                exists|x: Result<VectorNode, EngineError>|
                    #[trigger] call_ensures(C::node, (codec, &nodes@[0].1), x) && match x {
                        Ok(node) => d == Ok::<Option<usize>, EngineError>(Some(node.dim)),
                        Err(e) => false,
                    }
            };
        if nodes@.len() > 0 {
            let x = choose|x: Result<VectorNode, EngineError>|
                #[trigger] call_ensures(C::node, (codec, &nodes@[0].1), x) && match x {
                    Ok(node) => d == Ok::<Option<usize>, EngineError>(Some(node.dim)),
                    Err(e) => false,
                };
            assert(call_ensures(C::node, (codec, &nodes@[0].1), Ok(x->Ok_0)));
        }
    }
}

/// The vector graph is built where it has a dimension: the builder stages it on
/// the store as it stands, and what it stages is applied. Where it has none,
/// nothing is written.
pub open spec fn builds_graph<F: StoreFiles, B: IndexBuilder>(
    files: &F,
    builder: &B,
    t0: Seq<Step>,
    t1: Seq<Step>,
    before: Engine,
    after: Engine,
    built: bool,
) -> bool {
    exists|mid: Engine, dim: Option<usize>|
        #[trigger] tells_dim(files, builder, before, mid, dim) && built == (dim is Some) && match dim {
            None => after == mid && t1 == t0,
            Some(n) => exists|batch: Batch|
                #[trigger] call_ensures(B::stage_vectors, (builder, &mid, n), Ok(batch)) && is_applied(
                    files,
                    t0,
                    t1,
                    mid,
                    after,
                    batch@,
                ),
        }
}

proof fn lemma_builds_graph<F: StoreFiles, B: IndexBuilder>(
    files: &F,
    builder: &B,
    t0: Seq<Step>,
    t1: Seq<Step>,
    before: Engine,
    after: Engine,
    v: Result<bool, EngineError>,
)
    requires
        rebuilds_vectors(files, t0, t1, builder, before, after, v),
        v is Ok,
    ensures
        builds_graph(files, builder, t0, t1, before, after, v->Ok_0),
{
    let (mid, d) = choose|mid: Engine, d: Result<Option<usize>, EngineError>|
        #[trigger] finds_dim(files, builder, before, mid, d) && match d {
            Err(e) => false,
            Ok(None) => after == mid && t1 == t0 && v == Ok::<bool, EngineError>(false),
            Ok(Some(dim)) => exists|b: Result<Batch, EngineError>|
                #[trigger] call_ensures(B::stage_vectors, (builder, &mid, dim), b) && match b {
                    Err(e) => false,
                    Ok(batch) => exists|a: Result<(), EngineError>|
                        #[trigger] applies_staged(files, t0, t1, mid, after, batch@, a) && a is Ok && v == Ok::<
                            bool,
                            EngineError,
                        >(true),
                },
        };
    lemma_tells_dim(files, builder, before, mid, d);
    if let Some(dim) = d->Ok_0 {
        let b = choose|b: Result<Batch, EngineError>|
            #[trigger] call_ensures(B::stage_vectors, (builder, &mid, dim), b) && match b {
                Err(e) => false,
                Ok(batch) => exists|a: Result<(), EngineError>|
                    #[trigger] applies_staged(files, t0, t1, mid, after, batch@, a) && a is Ok,
            };
        let batch = b->Ok_0;
        let a = choose|a: Result<(), EngineError>|
            #[trigger] applies_staged(files, t0, t1, mid, after, batch@, a) && a is Ok;
        lemma_applied(files, t0, t1, mid, after, batch@, a);
        assert(call_ensures(B::stage_vectors, (builder, &mid, dim), Ok(batch)));
    }
}

/// How many of the first `n` records have a content.
pub open spec fn contents_counted(records: Seq<LoadedV>, n: int) -> int
    decreases n,
{
    if n <= 0 {
        0
    } else {
        contents_counted(records, n - 1) + if records[n - 1].content.len() > 0 {
            1int
        } else {
            0int
        }
    }
}

proof fn lemma_contents_counted(records: Seq<LoadedV>, n: int)
    requires
        0 <= n <= records.len(),
    ensures
        contents_counted(records, n) == documents(records.take(n)),
        contents_counted(records, n) <= n,
    decreases n,
{
    if n > 0 {
        lemma_contents_counted(records, n - 1);
        assert(records.take(n).drop_last() =~= records.take(n - 1));
        assert(records.take(n).last() == records[n - 1]);
    }
}

/// Some node entry is that of a vector, and not deleted.
pub open spec fn is_live_vector<C: IndexCodec>(codec: &C, nodes: Seq<(Key, Value)>, id: u64) -> bool {
    exists|i: int, d: VectorNode|
        0 <= i < nodes.len() && nodes[i].0@ == vector_index::node_key_bytes(id) && #[trigger] call_ensures(
            C::node,
            (codec, &nodes[i].1),
            Ok(d),
        ) && !d.deleted
}

/// The pairs are those of the records at `at`, in order, and these are the
/// records whose vector is not among `ids`.
pub open spec fn picks_vectorless(
    records: Seq<LoadedV>,
    ids: Seq<u64>,
    pairs: Seq<(String, String)>,
    at: Seq<int>,
) -> bool {
    &&& at.len() == pairs.len()
    &&& forall|i: int, j: int| 0 <= i < j < at.len() ==> #[trigger] at[i] < #[trigger] at[j]
    &&& forall|i: int|
        0 <= i < at.len() ==> 0 <= #[trigger] at[i] < records.len() && !ids.contains(records[at[i]].vec_id)
            && pairs[i].0@ == records[at[i]].agent && pairs[i].1@ == records[at[i]].id
    &&& forall|k: int| 0 <= k < records.len() && !ids.contains((#[trigger] records[k]).vec_id) ==> at.contains(k)
}

proof fn lemma_vectorless(records: Seq<LoadedV>, ids: Seq<u64>) -> (at: Seq<int>)
    ensures
        at.len() == vectorless(records, ids).len(),
        forall|i: int, j: int| 0 <= i < j < at.len() ==> #[trigger] at[i] < #[trigger] at[j],
        forall|i: int|
            0 <= i < at.len() ==> 0 <= #[trigger] at[i] < records.len() && !ids.contains(records[at[i]].vec_id)
                && vectorless(records, ids)[i] == (records[at[i]].agent, records[at[i]].id),
        forall|k: int| 0 <= k < records.len() && !ids.contains((#[trigger] records[k]).vec_id) ==> at.contains(k),
    decreases records.len(),
{
    if records.len() == 0 {
        Seq::empty()
    } else {
        let head = records.drop_last();
        let n = head.len() as int;
        let before = lemma_vectorless(head, ids);
        let at = if ids.contains(records.last().vec_id) {
            before
        } else {
            before.push(n)
        };
        assert forall|k: int| 0 <= k < records.len()
            && !ids.contains((#[trigger] records[k]).vec_id) implies at.contains(
            k,
        ) by {
            if k < n {
                assert(head[k] == records[k]);
                assert(before.contains(k));
                let i = choose|i: int| 0 <= i < before.len() && before[i] == k;
                assert(at[i] == k);
            } else {
                assert(at[before.len() as int] == k);
            }
        }
        assert forall|i: int| 0 <= i < at.len() implies 0 <= #[trigger] at[i] < records.len() && !ids.contains(
            records[at[i]].vec_id,
        ) && vectorless(records, ids)[i] == (records[at[i]].agent, records[at[i]].id) by {
            if i < before.len() {
                assert(at[i] == before[i]);
                assert(head[before[i]] == records[before[i]]);
            }
        }
        assert forall|i: int, j: int| 0 <= i < j < at.len() implies #[trigger] at[i] < #[trigger] at[j] by {
            assert(at[i] == before[i]);
            if j < before.len() {
                assert(at[j] == before[j]);
            }
        }
        at
    }
}

proof fn lemma_live_ids<C: IndexCodec>(codec: &C, nodes: Seq<(Key, Value)>, n: int, ids: Seq<u64>)
    requires
        0 <= n <= nodes.len(),
        reads_nodes(codec, nodes, n, ids),
    ensures
        forall|id: u64| #[trigger] ids.contains(id) ==> is_live_vector(codec, nodes, id),
        forall|i: int, id: u64|
            0 <= i < n && (#[trigger] nodes[i]).0@ == #[trigger] vector_index::node_key_bytes(id) && !ids.contains(id)
                ==> is_deleted_node(codec, nodes[i]),
    decreases n,
{
    if n > 0 {
        let before = choose|before: Seq<u64>|
            reads_nodes(codec, nodes, n - 1, before) && #[trigger] reads_node(codec, nodes[n - 1], before, ids);
        lemma_live_ids(codec, nodes, n - 1, before);
        let key = nodes[n - 1].0@;
        let own = vector_index::node_id_of(key)->Some_0;
        vector_index::node_id_is_exact(key, own);
        let d = choose|d: VectorNode|
            {
                &&& vector_index::node_id_of(key) is Some
                &&& #[trigger] call_ensures(C::node, (codec, &nodes[n - 1].1), Ok(d))
                &&& ids == if d.deleted {
                    before
                } else {
                    before.push(own)
                }
            };
        assert forall|id: u64| #[trigger] ids.contains(id) implies is_live_vector(codec, nodes, id) by {
            let k = choose|k: int| 0 <= k < ids.len() && ids[k] == id;
            if k < before.len() {
                assert(before[k] == id);
                assert(before.contains(id));
            } else {
                assert(nodes[n - 1].0@ == vector_index::node_key_bytes(id));
            }
        }
        assert forall|i: int, id: u64|
            0 <= i < n && (#[trigger] nodes[i]).0@ == #[trigger] vector_index::node_key_bytes(id) && !ids.contains(
                id,
            ) implies is_deleted_node(codec, nodes[i]) by {
            if i < n - 1 {
                if before.contains(id) {
                    let k = choose|k: int| 0 <= k < before.len() && before[k] == id;
                    assert(ids[k] == id);
                }
            } else {
                vector_index::node_key_roundtrips(id);
                if !d.deleted {
                    assert(ids[before.len() as int] == own);
                }
            }
        }
    }
}

/// A node entry may say that it is deleted.
pub open spec fn is_deleted_node<C: IndexCodec>(codec: &C, entry: (Key, Value)) -> bool {
    exists|d: VectorNode| #[trigger] call_ensures(C::node, (codec, &entry.1), Ok(d)) && d.deleted
}

/// What a rebuild read, staged and left on its way.
pub struct Rebuilt {
    /// The entries of the primary records, and what they decode to.
    pub entries: Vec<(Key, Value)>,
    pub records: Seq<LoadedV>,
    /// The entries of the nodes, and the vectors that are live.
    pub nodes: Vec<(Key, Value)>,
    pub ids: Seq<u64>,
    /// The old mappings, the nodes and the allocator, as the mappings were made
    /// anew.
    pub mappings: Vec<(Key, Value)>,
    pub numbered: Vec<(Key, Value)>,
    pub stored: Vec<(Key, Value)>,
    pub counter: u64,
    pub next: u64,
    pub ops: Seq<Row>,
    pub mapped: Engine,
    pub mapped_at: Seq<Step>,
    /// The full-text index is empty.
    pub emptied: Engine,
    pub emptied_at: Seq<Step>,
    /// Every record is indexed.
    pub texted: Engine,
    pub texted_at: Seq<Step>,
    pub stations: Stations,
}

/// The allocator stood no higher than `counter`, if what is stored of it has
/// one meaning.
pub open spec fn stood_at<C: IndexCodec>(codec: &C, stored: Seq<(Key, Value)>, counter: u64) -> bool {
    forall|i: int, n: u64|
        0 <= i < stored.len() && (#[trigger] stored[i]).0@ == memory_index::META_KEY@ && #[trigger] means(
            codec,
            stored[i].1,
            n,
        ) ==> n == counter
}

/// A value of the allocator decodes to `n`, and to nothing else.
pub open spec fn means<C: IndexCodec>(codec: &C, value: Value, n: u64) -> bool {
    forall|d: Result<u64, EngineError>| #[trigger]
        call_ensures(C::memory_meta, (codec, &value), d) ==> d == Ok::<u64, EngineError>(n)
}

/// Every primary record is read, as its entry has it, and every vector that is
/// live is known.
#[verifier::opaque]
pub open spec fn reads_all<F: StoreFiles, B: IndexBuilder>(
    files: &F,
    builder: &B,
    engine: Engine,
    entries: Vec<(Key, Value)>,
    records: Seq<LoadedV>,
    nodes: Vec<(Key, Value)>,
    ids: Seq<u64>,
) -> bool {
    &&& scans_prefix(files, engine, memory_index::RECORD_PREFIX@, Ok(entries))
    &&& are_records(builder, entries@, records)
    &&& scans_prefix(files, engine, vector_index::NODE_PREFIX@, Ok(nodes))
    &&& forall|id: u64| #[trigger] ids.contains(id) ==> is_live_vector(builder, nodes@, id)
    &&& forall|i: int, id: u64|
        0 <= i < nodes@.len() && (#[trigger] nodes@[i]).0@ == #[trigger] vector_index::node_key_bytes(id)
            && !ids.contains(id) ==> is_deleted_node(builder, nodes@[i])
}

/// Every record's vector is mapped back to it, as one batch, and every other
/// mapping is removed; no two records share a vector; the allocator is above
/// every id in use.
#[verifier::opaque]
pub open spec fn maps_all<F: StoreFiles, B: IndexBuilder>(
    files: &F,
    builder: &B,
    t0: Seq<Step>,
    t1: Seq<Step>,
    before: Engine,
    after: Engine,
    records: Seq<LoadedV>,
    mappings: Vec<(Key, Value)>,
    numbered: Vec<(Key, Value)>,
    stored: Vec<(Key, Value)>,
    counter: u64,
    next: u64,
    ops: Seq<Row>,
) -> bool {
    &&& scans_prefix(files, before, memory_index::VECMAP_PREFIX@, Ok(mappings))
    &&& scans_prefix(files, before, vector_index::NODE_PREFIX@, Ok(numbered))
    &&& scans_prefix(files, before, memory_index::META_KEY@, Ok(stored))
    &&& stood_at(builder, stored@, counter)
    &&& clears_all(records, mappings@, numbered@, counter, next)
    &&& remaps(builder, records, mappings@, ops, next)
    &&& forall|i: int, j: int|
        0 <= i < j < records.len() ==> (#[trigger] records[i]).vec_id != (#[trigger] records[j]).vec_id
    &&& is_applied(files, t0, t1, before, after, ops)
}

/// The full-text index is emptied, and every record is indexed.
#[verifier::opaque]
pub open spec fn indexes_anew<F: StoreFiles, B: IndexBuilder>(
    files: &F,
    builder: &B,
    t0: Seq<Step>,
    m: Seq<Step>,
    t1: Seq<Step>,
    prefix: Seq<u8>,
    before: Engine,
    emptied: Engine,
    after: Engine,
    records: Seq<LoadedV>,
    stations: Stations,
) -> bool {
    &&& empties(files, t0, m, prefix, before, emptied)
    &&& indexes_every(files, builder, m, t1, emptied, after, records, stations)
}

/// The report counts the records, and those with a content, and names those
/// whose vector is not live.
#[verifier::opaque]
pub open spec fn tells_all(report: RebuildReport, records: Seq<LoadedV>, ids: Seq<u64>) -> bool {
    &&& report.memory_mappings_rebuilt == records.len() as u64
    &&& report.fts_documents_rebuilt == contents_counted(records, records.len() as int) as u64
    &&& exists|at: Seq<int>| #[trigger] picks_vectorless(records, ids, report.reembedding_required@, at)
}

/// Everything that a rebuild that succeeded did: it read all primary records;
/// mapped each of their vectors back, as one batch, removing every other
/// mapping, with the allocator above every id in use; emptied the full-text
/// index; indexed every record; built the vector graph where there is one; and
/// says so.
pub open spec fn is_rebuilt<F: StoreFiles, B: IndexBuilder>(
    files: &F,
    builder: &B,
    t0: Seq<Step>,
    t1: Seq<Step>,
    prefix: Seq<u8>,
    before: Engine,
    after: Engine,
    report: RebuildReport,
    w: Rebuilt,
) -> bool {
    &&& reads_all(files, builder, before, w.entries, w.records, w.nodes, w.ids)
    &&& maps_all(
        files,
        builder,
        t0,
        w.mapped_at,
        before,
        w.mapped,
        w.records,
        w.mappings,
        w.numbered,
        w.stored,
        w.counter,
        w.next,
        w.ops,
    )
    &&& indexes_anew(
        files,
        builder,
        w.mapped_at,
        w.emptied_at,
        w.texted_at,
        prefix,
        w.mapped,
        w.emptied,
        w.texted,
        w.records,
        w.stations,
    )
    &&& builds_graph(files, builder, w.texted_at, t1, w.texted, after, report.vector_graph_rebuilt)
    &&& tells_all(report, w.records, w.ids)
}

proof fn lemma_stood_at<C: IndexCodec>(codec: &C, stored: Seq<(Key, Value)>, counter: u64)
    requires
        counter_in(codec, stored, counter),
        forall|i: int, j: int|
            0 <= i < j < stored.len() ==> (#[trigger] stored[i]).0@ != (#[trigger] stored[j]).0@,
    ensures
        stood_at(codec, stored, counter),
{
    assert forall|i: int, n: u64|
        0 <= i < stored.len() && (#[trigger] stored[i]).0@ == memory_index::META_KEY@ && #[trigger] means(
            codec,
            stored[i].1,
            n,
        ) implies n == counter by {
        assert(is_counter(stored, i)) by {
            assert forall|k: int| 0 <= k < i implies (#[trigger] stored[k]).0@ != memory_index::META_KEY@ by {}
        }
        let (j, d) = choose|j: int, d: Result<u64, EngineError>|
            #[trigger] is_counter(stored, j) && #[trigger] call_ensures(C::memory_meta, (codec, &stored[j].1), d)
                && counter == (match d {
                Ok(n) => n,
                Err(_) => 0,
            });
        if j < i {
            assert(stored[j].0@ != stored[i].0@);
        } else if i < j {
            assert(stored[i].0@ != stored[j].0@);
        }
    }
}

proof fn lemma_clears_all(
    records: Seq<LoadedV>,
    mappings: Seq<(Key, Value)>,
    nodes: Seq<(Key, Value)>,
    counter: u64,
)
    ensures
        clears_all(records, mappings, nodes, counter, next_id(records, mappings, nodes, counter)),
{
    let next = next_id(records, mappings, nodes, counter);
    the_allocator_never_goes_back(records, mappings, nodes, counter);
    assert forall|i: int, id: u64|
        0 <= i < mappings.len() && (#[trigger] mappings[i]).0@ == #[trigger] memory_index::vecmap_key_bytes(
            id,
        ) implies id < next || id == u64::MAX by {
        memory_index::vecmap_key_roundtrips(id);
    }
    assert forall|i: int, id: u64|
        0 <= i < nodes.len() && (#[trigger] nodes[i]).0@ == #[trigger] vector_index::node_key_bytes(id) implies id
        < next || id == u64::MAX by {
        vector_index::node_key_roundtrips(id);
    }
}

proof fn lemma_read<F: StoreFiles, B: IndexBuilder>(
    files: &F,
    builder: &B,
    t0: Seq<Step>,
    t1: Seq<Step>,
    prefix: Seq<u8>,
    before: Engine,
    after: Engine,
    report: RebuildReport,
) -> (w: (Vec<(Key, Value)>, Seq<LoadedV>, Vec<(Key, Value)>, Seq<u64>))
    requires
        rebuilds(files, t0, t1, builder, prefix, before, after, Ok(report)),
    ensures
        reads_all(files, builder, before, w.0, w.1, w.2, w.3),
        rebuilds_from(files, t0, t1, builder, prefix, w.1, w.3, before, after, Ok(report)),
{
    let r: Result<RebuildReport, EngineError> = Ok(report);
    let l = choose|l: Result<Vec<LoadedRecord>, EngineError>|
        #[trigger] loads_records(files, builder, before, l) && match l {
            Err(e) => false,
            Ok(records) => exists|n: Result<Vec<u64>, EngineError>|
                #[trigger] finds_nodes(files, builder, before, n) && match n {
                    Err(e) => false,
                    Ok(ids) => rebuilds_from(
                        files,
                        t0,
                        t1,
                        builder,
                        prefix,
                        loaded(records@),
                        ids@,
                        before,
                        after,
                        r,
                    ),
                },
        };
    let held = l->Ok_0;
    let records = loaded(held@);
    let n = choose|n: Result<Vec<u64>, EngineError>|
        #[trigger] finds_nodes(files, builder, before, n) && match n {
            Err(e) => false,
            Ok(ids) => rebuilds_from(files, t0, t1, builder, prefix, records, ids@, before, after, r),
        };
    let ids = n->Ok_0@;
    let entries = choose|entries: Vec<(Key, Value)>|
        {
            &&& #[trigger] scans_prefix(files, before, memory_index::RECORD_PREFIX@, Ok(entries))
            &&& held@.len() == entries@.len()
            &&& forall|i: int|
                0 <= i < held@.len() ==> decodes_to(builder, entries@[i], (#[trigger] held@[i]).says())
        };
    assert forall|i: int| 0 <= i < records.len() implies is_record(builder, entries@[i], #[trigger] records[i]) by {
        assert(records[i] == held@[i].says());
        lemma_is_record(builder, entries@[i], records[i]);
    }
    let nodes = choose|nodes: Vec<(Key, Value)>|
        #[trigger] scans_prefix(files, before, vector_index::NODE_PREFIX@, Ok(nodes)) && reads_nodes(
            builder,
            nodes@,
            nodes@.len() as int,
            ids,
        );
    lemma_live_ids(builder, nodes@, nodes@.len() as int, ids);
    reveal(reads_all);
    (entries, records, nodes, ids)
}

proof fn lemma_phases<F: StoreFiles, B: IndexBuilder>(
    files: &F,
    builder: &B,
    t0: Seq<Step>,
    t1: Seq<Step>,
    prefix: Seq<u8>,
    before: Engine,
    after: Engine,
    records: Seq<LoadedV>,
    ids: Seq<u64>,
    report: RebuildReport,
) -> (w: (
    Engine,
    Seq<Step>,
    Result<(), EngineError>,
    Engine,
    Seq<Step>,
    Result<(), EngineError>,
    Result<bool, EngineError>,
))
    requires
        rebuilds_from(files, t0, t1, builder, prefix, records, ids, before, after, Ok(report)),
    ensures
        rebuilds_mappings(files, t0, w.1, builder, records, before, w.0, w.2),
        w.2 is Ok,
        rebuilds_fts(files, w.1, w.4, builder, prefix, records, w.0, w.3, w.5),
        w.5 is Ok,
        rebuilds_vectors(files, w.4, t1, builder, w.3, after, w.6),
        w.6 is Ok,
        reports(report, records, ids, w.6->Ok_0),
{
    let (mapped, a, m) = choose|mapped: Engine, a: Seq<Step>, m: Result<(), EngineError>|
        #[trigger] rebuilds_mappings(files, t0, a, builder, records, before, mapped, m) && match m {
            Err(e) => false,
            Ok(()) => exists|texted: Engine, b: Seq<Step>, t: Result<(), EngineError>|
                #[trigger] rebuilds_fts(files, a, b, builder, prefix, records, mapped, texted, t) && match t {
                    Err(e) => false,
                    Ok(()) => exists|v: Result<bool, EngineError>|
                        #[trigger] rebuilds_vectors(files, b, t1, builder, texted, after, v) && match v {
                            Err(e) => false,
                            Ok(vectors) => reports(report, records, ids, vectors),
                        },
                },
        };
    let (texted, b, t) = choose|texted: Engine, b: Seq<Step>, t: Result<(), EngineError>|
        #[trigger] rebuilds_fts(files, a, b, builder, prefix, records, mapped, texted, t) && match t {
            Err(e) => false,
            Ok(()) => exists|v: Result<bool, EngineError>|
                #[trigger] rebuilds_vectors(files, b, t1, builder, texted, after, v) && match v {
                    Err(e) => false,
                    Ok(vectors) => reports(report, records, ids, vectors),
                },
        };
    let v = choose|v: Result<bool, EngineError>|
        #[trigger] rebuilds_vectors(files, b, t1, builder, texted, after, v) && match v {
            Err(e) => false,
            Ok(vectors) => reports(report, records, ids, vectors),
        };
    (mapped, a, m, texted, b, t, v)
}

proof fn lemma_texted<F: StoreFiles, B: IndexBuilder>(
    files: &F,
    builder: &B,
    t0: Seq<Step>,
    t1: Seq<Step>,
    prefix: Seq<u8>,
    before: Engine,
    after: Engine,
    records: Seq<LoadedV>,
    r: Result<(), EngineError>,
) -> (w: (Engine, Seq<Step>, Stations))
    requires
        rebuilds_fts(files, t0, t1, builder, prefix, records, before, after, r),
        r is Ok,
    ensures
        indexes_anew(files, builder, t0, w.1, t1, prefix, before, w.0, after, records, w.2),
{
    let (emptied, p, q) = choose|emptied: Engine, p: Seq<Step>, q: Result<(), EngineError>|
        #[trigger] purges(files, t0, p, prefix, before, emptied, q) && match q {
            Err(e) => false,
            Ok(()) => indexes_all(files, p, t1, builder, records, emptied, after, r),
        };
    lemma_empties(files, t0, p, prefix, before, emptied, q);
    let stations = lemma_indexed(files, builder, p, t1, emptied, after, records, records.len() as int);
    assert(records.take(records.len() as int) =~= records);
    reveal(indexes_anew);
    (emptied, p, stations)
}

proof fn lemma_reports(report: RebuildReport, records: Seq<LoadedV>, ids: Seq<u64>, vectors: bool)
    requires
        reports(report, records, ids, vectors),
    ensures
        report.vector_graph_rebuilt == vectors,
        tells_all(report, records, ids),
{
    reveal(tells_all);
    lemma_contents_counted(records, records.len() as int);
    assert(records.take(records.len() as int) =~= records);
    let at = lemma_vectorless(records, ids);
    let pairs = report.reembedding_required@;
    assert(pairs_of(pairs).len() == pairs.len());
    assert forall|i: int| 0 <= i < at.len() implies 0 <= #[trigger] at[i] < records.len() && !ids.contains(
        records[at[i]].vec_id,
    ) && pairs[i].0@ == records[at[i]].agent && pairs[i].1@ == records[at[i]].id by {
        assert(pairs_of(pairs)[i] == (pairs[i].0@, pairs[i].1@));
    }
    assert(picks_vectorless(records, ids, pairs, at));
}

/// A rebuild that succeeds builds everything again: every primary record is
/// read, mapped and indexed, each as the builder stages it for the record's own
/// agent, vector and content, and each of those batches is in the log; and the
/// report counts them.
pub proof fn a_rebuild_builds_everything_again<F: StoreFiles, B: IndexBuilder>(
    files: &F,
    builder: &B,
    t0: Seq<Step>,
    t1: Seq<Step>,
    prefix: Seq<u8>,
    before: Engine,
    after: Engine,
    report: RebuildReport,
) -> (w: Rebuilt)
    requires
        rebuilds(files, t0, t1, builder, prefix, before, after, Ok(report)),
    ensures
        is_rebuilt(files, builder, t0, t1, prefix, before, after, report, w),
{
    let (entries, records, nodes, ids) = lemma_read(files, builder, t0, t1, prefix, before, after, report);
    let (mapped, a, m, texted, b, t, v) = lemma_phases(
        files,
        builder,
        t0,
        t1,
        prefix,
        before,
        after,
        records,
        ids,
        report,
    );
    lemma_builds_graph(files, builder, b, t1, texted, after, v);
    let made = lemma_mapped(files, builder, t0, a, before, mapped, records, m);
    let (emptied, p, stations) = lemma_texted(files, builder, a, b, prefix, mapped, texted, records, t);
    lemma_reports(report, records, ids, v->Ok_0);
    Rebuilt {
        entries,
        records,
        nodes,
        ids,
        mappings: made.0,
        numbered: made.1,
        stored: made.2,
        counter: made.3,
        next: made.4,
        ops: made.5,
        mapped,
        mapped_at: a,
        emptied,
        emptied_at: p,
        texted,
        texted_at: b,
        stations,
    }
}

proof fn lemma_mapped<F: StoreFiles, B: IndexBuilder>(
    files: &F,
    builder: &B,
    t0: Seq<Step>,
    t1: Seq<Step>,
    before: Engine,
    after: Engine,
    records: Seq<LoadedV>,
    r: Result<(), EngineError>,
) -> (w: (Vec<(Key, Value)>, Vec<(Key, Value)>, Vec<(Key, Value)>, u64, u64, Seq<Row>))
    requires
        rebuilds_mappings(files, t0, t1, builder, records, before, after, r),
        r is Ok,
    ensures
        maps_all(files, builder, t0, t1, before, after, records, w.0, w.1, w.2, w.3, w.4, w.5),
{
    let (mappings, nodes, stored) = choose|
        mappings: Vec<(Key, Value)>,
        nodes: Vec<(Key, Value)>,
        stored: Vec<(Key, Value)>,
    |
        {
            &&& #[trigger] scans_prefix(files, before, memory_index::VECMAP_PREFIX@, Ok(mappings))
            &&& #[trigger] scans_prefix(files, before, vector_index::NODE_PREFIX@, Ok(nodes))
            &&& #[trigger] scans_prefix(files, before, memory_index::META_KEY@, Ok(stored))
            &&& maps_anew(
                files,
                t0,
                t1,
                builder,
                records,
                mappings@,
                nodes@,
                stored@,
                before,
                after,
                r,
            )
        };
    let (rows, counter, m) = choose|rows: Seq<Row>, counter: u64, m: Result<Vec<u8>, EngineError>|
        {
            &&& #[trigger] maps_records(builder, records, records.len() as int, rows)
            &&& #[trigger] counter_in(builder, stored@, counter)
            &&& #[trigger] encodes_allocator(builder, next_id(records, mappings@, nodes@, counter), m)
            &&& match m {
                Err(e) => false,
                Ok(v) => applies_staged(files, t0, t1, before, after, mapping_rows(mappings@, rows, v@), r),
            }
        };
    let v = m->Ok_0;
    let next = next_id(records, mappings@, nodes@, counter);
    let ops = mapping_rows(mappings@, rows, v@);
    lemma_scanned_keys(files, before, memory_index::VECMAP_PREFIX@, mappings);
    lemma_scanned_keys(files, before, memory_index::META_KEY@, stored);
    lemma_stood_at(builder, stored@, counter);
    lemma_clears_all(records, mappings@, nodes@, counter);
    lemma_remaps(builder, records, mappings@, rows, v, next);
    lemma_applied(files, t0, t1, before, after, ops, r);
    reveal(maps_all);
    (mappings, nodes, stored, counter, next, ops)
}

} // verus!
