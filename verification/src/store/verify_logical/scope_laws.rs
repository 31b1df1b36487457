//! What the logical checks go by.
use super::laws::{logical_checks_see_reserved_keys_alone, reserved};
use super::parse::{parses, takes, IDX_PREFIX};
use super::{
    checks_logic, fts, graph, is_populated, logical_errors, logical_warnings, no_view, terms_of, vector, DocV,
    FtsPrefixes, FtsStats, IndexCodec, MemoryRecord, NodeV, TermCount, VecMapEntry, VectorIndexMeta, VectorNode, ViewV,
};
use crate::bytes::has_prefix;
use crate::error::EngineError;
use crate::key::{memory_index, Key};
use crate::store::layers::pairs_view;
use crate::store::verify::{flat, Finding, IssueKind, Tally};
use crate::store::Value;
use vstd::prelude::*;

verus! {

/// Two refusals say the same.
pub open spec fn same_refusal(d: EngineError, e: EngineError) -> bool {
    d.text() == e.text()
}

/// Asked to decode the same bytes, `codec` answers the same.
pub open spec fn is_settled_codec<C: IndexCodec>(codec: &C) -> bool {
    &&& forall|v: &Value, w: &Value, a: Result<u64, EngineError>, b: Result<u64, EngineError>|
        #[trigger] call_ensures(C::memory_meta, (codec, v), a) && #[trigger] call_ensures(C::memory_meta, (codec, w), b)
            && v@ == w@ ==> match (a, b) {
            (Ok(x), Ok(y)) => x == y,
            (Err(d), Err(e)) => same_refusal(d, e),
            _ => false,
        }
    &&& forall|v: &Value, w: &Value, a: Result<MemoryRecord, EngineError>, b: Result<MemoryRecord, EngineError>|
        #[trigger] call_ensures(C::record, (codec, v), a) && #[trigger] call_ensures(C::record, (codec, w), b)
            && v@ == w@
            ==> match (a, b) {
            (Ok(x), Ok(y)) => x.vec_id == y.vec_id,
            (Err(d), Err(e)) => same_refusal(d, e),
            _ => false,
        }
    &&& forall|v: &Value, w: &Value, a: Result<VecMapEntry, EngineError>, b: Result<VecMapEntry, EngineError>|
        #[trigger] call_ensures(C::vecmap, (codec, v), a) && #[trigger] call_ensures(C::vecmap, (codec, w), b)
            && v@ == w@
            ==> match (a, b) {
            (Ok(x), Ok(y)) => x.agent@ == y.agent@ && x.id@ == y.id@,
            (Err(d), Err(e)) => same_refusal(d, e),
            _ => false,
        }
    &&& forall|v: &Value, w: &Value, a: Result<VectorIndexMeta, EngineError>, b: Result<VectorIndexMeta, EngineError>|
        #[trigger] call_ensures(C::vector_meta, (codec, v), a) && #[trigger] call_ensures(C::vector_meta, (codec, w), b)
            && v@ == w@ ==> match (a, b) {
            (Ok(x), Ok(y)) => x == y,
            (Err(d), Err(e)) => same_refusal(d, e),
            _ => false,
        }
    &&& forall|v: &Value, w: &Value, a: Result<VectorNode, EngineError>, b: Result<VectorNode, EngineError>|
        #[trigger] call_ensures(C::node, (codec, v), a) && #[trigger] call_ensures(C::node, (codec, w), b) && v@ == w@
            ==> match (a, b) {
            (Ok(x), Ok(y)) => x.dim == y.dim && x.neighbors@ == y.neighbors@ && x.deleted == y.deleted,
            (Err(d), Err(e)) => same_refusal(d, e),
            _ => false,
        }
    &&& forall|v: &Value, w: &Value, a: Result<u32, EngineError>, b: Result<u32, EngineError>|
        #[trigger] call_ensures(C::posting, (codec, v), a) && #[trigger] call_ensures(C::posting, (codec, w), b)
            && v@ == w@
            ==> match (a, b) {
            (Ok(x), Ok(y)) => x == y,
            (Err(d), Err(e)) => same_refusal(d, e),
            _ => false,
        }
    &&& forall|v: &Value, w: &Value, a: Result<Vec<TermCount>, EngineError>, b: Result<Vec<TermCount>, EngineError>|
        #[trigger] call_ensures(C::docterms, (codec, v), a) && #[trigger] call_ensures(C::docterms, (codec, w), b)
            && v@ == w@ ==> match (a, b) {
            (Ok(x), Ok(y)) => terms_of(x@) == terms_of(y@),
            (Err(d), Err(e)) => same_refusal(d, e),
            _ => false,
        }
    &&& forall|v: &Value, w: &Value, a: Result<FtsStats, EngineError>, b: Result<FtsStats, EngineError>|
        #[trigger] call_ensures(C::fts_stats, (codec, v), a) && #[trigger] call_ensures(C::fts_stats, (codec, w), b)
            && v@ == w@ ==> match (a, b) {
            (Ok(x), Ok(y)) => x == y,
            (Err(d), Err(e)) => same_refusal(d, e),
            _ => false,
        }
    &&& forall|v: &Value, w: &Value, a: Result<(), EngineError>, b: Result<(), EngineError>|
        #[trigger] call_ensures(C::entity, (codec, v), a) && #[trigger] call_ensures(C::entity, (codec, w), b)
            && v@ == w@
            ==> match (a, b) {
            (Ok(_), Ok(_)) => true,
            (Err(d), Err(e)) => same_refusal(d, e),
            _ => false,
        }
    &&& forall|v: &Value, w: &Value, a: Result<(), EngineError>, b: Result<(), EngineError>|
        #[trigger] call_ensures(C::edge, (codec, v), a) && #[trigger] call_ensures(C::edge, (codec, w), b) && v@ == w@
            ==> match (a, b) {
            (Ok(_), Ok(_)) => true,
            (Err(d), Err(e)) => same_refusal(d, e),
            _ => false,
        }
}

proof fn lemma_taken_alike<C: IndexCodec>(
    codec: &C,
    prefixes: FtsPrefixes,
    key: &Key,
    value: &Value,
    other_key: &Key,
    other_value: &Value,
    dir: Seq<char>,
    before: ViewV,
    t: Tally,
    x: ViewV,
    u: Tally,
    y: ViewV,
    w: Tally,
)
    requires
        is_settled_codec(codec),
        key@ == other_key@,
        value@ == other_value@,
        takes(codec, prefixes, key, value, dir, before, t, x, u),
        takes(codec, prefixes, other_key, other_value, dir, before, t, y, w),
    ensures
        x == y,
        u == w,
{
}

proof fn lemma_parsed_alike<C: IndexCodec>(
    codec: &C,
    prefixes: FtsPrefixes,
    a: Seq<(Key, Value)>,
    b: Seq<(Key, Value)>,
    n: int,
    dir: Seq<char>,
    t: Tally,
    x: ViewV,
    u: Tally,
    y: ViewV,
    w: Tally,
)
    requires
        is_settled_codec(codec),
        0 <= n <= a.len(),
        pairs_view(a) == pairs_view(b),
        parses(codec, prefixes, a, n, dir, t, x, u),
        parses(codec, prefixes, b, n, dir, t, y, w),
    ensures
        x == y,
        u == w,
    decreases n,
{
    if n > 0 {
        let (p, m) = choose|p: ViewV, m: Tally|
            parses(codec, prefixes, a, n - 1, dir, t, p, m) && #[trigger] takes(
                codec,
                prefixes,
                &a[n - 1].0,
                &a[n - 1].1,
                dir,
                p,
                m,
                x,
                u,
            );
        let (q, o) = choose|q: ViewV, o: Tally|
            parses(codec, prefixes, b, n - 1, dir, t, q, o) && #[trigger] takes(
                codec,
                prefixes,
                &b[n - 1].0,
                &b[n - 1].1,
                dir,
                q,
                o,
                y,
                w,
            );
        lemma_parsed_alike(codec, prefixes, a, b, n - 1, dir, t, p, m, q, o);
        assert(pairs_view(a).len() == a.len() && pairs_view(b).len() == b.len());
        assert(pairs_view(a)[n - 1] == pairs_view(b)[n - 1]);
        assert(pairs_view(a)[n - 1] == (a[n - 1].0@, a[n - 1].1@));
        assert(pairs_view(b)[n - 1] == (b[n - 1].0@, b[n - 1].1@));
        lemma_taken_alike(
            codec,
            prefixes,
            &a[n - 1].0,
            &a[n - 1].1,
            &b[n - 1].0,
            &b[n - 1].1,
            dir,
            p,
            m,
            x,
            u,
            y,
            w,
        );
    }
}

/// Two stores that hold the same under the reserved prefix, whatever else they
/// hold, get the same findings from the logical checks, in the same order,
/// where the codec answers the same for the same bytes.
pub proof fn the_same_reserved_entries_give_the_same_findings<C: IndexCodec>(
    codec: &C,
    prefixes: FtsPrefixes,
    a: Seq<(Key, Value)>,
    b: Seq<(Key, Value)>,
    dir: Seq<char>,
    before: Tally,
    x: Tally,
    y: Tally,
)
    requires
        is_settled_codec(codec),
        pairs_view(reserved(a)) == pairs_view(reserved(b)),
        checks_logic(codec, prefixes, a, dir, before, x),
        checks_logic(codec, prefixes, b, dir, before, y),
    ensures
        x == y,
{
    logical_checks_see_reserved_keys_alone(codec, prefixes, a, dir, before, x);
    logical_checks_see_reserved_keys_alone(codec, prefixes, b, dir, before, y);
    let c = reserved(a);
    let d = reserved(b);
    let n = c.len() as int;
    assert(pairs_view(c).len() == n && pairs_view(d).len() == d.len());
    let (v, m) = choose|v: ViewV, m: Tally|
        #[trigger] parses(codec, prefixes, c, n, dir, before, v, m) && x == m.with(
            logical_errors(v, dir),
            logical_warnings(v, dir),
        );
    let (w, o) = choose|w: ViewV, o: Tally|
        #[trigger] parses(codec, prefixes, d, d.len() as int, dir, before, w, o) && y == o.with(
            logical_errors(w, dir),
            logical_warnings(w, dir),
        );
    lemma_parsed_alike(codec, prefixes, c, d, n, dir, before, v, m, w, o);
}

/// A store without reserved keys has no logical findings.
pub proof fn nothing_reserved_has_no_findings<C: IndexCodec>(
    codec: &C,
    prefixes: FtsPrefixes,
    kv: Seq<(Key, Value)>,
    dir: Seq<char>,
    before: Tally,
    after: Tally,
)
    requires
        forall|i: int| 0 <= i < kv.len() ==> !has_prefix((#[trigger] kv[i]).0@, IDX_PREFIX@),
        checks_logic(codec, prefixes, kv, dir, before, after),
    ensures
        after.errors == before.errors,
        after.warnings == before.warnings,
{
    logical_checks_see_reserved_keys_alone(codec, prefixes, kv, dir, before, after);
    lemma_none_reserved(kv);
    let none = reserved(kv);
    let (v, m) = choose|v: ViewV, m: Tally|
        #[trigger] parses(codec, prefixes, none, none.len() as int, dir, before, v, m) && after == m.with(
            logical_errors(v, dir),
            logical_warnings(v, dir),
        );
    assert(v == no_view() && m == before);
    assert(fts::recomputed(v.docterms).len() == 0);
    assert(logical_errors(v, dir) =~= Seq::<Finding>::empty());
    assert(logical_warnings(v, dir) =~= Seq::<Finding>::empty());
    assert(before.errors + Seq::<Finding>::empty() =~= before.errors);
    assert(before.warnings + Seq::<Finding>::empty() =~= before.warnings);
}

proof fn lemma_none_reserved(kv: Seq<(Key, Value)>)
    requires
        forall|i: int| 0 <= i < kv.len() ==> !has_prefix((#[trigger] kv[i]).0@, IDX_PREFIX@),
    ensures
        reserved(kv).len() == 0,
    decreases kv.len(),
{
    if kv.len() > 0 {
        let head = kv.drop_last();
        assert forall|i: int| 0 <= i < head.len() implies !has_prefix((#[trigger] head[i]).0@, IDX_PREFIX@) by {
            assert(head[i] == kv[i]);
        }
        lemma_none_reserved(head);
        assert(!has_prefix(kv[kv.len() - 1].0@, IDX_PREFIX@));
    }
}

/// None of the findings is about the links of the memory keyspace or its
/// allocator.
pub open spec fn spares_memory(findings: Seq<Finding>) -> bool {
    forall|i: int|
        0 <= i < findings.len() ==> (#[trigger] findings[i]).kind != IssueKind::MemoryLinkBroken && findings[i].kind
            != IssueKind::AllocatorStale
}

proof fn lemma_spares_flat(n: nat, f: spec_fn(int) -> Seq<Finding>)
    requires
        forall|i: int| 0 <= i < n ==> spares_memory(#[trigger] f(i)),
    ensures
        spares_memory(flat(n, f)),
    decreases n,
{
    if n > 0 {
        lemma_spares_flat((n - 1) as nat, f);
        assert(spares_memory(f(n - 1)));
    }
}

proof fn lemma_neighbors_spare(v: ViewV, dir: Seq<char>, node: NodeV)
    ensures
        spares_memory(flat(node.neighbors.len(), vector::neighbor_errors(v, dir, node))),
{
    let f = vector::neighbor_errors(v, dir, node);
    assert forall|i: int| 0 <= i < node.neighbors.len() implies spares_memory(#[trigger] f(i)) by {}
    lemma_spares_flat(node.neighbors.len(), f);
}

proof fn lemma_vectors_spare(v: ViewV, dir: Seq<char>)
    ensures
        spares_memory(vector::vector_index_errors(v, dir)),
        spares_memory(vector::vector_index_warnings(v, dir)),
{
    let f = vector::node_errors(v, dir);
    assert forall|i: int| 0 <= i < v.nodes.len() implies spares_memory(#[trigger] f(i)) by {
        assert(spares_memory(vector::dim_errors(v, dir, v.nodes[i])));
        lemma_neighbors_spare(v, dir, v.nodes[i]);
    }
    lemma_spares_flat(v.nodes.len(), f);
    if let Some(meta) = v.vector_meta {
        assert(spares_memory(vector::meta_warnings(v, dir, meta)));
    }
}

proof fn lemma_doc_spares(v: ViewV, dir: Seq<char>, doc: DocV)
    ensures
        spares_memory(flat(doc.terms.len(), fts::doc_term_errors(v, dir, doc))),
        spares_memory(fts::owner_errors(v, dir, doc)),
{
    let f = fts::doc_term_errors(v, dir, doc);
    assert forall|i: int| 0 <= i < doc.terms.len() implies spares_memory(#[trigger] f(i)) by {
        assert(spares_memory(fts::term_errors(v, dir, doc, doc.terms[i])));
    }
    lemma_spares_flat(doc.terms.len(), f);
}

proof fn lemma_texts_spare(v: ViewV, populated: bool, dir: Seq<char>)
    ensures
        spares_memory(fts::fts_errors(v, populated, dir)),
        spares_memory(fts::fts_warnings(v, dir)),
{
    let docs = fts::doc_errors(v, populated, dir);
    let postings = fts::posting_errors(v, dir);
    let stats = fts::stats_errors(v, dir);
    let empty = fts::empty_stats_errors(v, dir);
    let missing = fts::stats_warnings(v, dir);
    let agents = fts::recomputed(v.docterms).len();
    assert forall|i: int| 0 <= i < v.docterms.len() implies spares_memory(#[trigger] docs(i)) by {
        lemma_doc_spares(v, dir, v.docterms[i]);
    }
    assert forall|i: int| 0 <= i < v.postings.len() implies spares_memory(#[trigger] postings(i)) by {}
    assert forall|i: int| 0 <= i < agents implies spares_memory(#[trigger] stats(i)) by {}
    assert forall|i: int| 0 <= i < v.fts_stats.len() implies spares_memory(#[trigger] empty(i)) by {}
    assert forall|i: int| 0 <= i < agents implies spares_memory(#[trigger] missing(i)) by {}
    lemma_spares_flat(v.docterms.len(), docs);
    lemma_spares_flat(v.postings.len(), postings);
    lemma_spares_flat(agents, stats);
    lemma_spares_flat(v.fts_stats.len(), empty);
    lemma_spares_flat(agents, missing);
}

proof fn lemma_graph_spares(v: ViewV, dir: Seq<char>)
    ensures
        spares_memory(graph::graph_warnings(v, dir)),
{
    let f = graph::edge_warnings(v, dir);
    assert forall|i: int| 0 <= i < v.edges.len() implies spares_memory(#[trigger] f(i)) by {}
    lemma_spares_flat(v.edges.len(), f);
}

/// The view has nothing of the memory keyspace.
pub open spec fn is_unpopulated(v: ViewV) -> bool {
    v.records.len() == 0 && v.vecmap.len() == 0 && v.memory_meta is None
}

proof fn lemma_not_memory(key: Seq<u8>)
    requires
        !has_prefix(key, memory_index::INDEX_PREFIX@),
    ensures
        key != memory_index::META_KEY@,
        !has_prefix(key, memory_index::RECORD_PREFIX@),
        !has_prefix(key, memory_index::VECMAP_PREFIX@),
{
    let p = memory_index::INDEX_PREFIX@;
    assert(memory_index::META_KEY@.subrange(0, 11) =~= p);
    assert(memory_index::RECORD_PREFIX@.subrange(0, 11) =~= p);
    assert(memory_index::VECMAP_PREFIX@.subrange(0, 11) =~= p);
    if has_prefix(key, memory_index::RECORD_PREFIX@) {
        assert(key.subrange(0, 15).subrange(0, 11) =~= key.subrange(0, 11));
    }
    if has_prefix(key, memory_index::VECMAP_PREFIX@) {
        assert(key.subrange(0, 18).subrange(0, 11) =~= key.subrange(0, 11));
    }
}

proof fn lemma_taken_unpopulated<C: IndexCodec>(
    codec: &C,
    prefixes: FtsPrefixes,
    key: &Key,
    value: &Value,
    dir: Seq<char>,
    before: ViewV,
    t: Tally,
    after: ViewV,
    u: Tally,
)
    requires
        !has_prefix(key@, memory_index::INDEX_PREFIX@),
        is_unpopulated(before),
        takes(codec, prefixes, key, value, dir, before, t, after, u),
    ensures
        is_unpopulated(after),
        spares_memory(t.errors) ==> spares_memory(u.errors),
        spares_memory(t.warnings) ==> spares_memory(u.warnings),
{
    lemma_not_memory(key@);
}

proof fn lemma_parsed_unpopulated<C: IndexCodec>(
    codec: &C,
    prefixes: FtsPrefixes,
    kv: Seq<(Key, Value)>,
    n: int,
    dir: Seq<char>,
    t: Tally,
    v: ViewV,
    u: Tally,
)
    requires
        n <= kv.len(),
        forall|i: int| 0 <= i < kv.len() ==> !has_prefix((#[trigger] kv[i]).0@, memory_index::INDEX_PREFIX@),
        parses(codec, prefixes, kv, n, dir, t, v, u),
    ensures
        is_unpopulated(v),
        spares_memory(t.errors) ==> spares_memory(u.errors),
        spares_memory(t.warnings) ==> spares_memory(u.warnings),
    decreases n,
{
    if n > 0 {
        let (p, m) = choose|p: ViewV, m: Tally|
            parses(codec, prefixes, kv, n - 1, dir, t, p, m) && #[trigger] takes(
                codec,
                prefixes,
                &kv[n - 1].0,
                &kv[n - 1].1,
                dir,
                p,
                m,
                v,
                u,
            );
        lemma_parsed_unpopulated(codec, prefixes, kv, n - 1, dir, t, p, m);
        assert(!has_prefix(kv[n - 1].0@, memory_index::INDEX_PREFIX@));
        lemma_taken_unpopulated(codec, prefixes, &kv[n - 1].0, &kv[n - 1].1, dir, p, m, v, u);
    }
}

/// A store without keys of the memory keyspace is not faulted for it: no broken
/// link and no stale allocator is found, as a vector index may stand alone.
pub proof fn a_vector_index_may_stand_alone<C: IndexCodec>(
    codec: &C,
    prefixes: FtsPrefixes,
    kv: Seq<(Key, Value)>,
    dir: Seq<char>,
    before: Tally,
    after: Tally,
)
    requires
        forall|i: int| 0 <= i < kv.len() ==> !has_prefix((#[trigger] kv[i]).0@, memory_index::INDEX_PREFIX@),
        checks_logic(codec, prefixes, kv, dir, before, after),
    ensures
        spares_memory(before.errors) ==> spares_memory(after.errors),
        spares_memory(before.warnings) ==> spares_memory(after.warnings),
{
    let (v, m) = choose|v: ViewV, m: Tally|
        #[trigger] parses(codec, prefixes, kv, kv.len() as int, dir, before, v, m) && after == m.with(
            logical_errors(v, dir),
            logical_warnings(v, dir),
        );
    lemma_parsed_unpopulated(codec, prefixes, kv, kv.len() as int, dir, before, v, m);
    assert(!is_populated(v));
    lemma_vectors_spare(v, dir);
    lemma_texts_spare(v, false, dir);
    lemma_graph_spares(v, dir);
    assert(spares_memory(logical_errors(v, dir)));
    assert(spares_memory(logical_warnings(v, dir)));
}

} // verus!
