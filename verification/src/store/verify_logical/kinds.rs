//! Which kinds of findings are errors.
use super::parse::{parses, takes};
use super::{checks_logic, fts, is_populated, logical_errors, logical_warnings, memory, vector};
use super::{DocV, FtsPrefixes, IndexCodec, NodeV, ViewV};
use crate::key::Key;
use crate::store::verify::{flat, Finding, IssueKind, Tally};
use crate::store::Value;
use vstd::prelude::*;

verus! {

/// A kind of finding that is never more than a warning.
pub open spec fn only_warns(kind: IssueKind) -> bool {
    ||| kind == IssueKind::WalTornTail
    ||| kind == IssueKind::OrphanTmpFile
    ||| kind == IssueKind::UnknownFile
    ||| kind == IssueKind::VectorMetaInconsistent
    ||| kind == IssueKind::GraphEdgeDangling
    ||| kind == IssueKind::LogicalChecksSkipped
}

/// None of the errors is of a kind that only warns.
pub open spec fn proper(errors: Seq<Finding>) -> bool {
    forall|i: int| 0 <= i < errors.len() ==> !only_warns((#[trigger] errors[i]).kind)
}

/// Findings that are proper stay so together.
pub proof fn lemma_proper_concat(a: Seq<Finding>, b: Seq<Finding>)
    requires
        proper(a),
        proper(b),
    ensures
        proper(a + b),
{
}

/// Findings that are proper for each are so for all.
pub proof fn lemma_proper_flat(n: nat, f: spec_fn(int) -> Seq<Finding>)
    requires
        forall|i: int| 0 <= i < n ==> proper(#[trigger] f(i)),
    ensures
        proper(flat(n, f)),
    decreases n,
{
    if n > 0 {
        lemma_proper_flat((n - 1) as nat, f);
        assert(proper(f(n - 1)));
    }
}

proof fn lemma_memory_errors(v: ViewV, dir: Seq<char>)
    ensures
        proper(memory::link_errors(v, dir)),
{
    let records = memory::record_errors(v, dir);
    let mappings = memory::vecmap_errors(v, dir);
    let nodes = memory::node_errors(v, dir);
    assert forall|i: int| 0 <= i < v.records.len() implies proper(#[trigger] records(i)) by {
        assert(proper(memory::claim_errors(v, dir, i)));
        assert(proper(memory::mapping_errors(v, dir, v.records[i])));
        assert(proper(memory::vector_errors(v, dir, v.records[i])));
    }
    assert forall|i: int| 0 <= i < v.vecmap.len() implies proper(#[trigger] mappings(i)) by {
        assert(proper(memory::vecmap_error(v, dir, v.vecmap[i])));
    }
    assert forall|i: int| 0 <= i < v.nodes.len() implies proper(#[trigger] nodes(i)) by {}
    lemma_proper_flat(v.records.len(), records);
    lemma_proper_flat(v.vecmap.len(), mappings);
    lemma_proper_flat(v.nodes.len(), nodes);
    assert(proper(memory::allocator_errors(v, dir)));
}

proof fn lemma_node_errors(v: ViewV, dir: Seq<char>, node: NodeV)
    ensures
        proper(flat(node.neighbors.len(), vector::neighbor_errors(v, dir, node))),
{
    let f = vector::neighbor_errors(v, dir, node);
    assert forall|i: int| 0 <= i < node.neighbors.len() implies proper(#[trigger] f(i)) by {}
    lemma_proper_flat(node.neighbors.len(), f);
}

proof fn lemma_vector_errors(v: ViewV, dir: Seq<char>)
    ensures
        proper(vector::vector_index_errors(v, dir)),
{
    let f = vector::node_errors(v, dir);
    assert forall|i: int| 0 <= i < v.nodes.len() implies proper(#[trigger] f(i)) by {
        assert(proper(vector::dim_errors(v, dir, v.nodes[i])));
        lemma_node_errors(v, dir, v.nodes[i]);
    }
    lemma_proper_flat(v.nodes.len(), f);
}

proof fn lemma_doc_errors(v: ViewV, dir: Seq<char>, doc: DocV)
    ensures
        proper(flat(doc.terms.len(), fts::doc_term_errors(v, dir, doc))),
        proper(fts::owner_errors(v, dir, doc)),
{
    let f = fts::doc_term_errors(v, dir, doc);
    assert forall|i: int| 0 <= i < doc.terms.len() implies proper(#[trigger] f(i)) by {
        assert(proper(fts::term_errors(v, dir, doc, doc.terms[i])));
    }
    lemma_proper_flat(doc.terms.len(), f);
}

proof fn lemma_fts_errors(v: ViewV, populated: bool, dir: Seq<char>)
    ensures
        proper(fts::fts_errors(v, populated, dir)),
{
    let docs = fts::doc_errors(v, populated, dir);
    let postings = fts::posting_errors(v, dir);
    let stats = fts::stats_errors(v, dir);
    let empty = fts::empty_stats_errors(v, dir);
    let agents = fts::recomputed(v.docterms).len();
    assert forall|i: int| 0 <= i < v.docterms.len() implies proper(#[trigger] docs(i)) by {
        lemma_doc_errors(v, dir, v.docterms[i]);
    }
    assert forall|i: int| 0 <= i < v.postings.len() implies proper(#[trigger] postings(i)) by {}
    assert forall|i: int| 0 <= i < agents implies proper(#[trigger] stats(i)) by {}
    assert forall|i: int| 0 <= i < v.fts_stats.len() implies proper(#[trigger] empty(i)) by {}
    lemma_proper_flat(v.docterms.len(), docs);
    lemma_proper_flat(v.postings.len(), postings);
    lemma_proper_flat(agents, stats);
    lemma_proper_flat(v.fts_stats.len(), empty);
}

proof fn lemma_taken<C: IndexCodec>(
    codec: &C,
    prefixes: FtsPrefixes,
    key: &Key,
    value: &Value,
    dir: Seq<char>,
    before: ViewV,
    t: Tally,
    after: ViewV,
    u: Tally,
)
    requires
        proper(t.errors),
        takes(codec, prefixes, key, value, dir, before, t, after, u),
    ensures
        proper(u.errors),
{
}

proof fn lemma_parsed<C: IndexCodec>(
    codec: &C,
    prefixes: FtsPrefixes,
    kv: Seq<(Key, Value)>,
    n: int,
    dir: Seq<char>,
    t: Tally,
    v: ViewV,
    u: Tally,
)
    requires
        proper(t.errors),
        parses(codec, prefixes, kv, n, dir, t, v, u),
    ensures
        proper(u.errors),
    decreases n,
{
    if n > 0 {
        let (mid, m) = choose|mid: ViewV, m: Tally|
            parses(codec, prefixes, kv, n - 1, dir, t, mid, m) && #[trigger] takes(
                codec,
                prefixes,
                &kv[n - 1].0,
                &kv[n - 1].1,
                dir,
                mid,
                m,
                v,
                u,
            );
        lemma_parsed(codec, prefixes, kv, n - 1, dir, t, mid, m);
        lemma_taken(codec, prefixes, &kv[n - 1].0, &kv[n - 1].1, dir, mid, m, v, u);
    }
}

/// The logical checks report a graph edge without an end, and metadata of the
/// vector index that does not match it, as warnings, never as errors.
pub proof fn logical_checks_only_warn_of_what_heals<C: IndexCodec>(
    codec: &C,
    prefixes: FtsPrefixes,
    kv: Seq<(Key, Value)>,
    dir: Seq<char>,
    before: Tally,
    after: Tally,
)
    requires
        proper(before.errors),
        checks_logic(codec, prefixes, kv, dir, before, after),
    ensures
        proper(after.errors),
{
    let (v, mid) = choose|v: ViewV, mid: Tally|
        #[trigger] parses(codec, prefixes, kv, kv.len() as int, dir, before, v, mid) && after == mid.with(
            logical_errors(v, dir),
            logical_warnings(v, dir),
        );
    lemma_parsed(codec, prefixes, kv, kv.len() as int, dir, before, v, mid);
    lemma_memory_errors(v, dir);
    lemma_vector_errors(v, dir);
    lemma_fts_errors(v, is_populated(v), dir);
    assert(proper(logical_errors(v, dir)));
    lemma_proper_concat(mid.errors, logical_errors(v, dir));
}

} // verus!
