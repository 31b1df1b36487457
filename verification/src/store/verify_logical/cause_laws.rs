//! Which finding has which cause: each kind is told exactly if what it stands
//! for is there.
use super::fts::{
    doc_errors, doc_key, doc_term_errors, empty_stats_errors, fts_errors, fts_warnings, has_agent, is_listed,
    lists_term, owner_errors, posting_errors, posting_key, recomputed, stats_errors, stats_key, stats_warnings,
    term_errors,
};
use super::graph::{edge_warnings, endpoint_warnings, graph_warnings};
use super::memory::{
    allocator_errors, allocator_warnings, claim_errors, link_errors, mapping_errors, node_errors, number_key,
    record_errors, record_key, vecmap_error, vecmap_errors, vector_errors,
};
use super::laws::{highest_id_is_the_maximum, lemma_claimant, lemma_flat_empty};
use super::stats_laws::{are_stats_of, has_document, recomputed_statistics_are_sums};
use super::table::{holder, in_order, key_at, lemma_holder, Keyed, Part};
use super::vector::{dim_errors, live_nodes, neighbor_errors, vector_index_errors, vector_index_warnings};
use super::{
    is_populated, logical_errors, logical_warnings, DocRow, DocV, EntityRow, FtsStats, NodeRow, NodeV, PostingRow,
    PostingV, RecordRow, StatsRow, TermV, VecMapRow, ViewV,
};
use crate::store::verify::{flat, Finding, IssueKind};
use vstd::prelude::*;

verus! {

/// Some finding is of a kind.
pub open spec fn tells(found: Seq<Finding>, kind: IssueKind) -> bool {
    exists|i: int| 0 <= i < found.len() && (#[trigger] found[i]).kind == kind
}

/// Every finding is told of `dir`.
pub open spec fn is_told_of(found: Seq<Finding>, dir: Seq<char>) -> bool {
    forall|i: int| 0 <= i < found.len() ==> (#[trigger] found[i]).path == dir
}

proof fn lemma_tells_concat(a: Seq<Finding>, b: Seq<Finding>, kind: IssueKind)
    ensures
        tells(a + b, kind) <==> tells(a, kind) || tells(b, kind),
{
    let all = a + b;
    if tells(a, kind) {
        let i = choose|i: int| 0 <= i < a.len() && (#[trigger] a[i]).kind == kind;
        assert(all[i].kind == kind);
    }
    if tells(b, kind) {
        let i = choose|i: int| 0 <= i < b.len() && (#[trigger] b[i]).kind == kind;
        assert(all[a.len() + i].kind == kind);
    }
    if tells(all, kind) {
        let i = choose|i: int| 0 <= i < all.len() && (#[trigger] all[i]).kind == kind;
        if i < a.len() {
            assert(a[i].kind == kind);
        } else {
            assert(b[i - a.len()].kind == kind);
        }
    }
}

proof fn lemma_tells_flat(n: nat, f: spec_fn(int) -> Seq<Finding>, kind: IssueKind)
    ensures
        tells(flat(n, f), kind) <==> exists|i: int| 0 <= i < n && tells(#[trigger] f(i), kind),
    decreases n,
{
    if n > 0 {
        lemma_tells_flat((n - 1) as nat, f, kind);
        lemma_tells_concat(flat((n - 1) as nat, f), f(n - 1), kind);
    }
}

proof fn lemma_told_flat(n: nat, f: spec_fn(int) -> Seq<Finding>, dir: Seq<char>)
    requires
        forall|i: int| 0 <= i < n ==> is_told_of(#[trigger] f(i), dir),
    ensures
        is_told_of(flat(n, f), dir),
    decreases n,
{
    if n > 0 {
        lemma_told_flat((n - 1) as nat, f, dir);
        assert(is_told_of(f(n - 1), dir));
    }
}

/// Every table of a view is in the order of its keys, as a parse leaves it.
pub open spec fn is_in_order(v: ViewV) -> bool {
    &&& in_order::<RecordRow>(v.records)
    &&& in_order::<VecMapRow>(v.vecmap)
    &&& in_order::<NodeRow>(v.nodes)
    &&& in_order::<PostingRow>(v.postings)
    &&& in_order::<DocRow>(v.docterms)
    &&& in_order::<StatsRow>(v.fts_stats)
    &&& in_order::<EntityRow>(v.entities)
}

/// A memory is in use: it has a record, a mapping, or an allocator.
pub open spec fn in_use(v: ViewV) -> bool {
    ||| v.records.len() > 0
    ||| v.vecmap.len() > 0
    ||| v.memory_meta is Some
}

/// Some mapping is of a vector.
pub open spec fn is_mapped(v: ViewV, vec_id: u64) -> bool {
    exists|m: int| 0 <= m < v.vecmap.len() && (#[trigger] v.vecmap[m]).vec_id == vec_id
}

/// Some mapping leads from a vector to a record of this agent and id.
pub open spec fn is_mapped_to(v: ViewV, vec_id: u64, agent: Seq<char>, id: Seq<char>) -> bool {
    exists|m: int|
        0 <= m < v.vecmap.len() && (#[trigger] v.vecmap[m]).vec_id == vec_id && v.vecmap[m].agent == agent
            && v.vecmap[m].id == id
}

/// Some mapping leads from a vector to a record of another agent.
pub open spec fn is_mapped_elsewhere(v: ViewV, vec_id: u64, agent: Seq<char>) -> bool {
    exists|m: int|
        0 <= m < v.vecmap.len() && (#[trigger] v.vecmap[m]).vec_id == vec_id && v.vecmap[m].agent != agent
}

/// Some node has the id.
pub open spec fn is_node(v: ViewV, id: u64) -> bool {
    exists|n: int| 0 <= n < v.nodes.len() && (#[trigger] v.nodes[n]).id == id
}

/// Some node has the id, and is not deleted.
pub open spec fn is_live_node(v: ViewV, id: u64) -> bool {
    exists|n: int| 0 <= n < v.nodes.len() && (#[trigger] v.nodes[n]).id == id && !v.nodes[n].deleted
}

/// Some record is this one.
pub open spec fn is_record(v: ViewV, agent: Seq<char>, id: Seq<char>, vec_id: u64) -> bool {
    exists|r: int|
        0 <= r < v.records.len() && (#[trigger] v.records[r]).agent == agent && v.records[r].id == id
            && v.records[r].vec_id == vec_id
}

/// Some entity is of an agent and has the id.
pub open spec fn is_entity(v: ViewV, agent: Seq<char>, id: Seq<char>) -> bool {
    exists|e: int| 0 <= e < v.entities.len() && (#[trigger] v.entities[e]).agent == agent && v.entities[e].id == id
}

/// Some posting says how often a document has a term.
pub open spec fn is_posted(v: ViewV, agent: Seq<char>, term: Seq<char>, vec_id: u64, tf: u32) -> bool {
    exists|p: int|
        0 <= p < v.postings.len() && (#[trigger] v.postings[p]).agent == agent && v.postings[p].term == term
            && v.postings[p].vec_id == vec_id && v.postings[p].tf == tf
}

/// Some document of an agent has a term.
pub open spec fn has_term(v: ViewV, agent: Seq<char>, vec_id: u64, term: Seq<char>) -> bool {
    exists|d: int, k: int|
        0 <= d < v.docterms.len() && v.docterms[d].agent == agent && v.docterms[d].vec_id == vec_id && 0 <= k
            < v.docterms[d].terms.len() && (#[trigger] v.docterms[d].terms[k]).term == term
}

/// Some statistics are of an agent.
pub open spec fn has_stats(v: ViewV, agent: Seq<char>) -> bool {
    exists|s: int| 0 <= s < v.fts_stats.len() && (#[trigger] v.fts_stats[s]).agent == agent
}

/// A record has a vector of its own, which leads back to it.
pub open spec fn record_holds(v: ViewV, i: int) -> bool {
    let rec = v.records[i];
    &&& is_mapped_to(v, rec.vec_id, rec.agent, rec.id)
    &&& is_live_node(v, rec.vec_id)
    &&& forall|j: int| 0 <= j < i ==> (#[trigger] v.records[j]).vec_id != rec.vec_id
}

/// Records, mappings and nodes belong together.
pub open spec fn links_hold(v: ViewV) -> bool {
    &&& forall|i: int| 0 <= i < v.records.len() ==> #[trigger] record_holds(v, i)
    &&& forall|m: int|
        0 <= m < v.vecmap.len() ==> is_record(
            v,
            (#[trigger] v.vecmap[m]).agent,
            v.vecmap[m].id,
            v.vecmap[m].vec_id,
        )
    &&& forall|n: int| 0 <= n < v.nodes.len() ==> (#[trigger] v.nodes[n]).deleted || is_mapped(v, v.nodes[n].id)
}

/// An id that is in use, of a node or of a mapping, is `next` or higher.
pub open spec fn uses_from(v: ViewV, next: u64) -> bool {
    ||| exists|n: int| 0 <= n < v.nodes.len() && next <= (#[trigger] v.nodes[n]).id
    ||| exists|m: int| 0 <= m < v.vecmap.len() && next <= (#[trigger] v.vecmap[m]).vec_id
}

/// A node has another dimension than the metadata says, or, without metadata,
/// than the first node.
pub open spec fn dims_differ(v: ViewV) -> bool {
    exists|n: int|
        0 <= n < v.nodes.len() && (#[trigger] v.nodes[n]).dim != match v.vector_meta {
            Some(meta) => meta.dim,
            None => v.nodes[0].dim,
        }
}

/// A node has a neighbor that is no node.
pub open spec fn lacks_neighbor(v: ViewV) -> bool {
    exists|n: int, k: int|
        0 <= n < v.nodes.len() && 0 <= k < v.nodes[n].neighbors.len() && !is_node(
            v,
            #[trigger] v.nodes[n].neighbors[k],
        )
}

/// A term of a document occurs, and a posting says as often.
pub open spec fn term_holds(v: ViewV, doc: DocV, t: TermV) -> bool {
    t.tf > 0 && is_posted(v, doc.agent, t.term, doc.vec_id, t.tf)
}

/// Documents and postings agree, and, in a memory, every document has a vector
/// that is mapped.
pub open spec fn texts_hold(v: ViewV) -> bool {
    &&& forall|d: int, k: int|
        0 <= d < v.docterms.len() && 0 <= k < v.docterms[d].terms.len() ==> term_holds(
            v,
            v.docterms[d],
            #[trigger] v.docterms[d].terms[k],
        )
    &&& in_use(v) ==> forall|d: int|
        0 <= d < v.docterms.len() ==> is_mapped(v, (#[trigger] v.docterms[d]).vec_id)
    &&& forall|p: int|
        0 <= p < v.postings.len() ==> has_term(
            v,
            (#[trigger] v.postings[p]).agent,
            v.postings[p].vec_id,
            v.postings[p].term,
        )
}

/// A document is under one agent, and its vector another's.
pub open spec fn is_breached(v: ViewV) -> bool {
    exists|d: int|
        0 <= d < v.docterms.len() && is_mapped_elsewhere(
            v,
            (#[trigger] v.docterms[d]).vec_id,
            v.docterms[d].agent,
        )
}

/// Stored statistics are not those of the documents.
pub open spec fn stats_lie(v: ViewV) -> bool {
    exists|s: int|
        0 <= s < v.fts_stats.len() && !are_stats_of(
            (#[trigger] v.fts_stats[s]).stats,
            v.docterms,
            v.fts_stats[s].agent,
        )
}

/// In order, a key is held by the row that has it, and by no other.
proof fn lemma_held<T: Keyed>(rows: Seq<T::V>, key: Seq<Part>)
    requires
        in_order::<T>(rows),
    ensures
        holder::<T>(rows, key) is None <==> forall|i: int| !key_at::<T>(rows, key, i),
        forall|i: int| key_at::<T>(rows, key, i) ==> holder::<T>(rows, key) == Some(#[trigger] rows[i]),
        holder::<T>(rows, key) matches Some(row) ==> exists|i: int| key_at::<T>(rows, key, i)
            && #[trigger] rows[i] == row,
{
    assert forall|i: int| key_at::<T>(rows, key, i) implies holder::<T>(rows, key) == Some(#[trigger] rows[i]) by {
        lemma_holder::<T>(rows, key, i);
    }
    if exists|i: int| key_at::<T>(rows, key, i) {
        let i = choose|i: int| key_at::<T>(rows, key, i);
        assert(holder::<T>(rows, key) == Some(rows[i]));
    }
}

proof fn lemma_number_key(a: u64, b: u64)
    ensures
        number_key(a) == number_key(b) <==> a == b,
{
    assert(number_key(a)[0] == Part::Number(a));
    assert(number_key(b)[0] == Part::Number(b));
}

proof fn lemma_record_key(a: Seq<char>, x: Seq<char>, b: Seq<char>, y: Seq<char>)
    ensures
        record_key(a, x) == record_key(b, y) <==> a == b && x == y,
{
    assert(record_key(a, x)[0] == Part::Text(a) && record_key(a, x)[1] == Part::Text(x));
    assert(record_key(b, y)[0] == Part::Text(b) && record_key(b, y)[1] == Part::Text(y));
}

proof fn lemma_mapping(v: ViewV, id: u64)
    requires
        in_order::<VecMapRow>(v.vecmap),
    ensures
        holder::<VecMapRow>(v.vecmap, number_key(id)) is None <==> !is_mapped(v, id),
        forall|agent: Seq<char>, rid: Seq<char>| #[trigger]
            is_mapped_to(v, id, agent, rid) <==> (holder::<VecMapRow>(v.vecmap, number_key(id)) matches Some(entry)
                && entry.agent == agent && entry.id == rid),
        forall|agent: Seq<char>| #[trigger]
            is_mapped_elsewhere(v, id, agent) <==> (holder::<VecMapRow>(v.vecmap, number_key(id)) matches Some(entry)
                && entry.agent != agent),
{
    let key = number_key(id);
    lemma_held::<VecMapRow>(v.vecmap, key);
    assert forall|m: int| 0 <= m < v.vecmap.len() implies (key_at::<VecMapRow>(v.vecmap, key, m) <==> (
    #[trigger] v.vecmap[m]).vec_id == id) by {
        assert(VecMapRow::key(v.vecmap[m]) =~= number_key(v.vecmap[m].vec_id));
        lemma_number_key(v.vecmap[m].vec_id, id);
    }
    if let Some(entry) = holder::<VecMapRow>(v.vecmap, key) {
        let m = choose|m: int| key_at::<VecMapRow>(v.vecmap, key, m) && #[trigger] v.vecmap[m] == entry;
        assert(v.vecmap[m].vec_id == id);
    }
}

proof fn lemma_node(v: ViewV, id: u64)
    requires
        in_order::<NodeRow>(v.nodes),
    ensures
        holder::<NodeRow>(v.nodes, number_key(id)) is None <==> !is_node(v, id),
        is_live_node(v, id) <==> (holder::<NodeRow>(v.nodes, number_key(id)) matches Some(node) && !node.deleted),
{
    let key = number_key(id);
    lemma_held::<NodeRow>(v.nodes, key);
    assert forall|n: int| 0 <= n < v.nodes.len() implies (key_at::<NodeRow>(v.nodes, key, n) <==> (
    #[trigger] v.nodes[n]).id == id) by {
        assert(NodeRow::key(v.nodes[n]) =~= number_key(v.nodes[n].id));
        lemma_number_key(v.nodes[n].id, id);
    }
    if let Some(node) = holder::<NodeRow>(v.nodes, key) {
        let n = choose|n: int| key_at::<NodeRow>(v.nodes, key, n) && #[trigger] v.nodes[n] == node;
        assert(v.nodes[n].id == id);
    }
}

proof fn lemma_record(v: ViewV, agent: Seq<char>, id: Seq<char>)
    requires
        in_order::<RecordRow>(v.records),
    ensures
        forall|vec_id: u64| #[trigger]
            is_record(v, agent, id, vec_id) <==> (holder::<RecordRow>(v.records, record_key(agent, id)) matches Some(
                rec,
            ) && rec.vec_id == vec_id),
{
    let key = record_key(agent, id);
    lemma_held::<RecordRow>(v.records, key);
    assert forall|r: int| 0 <= r < v.records.len() implies (key_at::<RecordRow>(v.records, key, r) <==> (
    #[trigger] v.records[r]).agent == agent && v.records[r].id == id) by {
        assert(RecordRow::key(v.records[r]) =~= record_key(v.records[r].agent, v.records[r].id));
        lemma_record_key(v.records[r].agent, v.records[r].id, agent, id);
    }
    if let Some(rec) = holder::<RecordRow>(v.records, key) {
        let r = choose|r: int| key_at::<RecordRow>(v.records, key, r) && #[trigger] v.records[r] == rec;
        assert(v.records[r].agent == agent);
    }
}

proof fn lemma_entity(v: ViewV, agent: Seq<char>, id: Seq<char>)
    requires
        in_order::<EntityRow>(v.entities),
    ensures
        holder::<EntityRow>(v.entities, record_key(agent, id)) is None <==> !is_entity(v, agent, id),
{
    let key = record_key(agent, id);
    lemma_held::<EntityRow>(v.entities, key);
    assert forall|e: int| 0 <= e < v.entities.len() implies (key_at::<EntityRow>(v.entities, key, e) <==> (
    #[trigger] v.entities[e]).agent == agent && v.entities[e].id == id) by {
        assert(EntityRow::key(v.entities[e]) =~= record_key(v.entities[e].agent, v.entities[e].id));
        lemma_record_key(v.entities[e].agent, v.entities[e].id, agent, id);
    }
    if let Some(row) = holder::<EntityRow>(v.entities, key) {
        let e = choose|e: int| key_at::<EntityRow>(v.entities, key, e) && #[trigger] v.entities[e] == row;
        assert(v.entities[e].agent == agent);
    }
}

proof fn lemma_posting(v: ViewV, agent: Seq<char>, term: Seq<char>, vec_id: u64)
    requires
        in_order::<PostingRow>(v.postings),
    ensures
        forall|tf: u32| #[trigger]
            is_posted(v, agent, term, vec_id, tf) <==> (holder::<PostingRow>(
                v.postings,
                posting_key(agent, term, vec_id),
            ) matches Some(p) && p.tf == tf),
{
    let key = posting_key(agent, term, vec_id);
    lemma_held::<PostingRow>(v.postings, key);
    assert forall|p: int| 0 <= p < v.postings.len() implies (key_at::<PostingRow>(v.postings, key, p) <==> (
    #[trigger] v.postings[p]).agent == agent && v.postings[p].term == term && v.postings[p].vec_id == vec_id) by {
        let row = v.postings[p];
        let own = posting_key(row.agent, row.term, row.vec_id);
        assert(PostingRow::key(row) =~= own);
        assert(own[0] == Part::Text(row.agent) && own[1] == Part::Text(row.term) && own[2] == Part::Number(row.vec_id));
        assert(key[0] == Part::Text(agent) && key[1] == Part::Text(term) && key[2] == Part::Number(vec_id));
    }
    if let Some(row) = holder::<PostingRow>(v.postings, key) {
        let p = choose|p: int| key_at::<PostingRow>(v.postings, key, p) && #[trigger] v.postings[p] == row;
        assert(v.postings[p].agent == agent);
    }
}

proof fn lemma_listed(v: ViewV, p: PostingV)
    requires
        in_order::<DocRow>(v.docterms),
    ensures
        is_listed(v, p) <==> has_term(v, p.agent, p.vec_id, p.term),
{
    let key = doc_key(p.agent, p.vec_id);
    lemma_held::<DocRow>(v.docterms, key);
    assert forall|d: int| 0 <= d < v.docterms.len() implies (key_at::<DocRow>(v.docterms, key, d) <==> (
    #[trigger] v.docterms[d]).agent == p.agent && v.docterms[d].vec_id == p.vec_id) by {
        let row = v.docterms[d];
        let own = doc_key(row.agent, row.vec_id);
        assert(DocRow::key(row) =~= own);
        assert(own[0] == Part::Text(row.agent) && own[1] == Part::Number(row.vec_id));
        assert(key[0] == Part::Text(p.agent) && key[1] == Part::Number(p.vec_id));
    }
    if is_listed(v, p) {
        let doc = holder::<DocRow>(v.docterms, key)->Some_0;
        let d = choose|d: int| key_at::<DocRow>(v.docterms, key, d) && #[trigger] v.docterms[d] == doc;
        let k = choose|k: int| 0 <= k < doc.terms.len() && (#[trigger] doc.terms[k]).term == p.term;
        assert(v.docterms[d].terms[k].term == p.term);
    }
    if has_term(v, p.agent, p.vec_id, p.term) {
        let (d, k) = choose|d: int, k: int|
            0 <= d < v.docterms.len() && v.docterms[d].agent == p.agent && v.docterms[d].vec_id == p.vec_id && 0 <= k
                < v.docterms[d].terms.len() && (#[trigger] v.docterms[d].terms[k]).term == p.term;
        assert(key_at::<DocRow>(v.docterms, key, d));
        assert(holder::<DocRow>(v.docterms, key) == Some(v.docterms[d]));
        assert(lists_term(v.docterms[d].terms, p.term));
    }
}

proof fn lemma_stats(v: ViewV, agent: Seq<char>)
    requires
        in_order::<StatsRow>(v.fts_stats),
    ensures
        holder::<StatsRow>(v.fts_stats, stats_key(agent)) is None <==> !has_stats(v, agent),
        forall|s: int|
            0 <= s < v.fts_stats.len() && (#[trigger] v.fts_stats[s]).agent == agent ==> holder::<StatsRow>(
                v.fts_stats,
                stats_key(agent),
            ) == Some(v.fts_stats[s]),
        holder::<StatsRow>(v.fts_stats, stats_key(agent)) matches Some(row) ==> exists|s: int|
            0 <= s < v.fts_stats.len() && #[trigger] v.fts_stats[s] == row && row.agent == agent,
{
    let key = stats_key(agent);
    lemma_held::<StatsRow>(v.fts_stats, key);
    assert forall|s: int| 0 <= s < v.fts_stats.len() implies (key_at::<StatsRow>(v.fts_stats, key, s) <==> (
    #[trigger] v.fts_stats[s]).agent == agent) by {
        let own = stats_key(v.fts_stats[s].agent);
        assert(StatsRow::key(v.fts_stats[s]) =~= own);
        assert(own[0] == Part::Text(v.fts_stats[s].agent));
        assert(key[0] == Part::Text(agent));
    }
    if let Some(row) = holder::<StatsRow>(v.fts_stats, key) {
        let s = choose|s: int| key_at::<StatsRow>(v.fts_stats, key, s) && #[trigger] v.fts_stats[s] == row;
        assert(v.fts_stats[s].agent == agent);
    }
}

/// Findings are all of one kind, and told of `dir`.
spec fn all_of(found: Seq<Finding>, kind: IssueKind, dir: Seq<char>) -> bool {
    forall|i: int| 0 <= i < found.len() ==> (#[trigger] found[i]).kind == kind && found[i].path == dir
}

proof fn lemma_all_of(found: Seq<Finding>, kind: IssueKind, dir: Seq<char>)
    requires
        all_of(found, kind, dir),
    ensures
        is_told_of(found, dir),
        forall|other: IssueKind| #[trigger] tells(found, other) <==> other == kind && found.len() > 0,
{
    if found.len() > 0 {
        assert(found[0].kind == kind);
    }
}

proof fn lemma_all_of_flat(n: nat, f: spec_fn(int) -> Seq<Finding>, kind: IssueKind, dir: Seq<char>)
    requires
        forall|i: int| 0 <= i < n ==> all_of(#[trigger] f(i), kind, dir),
    ensures
        all_of(flat(n, f), kind, dir),
    decreases n,
{
    if n > 0 {
        lemma_all_of_flat((n - 1) as nat, f, kind, dir);
        assert(all_of(f(n - 1), kind, dir));
    }
}

proof fn lemma_record_errors(v: ViewV, dir: Seq<char>)
    requires
        is_in_order(v),
    ensures
        all_of(flat(v.records.len(), record_errors(v, dir)), IssueKind::MemoryLinkBroken, dir),
        flat(v.records.len(), record_errors(v, dir)).len() == 0 <==> forall|i: int|
            0 <= i < v.records.len() ==> #[trigger] record_holds(v, i),
{
    let f = record_errors(v, dir);
    let kind = IssueKind::MemoryLinkBroken;
    assert forall|i: int| 0 <= i < v.records.len() implies all_of(#[trigger] f(i), kind, dir) && (f(i).len() == 0
        <==> record_holds(v, i)) by {
        let rec = v.records[i];
        assert(f(i) == claim_errors(v, dir, i) + mapping_errors(v, dir, rec) + vector_errors(v, dir, rec));
        lemma_mapping(v, rec.vec_id);
        lemma_node(v, rec.vec_id);
        lemma_claimant(v.records, i, rec.vec_id);
        assert(is_mapped_to(v, rec.vec_id, rec.agent, rec.id) || !is_mapped_to(v, rec.vec_id, rec.agent, rec.id));
    }
    lemma_all_of_flat(v.records.len(), f, kind, dir);
    lemma_flat_empty(v.records.len(), f);
    if forall|i: int| 0 <= i < v.records.len() ==> (#[trigger] f(i)).len() == 0 {
        assert forall|i: int| 0 <= i < v.records.len() implies #[trigger] record_holds(v, i) by {
            assert(f(i).len() == 0);
        }
    }
    if forall|i: int| 0 <= i < v.records.len() ==> #[trigger] record_holds(v, i) {
        assert forall|i: int| 0 <= i < v.records.len() implies (#[trigger] f(i)).len() == 0 by {
            assert(record_holds(v, i));
        }
    }
}

proof fn lemma_vecmap_errors(v: ViewV, dir: Seq<char>)
    requires
        is_in_order(v),
    ensures
        all_of(flat(v.vecmap.len(), vecmap_errors(v, dir)), IssueKind::MemoryLinkBroken, dir),
        flat(v.vecmap.len(), vecmap_errors(v, dir)).len() == 0 <==> forall|m: int|
            0 <= m < v.vecmap.len() ==> is_record(
                v,
                (#[trigger] v.vecmap[m]).agent,
                v.vecmap[m].id,
                v.vecmap[m].vec_id,
            ),
{
    let f = vecmap_errors(v, dir);
    let kind = IssueKind::MemoryLinkBroken;
    assert forall|m: int| 0 <= m < v.vecmap.len() implies all_of(#[trigger] f(m), kind, dir) && (f(m).len() == 0
        <==> is_record(v, v.vecmap[m].agent, v.vecmap[m].id, v.vecmap[m].vec_id)) by {
        lemma_record(v, v.vecmap[m].agent, v.vecmap[m].id);
        assert(f(m) == vecmap_error(v, dir, v.vecmap[m]));
    }
    lemma_all_of_flat(v.vecmap.len(), f, kind, dir);
    lemma_flat_empty(v.vecmap.len(), f);
    if forall|m: int| 0 <= m < v.vecmap.len() ==> (#[trigger] f(m)).len() == 0 {
        assert forall|m: int| 0 <= m < v.vecmap.len() implies is_record(
            v,
            (#[trigger] v.vecmap[m]).agent,
            v.vecmap[m].id,
            v.vecmap[m].vec_id,
        ) by {
            assert(f(m).len() == 0);
        }
    }
}

proof fn lemma_node_errors(v: ViewV, dir: Seq<char>)
    requires
        is_in_order(v),
    ensures
        all_of(flat(v.nodes.len(), node_errors(v, dir)), IssueKind::MemoryLinkBroken, dir),
        flat(v.nodes.len(), node_errors(v, dir)).len() == 0 <==> forall|n: int|
            0 <= n < v.nodes.len() ==> (#[trigger] v.nodes[n]).deleted || is_mapped(v, v.nodes[n].id),
{
    let f = node_errors(v, dir);
    let kind = IssueKind::MemoryLinkBroken;
    assert forall|n: int| 0 <= n < v.nodes.len() implies all_of(#[trigger] f(n), kind, dir) && (f(n).len() == 0
        <==> v.nodes[n].deleted || is_mapped(v, v.nodes[n].id)) by {
        lemma_mapping(v, v.nodes[n].id);
    }
    lemma_all_of_flat(v.nodes.len(), f, kind, dir);
    lemma_flat_empty(v.nodes.len(), f);
    if forall|n: int| 0 <= n < v.nodes.len() ==> (#[trigger] f(n)).len() == 0 {
        assert forall|n: int| 0 <= n < v.nodes.len() implies (#[trigger] v.nodes[n]).deleted || is_mapped(
            v,
            v.nodes[n].id,
        ) by {
            assert(f(n).len() == 0);
        }
    }
}

proof fn lemma_allocator(v: ViewV, dir: Seq<char>)
    requires
        is_in_order(v),
    ensures
        all_of(allocator_errors(v, dir), IssueKind::AllocatorStale, dir),
        all_of(allocator_warnings(v, dir), IssueKind::AllocatorStale, dir),
        allocator_errors(v, dir).len() > 0 <==> (v.memory_meta matches Some(next) && uses_from(v, next)),
        allocator_warnings(v, dir).len() > 0 <==> v.memory_meta is None && (v.nodes.len() > 0 || v.vecmap.len() > 0),
{
    highest_id_is_the_maximum(v);
}

/// The links of a memory are told to be broken exactly if they are.
pub proof fn broken_links_are_told(v: ViewV, dir: Seq<char>)
    requires
        is_in_order(v),
    ensures
        tells(link_errors(v, dir), IssueKind::MemoryLinkBroken) <==> !links_hold(v),
        tells(link_errors(v, dir), IssueKind::AllocatorStale) <==> (v.memory_meta matches Some(next) && uses_from(
            v,
            next,
        )),
        forall|kind: IssueKind| #[trigger]
            tells(link_errors(v, dir), kind) ==> kind is MemoryLinkBroken || kind is AllocatorStale,
        is_told_of(link_errors(v, dir), dir),
{
    let a = flat(v.records.len(), record_errors(v, dir));
    let b = flat(v.vecmap.len(), vecmap_errors(v, dir));
    let c = flat(v.nodes.len(), node_errors(v, dir));
    let d = allocator_errors(v, dir);
    lemma_record_errors(v, dir);
    lemma_vecmap_errors(v, dir);
    lemma_node_errors(v, dir);
    lemma_allocator(v, dir);
    lemma_all_of(a, IssueKind::MemoryLinkBroken, dir);
    lemma_all_of(b, IssueKind::MemoryLinkBroken, dir);
    lemma_all_of(c, IssueKind::MemoryLinkBroken, dir);
    lemma_all_of(d, IssueKind::AllocatorStale, dir);
    assert(link_errors(v, dir) == a + b + c + d);
    assert forall|kind: IssueKind| #[trigger] tells(link_errors(v, dir), kind) <==> tells(a, kind) || tells(b, kind)
        || tells(c, kind) || tells(d, kind) by {
        lemma_tells_concat(a, b, kind);
        lemma_tells_concat(a + b, c, kind);
        lemma_tells_concat(a + b + c, d, kind);
    }
}

proof fn lemma_neighbors(v: ViewV, dir: Seq<char>, node: NodeV)
    requires
        is_in_order(v),
    ensures
        all_of(flat(node.neighbors.len(), neighbor_errors(v, dir, node)), IssueKind::VectorNeighborMissing, dir),
        flat(node.neighbors.len(), neighbor_errors(v, dir, node)).len() == 0 <==> forall|k: int|
            0 <= k < node.neighbors.len() ==> is_node(v, #[trigger] node.neighbors[k]),
{
    let f = neighbor_errors(v, dir, node);
    let kind = IssueKind::VectorNeighborMissing;
    assert forall|k: int| 0 <= k < node.neighbors.len() implies all_of(#[trigger] f(k), kind, dir) && (f(k).len() == 0
        <==> is_node(v, node.neighbors[k])) by {
        lemma_node(v, node.neighbors[k]);
    }
    lemma_all_of_flat(node.neighbors.len(), f, kind, dir);
    lemma_flat_empty(node.neighbors.len(), f);
    if forall|k: int| 0 <= k < node.neighbors.len() ==> (#[trigger] f(k)).len() == 0 {
        assert forall|k: int| 0 <= k < node.neighbors.len() implies is_node(v, #[trigger] node.neighbors[k]) by {
            assert(f(k).len() == 0);
        }
    }
}

/// The dimension of a node is told to differ exactly if it does, and a neighbor
/// to be missing exactly if it is.
pub proof fn vector_faults_are_told(v: ViewV, dir: Seq<char>)
    requires
        is_in_order(v),
    ensures
        tells(vector_index_errors(v, dir), IssueKind::VectorDimMismatch) <==> dims_differ(v),
        tells(vector_index_errors(v, dir), IssueKind::VectorNeighborMissing) <==> lacks_neighbor(v),
        forall|kind: IssueKind| #[trigger]
            tells(vector_index_errors(v, dir), kind) ==> kind is VectorDimMismatch || kind is VectorNeighborMissing,
        is_told_of(vector_index_errors(v, dir), dir),
{
    let f = super::vector::node_errors(v, dir);
    let all = vector_index_errors(v, dir);
    let dims = IssueKind::VectorDimMismatch;
    let near = IssueKind::VectorNeighborMissing;
    assert forall|n: int| 0 <= n < v.nodes.len() implies is_told_of(#[trigger] f(n), dir) && (forall|kind: IssueKind|
     #[trigger] tells(f(n), kind) ==> kind == dims
         || kind == near) && (tells(f(n), dims) <==> v.nodes[n].dim != match v.vector_meta {
        Some(meta) => meta.dim,
        None => v.nodes[0].dim,
    }) && (tells(f(n), near) <==> exists|k: int|
        0 <= k < v.nodes[n].neighbors.len() && !is_node(v, #[trigger] v.nodes[n].neighbors[k])) by {
        let node = v.nodes[n];
        let a = dim_errors(v, dir, node);
        let b = flat(node.neighbors.len(), neighbor_errors(v, dir, node));
        assert(f(n) == a + b);
        assert(all_of(a, dims, dir));
        lemma_neighbors(v, dir, node);
        lemma_all_of(a, dims, dir);
        lemma_all_of(b, near, dir);
        assert forall|kind: IssueKind| #[trigger] tells(f(n), kind) <==> tells(a, kind) || tells(b, kind) by {
            lemma_tells_concat(a, b, kind);
        }
    }
    lemma_told_flat(v.nodes.len(), f, dir);
    assert forall|kind: IssueKind| #[trigger] tells(all, kind) implies kind == dims || kind == near by {
        lemma_tells_flat(v.nodes.len(), f, kind);
        let n = choose|n: int| 0 <= n < v.nodes.len() && tells(#[trigger] f(n), kind);
        assert(is_told_of(f(n), dir));
    }
    lemma_tells_flat(v.nodes.len(), f, dims);
    lemma_tells_flat(v.nodes.len(), f, near);
    if tells(all, dims) {
        let n = choose|n: int| 0 <= n < v.nodes.len() && tells(#[trigger] f(n), dims);
        assert(v.nodes[n].dim == v.nodes[n].dim);
    }
    if dims_differ(v) {
        let n = choose|n: int|
            0 <= n < v.nodes.len() && (#[trigger] v.nodes[n]).dim != match v.vector_meta {
                Some(meta) => meta.dim,
                None => v.nodes[0].dim,
            };
        assert(tells(f(n), dims));
    }
    if tells(all, near) {
        let n = choose|n: int| 0 <= n < v.nodes.len() && tells(#[trigger] f(n), near);
        let k = choose|k: int|
            0 <= k < v.nodes[n].neighbors.len() && !is_node(v, #[trigger] v.nodes[n].neighbors[k]);
        assert(!is_node(v, v.nodes[n].neighbors[k]));
    }
    if lacks_neighbor(v) {
        let (n, k) = choose|n: int, k: int|
            0 <= n < v.nodes.len() && 0 <= k < v.nodes[n].neighbors.len() && !is_node(
                v,
                #[trigger] v.nodes[n].neighbors[k],
            );
        assert(tells(f(n), near));
    }
}

/// How many of the first `n` nodes are not deleted.
pub open spec fn live_counted(nodes: Seq<NodeV>, n: int) -> int
    decreases n,
{
    if n <= 0 {
        0
    } else {
        live_counted(nodes, n - 1) + if nodes[n - 1].deleted {
            0int
        } else {
            1int
        }
    }
}

proof fn lemma_live_counted(nodes: Seq<NodeV>, n: int)
    requires
        0 <= n <= nodes.len(),
    ensures
        live_counted(nodes, n) == live_nodes(nodes, n),
        live_counted(nodes, n) <= n,
    decreases n,
{
    if n > 0 {
        lemma_live_counted(nodes, n - 1);
    }
}

/// Metadata disagrees with the nodes: it counts others than are live, its entry
/// point is no node, or it has none though a node is live.
pub open spec fn meta_lies(v: ViewV) -> bool {
    let live = live_counted(v.nodes, v.nodes.len() as int);
    v.vector_meta matches Some(meta) && {
        ||| meta.count != live
        ||| match meta.entry_point {
            Some(entry) => !is_node(v, entry),
            None => live > 0,
        }
    }
}

/// Metadata of the vector index is told to be inconsistent exactly if it is.
pub proof fn lying_metadata_is_told(v: ViewV, dir: Seq<char>)
    requires
        is_in_order(v),
        v.nodes.len() <= u64::MAX,
    ensures
        tells(vector_index_warnings(v, dir), IssueKind::VectorMetaInconsistent) <==> meta_lies(v),
        forall|kind: IssueKind| #[trigger]
            tells(vector_index_warnings(v, dir), kind) ==> kind is VectorMetaInconsistent,
        is_told_of(vector_index_warnings(v, dir), dir),
{
    let all = vector_index_warnings(v, dir);
    lemma_live_counted(v.nodes, v.nodes.len() as int);
    if let Some(meta) = v.vector_meta {
        if let Some(entry) = meta.entry_point {
            lemma_node(v, entry);
        }
    }
    assert(all_of(all, IssueKind::VectorMetaInconsistent, dir));
    lemma_all_of(all, IssueKind::VectorMetaInconsistent, dir);
}

proof fn lemma_terms(v: ViewV, dir: Seq<char>, doc: DocV)
    requires
        is_in_order(v),
    ensures
        all_of(flat(doc.terms.len(), doc_term_errors(v, dir, doc)), IssueKind::FtsLinkBroken, dir),
        flat(doc.terms.len(), doc_term_errors(v, dir, doc)).len() == 0 <==> forall|k: int|
            0 <= k < doc.terms.len() ==> term_holds(v, doc, #[trigger] doc.terms[k]),
{
    let f = doc_term_errors(v, dir, doc);
    let kind = IssueKind::FtsLinkBroken;
    assert forall|k: int| 0 <= k < doc.terms.len() implies all_of(#[trigger] f(k), kind, dir) && (f(k).len() == 0
        <==> term_holds(v, doc, doc.terms[k])) by {
        let t = doc.terms[k];
        lemma_posting(v, doc.agent, t.term, doc.vec_id);
        assert(f(k) == term_errors(v, dir, doc, t));
        assert(is_posted(v, doc.agent, t.term, doc.vec_id, t.tf) || !is_posted(v, doc.agent, t.term, doc.vec_id, t.tf));
    }
    lemma_all_of_flat(doc.terms.len(), f, kind, dir);
    lemma_flat_empty(doc.terms.len(), f);
    if forall|k: int| 0 <= k < doc.terms.len() ==> (#[trigger] f(k)).len() == 0 {
        assert forall|k: int| 0 <= k < doc.terms.len() implies term_holds(v, doc, #[trigger] doc.terms[k]) by {
            assert(f(k).len() == 0);
        }
    }
}

/// A document's terms are posted, and its vector, in a memory, is mapped.
pub open spec fn doc_holds(v: ViewV, d: int) -> bool {
    let doc = v.docterms[d];
    &&& forall|k: int| 0 <= k < doc.terms.len() ==> term_holds(v, doc, #[trigger] doc.terms[k])
    &&& in_use(v) ==> is_mapped(v, doc.vec_id)
}

proof fn lemma_doc(v: ViewV, dir: Seq<char>, d: int)
    requires
        is_in_order(v),
        0 <= d < v.docterms.len(),
    ensures
        ({
            let found = doc_errors(v, is_populated(v), dir)(d);
            &&& is_told_of(found, dir)
            &&& forall|kind: IssueKind| #[trigger]
                tells(found, kind) ==> kind is FtsLinkBroken || kind is AgentIsolationBreach
            &&& tells(found, IssueKind::FtsLinkBroken) <==> !doc_holds(v, d)
            &&& tells(found, IssueKind::AgentIsolationBreach) <==> in_use(v) && is_mapped_elsewhere(
                v,
                v.docterms[d].vec_id,
                v.docterms[d].agent,
            )
        }),
{
    let doc = v.docterms[d];
    let found = doc_errors(v, is_populated(v), dir)(d);
    let a = flat(doc.terms.len(), doc_term_errors(v, dir, doc));
    let b = if in_use(v) {
        owner_errors(v, dir, doc)
    } else {
        Seq::empty()
    };
    assert(found == a + b);
    lemma_terms(v, dir, doc);
    lemma_all_of(a, IssueKind::FtsLinkBroken, dir);
    lemma_mapping(v, doc.vec_id);
    let elsewhere = is_mapped_elsewhere(v, doc.vec_id, doc.agent);
    if in_use(v) && !is_mapped(v, doc.vec_id) {
        assert(all_of(b, IssueKind::FtsLinkBroken, dir));
        lemma_all_of(b, IssueKind::FtsLinkBroken, dir);
    } else {
        assert(all_of(b, IssueKind::AgentIsolationBreach, dir));
        lemma_all_of(b, IssueKind::AgentIsolationBreach, dir);
    }
    assert forall|kind: IssueKind| #[trigger] tells(found, kind) <==> tells(a, kind) || tells(b, kind) by {
        lemma_tells_concat(a, b, kind);
    }
}

proof fn lemma_docs(v: ViewV, dir: Seq<char>)
    requires
        is_in_order(v),
    ensures
        ({
            let found = flat(v.docterms.len(), doc_errors(v, is_populated(v), dir));
            &&& is_told_of(found, dir)
            &&& forall|kind: IssueKind| #[trigger]
                tells(found, kind) ==> kind is FtsLinkBroken || kind is AgentIsolationBreach
            &&& tells(found, IssueKind::FtsLinkBroken) <==> exists|d: int|
                0 <= d < v.docterms.len() && !#[trigger] doc_holds(v, d)
            &&& tells(found, IssueKind::AgentIsolationBreach) <==> in_use(v) && is_breached(v)
        }),
{
    let f = doc_errors(v, is_populated(v), dir);
    let n = v.docterms.len();
    let found = flat(n, f);
    let link = IssueKind::FtsLinkBroken;
    let breach = IssueKind::AgentIsolationBreach;
    assert forall|d: int| 0 <= d < n implies is_told_of(#[trigger] f(d), dir) by {
        lemma_doc(v, dir, d);
    }
    lemma_told_flat(n, f, dir);
    assert forall|kind: IssueKind| #[trigger] tells(found, kind) implies kind == link || kind == breach by {
        lemma_tells_flat(n, f, kind);
        let d = choose|d: int| 0 <= d < n && tells(#[trigger] f(d), kind);
        lemma_doc(v, dir, d);
    }
    lemma_tells_flat(n, f, link);
    lemma_tells_flat(n, f, breach);
    if tells(found, link) {
        let d = choose|d: int| 0 <= d < n && tells(#[trigger] f(d), link);
        lemma_doc(v, dir, d);
        assert(!doc_holds(v, d));
    }
    if exists|d: int| 0 <= d < n && !#[trigger] doc_holds(v, d) {
        let d = choose|d: int| 0 <= d < n && !#[trigger] doc_holds(v, d);
        lemma_doc(v, dir, d);
        assert(tells(f(d), link));
    }
    if tells(found, breach) {
        let d = choose|d: int| 0 <= d < n && tells(#[trigger] f(d), breach);
        lemma_doc(v, dir, d);
        assert(is_mapped_elsewhere(v, v.docterms[d].vec_id, v.docterms[d].agent));
    }
    if in_use(v) && is_breached(v) {
        let d = choose|d: int|
            0 <= d < v.docterms.len() && is_mapped_elsewhere(
                v,
                (#[trigger] v.docterms[d]).vec_id,
                v.docterms[d].agent,
            );
        lemma_doc(v, dir, d);
        assert(tells(f(d), breach));
    }
}

proof fn lemma_postings(v: ViewV, dir: Seq<char>)
    requires
        is_in_order(v),
    ensures
        all_of(flat(v.postings.len(), posting_errors(v, dir)), IssueKind::FtsLinkBroken, dir),
        flat(v.postings.len(), posting_errors(v, dir)).len() == 0 <==> forall|p: int|
            0 <= p < v.postings.len() ==> has_term(
                v,
                (#[trigger] v.postings[p]).agent,
                v.postings[p].vec_id,
                v.postings[p].term,
            ),
{
    let f = posting_errors(v, dir);
    let kind = IssueKind::FtsLinkBroken;
    assert forall|p: int| 0 <= p < v.postings.len() implies all_of(#[trigger] f(p), kind, dir) && (f(p).len() == 0
        <==> has_term(v, v.postings[p].agent, v.postings[p].vec_id, v.postings[p].term)) by {
        lemma_listed(v, v.postings[p]);
    }
    lemma_all_of_flat(v.postings.len(), f, kind, dir);
    lemma_flat_empty(v.postings.len(), f);
    if forall|p: int| 0 <= p < v.postings.len() ==> (#[trigger] f(p)).len() == 0 {
        assert forall|p: int| 0 <= p < v.postings.len() implies has_term(
            v,
            (#[trigger] v.postings[p]).agent,
            v.postings[p].vec_id,
            v.postings[p].term,
        ) by {
            assert(f(p).len() == 0);
        }
    }
}

proof fn lemma_one_truth(a: FtsStats, b: FtsStats, docs: Seq<DocV>, agent: Seq<char>)
    requires
        are_stats_of(a, docs, agent),
    ensures
        are_stats_of(b, docs, agent) <==> a == b,
{
}

proof fn lemma_no_documents(docs: Seq<DocV>, agent: Seq<char>, stats: FtsStats)
    requires
        !has_document(docs, agent),
    ensures
        are_stats_of(stats, docs, agent) <==> stats == (FtsStats { doc_count: 0, total_terms: 0 }),
{
    super::stats_laws::lemma_none_counted(docs, agent, docs.len() as int);
}

proof fn lemma_stats_told(v: ViewV, dir: Seq<char>)
    requires
        is_in_order(v),
    ensures
        ({
            let own = flat(recomputed(v.docterms).len(), stats_errors(v, dir));
            let empty = flat(v.fts_stats.len(), empty_stats_errors(v, dir));
            let missing = fts_warnings(v, dir);
            &&& all_of(own, IssueKind::FtsStatsInconsistent, dir)
            &&& all_of(empty, IssueKind::FtsStatsInconsistent, dir)
            &&& all_of(missing, IssueKind::FtsStatsInconsistent, dir)
            &&& own.len() > 0 || empty.len() > 0 <==> stats_lie(v)
            &&& missing.len() > 0 <==> exists|d: int|
                0 <= d < v.docterms.len() && !has_stats(v, (#[trigger] v.docterms[d]).agent)
        }),
{
    let kind = IssueKind::FtsStatsInconsistent;
    let docs = v.docterms;
    let rows = recomputed(docs);
    let fo = stats_errors(v, dir);
    let fe = empty_stats_errors(v, dir);
    let fw = stats_warnings(v, dir);
    let own = flat(rows.len(), fo);
    let empty = flat(v.fts_stats.len(), fe);
    let missing = fts_warnings(v, dir);
    recomputed_statistics_are_sums(docs);
    assert forall|i: int| 0 <= i < rows.len() implies all_of(#[trigger] fo(i), kind, dir) by {}
    assert forall|i: int| 0 <= i < rows.len() implies all_of(#[trigger] fw(i), kind, dir) && (fw(i).len() > 0
        <==> !has_stats(v, rows[i].agent)) by {
        lemma_stats(v, rows[i].agent);
    }
    assert forall|i: int| 0 <= i < v.fts_stats.len() implies all_of(#[trigger] fe(i), kind, dir) by {}
    lemma_all_of_flat(rows.len(), fo, kind, dir);
    lemma_all_of_flat(rows.len(), fw, kind, dir);
    lemma_all_of_flat(v.fts_stats.len(), fe, kind, dir);
    lemma_flat_empty(rows.len(), fo);
    lemma_flat_empty(rows.len(), fw);
    lemma_flat_empty(v.fts_stats.len(), fe);
    if stats_lie(v) {
        let s = choose|s: int|
            0 <= s < v.fts_stats.len() && !are_stats_of(
                (#[trigger] v.fts_stats[s]).stats,
                v.docterms,
                v.fts_stats[s].agent,
            );
        let stored = v.fts_stats[s];
        lemma_stats(v, stored.agent);
        if has_document(docs, stored.agent) {
            assert(has_agent(rows, stored.agent));
            let i = choose|i: int| 0 <= i < rows.len() && (#[trigger] rows[i]).agent == stored.agent;
            lemma_one_truth(rows[i].stats, stored.stats, docs, stored.agent);
            assert(fo(i).len() > 0);
        } else {
            lemma_no_documents(docs, stored.agent, stored.stats);
            assert(!has_agent(rows, stored.agent)) by {
                if has_agent(rows, stored.agent) {
                    let i = choose|i: int| 0 <= i < rows.len() && (#[trigger] rows[i]).agent == stored.agent;
                    assert(has_document(docs, rows[i].agent));
                }
            }
            assert(fe(s).len() > 0);
        }
    }
    if own.len() > 0 {
        let i = choose|i: int| 0 <= i < rows.len() && (#[trigger] fo(i)).len() != 0;
        lemma_stats(v, rows[i].agent);
        let stored = holder::<StatsRow>(v.fts_stats, stats_key(rows[i].agent))->Some_0;
        let s = choose|s: int|
            0 <= s < v.fts_stats.len() && #[trigger] v.fts_stats[s] == stored && stored.agent == rows[i].agent;
        lemma_one_truth(rows[i].stats, stored.stats, docs, rows[i].agent);
        assert(!are_stats_of(v.fts_stats[s].stats, docs, v.fts_stats[s].agent));
    }
    if empty.len() > 0 {
        let s = choose|s: int| 0 <= s < v.fts_stats.len() && (#[trigger] fe(s)).len() != 0;
        let stored = v.fts_stats[s];
        if has_document(docs, stored.agent) {
            assert(has_agent(rows, stored.agent));
        }
        lemma_no_documents(docs, stored.agent, stored.stats);
        assert(!are_stats_of(v.fts_stats[s].stats, docs, v.fts_stats[s].agent));
    }
    if missing.len() > 0 {
        let i = choose|i: int| 0 <= i < rows.len() && (#[trigger] fw(i)).len() != 0;
        assert(has_document(docs, rows[i].agent));
        let d = choose|d: int| 0 <= d < docs.len() && (#[trigger] docs[d]).agent == rows[i].agent;
        assert(!has_stats(v, v.docterms[d].agent));
    }
    if exists|d: int| 0 <= d < v.docterms.len() && !has_stats(v, (#[trigger] v.docterms[d]).agent) {
        let d = choose|d: int| 0 <= d < v.docterms.len() && !has_stats(v, (#[trigger] v.docterms[d]).agent);
        assert(has_document(docs, docs[d].agent));
        assert(has_agent(rows, docs[d].agent));
        let i = choose|i: int| 0 <= i < rows.len() && (#[trigger] rows[i]).agent == docs[d].agent;
        assert(fw(i).len() > 0);
    }
}

/// The full-text index is told to be broken exactly if documents and postings
/// disagree; an agent's isolation to be breached exactly if it is; statistics
/// to be inconsistent exactly if they are not the sums over the documents.
pub proof fn text_faults_are_told(v: ViewV, dir: Seq<char>)
    requires
        is_in_order(v),
    ensures
        tells(fts_errors(v, is_populated(v), dir), IssueKind::FtsLinkBroken) <==> !texts_hold(v),
        tells(fts_errors(v, is_populated(v), dir), IssueKind::AgentIsolationBreach) <==> in_use(v)
            && is_breached(v),
        tells(fts_errors(v, is_populated(v), dir), IssueKind::FtsStatsInconsistent) <==> stats_lie(v),
        forall|kind: IssueKind| #[trigger]
            tells(fts_errors(v, is_populated(v), dir), kind) ==> kind is FtsLinkBroken || kind is AgentIsolationBreach
                || kind is FtsStatsInconsistent,
        is_told_of(fts_errors(v, is_populated(v), dir), dir),
        tells(fts_warnings(v, dir), IssueKind::FtsStatsInconsistent) <==> exists|d: int|
            0 <= d < v.docterms.len() && !has_stats(v, (#[trigger] v.docterms[d]).agent),
        forall|kind: IssueKind| #[trigger] tells(fts_warnings(v, dir), kind) ==> kind is FtsStatsInconsistent,
        is_told_of(fts_warnings(v, dir), dir),
{
    let a = flat(v.docterms.len(), doc_errors(v, is_populated(v), dir));
    let b = flat(v.postings.len(), posting_errors(v, dir));
    let c = flat(recomputed(v.docterms).len(), stats_errors(v, dir));
    let d = flat(v.fts_stats.len(), empty_stats_errors(v, dir));
    let all = fts_errors(v, is_populated(v), dir);
    assert(all == a + b + c + d);
    lemma_docs(v, dir);
    lemma_postings(v, dir);
    lemma_stats_told(v, dir);
    lemma_all_of(b, IssueKind::FtsLinkBroken, dir);
    lemma_all_of(c, IssueKind::FtsStatsInconsistent, dir);
    lemma_all_of(d, IssueKind::FtsStatsInconsistent, dir);
    lemma_all_of(fts_warnings(v, dir), IssueKind::FtsStatsInconsistent, dir);
    assert forall|kind: IssueKind| #[trigger] tells(all, kind) <==> tells(a, kind) || tells(b, kind) || tells(c, kind)
        || tells(d, kind) by {
        lemma_tells_concat(a, b, kind);
        lemma_tells_concat(a + b, c, kind);
        lemma_tells_concat(a + b + c, d, kind);
    }
    if texts_hold(v) {
        assert forall|i: int| 0 <= i < v.docterms.len() implies #[trigger] doc_holds(v, i) by {
            assert forall|k: int| 0 <= k < v.docterms[i].terms.len() implies term_holds(
                v,
                v.docterms[i],
                #[trigger] v.docterms[i].terms[k],
            ) by {}
        }
    } else if b.len() == 0 && forall|i: int| 0 <= i < v.docterms.len() ==> #[trigger] doc_holds(v, i) {
        assert forall|i: int, k: int| 0 <= i < v.docterms.len()
            && 0 <= k < v.docterms[i].terms.len() implies term_holds(
            v,
            v.docterms[i],
            #[trigger] v.docterms[i].terms[k],
        ) by {
            assert(doc_holds(v, i));
        }
        if in_use(v) {
            assert forall|i: int| 0 <= i < v.docterms.len() implies is_mapped(v, (#[trigger] v.docterms[i]).vec_id) by {
                assert(doc_holds(v, i));
            }
        }
    }
}

/// An end of an edge is no entity of the edge's agent.
pub open spec fn edges_dangle(v: ViewV) -> bool {
    exists|e: int|
        0 <= e < v.edges.len() && !(is_entity(v, (#[trigger] v.edges[e]).agent, v.edges[e].src) && is_entity(
            v,
            v.edges[e].agent,
            v.edges[e].dst,
        ))
}

/// Edges are told to dangle exactly if they do, and each end that does is told.
pub proof fn dangling_edges_are_told(v: ViewV, dir: Seq<char>)
    requires
        is_in_order(v),
    ensures
        tells(graph_warnings(v, dir), IssueKind::GraphEdgeDangling) <==> edges_dangle(v),
        forall|kind: IssueKind| #[trigger] tells(graph_warnings(v, dir), kind) ==> kind is GraphEdgeDangling,
        is_told_of(graph_warnings(v, dir), dir),
{
    let f = edge_warnings(v, dir);
    let kind = IssueKind::GraphEdgeDangling;
    assert forall|e: int| 0 <= e < v.edges.len() implies all_of(#[trigger] f(e), kind, dir) && (f(e).len() == 0
        <==> is_entity(v, v.edges[e].agent, v.edges[e].src) && is_entity(v, v.edges[e].agent, v.edges[e].dst)) by {
        let edge = v.edges[e];
        lemma_entity(v, edge.agent, edge.src);
        lemma_entity(v, edge.agent, edge.dst);
        assert(f(e) == endpoint_warnings(v, dir, edge, "source"@, edge.src) + endpoint_warnings(
            v,
            dir,
            edge,
            "destination"@,
            edge.dst,
        ));
    }
    lemma_all_of_flat(v.edges.len(), f, kind, dir);
    lemma_flat_empty(v.edges.len(), f);
    lemma_all_of(graph_warnings(v, dir), kind, dir);
    if graph_warnings(v, dir).len() > 0 {
        let e = choose|e: int| 0 <= e < v.edges.len() && (#[trigger] f(e)).len() != 0;
        assert(!(is_entity(v, v.edges[e].agent, v.edges[e].src) && is_entity(v, v.edges[e].agent, v.edges[e].dst)));
    }
    if edges_dangle(v) {
        let e = choose|e: int|
            0 <= e < v.edges.len() && !(is_entity(v, (#[trigger] v.edges[e]).agent, v.edges[e].src) && is_entity(
                v,
                v.edges[e].agent,
                v.edges[e].dst,
            ));
        assert(f(e).len() != 0);
    }
}

/// What the logical checks tell of a view as errors, kind by kind.
pub proof fn logical_errors_have_their_causes(v: ViewV, dir: Seq<char>)
    requires
        is_in_order(v),
    ensures
        is_told_of(logical_errors(v, dir), dir),
        tells(logical_errors(v, dir), IssueKind::MemoryLinkBroken) <==> in_use(v) && !links_hold(v),
        tells(logical_errors(v, dir), IssueKind::AllocatorStale) <==> (v.memory_meta matches Some(next) && uses_from(
            v,
            next,
        )),
        tells(logical_errors(v, dir), IssueKind::VectorDimMismatch) <==> dims_differ(v),
        tells(logical_errors(v, dir), IssueKind::VectorNeighborMissing) <==> lacks_neighbor(v),
        tells(logical_errors(v, dir), IssueKind::FtsLinkBroken) <==> !texts_hold(v),
        tells(logical_errors(v, dir), IssueKind::AgentIsolationBreach) <==> in_use(v) && is_breached(v),
        tells(logical_errors(v, dir), IssueKind::FtsStatsInconsistent) <==> stats_lie(v),
        logical_errors(v, dir).len() == 0 <==> {
            &&& in_use(v) ==> links_hold(v) && !is_breached(v)
            &&& v.memory_meta matches Some(next) ==> !uses_from(v, next)
            &&& !dims_differ(v)
            &&& !lacks_neighbor(v)
            &&& texts_hold(v)
            &&& !stats_lie(v)
        },
{
    let a = if in_use(v) {
        link_errors(v, dir)
    } else {
        Seq::empty()
    };
    let b = vector_index_errors(v, dir);
    let c = fts_errors(v, is_populated(v), dir);
    let all = logical_errors(v, dir);
    assert(all == a + b + c);
    broken_links_are_told(v, dir);
    vector_faults_are_told(v, dir);
    text_faults_are_told(v, dir);
    assert forall|kind: IssueKind| #[trigger] tells(all, kind) <==> tells(a, kind) || tells(b, kind)
        || tells(c, kind) by {
        lemma_tells_concat(a, b, kind);
        lemma_tells_concat(a + b, c, kind);
    }
    if all.len() > 0 {
        assert(tells(all, all[0].kind));
    }
}

/// What the logical checks tell of a view as warnings, kind by kind.
pub proof fn logical_warnings_have_their_causes(v: ViewV, dir: Seq<char>)
    requires
        is_in_order(v),
        v.nodes.len() <= u64::MAX,
    ensures
        is_told_of(logical_warnings(v, dir), dir),
        tells(logical_warnings(v, dir), IssueKind::AllocatorStale) <==> in_use(v) && v.memory_meta is None && (
        v.nodes.len() > 0 || v.vecmap.len() > 0),
        tells(logical_warnings(v, dir), IssueKind::VectorMetaInconsistent) <==> meta_lies(v),
        tells(logical_warnings(v, dir), IssueKind::FtsStatsInconsistent) <==> exists|d: int|
            0 <= d < v.docterms.len() && !has_stats(v, (#[trigger] v.docterms[d]).agent),
        tells(logical_warnings(v, dir), IssueKind::GraphEdgeDangling) <==> edges_dangle(v),
        forall|kind: IssueKind| #[trigger]
            tells(logical_warnings(v, dir), kind) ==> kind is AllocatorStale || kind is VectorMetaInconsistent
                || kind is FtsStatsInconsistent || kind is GraphEdgeDangling,
{
    let a = if in_use(v) {
        allocator_warnings(v, dir)
    } else {
        Seq::empty()
    };
    let b = vector_index_warnings(v, dir);
    let c = fts_warnings(v, dir);
    let d = graph_warnings(v, dir);
    let all = logical_warnings(v, dir);
    assert(all == a + b + c + d);
    lemma_allocator(v, dir);
    assert(all_of(a, IssueKind::AllocatorStale, dir));
    lemma_all_of(a, IssueKind::AllocatorStale, dir);
    lying_metadata_is_told(v, dir);
    text_faults_are_told(v, dir);
    dangling_edges_are_told(v, dir);
    assert forall|kind: IssueKind| #[trigger] tells(all, kind) <==> tells(a, kind) || tells(b, kind) || tells(c, kind)
        || tells(d, kind) by {
        lemma_tells_concat(a, b, kind);
        lemma_tells_concat(a + b, c, kind);
        lemma_tells_concat(a + b + c, d, kind);
    }
}

} // verus!
