//! What a clean audit means.
use super::fts::{
    doc_errors, doc_term_errors, empty_stats_errors, fts_errors, has_agent, is_listed, posting_errors, posting_key,
    recomputed, stats_errors, stats_key,
};
use super::memory::{
    claim_errors, claimant, highest_id, link_errors, mapping_errors, node_errors, number_key, record_errors,
    record_key, vecmap_errors, vector_errors,
};
use super::parse::{edge_place, parses, place_of, taken, taken_text, takes, PlaceV, IDX_PREFIX};
use super::table::{holder, in_order, key_lt, lemma_key1, Keyed, Part};
use super::vector::{dim_errors, expected_dim, neighbor_errors, vector_index_errors};
use super::{
    checks_logic, is_populated, logical_errors, logical_warnings, DocV, FtsPrefixes, FtsStats, IndexCodec, NodeRow,
    PostingRow, RecordRow, RecordV, StatsRow, VecMapRow, VecMapV, ViewV,
};
use crate::bytes;
use crate::bytes::{be_bytes, has_prefix};
use crate::key::{field_fits, graph_index, len_prefixed, memory_index, vector_index, Key};
use crate::store::verify::{flat, Finding, Tally};
use crate::store::Value;
use crate::text;
use crate::text::utf8;
use vstd::prelude::*;

verus! {

/// Nothing is added exactly if no part adds anything.
pub proof fn lemma_flat_empty(n: nat, f: spec_fn(int) -> Seq<Finding>)
    ensures
        flat(n, f).len() == 0 <==> forall|i: int| 0 <= i < n ==> (#[trigger] f(i)).len() == 0,
    decreases n,
{
    if n > 0 {
        lemma_flat_empty((n - 1) as nat, f);
        if flat(n, f).len() == 0 {
            assert forall|i: int| 0 <= i < n implies (#[trigger] f(i)).len() == 0 by {
                if i == n - 1 {
                }
            }
        } else if forall|i: int| 0 <= i < n ==> (#[trigger] f(i)).len() == 0 {
            assert(f(n - 1).len() == 0);
        }
    }
}

/// A record and its vector belong together: the mapping leads back to it, and
/// the node is live.
pub open spec fn record_is_linked(v: ViewV, rec: RecordV) -> bool {
    &&& holder::<VecMapRow>(v.vecmap, number_key(rec.vec_id)) matches Some(entry) && entry.agent == rec.agent
        && entry.id == rec.id
    &&& holder::<NodeRow>(v.nodes, number_key(rec.vec_id)) matches Some(node) && !node.deleted
}

/// A mapping leads to a record that points back.
pub open spec fn mapping_is_linked(v: ViewV, entry: VecMapV) -> bool {
    holder::<RecordRow>(v.records, record_key(entry.agent, entry.id)) matches Some(rec) && rec.vec_id
        == entry.vec_id
}

/// Every link of the memory keyspace holds, in every direction, no vector is
/// claimed twice, and the allocator is above every id in use.
pub open spec fn links_are_sound(v: ViewV) -> bool {
    &&& forall|i: int, j: int|
        0 <= i < j < v.records.len() ==> (#[trigger] v.records[i]).vec_id != (#[trigger] v.records[j]).vec_id
    &&& forall|i: int| 0 <= i < v.records.len() ==> record_is_linked(v, #[trigger] v.records[i])
    &&& forall|i: int| 0 <= i < v.vecmap.len() ==> mapping_is_linked(v, #[trigger] v.vecmap[i])
    &&& forall|i: int|
        0 <= i < v.nodes.len() ==> (#[trigger] v.nodes[i]).deleted || holder::<VecMapRow>(
            v.vecmap,
            number_key(v.nodes[i].id),
        ) is Some
    &&& v.memory_meta matches Some(next) ==> (highest_id(v) matches Some(max) ==> max < next)
}

/// A vector has a claimant exactly if a record claims it.
pub proof fn lemma_claimant(records: Seq<RecordV>, n: int, vec_id: u64)
    requires
        0 <= n <= records.len(),
    ensures
        claimant(records, n, vec_id) is None <==> forall|i: int|
            0 <= i < n ==> (#[trigger] records[i]).vec_id != vec_id,
    decreases n,
{
    if n > 0 {
        lemma_claimant(records, n - 1, vec_id);
        if claimant(records, n, vec_id) is None {
            assert forall|i: int| 0 <= i < n implies (#[trigger] records[i]).vec_id != vec_id by {
                if i == n - 1 {
                }
            }
        } else if records[n - 1].vec_id == vec_id {
            assert(records[n - 1].vec_id == vec_id);
        }
    }
}

/// The memory checks find nothing exactly where every link holds.
pub proof fn no_link_error_means_sound_links(v: ViewV, dir: Seq<char>)
    ensures
        link_errors(v, dir).len() == 0 <==> links_are_sound(v),
{
    let fr = record_errors(v, dir);
    let fm = vecmap_errors(v, dir);
    let fnode = node_errors(v, dir);
    lemma_flat_empty(v.records.len(), fr);
    lemma_flat_empty(v.vecmap.len(), fm);
    lemma_flat_empty(v.nodes.len(), fnode);
    assert forall|i: int| 0 <= i < v.records.len() implies ((#[trigger] fr(i)).len() == 0 <==> (claimant(
        v.records,
        i,
        v.records[i].vec_id,
    ) is None && record_is_linked(v, v.records[i]))) by {
        assert(fr(i) == claim_errors(v, dir, i) + mapping_errors(v, dir, v.records[i]) + vector_errors(
            v,
            dir,
            v.records[i],
        ));
    }
    if link_errors(v, dir).len() == 0 {
        assert forall|i: int| 0 <= i < v.records.len() implies record_is_linked(v, #[trigger] v.records[i]) by {
            assert(fr(i).len() == 0);
        }
        assert forall|i: int, j: int| 0 <= i < j < v.records.len() implies (#[trigger] v.records[i]).vec_id != (
        #[trigger] v.records[j]).vec_id by {
            assert(fr(j).len() == 0);
            lemma_claimant(v.records, j, v.records[j].vec_id);
        }
        assert forall|i: int| 0 <= i < v.vecmap.len() implies mapping_is_linked(v, #[trigger] v.vecmap[i]) by {
            assert(fm(i).len() == 0);
        }
        assert forall|i: int| 0 <= i < v.nodes.len() implies (#[trigger] v.nodes[i]).deleted || holder::<
            VecMapRow,
        >(v.vecmap, number_key(v.nodes[i].id)) is Some by {
            assert(fnode(i).len() == 0);
        }
        assert(links_are_sound(v));
    }
    if links_are_sound(v) {
        assert forall|i: int| 0 <= i < v.records.len() implies (#[trigger] fr(i)).len() == 0 by {
            lemma_claimant(v.records, i, v.records[i].vec_id);
            assert(record_is_linked(v, v.records[i]));
        }
        assert forall|i: int| 0 <= i < v.vecmap.len() implies (#[trigger] fm(i)).len() == 0 by {
            assert(mapping_is_linked(v, v.vecmap[i]));
        }
        assert forall|i: int| 0 <= i < v.nodes.len() implies (#[trigger] fnode(i)).len() == 0 by {
            assert(v.nodes[i].deleted || holder::<VecMapRow>(v.vecmap, number_key(v.nodes[i].id)) is Some);
        }
        assert(link_errors(v, dir).len() == 0);
    }
}

/// The highest id is that of a node or of a mapping, and no node and no
/// mapping has a higher one.
pub proof fn highest_id_is_the_maximum(v: ViewV)
    requires
        in_order::<NodeRow>(v.nodes),
        in_order::<VecMapRow>(v.vecmap),
    ensures
        highest_id(v) is None <==> v.nodes.len() == 0 && v.vecmap.len() == 0,
        highest_id(v) matches Some(max) ==> {
            &&& forall|i: int| 0 <= i < v.nodes.len() ==> (#[trigger] v.nodes[i]).id <= max
            &&& forall|i: int| 0 <= i < v.vecmap.len() ==> (#[trigger] v.vecmap[i]).vec_id <= max
            &&& (exists|i: int| 0 <= i < v.nodes.len() && (#[trigger] v.nodes[i]).id == max) || (exists|i: int|
                0 <= i < v.vecmap.len() && (#[trigger] v.vecmap[i]).vec_id == max)
        },
{
    let n = v.nodes.len() - 1;
    let m = v.vecmap.len() - 1;
    assert forall|i: int| 0 <= i < v.nodes.len() implies (#[trigger] v.nodes[i]).id <= v.nodes[n].id by {
        if i < n {
            assert(key_lt(NodeRow::key(v.nodes[i]), NodeRow::key(v.nodes[n])));
            lemma_key1(Part::Number(v.nodes[i].id), Part::Number(v.nodes[n].id));
        }
    }
    assert forall|i: int| 0 <= i < v.vecmap.len() implies (#[trigger] v.vecmap[i]).vec_id <= v.vecmap[m].vec_id by {
        if i < m {
            assert(key_lt(VecMapRow::key(v.vecmap[i]), VecMapRow::key(v.vecmap[m])));
            lemma_key1(Part::Number(v.vecmap[i].vec_id), Part::Number(v.vecmap[m].vec_id));
        }
    }
}

/// Every node has the dimension of the index, and every neighbor exists.
pub open spec fn vectors_are_sound(v: ViewV) -> bool {
    &&& forall|i: int|
        0 <= i < v.nodes.len() ==> expected_dim(v) == Some((#[trigger] v.nodes[i]).dim)
    &&& forall|i: int, k: int|
        0 <= i < v.nodes.len() && 0 <= k < v.nodes[i].neighbors.len() ==> holder::<NodeRow>(
            v.nodes,
            number_key(#[trigger] v.nodes[i].neighbors[k]),
        ) is Some
}

/// The vector checks find no error exactly where the vectors are sound.
pub proof fn no_vector_error_means_sound_vectors(v: ViewV, dir: Seq<char>)
    ensures
        vector_index_errors(v, dir).len() == 0 <==> vectors_are_sound(v),
{
    let f = super::vector::node_errors(v, dir);
    lemma_flat_empty(v.nodes.len(), f);
    assert forall|i: int| 0 <= i < v.nodes.len() implies ((#[trigger] f(i)).len() == 0 <==> (expected_dim(v) == Some(
        v.nodes[i].dim,
    ) && forall|k: int|
        0 <= k < v.nodes[i].neighbors.len() ==> holder::<NodeRow>(
            v.nodes,
            number_key(#[trigger] v.nodes[i].neighbors[k]),
        ) is Some)) by {
        let node = v.nodes[i];
        let g = neighbor_errors(v, dir, node);
        lemma_flat_empty(node.neighbors.len(), g);
        assert(f(i) == dim_errors(v, dir, node) + flat(node.neighbors.len(), g));
        if forall|k: int| 0 <= k < node.neighbors.len() ==> (#[trigger] g(k)).len() == 0 {
            assert forall|k: int| 0 <= k < node.neighbors.len() implies holder::<NodeRow>(
                v.nodes,
                number_key(#[trigger] node.neighbors[k]),
            ) is Some by {
                assert(g(k).len() == 0);
            }
        }
    }
    if vector_index_errors(v, dir).len() == 0 {
        assert forall|i: int| 0 <= i < v.nodes.len() implies expected_dim(v) == Some((#[trigger] v.nodes[i]).dim) by {
            assert(f(i).len() == 0);
        }
        assert forall|i: int, k: int| 0 <= i < v.nodes.len() && 0 <= k < v.nodes[i].neighbors.len() implies holder::<
            NodeRow,
        >(v.nodes, number_key(#[trigger] v.nodes[i].neighbors[k])) is Some by {
            assert(f(i).len() == 0);
        }
        assert(vectors_are_sound(v));
    }
    if vectors_are_sound(v) {
        assert forall|i: int| 0 <= i < v.nodes.len() implies (#[trigger] f(i)).len() == 0 by {
            assert(expected_dim(v) == Some(v.nodes[i].dim));
        }
    }
}

/// Every term of a document occurs, and its posting says how often.
pub open spec fn doc_is_posted(v: ViewV, doc: DocV) -> bool {
    forall|k: int|
        0 <= k < doc.terms.len() ==> (#[trigger] doc.terms[k]).tf > 0 && (holder::<PostingRow>(
            v.postings,
            posting_key(doc.agent, doc.terms[k].term, doc.vec_id),
        ) matches Some(p) && p.tf == doc.terms[k].tf)
}

/// A document's vector belongs to the document's agent.
pub open spec fn doc_is_owned(v: ViewV, doc: DocV) -> bool {
    holder::<VecMapRow>(v.vecmap, number_key(doc.vec_id)) matches Some(entry) && entry.agent == doc.agent
}

/// Documents and postings agree both ways, no document is under a foreign
/// agent, and stored statistics are the recomputed ones.
pub open spec fn texts_are_sound(v: ViewV, populated: bool) -> bool {
    &&& forall|i: int| 0 <= i < v.docterms.len() ==> doc_is_posted(v, #[trigger] v.docterms[i])
    &&& populated ==> forall|i: int| 0 <= i < v.docterms.len() ==> doc_is_owned(v, #[trigger] v.docterms[i])
    &&& forall|i: int| 0 <= i < v.postings.len() ==> is_listed(v, #[trigger] v.postings[i])
    &&& forall|i: int|
        0 <= i < recomputed(v.docterms).len() ==> (holder::<StatsRow>(
            v.fts_stats,
            stats_key((#[trigger] recomputed(v.docterms)[i]).agent),
        ) matches Some(stored) ==> stored.stats == recomputed(v.docterms)[i].stats)
    &&& forall|i: int|
        0 <= i < v.fts_stats.len() ==> has_agent(recomputed(v.docterms), (#[trigger] v.fts_stats[i]).agent)
            || v.fts_stats[i].stats == (FtsStats { doc_count: 0, total_terms: 0 })
}

proof fn lemma_doc_posted(v: ViewV, dir: Seq<char>, doc: DocV)
    ensures
        flat(doc.terms.len(), doc_term_errors(v, dir, doc)).len() == 0 <==> doc_is_posted(v, doc),
{
    let g = doc_term_errors(v, dir, doc);
    lemma_flat_empty(doc.terms.len(), g);
    if forall|k: int| 0 <= k < doc.terms.len() ==> (#[trigger] g(k)).len() == 0 {
        assert forall|k: int| 0 <= k < doc.terms.len() implies (#[trigger] doc.terms[k]).tf > 0 && (holder::<
            PostingRow,
        >(v.postings, posting_key(doc.agent, doc.terms[k].term, doc.vec_id)) matches Some(p) && p.tf
            == doc.terms[k].tf) by {
            assert(g(k).len() == 0);
        }
    }
    if doc_is_posted(v, doc) {
        assert forall|k: int| 0 <= k < doc.terms.len() implies (#[trigger] g(k)).len() == 0 by {
            assert(doc.terms[k].tf > 0);
        }
    }
}

/// The full-text checks find no error exactly where the texts are sound.
pub proof fn no_text_error_means_sound_texts(v: ViewV, populated: bool, dir: Seq<char>)
    ensures
        fts_errors(v, populated, dir).len() == 0 <==> texts_are_sound(v, populated),
{
    let fd = doc_errors(v, populated, dir);
    let fp = posting_errors(v, dir);
    let fs = stats_errors(v, dir);
    let fe = empty_stats_errors(v, dir);
    let own = recomputed(v.docterms);
    lemma_flat_empty(v.docterms.len(), fd);
    lemma_flat_empty(v.postings.len(), fp);
    lemma_flat_empty(own.len(), fs);
    lemma_flat_empty(v.fts_stats.len(), fe);
    assert forall|i: int| 0 <= i < v.docterms.len() implies ((#[trigger] fd(i)).len() == 0 <==> doc_is_posted(
        v,
        v.docterms[i],
    ) && (populated ==> doc_is_owned(v, v.docterms[i]))) by {
        lemma_doc_posted(v, dir, v.docterms[i]);
    }
    if fts_errors(v, populated, dir).len() == 0 {
        assert forall|i: int| 0 <= i < v.docterms.len() implies doc_is_posted(v, #[trigger] v.docterms[i]) && (populated
            ==> doc_is_owned(v, v.docterms[i])) by {
            assert(fd(i).len() == 0);
        }
        assert forall|i: int| 0 <= i < v.postings.len() implies is_listed(v, #[trigger] v.postings[i]) by {
            assert(fp(i).len() == 0);
        }
        assert forall|i: int| 0 <= i < own.len() implies (holder::<StatsRow>(
            v.fts_stats,
            stats_key((#[trigger] own[i]).agent),
        ) matches Some(stored) ==> stored.stats == own[i].stats) by {
            assert(fs(i).len() == 0);
        }
        assert forall|i: int| 0 <= i < v.fts_stats.len() implies has_agent(own, (#[trigger] v.fts_stats[i]).agent)
            || v.fts_stats[i].stats == (FtsStats { doc_count: 0, total_terms: 0 }) by {
            assert(fe(i).len() == 0);
        }
        assert(texts_are_sound(v, populated));
    }
    if texts_are_sound(v, populated) {
        assert forall|i: int| 0 <= i < v.docterms.len() implies (#[trigger] fd(i)).len() == 0 by {
            assert(doc_is_posted(v, v.docterms[i]));
        }
        assert forall|i: int| 0 <= i < v.postings.len() implies (#[trigger] fp(i)).len() == 0 by {
            assert(is_listed(v, v.postings[i]));
        }
        assert forall|i: int| 0 <= i < own.len() implies (#[trigger] fs(i)).len() == 0 by {
            assert(own[i].agent == own[i].agent);
        }
        assert forall|i: int| 0 <= i < v.fts_stats.len() implies (#[trigger] fe(i)).len() == 0 by {
            assert(has_agent(own, v.fts_stats[i].agent) || v.fts_stats[i].stats == (FtsStats {
                doc_count: 0,
                total_terms: 0,
            }));
        }
    }
}

/// A view in which the checks find no error is sound throughout; the links of
/// the memory keyspace count only where it is in use.
pub proof fn a_clean_view_is_sound(v: ViewV, dir: Seq<char>)
    ensures
        logical_errors(v, dir).len() == 0 <==> {
            &&& is_populated(v) ==> links_are_sound(v)
            &&& vectors_are_sound(v)
            &&& texts_are_sound(v, is_populated(v))
        },
{
    no_link_error_means_sound_links(v, dir);
    no_vector_error_means_sound_vectors(v, dir);
    no_text_error_means_sound_texts(v, is_populated(v), dir);
}

/// A field that was written behind its length is read back with what follows.
pub proof fn a_written_field_is_taken_back(field: Seq<u8>, rest: Seq<u8>)
    requires
        field_fits(field),
    ensures
        taken(len_prefixed(field) + rest) == Some((field, rest)),
{
    let buf = len_prefixed(field) + rest;
    bytes::lemma_be32(field.len() as u32);
    assert(buf.subrange(0, 4) =~= be_bytes(field.len(), 4));
    let n = field.len() as int;
    assert(buf.subrange(4, 4 + n) =~= field);
    assert(buf.subrange(4 + n, buf.len() as int) =~= rest);
}

proof fn lemma_text_taken_back(t: Seq<char>, rest: Seq<u8>)
    requires
        field_fits(utf8(t)),
    ensures
        taken_text(len_prefixed(utf8(t)) + rest) == Some((t, rest)),
{
    a_written_field_is_taken_back(utf8(t), rest);
    text::lemma_utf8_roundtrip(t);
}

/// The keys of the memory and the vector index parse back to what they were
/// made of, so that a store written through them holds no malformed key.
pub proof fn written_keys_parse_back(agent: Seq<char>, id: Seq<char>, vec_id: u64, fts: FtsPrefixes)
    requires
        field_fits(utf8(agent)),
    ensures
        place_of(memory_index::META_KEY@, fts) == PlaceV::MemoryMeta,
        place_of(memory_index::record_key_bytes(agent, id), fts) == (PlaceV::Record { agent, id }),
        place_of(memory_index::vecmap_key_bytes(vec_id), fts) == (PlaceV::VecMap { vec_id }),
        place_of(vector_index::META_KEY@, fts) == PlaceV::VectorMeta,
        place_of(vector_index::node_key_bytes(vec_id), fts) == (PlaceV::Node { node: vec_id }),
{
    memory_index::keyspaces_are_reserved_and_disjoint(agent, id, vec_id);
    let record = memory_index::record_key_bytes(agent, id);
    let tail = len_prefixed(utf8(agent)) + utf8(id);
    assert(record =~= memory_index::RECORD_PREFIX@ + tail);
    bytes::lemma_prefix_concat(memory_index::RECORD_PREFIX@, tail);
    lemma_text_taken_back(agent, utf8(id));
    text::lemma_utf8_roundtrip(id);
    bytes::lemma_be64(vec_id);
    bytes::lemma_prefix_concat(memory_index::VECMAP_PREFIX@, be_bytes(vec_id as nat, 8));
    bytes::lemma_prefix_concat(vector_index::NODE_PREFIX@, be_bytes(vec_id as nat, 8));
    let node = vector_index::node_key_bytes(vec_id);
    let meta = vector_index::META_KEY@;
    assert(node[4] == vector_index::NODE_PREFIX@[4]);
    assert(meta[4] != memory_index::META_KEY@[4]);
    assert(node[4] != memory_index::META_KEY@[4]);
    assert(node[11] == vector_index::NODE_PREFIX@[11]);
    if has_prefix(node, memory_index::RECORD_PREFIX@) {
        assert(node.subrange(0, 15)[4] == node[4]);
    }
    if has_prefix(node, memory_index::VECMAP_PREFIX@) {
        assert(node.subrange(0, 18)[4] == node[4]);
    }
    if has_prefix(meta, memory_index::RECORD_PREFIX@) {
        assert(meta.subrange(0, 15)[4] == meta[4]);
    }
    if has_prefix(meta, memory_index::VECMAP_PREFIX@) {
        assert(meta.subrange(0, 18)[4] == meta[4]);
    }
}

/// A key lies under one of the full-text prefixes.
pub open spec fn lies_under(fts: FtsPrefixes, key: Seq<u8>) -> bool {
    has_prefix(key, fts.postings@) || has_prefix(key, fts.docterms@) || has_prefix(key, fts.stats@)
}

/// The key of a graph entity parses back to what it was made of, unless it
/// lies under a full-text prefix.
pub proof fn written_entity_keys_parse_back(agent: Seq<char>, id: Seq<char>, fts: FtsPrefixes)
    requires
        field_fits(utf8(agent)),
        !lies_under(fts, graph_index::entity_key_bytes(agent, id)),
    ensures
        place_of(graph_index::entity_key_bytes(agent, id), fts) == (PlaceV::Entity { agent, id }),
{
    let key = graph_index::entity_key_bytes(agent, id);
    let tail = len_prefixed(utf8(agent)) + utf8(id);
    assert(key =~= graph_index::ENTITY_PREFIX@ + tail);
    bytes::lemma_prefix_concat(graph_index::ENTITY_PREFIX@, tail);
    lemma_text_taken_back(agent, utf8(id));
    text::lemma_utf8_roundtrip(id);
    assert(key[4] == graph_index::ENTITY_PREFIX@[4]);
    lemma_not_elsewhere(key);
}

proof fn lemma_edge_place(agent: Seq<char>, src: Seq<char>, relation: Seq<char>, dst: Seq<char>)
    requires
        field_fits(utf8(agent)),
        field_fits(utf8(src)),
        field_fits(utf8(relation)),
    ensures
        edge_place(
            len_prefixed(utf8(agent)) + (len_prefixed(utf8(src)) + (len_prefixed(utf8(relation)) + utf8(dst))),
        ) == (PlaceV::Edge { agent, src, relation, dst }),
{
    let last = len_prefixed(utf8(relation)) + utf8(dst);
    let mid = len_prefixed(utf8(src)) + last;
    lemma_text_taken_back(agent, mid);
    lemma_text_taken_back(src, last);
    lemma_text_taken_back(relation, utf8(dst));
    text::lemma_utf8_roundtrip(dst);
}

/// The key of a graph edge parses back to what it was made of, unless it lies
/// under a full-text prefix.
pub proof fn written_edge_keys_parse_back(
    agent: Seq<char>,
    src: Seq<char>,
    relation: Seq<char>,
    dst: Seq<char>,
    fts: FtsPrefixes,
)
    requires
        field_fits(utf8(agent)),
        field_fits(utf8(src)),
        field_fits(utf8(relation)),
        !lies_under(fts, graph_index::edge_key_bytes(agent, src, relation, dst)),
    ensures
        place_of(graph_index::edge_key_bytes(agent, src, relation, dst), fts) == (PlaceV::Edge {
            agent,
            src,
            relation,
            dst,
        }),
{
    let key = graph_index::edge_key_bytes(agent, src, relation, dst);
    let tail = len_prefixed(utf8(agent)) + (len_prefixed(utf8(src)) + (len_prefixed(utf8(relation)) + utf8(dst)));
    assert(key =~= graph_index::EDGE_PREFIX@ + tail);
    bytes::lemma_prefix_concat(graph_index::EDGE_PREFIX@, tail);
    lemma_edge_place(agent, src, relation, dst);
    assert(key[4] == graph_index::EDGE_PREFIX@[4]);
    assert(key[11] == graph_index::EDGE_PREFIX@[11]);
    lemma_not_elsewhere(key);
    if has_prefix(key, graph_index::ENTITY_PREFIX@) {
        assert(key.subrange(0, 17)[11] == key[11]);
    }
}

proof fn lemma_not_elsewhere(key: Seq<u8>)
    requires
        key.len() > 4,
        key[4] == 0x67,
    ensures
        key != memory_index::META_KEY@,
        key != vector_index::META_KEY@,
        !has_prefix(key, memory_index::RECORD_PREFIX@),
        !has_prefix(key, memory_index::VECMAP_PREFIX@),
        !has_prefix(key, vector_index::NODE_PREFIX@),
{
    assert(memory_index::META_KEY@[4] == 0x6d);
    assert(vector_index::META_KEY@[4] == 0x76);
    if has_prefix(key, memory_index::RECORD_PREFIX@) {
        assert(key.subrange(0, 15)[4] == key[4]);
    }
    if has_prefix(key, memory_index::VECMAP_PREFIX@) {
        assert(key.subrange(0, 18)[4] == key[4]);
    }
    if has_prefix(key, vector_index::NODE_PREFIX@) {
        assert(key.subrange(0, 16)[4] == key[4]);
    }
}

/// The entries whose keys are reserved.
pub open spec fn reserved(kv: Seq<(Key, Value)>) -> Seq<(Key, Value)>
    decreases kv.len(),
{
    if kv.len() == 0 {
        Seq::empty()
    } else if has_prefix(kv.last().0@, IDX_PREFIX@) {
        reserved(kv.drop_last()).push(kv.last())
    } else {
        reserved(kv.drop_last())
    }
}

/// Parsing goes by the entries parsed.
proof fn lemma_same_start<C: IndexCodec>(
    codec: &C,
    fts: FtsPrefixes,
    a: Seq<(Key, Value)>,
    b: Seq<(Key, Value)>,
    n: int,
    dir: Seq<char>,
    t: Tally,
    v: ViewV,
    u: Tally,
)
    requires
        n <= a.len(),
        n <= b.len(),
        forall|i: int| 0 <= i < n ==> a[i] == b[i],
        parses(codec, fts, a, n, dir, t, v, u),
    ensures
        parses(codec, fts, b, n, dir, t, v, u),
    decreases n,
{
    if n > 0 {
        let (mid, m) = choose|mid: ViewV, m: Tally|
            parses(codec, fts, a, n - 1, dir, t, mid, m) && #[trigger] takes(
                codec,
                fts,
                &a[n - 1].0,
                &a[n - 1].1,
                dir,
                mid,
                m,
                v,
                u,
            );
        lemma_same_start(codec, fts, a, b, n - 1, dir, t, mid, m);
        assert(takes(codec, fts, &b[n - 1].0, &b[n - 1].1, dir, mid, m, v, u));
    }
}

proof fn lemma_parses_reserved<C: IndexCodec>(
    codec: &C,
    fts: FtsPrefixes,
    kv: Seq<(Key, Value)>,
    dir: Seq<char>,
    t: Tally,
    v: ViewV,
    u: Tally,
)
    ensures
        parses(codec, fts, kv, kv.len() as int, dir, t, v, u) <==> parses(
            codec,
            fts,
            reserved(kv),
            reserved(kv).len() as int,
            dir,
            t,
            v,
            u,
        ),
    decreases kv.len(),
{
    if kv.len() > 0 {
        let n = kv.len() as int;
        let head = kv.drop_last();
        let kept = reserved(head);
        let all = reserved(kv);
        let k = all.len() as int;
        let ours = has_prefix(kv.last().0@, IDX_PREFIX@);
        if parses(codec, fts, kv, n, dir, t, v, u) {
            let (mid, m) = choose|mid: ViewV, m: Tally|
                parses(codec, fts, kv, n - 1, dir, t, mid, m) && #[trigger] takes(
                    codec,
                    fts,
                    &kv[n - 1].0,
                    &kv[n - 1].1,
                    dir,
                    mid,
                    m,
                    v,
                    u,
                );
            lemma_same_start(codec, fts, kv, head, n - 1, dir, t, mid, m);
            lemma_parses_reserved(codec, fts, head, dir, t, mid, m);
            if ours {
                lemma_same_start(codec, fts, kept, all, k - 1, dir, t, mid, m);
                assert(takes(codec, fts, &all[k - 1].0, &all[k - 1].1, dir, mid, m, v, u));
            }
        }
        if parses(codec, fts, all, k, dir, t, v, u) {
            if ours {
                let (mid, m) = choose|mid: ViewV, m: Tally|
                    parses(codec, fts, all, k - 1, dir, t, mid, m) && #[trigger] takes(
                        codec,
                        fts,
                        &all[k - 1].0,
                        &all[k - 1].1,
                        dir,
                        mid,
                        m,
                        v,
                        u,
                    );
                lemma_same_start(codec, fts, all, kept, k - 1, dir, t, mid, m);
                lemma_parses_reserved(codec, fts, head, dir, t, mid, m);
                lemma_same_start(codec, fts, head, kv, n - 1, dir, t, mid, m);
                assert(takes(codec, fts, &kv[n - 1].0, &kv[n - 1].1, dir, mid, m, v, u));
            } else {
                lemma_parses_reserved(codec, fts, head, dir, t, v, u);
                lemma_same_start(codec, fts, head, kv, n - 1, dir, t, v, u);
                assert(takes(codec, fts, &kv[n - 1].0, &kv[n - 1].1, dir, v, u, v, u));
            }
        }
    }
}

/// The logical checks look at reserved keys alone: whatever else a store
/// holds, they find the same.
pub proof fn logical_checks_see_reserved_keys_alone<C: IndexCodec>(
    codec: &C,
    fts: FtsPrefixes,
    kv: Seq<(Key, Value)>,
    dir: Seq<char>,
    before: Tally,
    after: Tally,
)
    ensures
        checks_logic(codec, fts, kv, dir, before, after) <==> checks_logic(
            codec,
            fts,
            reserved(kv),
            dir,
            before,
            after,
        ),
{
    let all = reserved(kv);
    if checks_logic(codec, fts, kv, dir, before, after) {
        let (v, mid) = choose|v: ViewV, mid: Tally|
            #[trigger] parses(codec, fts, kv, kv.len() as int, dir, before, v, mid) && after == mid.with(
                logical_errors(v, dir),
                logical_warnings(v, dir),
            );
        lemma_parses_reserved(codec, fts, kv, dir, before, v, mid);
    }
    if checks_logic(codec, fts, all, dir, before, after) {
        let (v, mid) = choose|v: ViewV, mid: Tally|
            #[trigger] parses(codec, fts, all, all.len() as int, dir, before, v, mid) && after == mid.with(
                logical_errors(v, dir),
                logical_warnings(v, dir),
            );
        lemma_parses_reserved(codec, fts, kv, dir, before, v, mid);
    }
}

} // verus!
