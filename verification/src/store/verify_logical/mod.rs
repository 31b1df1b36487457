//! Holding the reserved keyspaces against one another.
//!
//! Over a physically sound view of the live entries: what the engine would
//! heal on its own is a warning, what it would trust and act wrongly on is an
//! error. The links between records, mappings and vectors are looked at only
//! where the memory keyspace is in use.
use crate::error::EngineError;
use crate::key::Key;
use crate::store::verify::{Finding, Tally, VerifyReport};
use crate::store::Value;
use crate::text;
use table::{in_order, lemma_key1, lemma_key2, lemma_key3, rows_of, text_precedes, Keyed, Part};
use vstd::prelude::*;

pub mod cause_laws;
pub mod fts;
pub mod graph;
pub mod kinds;
pub mod laws;
pub mod memory;
pub mod parse;
pub mod parse_laws;
pub mod scope_laws;
pub mod stats_laws;
pub mod table;
pub mod vector;

verus! {

/// What a memory record's value holds that the store itself reads.
#[derive(Debug)]
pub struct MemoryRecord {
    pub vec_id: u64,
    pub content: String,
}

/// The record that a vector id maps back to.
#[derive(Debug)]
pub struct VecMapEntry {
    pub agent: String,
    pub id: String,
}

/// What a vector node's value holds that the store itself reads.
#[derive(Debug)]
pub struct VectorNode {
    /// The number of components of the vector.
    pub dim: usize,
    pub neighbors: Vec<u64>,
    pub deleted: bool,
}

/// The metadata of the vector index.
#[derive(Debug, Clone, Copy, PartialEq, Eq, Structural)]
pub struct VectorIndexMeta {
    pub dim: usize,
    pub count: u64,
    pub entry_point: Option<u64>,
}

/// A term and how often it occurs.
#[derive(Debug)]
pub struct TermCount {
    pub term: String,
    pub tf: u32,
}

/// What a term count says.
pub struct TermV {
    pub term: Seq<char>,
    pub tf: u32,
}

impl TermCount {
    /// What the count says.
    pub open spec fn says(&self) -> TermV {
        TermV { term: self.term@, tf: self.tf }
    }
}

/// What term counts say, in order.
pub open spec fn terms_of(terms: Seq<TermCount>) -> Seq<TermV> {
    Seq::new(terms.len(), |i: int| terms[i].says())
}

/// The statistics of the documents of one agent.
#[derive(Debug, Clone, Copy, PartialEq, Eq, Structural)]
pub struct FtsStats {
    pub doc_count: u64,
    pub total_terms: u64,
}

/// Decodes the values of the reserved keyspaces.
pub trait IndexCodec {
    /// The allocator's next vector id.
    fn memory_meta(&self, value: &Value) -> Result<u64, EngineError>;

    fn record(&self, value: &Value) -> Result<MemoryRecord, EngineError>;

    fn vecmap(&self, value: &Value) -> Result<VecMapEntry, EngineError>;

    fn vector_meta(&self, value: &Value) -> Result<VectorIndexMeta, EngineError>;

    fn node(&self, value: &Value) -> Result<VectorNode, EngineError>;

    /// How often the term occurs.
    fn posting(&self, value: &Value) -> Result<u32, EngineError>;

    fn docterms(&self, value: &Value) -> Result<Vec<TermCount>, EngineError>;

    fn fts_stats(&self, value: &Value) -> Result<FtsStats, EngineError>;

    fn entity(&self, value: &Value) -> Result<(), EngineError>;

    fn edge(&self, value: &Value) -> Result<(), EngineError>;
}

/// The prefixes of the full-text keyspace.
#[derive(Debug)]
pub struct FtsPrefixes {
    /// Of every key of the index.
    pub index: Vec<u8>,
    pub postings: Vec<u8>,
    pub docterms: Vec<u8>,
    pub stats: Vec<u8>,
}

/// A memory record: whose it is, and the vector it points at.
#[derive(Debug)]
pub struct RecordRow {
    pub agent: String,
    pub id: String,
    pub vec_id: u64,
}

/// What such a row says.
pub struct RecordV {
    pub agent: Seq<char>,
    pub id: Seq<char>,
    pub vec_id: u64,
}

impl Keyed for RecordRow {
    type V = RecordV;

    open spec fn row(&self) -> RecordV {
        RecordV { agent: self.agent@, id: self.id@, vec_id: self.vec_id }
    }

    open spec fn key(row: RecordV) -> Seq<Part> {
        seq![Part::Text(row.agent), Part::Text(row.id)]
    }

    fn precedes(&self, other: &RecordRow) -> (r: bool) {
        proof {
            lemma_key2(Part::Text(self.agent@), Part::Text(self.id@), Part::Text(other.agent@), Part::Text(other.id@));
        }
        text_precedes(self.agent.as_str(), other.agent.as_str())
            || (text::same(self.agent.as_str(), other.agent.as_str()) && (text_precedes(self.id.as_str(), other.id.as_str())))
    }
}

/// A reverse mapping: the record that a vector belongs to.
#[derive(Debug)]
pub struct VecMapRow {
    pub vec_id: u64,
    pub agent: String,
    pub id: String,
}

/// What such a row says.
pub struct VecMapV {
    pub vec_id: u64,
    pub agent: Seq<char>,
    pub id: Seq<char>,
}

impl Keyed for VecMapRow {
    type V = VecMapV;

    open spec fn row(&self) -> VecMapV {
        VecMapV { vec_id: self.vec_id, agent: self.agent@, id: self.id@ }
    }

    open spec fn key(row: VecMapV) -> Seq<Part> {
        seq![Part::Number(row.vec_id)]
    }

    fn precedes(&self, other: &VecMapRow) -> (r: bool) {
        proof {
            lemma_key1(Part::Number(self.vec_id), Part::Number(other.vec_id));
        }
        self.vec_id < other.vec_id
    }
}

/// A vector node: its dimension, its neighbors, and whether it is deleted.
#[derive(Debug)]
pub struct NodeRow {
    pub id: u64,
    pub dim: usize,
    pub neighbors: Vec<u64>,
    pub deleted: bool,
}

/// What such a row says.
pub struct NodeV {
    pub id: u64,
    pub dim: usize,
    pub neighbors: Seq<u64>,
    pub deleted: bool,
}

impl Keyed for NodeRow {
    type V = NodeV;

    open spec fn row(&self) -> NodeV {
        NodeV { id: self.id, dim: self.dim, neighbors: self.neighbors@, deleted: self.deleted }
    }

    open spec fn key(row: NodeV) -> Seq<Part> {
        seq![Part::Number(row.id)]
    }

    fn precedes(&self, other: &NodeRow) -> (r: bool) {
        proof {
            lemma_key1(Part::Number(self.id), Part::Number(other.id));
        }
        self.id < other.id
    }
}

/// A posting: how often a document has a term.
#[derive(Debug)]
pub struct PostingRow {
    pub agent: String,
    pub term: String,
    pub vec_id: u64,
    pub tf: u32,
}

/// What such a row says.
pub struct PostingV {
    pub agent: Seq<char>,
    pub term: Seq<char>,
    pub vec_id: u64,
    pub tf: u32,
}

impl Keyed for PostingRow {
    type V = PostingV;

    open spec fn row(&self) -> PostingV {
        PostingV { agent: self.agent@, term: self.term@, vec_id: self.vec_id, tf: self.tf }
    }

    open spec fn key(row: PostingV) -> Seq<Part> {
        seq![Part::Text(row.agent), Part::Text(row.term), Part::Number(row.vec_id)]
    }

    fn precedes(&self, other: &PostingRow) -> (r: bool) {
        proof {
            lemma_key3(Part::Text(self.agent@), Part::Text(self.term@), Part::Number(self.vec_id), Part::Text(other.agent@), Part::Text(other.term@), Part::Number(other.vec_id));
        }
        text_precedes(self.agent.as_str(), other.agent.as_str())
            || (text::same(self.agent.as_str(), other.agent.as_str()) && (text_precedes(self.term.as_str(), other.term.as_str()) || (text::same(self.term.as_str(), other.term.as_str()) && (self.vec_id < other.vec_id))))
    }
}

/// The terms of a document.
#[derive(Debug)]
pub struct DocRow {
    pub agent: String,
    pub vec_id: u64,
    pub terms: Vec<TermCount>,
}

/// What such a row says.
pub struct DocV {
    pub agent: Seq<char>,
    pub vec_id: u64,
    pub terms: Seq<TermV>,
}

impl Keyed for DocRow {
    type V = DocV;

    open spec fn row(&self) -> DocV {
        DocV { agent: self.agent@, vec_id: self.vec_id, terms: terms_of(self.terms@) }
    }

    open spec fn key(row: DocV) -> Seq<Part> {
        seq![Part::Text(row.agent), Part::Number(row.vec_id)]
    }

    fn precedes(&self, other: &DocRow) -> (r: bool) {
        proof {
            lemma_key2(Part::Text(self.agent@), Part::Number(self.vec_id), Part::Text(other.agent@), Part::Number(other.vec_id));
        }
        text_precedes(self.agent.as_str(), other.agent.as_str())
            || (text::same(self.agent.as_str(), other.agent.as_str()) && (self.vec_id < other.vec_id))
    }
}

/// The stored statistics of an agent.
#[derive(Debug)]
pub struct StatsRow {
    pub agent: String,
    pub stats: FtsStats,
}

/// What such a row says.
pub struct StatsV {
    pub agent: Seq<char>,
    pub stats: FtsStats,
}

impl Keyed for StatsRow {
    type V = StatsV;

    open spec fn row(&self) -> StatsV {
        StatsV { agent: self.agent@, stats: self.stats }
    }

    open spec fn key(row: StatsV) -> Seq<Part> {
        seq![Part::Text(row.agent)]
    }

    fn precedes(&self, other: &StatsRow) -> (r: bool) {
        proof {
            lemma_key1(Part::Text(self.agent@), Part::Text(other.agent@));
        }
        text_precedes(self.agent.as_str(), other.agent.as_str())
    }
}

/// A graph entity.
#[derive(Debug)]
pub struct EntityRow {
    pub agent: String,
    pub id: String,
}

/// What such a row says.
pub struct EntityV {
    pub agent: Seq<char>,
    pub id: Seq<char>,
}

impl Keyed for EntityRow {
    type V = EntityV;

    open spec fn row(&self) -> EntityV {
        EntityV { agent: self.agent@, id: self.id@ }
    }

    open spec fn key(row: EntityV) -> Seq<Part> {
        seq![Part::Text(row.agent), Part::Text(row.id)]
    }

    fn precedes(&self, other: &EntityRow) -> (r: bool) {
        proof {
            lemma_key2(Part::Text(self.agent@), Part::Text(self.id@), Part::Text(other.agent@), Part::Text(other.id@));
        }
        text_precedes(self.agent.as_str(), other.agent.as_str())
            || (text::same(self.agent.as_str(), other.agent.as_str()) && (text_precedes(self.id.as_str(), other.id.as_str())))
    }
}

/// A graph edge.
#[derive(Debug)]
pub struct EdgeRow {
    pub agent: String,
    pub src: String,
    pub relation: String,
    pub dst: String,
}

/// What an edge says.
pub struct EdgeV {
    pub agent: Seq<char>,
    pub src: Seq<char>,
    pub relation: Seq<char>,
    pub dst: Seq<char>,
}

impl EdgeRow {
    /// What the edge says.
    pub open spec fn says(&self) -> EdgeV {
        EdgeV { agent: self.agent@, src: self.src@, relation: self.relation@, dst: self.dst@ }
    }
}

/// What edges say, in order.
pub open spec fn edges_of(edges: Seq<EdgeRow>) -> Seq<EdgeV> {
    Seq::new(edges.len(), |i: int| edges[i].says())
}

/// Everything that the reserved keyspaces hold, decoded. The checks look at
/// this and never at bytes.
#[derive(Debug)]
pub struct LogicalView {
    pub records: Vec<RecordRow>,
    pub vecmap: Vec<VecMapRow>,
    /// The allocator's next vector id.
    pub memory_meta: Option<u64>,
    pub nodes: Vec<NodeRow>,
    pub vector_meta: Option<VectorIndexMeta>,
    pub postings: Vec<PostingRow>,
    pub docterms: Vec<DocRow>,
    pub fts_stats: Vec<StatsRow>,
    pub entities: Vec<EntityRow>,
    pub edges: Vec<EdgeRow>,
}

/// What a view says.
pub struct ViewV {
    pub records: Seq<RecordV>,
    pub vecmap: Seq<VecMapV>,
    pub memory_meta: Option<u64>,
    pub nodes: Seq<NodeV>,
    pub vector_meta: Option<VectorIndexMeta>,
    pub postings: Seq<PostingV>,
    pub docterms: Seq<DocV>,
    pub fts_stats: Seq<StatsV>,
    pub entities: Seq<EntityV>,
    pub edges: Seq<EdgeV>,
}

/// A view of nothing.
pub open spec fn no_view() -> ViewV {
    ViewV {
        records: Seq::empty(),
        vecmap: Seq::empty(),
        memory_meta: None,
        nodes: Seq::empty(),
        vector_meta: None,
        postings: Seq::empty(),
        docterms: Seq::empty(),
        fts_stats: Seq::empty(),
        entities: Seq::empty(),
        edges: Seq::empty(),
    }
}

impl LogicalView {
    /// What the view says.
    pub open spec fn says(&self) -> ViewV {
        ViewV {
            records: rows_of(self.records@),
            vecmap: rows_of(self.vecmap@),
            memory_meta: self.memory_meta,
            nodes: rows_of(self.nodes@),
            vector_meta: self.vector_meta,
            postings: rows_of(self.postings@),
            docterms: rows_of(self.docterms@),
            fts_stats: rows_of(self.fts_stats@),
            entities: rows_of(self.entities@),
            edges: edges_of(self.edges@),
        }
    }

    /// Every table is in the order of its keys.
    pub open spec fn wf(&self) -> bool {
        &&& in_order::<RecordRow>(rows_of(self.records@))
        &&& in_order::<VecMapRow>(rows_of(self.vecmap@))
        &&& in_order::<NodeRow>(rows_of(self.nodes@))
        &&& in_order::<PostingRow>(rows_of(self.postings@))
        &&& in_order::<DocRow>(rows_of(self.docterms@))
        &&& in_order::<StatsRow>(rows_of(self.fts_stats@))
        &&& in_order::<EntityRow>(rows_of(self.entities@))
    }

    /// A view of nothing.
    pub fn new() -> (view: LogicalView)
        ensures
            view.wf(),
            view.says() == no_view(),
    {
        let view = LogicalView {
            records: Vec::new(),
            vecmap: Vec::new(),
            memory_meta: None,
            nodes: Vec::new(),
            vector_meta: None,
            postings: Vec::new(),
            docterms: Vec::new(),
            fts_stats: Vec::new(),
            entities: Vec::new(),
            edges: Vec::new(),
        };
        proof {
            assert(view.says().records =~= no_view().records);
            assert(view.says().vecmap =~= no_view().vecmap);
            assert(view.says().nodes =~= no_view().nodes);
            assert(view.says().postings =~= no_view().postings);
            assert(view.says().docterms =~= no_view().docterms);
            assert(view.says().fts_stats =~= no_view().fts_stats);
            assert(view.says().entities =~= no_view().entities);
            assert(view.says().edges =~= no_view().edges);
        }
        view
    }
}

/// The memory keyspace is in use.
pub open spec fn is_populated(v: ViewV) -> bool {
    v.records.len() > 0 || v.vecmap.len() > 0 || v.memory_meta is Some
}

/// Everything that is wrong with a view.
pub open spec fn logical_errors(v: ViewV, dir: Seq<char>) -> Seq<Finding> {
    (if is_populated(v) {
        memory::link_errors(v, dir)
    } else {
        Seq::empty()
    }) + vector::vector_index_errors(v, dir) + fts::fts_errors(v, is_populated(v), dir)
}

/// Everything that is worth telling of a view.
pub open spec fn logical_warnings(v: ViewV, dir: Seq<char>) -> Seq<Finding> {
    (if is_populated(v) {
        memory::allocator_warnings(v, dir)
    } else {
        Seq::empty()
    }) + vector::vector_index_warnings(v, dir) + fts::fts_warnings(v, dir) + graph::graph_warnings(v, dir)
}

/// What the logical checks of live entries do to a report: one parse, then
/// what the checks find in what it gave.
pub open spec fn checks_logic<C: IndexCodec>(
    codec: &C,
    prefixes: FtsPrefixes,
    kv: Seq<(Key, Value)>,
    dir: Seq<char>,
    before: Tally,
    after: Tally,
) -> bool {
    exists|v: ViewV, mid: Tally|
        #[trigger] parse::parses(codec, prefixes, kv, kv.len() as int, dir, before, v, mid) && after == mid.with(
            logical_errors(v, dir),
            logical_warnings(v, dir),
        )
}

/// Holds the reserved keyspaces of the live entries against one another. What
/// it finds spans structures, so it names the directory, not a file.
pub fn check_logical<C: IndexCodec>(
    codec: &C,
    prefixes: &FtsPrefixes,
    kv: &Vec<(Key, Value)>,
    dir: &str,
    report: &mut VerifyReport,
)
    ensures
        checks_logic(codec, *prefixes, kv@, dir@, old(report).tally(), final(report).tally()),
{
    let ghost before = report.tally();
    let view = parse::parse_view(codec, prefixes, kv, dir, report);
    let ghost mid = report.tally();
    let ghost v = view.says();
    assert(parse::parses(codec, *prefixes, kv@, kv@.len() as int, dir@, before, v, mid));
    let populated = view.records.len() > 0 || view.vecmap.len() > 0 || view.memory_meta.is_some();
    if populated {
        memory::check_memory_links(&view, dir, report);
    }
    vector::check_vector_index(&view, dir, report);
    fts::check_fts(&view, populated, dir, report);
    graph::check_graph(&view, dir, report);
    proof {
        assert(report.tally().errors =~= mid.errors + logical_errors(v, dir@));
        assert(report.tally().warnings =~= mid.warnings + logical_warnings(v, dir@));
    }
}

} // verus!
