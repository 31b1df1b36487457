//! The vector index against itself: neighbors, dimensions, and the metadata,
//! which the index rebuilds on its own.
use super::memory::{find_node, number_key};
use super::table::{holder, Keyed};
use super::{LogicalView, NodeRow, NodeV, VectorIndexMeta, ViewV};
use crate::store::verify::{flat, found_if, issue, Finding, IssueKind, Tally, VerifyReport};
use crate::text;
use crate::text::dec_text;
use vstd::prelude::*;

verus! {

/// The diagnosis of a node of another dimension.
pub open spec fn dim_text(id: u64, dim: usize, expected: usize) -> Seq<char> {
    "vector node "@ + dec_text(id as nat) + " has dimension "@ + dec_text(dim as nat) + " but the index is dimension "@
        + dec_text(expected as nat)
}

/// The diagnosis of a node of another dimension.
pub fn dim_detail(id: u64, dim: usize, expected: usize) -> (s: String)
    ensures
        s@ == dim_text(id, dim, expected),
{
    String::from_str("vector node ").concat(text::dec(id).as_str()).concat(" has dimension ")
        .concat(text::dec(dim as u64).as_str()).concat(" but the index is dimension ")
        .concat(text::dec(expected as u64).as_str())
}

/// The diagnosis of a neighbor that does not exist.
pub open spec fn neighbor_text(id: u64, neighbor: u64) -> Seq<char> {
    "vector node "@ + dec_text(id as nat) + " lists neighbor "@ + dec_text(neighbor as nat)
        + ", which has no node block"@
}

/// The diagnosis of a neighbor that does not exist.
pub fn neighbor_detail(id: u64, neighbor: u64) -> (s: String)
    ensures
        s@ == neighbor_text(id, neighbor),
{
    String::from_str("vector node ").concat(text::dec(id).as_str()).concat(" lists neighbor ")
        .concat(text::dec(neighbor).as_str()).concat(", which has no node block")
}

/// The diagnosis of a wrong count of live vectors.
pub open spec fn count_text(count: u64, live: u64) -> Seq<char> {
    "metadata counts "@ + dec_text(count as nat) + " live vectors but "@ + dec_text(live as nat)
        + " are stored (rebuilt at the next open)"@
}

/// The diagnosis of a wrong count of live vectors.
pub fn count_detail(count: u64, live: u64) -> (s: String)
    ensures
        s@ == count_text(count, live),
{
    String::from_str("metadata counts ").concat(text::dec(count).as_str()).concat(" live vectors but ")
        .concat(text::dec(live).as_str()).concat(" are stored (rebuilt at the next open)")
}

/// The diagnosis of an entry point that does not exist.
pub open spec fn entry_text(entry: u64) -> Seq<char> {
    "metadata entry point "@ + dec_text(entry as nat) + " has no node block (rebuilt at the next open)"@
}

/// The diagnosis of an entry point that does not exist.
pub fn entry_detail(entry: u64) -> (s: String)
    ensures
        s@ == entry_text(entry),
{
    String::from_str("metadata entry point ").concat(text::dec(entry).as_str())
        .concat(" has no node block (rebuilt at the next open)")
}

/// The diagnosis of a missing entry point.
pub open spec fn no_entry_text(live: u64) -> Seq<char> {
    "metadata has no entry point while "@ + dec_text(live as nat)
        + " live vectors are stored (rebuilt at the next open)"@
}

/// The diagnosis of a missing entry point.
pub fn no_entry_detail(live: u64) -> (s: String)
    ensures
        s@ == no_entry_text(live),
{
    String::from_str("metadata has no entry point while ").concat(text::dec(live).as_str())
        .concat(" live vectors are stored (rebuilt at the next open)")
}

/// The dimension of the index: as its metadata says, else as the node with
/// the lowest id has it.
pub open spec fn expected_dim(v: ViewV) -> Option<usize> {
    match v.vector_meta {
        Some(meta) => Some(meta.dim),
        None => if v.nodes.len() > 0 {
            Some(v.nodes[0].dim)
        } else {
            None
        },
    }
}

/// What is wrong with the dimension of a node.
pub open spec fn dim_errors(v: ViewV, dir: Seq<char>, node: NodeV) -> Seq<Finding> {
    match expected_dim(v) {
        Some(dim) => found_if(
            node.dim != dim,
            issue(IssueKind::VectorDimMismatch, dir, dim_text(node.id, node.dim, dim)),
        ),
        None => Seq::empty(),
    }
}

/// What is wrong with each neighbor of a node.
pub open spec fn neighbor_errors(v: ViewV, dir: Seq<char>, node: NodeV) -> spec_fn(int) -> Seq<Finding> {
    |k: int|
        found_if(
            holder::<NodeRow>(v.nodes, number_key(node.neighbors[k])) is None,
            issue(IssueKind::VectorNeighborMissing, dir, neighbor_text(node.id, node.neighbors[k])),
        )
}

/// What is wrong with each node.
pub open spec fn node_errors(v: ViewV, dir: Seq<char>) -> spec_fn(int) -> Seq<Finding> {
    |i: int|
        dim_errors(v, dir, v.nodes[i]) + flat(
            v.nodes[i].neighbors.len(),
            neighbor_errors(v, dir, v.nodes[i]),
        )
}

/// The live ones among the first `n` nodes.
pub open spec fn live_nodes(nodes: Seq<NodeV>, n: int) -> nat
    decreases n,
{
    if n <= 0 {
        0
    } else if nodes[n - 1].deleted {
        live_nodes(nodes, n - 1)
    } else {
        live_nodes(nodes, n - 1) + 1
    }
}

/// What is worth telling of the metadata.
pub open spec fn meta_warnings(v: ViewV, dir: Seq<char>, meta: VectorIndexMeta) -> Seq<Finding> {
    let live = live_nodes(v.nodes, v.nodes.len() as int) as u64;
    found_if(
        meta.count != live,
        issue(IssueKind::VectorMetaInconsistent, dir, count_text(meta.count, live)),
    ) + (match meta.entry_point {
        Some(entry) => found_if(
            holder::<NodeRow>(v.nodes, number_key(entry)) is None,
            issue(IssueKind::VectorMetaInconsistent, dir, entry_text(entry)),
        ),
        None => found_if(live > 0, issue(IssueKind::VectorMetaInconsistent, dir, no_entry_text(live))),
    })
}

/// Everything that is wrong with the vector index.
pub open spec fn vector_index_errors(v: ViewV, dir: Seq<char>) -> Seq<Finding> {
    flat(v.nodes.len(), node_errors(v, dir))
}

/// Everything that is worth telling of the vector index.
pub open spec fn vector_index_warnings(v: ViewV, dir: Seq<char>) -> Seq<Finding> {
    match v.vector_meta {
        Some(meta) => meta_warnings(v, dir, meta),
        None => Seq::empty(),
    }
}

fn index_dim(view: &LogicalView) -> (r: Option<usize>)
    ensures
        r == expected_dim(view.says()),
{
    match view.vector_meta {
        Some(meta) => Some(meta.dim),
        None => if view.nodes.len() > 0 {
            assert(view.says().nodes[0] == view.nodes@[0].row());
            Some(view.nodes[0].dim)
        } else {
            None
        },
    }
}

fn count_live(view: &LogicalView) -> (n: u64)
    ensures
        n == live_nodes(view.says().nodes, view.nodes@.len() as int) as u64,
{
    let ghost nodes = view.says().nodes;
    let mut live: usize = 0;
    let mut i: usize = 0;
    while i < view.nodes.len()
        invariant
            i <= view.nodes@.len(),
            nodes == view.says().nodes,
            live == live_nodes(nodes, i as int),
            live <= i,
        decreases view.nodes@.len() - i,
    {
        assert(nodes[i as int] == view.nodes@[i as int].row());
        if !view.nodes[i].deleted {
            live = live + 1;
        }
        i = i + 1;
    }
    live as u64
}

fn check_node(view: &LogicalView, i: usize, dim: Option<usize>, dir: &str, report: &mut VerifyReport)
    requires
        view.wf(),
        i < view.nodes@.len(),
        dim == expected_dim(view.says()),
    ensures
        final(report).tally() == old(report).tally().with(
            node_errors(view.says(), dir@)(i as int),
            Seq::empty(),
        ),
{
    let ghost start = report.tally();
    let ghost v = view.says();
    let node = &view.nodes[i];
    let ghost n = node.row();
    assert(v.nodes[i as int] == n);
    if let Some(expected) = dim {
        if node.dim != expected {
            report.error(IssueKind::VectorDimMismatch, dir, dim_detail(node.id, node.dim, expected));
        }
    }
    let ghost first = start.errors + dim_errors(v, dir@, n);
    let ghost f = neighbor_errors(v, dir@, n);
    assert(report.tally().errors =~= first);
    let mut k: usize = 0;
    assert(first + flat(0, f) =~= first);
    while k < node.neighbors.len()
        invariant
            view.wf(),
            v == view.says(),
            n == node.row(),
            f == neighbor_errors(v, dir@, n),
            k <= node.neighbors@.len(),
            report.tally() == (Tally { errors: first + flat(k as nat, f), ..start }),
        decreases node.neighbors@.len() - k,
    {
        let neighbor: u64 = node.neighbors[k];
        if find_node(view, neighbor).is_none() {
            report.error(IssueKind::VectorNeighborMissing, dir, neighbor_detail(node.id, neighbor));
        }
        proof {
            assert(n.neighbors[k as int] == neighbor);
            assert(flat((k + 1) as nat, f) == flat(k as nat, f) + f(k as int));
            assert(report.tally().errors =~= first + flat((k + 1) as nat, f));
        }
        k = k + 1;
    }
    proof {
        let more = node_errors(v, dir@)(i as int);
        assert(more == dim_errors(v, dir@, n) + flat(n.neighbors.len(), f));
        assert(report.tally().errors =~= start.errors + more);
        assert(report.tally().warnings =~= start.warnings + Seq::<Finding>::empty());
    }
}

fn check_meta(view: &LogicalView, meta: VectorIndexMeta, dir: &str, report: &mut VerifyReport)
    requires
        view.wf(),
    ensures
        final(report).tally() == old(report).tally().with(
            Seq::empty(),
            meta_warnings(view.says(), dir@, meta),
        ),
{
    let ghost start = report.tally();
    let live: u64 = count_live(view);
    if meta.count != live {
        report.warning(IssueKind::VectorMetaInconsistent, dir, count_detail(meta.count, live));
    }
    match meta.entry_point {
        Some(entry) => {
            if find_node(view, entry).is_none() {
                report.warning(IssueKind::VectorMetaInconsistent, dir, entry_detail(entry));
            }
        },
        None => {
            if live > 0 {
                report.warning(IssueKind::VectorMetaInconsistent, dir, no_entry_detail(live));
            }
        },
    }
    proof {
        assert(report.tally().warnings =~= start.warnings + meta_warnings(view.says(), dir@, meta));
        assert(report.tally().errors =~= start.errors + Seq::<Finding>::empty());
    }
}

/// Checks that neighbors exist and dimensions agree; warns of metadata that
/// the index will rebuild.
pub fn check_vector_index(view: &LogicalView, dir: &str, report: &mut VerifyReport)
    requires
        view.wf(),
    ensures
        final(report).tally() == old(report).tally().with(
            vector_index_errors(view.says(), dir@),
            vector_index_warnings(view.says(), dir@),
        ),
{
    let ghost start = report.tally();
    let ghost v = view.says();
    let ghost f = node_errors(v, dir@);
    let dim = index_dim(view);
    let mut i: usize = 0;
    proof {
        assert(start.errors + Seq::<Finding>::empty() =~= start.errors);
        assert(start.warnings + Seq::<Finding>::empty() =~= start.warnings);
    }
    while i < view.nodes.len()
        invariant
            view.wf(),
            v == view.says(),
            dim == expected_dim(v),
            f == node_errors(v, dir@),
            i <= view.nodes@.len(),
            report.tally() == start.with(flat(i as nat, f), Seq::empty()),
        decreases view.nodes@.len() - i,
    {
        check_node(view, i, dim, dir, report);
        proof {
            assert(flat((i + 1) as nat, f) == flat(i as nat, f) + f(i as int));
            assert(report.tally().errors =~= start.errors + flat((i + 1) as nat, f));
            assert(report.tally().warnings =~= start.warnings + Seq::<Finding>::empty());
        }
        i = i + 1;
    }
    if let Some(meta) = view.vector_meta {
        check_meta(view, meta, dir, report);
    }
    proof {
        assert(report.tally().errors =~= start.errors + vector_index_errors(v, dir@));
        assert(report.tally().warnings =~= start.warnings + vector_index_warnings(v, dir@));
    }
}

} // verus!
