//! The endpoints of graph edges. Nothing ever forced them to exist, so a
//! missing one is only worth telling.
use super::memory::record_key;
use super::table::{find_row, holder, Keyed};
use super::{EdgeRow, EdgeV, EntityRow, LogicalView, ViewV};
use crate::store::verify::{flat, found_if, issue, Finding, IssueKind, VerifyReport};
use crate::text;
use crate::text::quoted_text;
use vstd::prelude::*;

verus! {

/// The diagnosis of an endpoint, shown as `shown`, without an entity.
pub open spec fn dangling_text(
    agent: Seq<char>,
    src: Seq<char>,
    relation: Seq<char>,
    dst: Seq<char>,
    role: Seq<char>,
    shown: Seq<char>,
) -> Seq<char> {
    "edge ("@ + agent + ", "@ + src + ") -["@ + relation + "]-> "@ + dst + ": "@ + role + " entity "@ + shown
        + " has no entity block"@
}

/// The diagnosis of an endpoint, shown as `shown`, without an entity.
pub fn dangling_detail(agent: &str, src: &str, relation: &str, dst: &str, role: &str, shown: &str) -> (s: String)
    ensures
        s@ == dangling_text(agent@, src@, relation@, dst@, role@, shown@),
{
    String::from_str("edge (").concat(agent).concat(", ").concat(src).concat(") -[").concat(relation).concat("]-> ")
        .concat(dst).concat(": ").concat(role).concat(" entity ").concat(shown).concat(" has no entity block")
}

/// What is worth telling of one endpoint of an edge.
pub open spec fn endpoint_warnings(
    v: ViewV,
    dir: Seq<char>,
    edge: EdgeV,
    role: Seq<char>,
    endpoint: Seq<char>,
) -> Seq<Finding> {
    found_if(
        holder::<EntityRow>(v.entities, record_key(edge.agent, endpoint)) is None,
        issue(
            IssueKind::GraphEdgeDangling,
            dir,
            dangling_text(edge.agent, edge.src, edge.relation, edge.dst, role, quoted_text(endpoint)),
        ),
    )
}

/// What is worth telling of each edge: its source first, then its destination.
pub open spec fn edge_warnings(v: ViewV, dir: Seq<char>) -> spec_fn(int) -> Seq<Finding> {
    |i: int|
        endpoint_warnings(v, dir, v.edges[i], "source"@, v.edges[i].src) + endpoint_warnings(
            v,
            dir,
            v.edges[i],
            "destination"@,
            v.edges[i].dst,
        )
}

/// Everything that is worth telling of the graph.
pub open spec fn graph_warnings(v: ViewV, dir: Seq<char>) -> Seq<Finding> {
    flat(v.edges.len(), edge_warnings(v, dir))
}

fn check_endpoint(
    view: &LogicalView,
    edge: &EdgeRow,
    role: &str,
    endpoint: &String,
    dir: &str,
    report: &mut VerifyReport,
)
    requires
        view.wf(),
    ensures
        final(report).tally() == old(report).tally().with(
            Seq::empty(),
            endpoint_warnings(view.says(), dir@, edge.says(), role@, endpoint@),
        ),
{
    let ghost start = report.tally();
    let probe = EntityRow { agent: edge.agent.clone(), id: endpoint.clone() };
    if find_row(&view.entities, &probe).is_none() {
        let shown = text::quoted(endpoint.as_str());
        report.warning(
            IssueKind::GraphEdgeDangling,
            dir,
            dangling_detail(
                edge.agent.as_str(),
                edge.src.as_str(),
                edge.relation.as_str(),
                edge.dst.as_str(),
                role,
                shown.as_str(),
            ),
        );
    }
    proof {
        let more = endpoint_warnings(view.says(), dir@, edge.says(), role@, endpoint@);
        assert(report.tally().warnings =~= start.warnings + more);
        assert(report.tally().errors =~= start.errors + Seq::<Finding>::empty());
    }
}

/// Warns of every endpoint without an entity.
pub fn check_graph(view: &LogicalView, dir: &str, report: &mut VerifyReport)
    requires
        view.wf(),
    ensures
        final(report).tally() == old(report).tally().with(
            Seq::empty(),
            graph_warnings(view.says(), dir@),
        ),
{
    let ghost start = report.tally();
    let ghost v = view.says();
    let ghost f = edge_warnings(v, dir@);
    let mut i: usize = 0;
    proof {
        assert(start.errors + Seq::<Finding>::empty() =~= start.errors);
        assert(start.warnings + Seq::<Finding>::empty() =~= start.warnings);
    }
    while i < view.edges.len()
        invariant
            view.wf(),
            v == view.says(),
            f == edge_warnings(v, dir@),
            i <= view.edges@.len(),
            report.tally() == start.with(Seq::empty(), flat(i as nat, f)),
        decreases view.edges@.len() - i,
    {
        let edge = &view.edges[i];
        assert(v.edges[i as int] == edge.says());
        check_endpoint(view, edge, "source", &edge.src, dir, report);
        check_endpoint(view, edge, "destination", &edge.dst, dir, report);
        proof {
            assert(flat((i + 1) as nat, f) == flat(i as nat, f) + f(i as int));
            assert(report.tally().warnings =~= start.warnings + flat((i + 1) as nat, f));
            assert(report.tally().errors =~= start.errors + Seq::<Finding>::empty());
        }
        i = i + 1;
    }
}

} // verus!
