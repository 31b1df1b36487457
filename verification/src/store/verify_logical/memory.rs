//! The links between records, mappings and vector nodes, and the allocator.
use super::table::{find_row, holder, Keyed, Part};
use super::{LogicalView, NodeRow, RecordRow, RecordV, VecMapRow, VecMapV, ViewV};
use crate::store::verify::{flat, found_if, issue, Finding, IssueKind, VerifyReport};
use crate::text;
use crate::text::dec_text;
use vstd::prelude::*;

verus! {

/// The diagnosis of two records that claim one vector.
pub open spec fn shared_text(
    other_agent: Seq<char>,
    other_id: Seq<char>,
    agent: Seq<char>,
    id: Seq<char>,
    vec_id: u64,
) -> Seq<char> {
    "records ("@ + other_agent + ", "@ + other_id + ") and ("@ + agent + ", "@ + id + ") both claim vec_id "@
        + dec_text(vec_id as nat) + " — ids are never shared or reused"@
}

/// The diagnosis of two records that claim one vector.
pub fn shared_detail(other_agent: &str, other_id: &str, agent: &str, id: &str, vec_id: u64) -> (s: String)
    ensures
        s@ == shared_text(other_agent@, other_id@, agent@, id@, vec_id),
{
    String::from_str("records (").concat(other_agent).concat(", ").concat(other_id).concat(") and (").concat(agent)
        .concat(", ").concat(id).concat(") both claim vec_id ").concat(text::dec(vec_id).as_str())
        .concat(" — ids are never shared or reused")
}

/// The diagnosis of a record whose vector no mapping maps back.
pub open spec fn unmapped_text(agent: Seq<char>, id: Seq<char>, vec_id: u64) -> Seq<char> {
    "record ("@ + agent + ", "@ + id + ") points at vec_id "@ + dec_text(vec_id as nat)
        + " but no vecmap entry maps it back"@
}

/// The diagnosis of a record whose vector no mapping maps back.
pub fn unmapped_detail(agent: &str, id: &str, vec_id: u64) -> (s: String)
    ensures
        s@ == unmapped_text(agent@, id@, vec_id),
{
    String::from_str("record (").concat(agent).concat(", ").concat(id).concat(") points at vec_id ")
        .concat(text::dec(vec_id).as_str()).concat(" but no vecmap entry maps it back")
}

/// The diagnosis of a record whose vector is mapped to another.
pub open spec fn mismapped_text(
    agent: Seq<char>,
    id: Seq<char>,
    vec_id: u64,
    other_agent: Seq<char>,
    other_id: Seq<char>,
) -> Seq<char> {
    "record ("@ + agent + ", "@ + id + ") points at vec_id "@ + dec_text(vec_id as nat)
        + " but the vecmap maps it to ("@ + other_agent + ", "@ + other_id + ")"@
}

/// The diagnosis of a record whose vector is mapped to another.
pub fn mismapped_detail(agent: &str, id: &str, vec_id: u64, other_agent: &str, other_id: &str) -> (s: String)
    ensures
        s@ == mismapped_text(agent@, id@, vec_id, other_agent@, other_id@),
{
    String::from_str("record (").concat(agent).concat(", ").concat(id).concat(") points at vec_id ")
        .concat(text::dec(vec_id).as_str()).concat(" but the vecmap maps it to (").concat(other_agent).concat(", ")
        .concat(other_id).concat(")")
}

/// The diagnosis of a record whose vector has no node.
pub open spec fn nodeless_text(agent: Seq<char>, id: Seq<char>, vec_id: u64) -> Seq<char> {
    "record ("@ + agent + ", "@ + id + ") points at vec_id "@ + dec_text(vec_id as nat) + " but no vector node exists"@
}

/// The diagnosis of a record whose vector has no node.
pub fn nodeless_detail(agent: &str, id: &str, vec_id: u64) -> (s: String)
    ensures
        s@ == nodeless_text(agent@, id@, vec_id),
{
    String::from_str("record (").concat(agent).concat(", ").concat(id).concat(") points at vec_id ")
        .concat(text::dec(vec_id).as_str()).concat(" but no vector node exists")
}

/// The diagnosis of a record whose vector is deleted.
pub open spec fn tombstoned_text(agent: Seq<char>, id: Seq<char>, vec_id: u64) -> Seq<char> {
    "record ("@ + agent + ", "@ + id + ") points at vec_id "@ + dec_text(vec_id as nat)
        + " whose vector node is tombstoned — a forget deletes the record and tombstones the node in one batch, never half"@
}

/// The diagnosis of a record whose vector is deleted.
pub fn tombstoned_detail(agent: &str, id: &str, vec_id: u64) -> (s: String)
    ensures
        s@ == tombstoned_text(agent@, id@, vec_id),
{
    String::from_str("record (").concat(agent).concat(", ").concat(id).concat(") points at vec_id ")
        .concat(text::dec(vec_id).as_str())
        .concat(" whose vector node is tombstoned — a forget deletes the record and tombstones the node in one batch, never half")
}

/// The diagnosis of a mapping to no record.
pub open spec fn orphan_text(vec_id: u64, agent: Seq<char>, id: Seq<char>) -> Seq<char> {
    "vecmap entry "@ + dec_text(vec_id as nat) + " -> ("@ + agent + ", "@ + id
        + ") resolves to no record — an orphan mapping"@
}

/// The diagnosis of a mapping to no record.
pub fn orphan_detail(vec_id: u64, agent: &str, id: &str) -> (s: String)
    ensures
        s@ == orphan_text(vec_id, agent@, id@),
{
    String::from_str("vecmap entry ").concat(text::dec(vec_id).as_str()).concat(" -> (").concat(agent).concat(", ")
        .concat(id).concat(") resolves to no record — an orphan mapping")
}

/// The diagnosis of a mapping to a record of another vector.
pub open spec fn disputed_text(vec_id: u64, agent: Seq<char>, id: Seq<char>, own: u64) -> Seq<char> {
    "vecmap entry "@ + dec_text(vec_id as nat) + " -> ("@ + agent + ", "@ + id
        + ") disagrees with that record's own vec_id "@ + dec_text(own as nat)
}

/// The diagnosis of a mapping to a record of another vector.
pub fn disputed_detail(vec_id: u64, agent: &str, id: &str, own: u64) -> (s: String)
    ensures
        s@ == disputed_text(vec_id, agent@, id@, own),
{
    String::from_str("vecmap entry ").concat(text::dec(vec_id).as_str()).concat(" -> (").concat(agent).concat(", ")
        .concat(id).concat(") disagrees with that record's own vec_id ").concat(text::dec(own).as_str())
}

/// The diagnosis of a live vector that no mapping maps.
pub open spec fn unreachable_text(id: u64) -> Seq<char> {
    "live vector node "@ + dec_text(id as nat) + " has no vecmap entry — a search hit on it could never resolve"@
}

/// The diagnosis of a live vector that no mapping maps.
pub fn unreachable_detail(id: u64) -> (s: String)
    ensures
        s@ == unreachable_text(id),
{
    String::from_str("live vector node ").concat(text::dec(id).as_str())
        .concat(" has no vecmap entry — a search hit on it could never resolve")
}

/// The diagnosis of an allocator that would reuse an id.
pub open spec fn stale_text(next: u64, max: u64) -> Seq<char> {
    "next_vec_id "@ + dec_text(next as nat) + " is not above the highest vector id in use ("@ + dec_text(max as nat)
        + ") — the next insert would reuse an id"@
}

/// The diagnosis of an allocator that would reuse an id.
pub fn stale_detail(next: u64, max: u64) -> (s: String)
    ensures
        s@ == stale_text(next, max),
{
    String::from_str("next_vec_id ").concat(text::dec(next).as_str())
        .concat(" is not above the highest vector id in use (").concat(text::dec(max).as_str())
        .concat(") — the next insert would reuse an id")
}

/// The diagnosis of an allocator that is gone.
pub open spec fn unallocated_text(max: u64) -> Seq<char> {
    "allocator metadata is absent while vector ids up to "@ + dec_text(max as nat)
        + " are in use — healed from data at the next open (ADR-027 §4)"@
}

/// The diagnosis of an allocator that is gone.
pub fn unallocated_detail(max: u64) -> (s: String)
    ensures
        s@ == unallocated_text(max),
{
    String::from_str("allocator metadata is absent while vector ids up to ").concat(text::dec(max).as_str())
        .concat(" are in use — healed from data at the next open (ADR-027 §4)")
}

/// The key of a record.
pub open spec fn record_key(agent: Seq<char>, id: Seq<char>) -> Seq<Part> {
    seq![Part::Text(agent), Part::Text(id)]
}

/// The key of a mapping, or of a node.
pub open spec fn number_key(id: u64) -> Seq<Part> {
    seq![Part::Number(id)]
}

/// The last of the first `n` records that claims a vector.
pub open spec fn claimant(records: Seq<RecordV>, n: int, vec_id: u64) -> Option<RecordV>
    decreases n,
{
    if n <= 0 {
        None
    } else if records[n - 1].vec_id == vec_id {
        Some(records[n - 1])
    } else {
        claimant(records, n - 1, vec_id)
    }
}

/// What the records before it have against record `i`.
pub open spec fn claim_errors(v: ViewV, dir: Seq<char>, i: int) -> Seq<Finding> {
    let rec = v.records[i];
    match claimant(v.records, i, rec.vec_id) {
        Some(other) => seq![
            issue(
                IssueKind::MemoryLinkBroken,
                dir,
                shared_text(other.agent, other.id, rec.agent, rec.id, rec.vec_id),
            ),
        ],
        None => Seq::empty(),
    }
}

/// What the mappings have against a record.
pub open spec fn mapping_errors(v: ViewV, dir: Seq<char>, rec: RecordV) -> Seq<Finding> {
    match holder::<VecMapRow>(v.vecmap, number_key(rec.vec_id)) {
        None => seq![
            issue(IssueKind::MemoryLinkBroken, dir, unmapped_text(rec.agent, rec.id, rec.vec_id)),
        ],
        Some(entry) => found_if(
            !(entry.agent == rec.agent && entry.id == rec.id),
            issue(
                IssueKind::MemoryLinkBroken,
                dir,
                mismapped_text(rec.agent, rec.id, rec.vec_id, entry.agent, entry.id),
            ),
        ),
    }
}

/// What the nodes have against a record.
pub open spec fn vector_errors(v: ViewV, dir: Seq<char>, rec: RecordV) -> Seq<Finding> {
    match holder::<NodeRow>(v.nodes, number_key(rec.vec_id)) {
        None => seq![
            issue(IssueKind::MemoryLinkBroken, dir, nodeless_text(rec.agent, rec.id, rec.vec_id)),
        ],
        Some(node) => found_if(
            node.deleted,
            issue(IssueKind::MemoryLinkBroken, dir, tombstoned_text(rec.agent, rec.id, rec.vec_id)),
        ),
    }
}

/// What is wrong with each record.
pub open spec fn record_errors(v: ViewV, dir: Seq<char>) -> spec_fn(int) -> Seq<Finding> {
    |i: int|
        claim_errors(v, dir, i) + mapping_errors(v, dir, v.records[i]) + vector_errors(v, dir, v.records[i])
}

/// What is wrong with a mapping.
pub open spec fn vecmap_error(v: ViewV, dir: Seq<char>, entry: VecMapV) -> Seq<Finding> {
    match holder::<RecordRow>(v.records, record_key(entry.agent, entry.id)) {
        None => seq![
            issue(IssueKind::MemoryLinkBroken, dir, orphan_text(entry.vec_id, entry.agent, entry.id)),
        ],
        Some(rec) => found_if(
            rec.vec_id != entry.vec_id,
            issue(
                IssueKind::MemoryLinkBroken,
                dir,
                disputed_text(entry.vec_id, entry.agent, entry.id, rec.vec_id),
            ),
        ),
    }
}

/// What is wrong with each mapping.
pub open spec fn vecmap_errors(v: ViewV, dir: Seq<char>) -> spec_fn(int) -> Seq<Finding> {
    |i: int| vecmap_error(v, dir, v.vecmap[i])
}

/// What is wrong with each node, as far as the mappings go.
pub open spec fn node_errors(v: ViewV, dir: Seq<char>) -> spec_fn(int) -> Seq<Finding> {
    |i: int|
        found_if(
            !v.nodes[i].deleted && holder::<VecMapRow>(v.vecmap, number_key(v.nodes[i].id)) is None,
            issue(IssueKind::MemoryLinkBroken, dir, unreachable_text(v.nodes[i].id)),
        )
}

/// The highest vector id in use: tables are in the order of their ids.
pub open spec fn highest_id(v: ViewV) -> Option<u64> {
    if v.nodes.len() == 0 && v.vecmap.len() == 0 {
        None
    } else if v.nodes.len() == 0 {
        Some(v.vecmap.last().vec_id)
    } else if v.vecmap.len() == 0 {
        Some(v.nodes.last().id)
    } else if v.nodes.last().id >= v.vecmap.last().vec_id {
        Some(v.nodes.last().id)
    } else {
        Some(v.vecmap.last().vec_id)
    }
}

/// What is wrong with the allocator: it would hand an id out again.
pub open spec fn allocator_errors(v: ViewV, dir: Seq<char>) -> Seq<Finding> {
    match (v.memory_meta, highest_id(v)) {
        (Some(next), Some(max)) => found_if(
            next <= max,
            issue(IssueKind::AllocatorStale, dir, stale_text(next, max)),
        ),
        _ => Seq::empty(),
    }
}

/// What is worth telling of the allocator: it is gone, and will be rebuilt.
pub open spec fn allocator_warnings(v: ViewV, dir: Seq<char>) -> Seq<Finding> {
    match (v.memory_meta, highest_id(v)) {
        (None, Some(max)) => seq![issue(IssueKind::AllocatorStale, dir, unallocated_text(max))],
        _ => Seq::empty(),
    }
}

/// Everything that is wrong with the links of the memory keyspace.
pub open spec fn link_errors(v: ViewV, dir: Seq<char>) -> Seq<Finding> {
    flat(v.records.len(), record_errors(v, dir)) + flat(v.vecmap.len(), vecmap_errors(v, dir)) + flat(
        v.nodes.len(),
        node_errors(v, dir),
    ) + allocator_errors(v, dir)
}

/// The position of a mapping, if there is one.
pub fn find_vecmap(view: &LogicalView, vec_id: u64) -> (r: Option<usize>)
    requires
        view.wf(),
    ensures
        match r {
            Some(i) => i < view.vecmap@.len() && holder::<VecMapRow>(view.says().vecmap, number_key(vec_id))
                == Some(view.vecmap@[i as int].row()),
            None => holder::<VecMapRow>(view.says().vecmap, number_key(vec_id)) is None,
        },
{
    let probe = VecMapRow { vec_id, agent: String::new(), id: String::new() };
    find_row(&view.vecmap, &probe)
}

/// The position of a node, if there is one.
pub fn find_node(view: &LogicalView, id: u64) -> (r: Option<usize>)
    requires
        view.wf(),
    ensures
        match r {
            Some(i) => i < view.nodes@.len() && holder::<NodeRow>(view.says().nodes, number_key(id)) == Some(
                view.nodes@[i as int].row(),
            ),
            None => holder::<NodeRow>(view.says().nodes, number_key(id)) is None,
        },
{
    let probe = NodeRow { id, dim: 0, neighbors: Vec::new(), deleted: false };
    find_row(&view.nodes, &probe)
}

fn find_record(view: &LogicalView, agent: &String, id: &String) -> (r: Option<usize>)
    requires
        view.wf(),
    ensures
        match r {
            Some(i) => i < view.records@.len() && holder::<RecordRow>(
                view.says().records,
                record_key(agent@, id@),
            ) == Some(view.records@[i as int].row()),
            None => holder::<RecordRow>(view.says().records, record_key(agent@, id@)) is None,
        },
{
    let probe = RecordRow { agent: agent.clone(), id: id.clone(), vec_id: 0 };
    find_row(&view.records, &probe)
}

/// The last of the first `n` records that claims a vector.
fn find_claimant(view: &LogicalView, n: usize, vec_id: u64) -> (r: Option<usize>)
    requires
        n <= view.records@.len(),
    ensures
        match r {
            Some(k) => k < n && claimant(view.says().records, n as int, vec_id) == Some(
                view.records@[k as int].row(),
            ),
            None => claimant(view.says().records, n as int, vec_id) is None,
        },
{
    let ghost records = view.says().records;
    let mut k: usize = n;
    while k > 0
        invariant
            k <= n <= view.records@.len(),
            records == view.says().records,
            claimant(records, n as int, vec_id) == claimant(records, k as int, vec_id),
        decreases k,
    {
        k = k - 1;
        assert(records[k as int] == view.records@[k as int].row());
        if view.records[k].vec_id == vec_id {
            return Some(k);
        }
    }
    None
}

fn check_record(view: &LogicalView, i: usize, dir: &str, report: &mut VerifyReport)
    requires
        view.wf(),
        i < view.records@.len(),
    ensures
        final(report).tally() == old(report).tally().with(
            record_errors(view.says(), dir@)(i as int),
            Seq::empty(),
        ),
{
    let ghost start = report.tally();
    let ghost v = view.says();
    let rec = &view.records[i];
    assert(v.records[i as int] == rec.row());
    if let Some(k) = find_claimant(view, i, rec.vec_id) {
        let other = &view.records[k];
        report.error(
            IssueKind::MemoryLinkBroken,
            dir,
            shared_detail(
                other.agent.as_str(),
                other.id.as_str(),
                rec.agent.as_str(),
                rec.id.as_str(),
                rec.vec_id,
            ),
        );
    }
    let ghost first = claim_errors(v, dir@, i as int);
    assert(report.tally().errors =~= start.errors + first);
    match find_vecmap(view, rec.vec_id) {
        None => {
            report.error(
                IssueKind::MemoryLinkBroken,
                dir,
                unmapped_detail(rec.agent.as_str(), rec.id.as_str(), rec.vec_id),
            );
        },
        Some(k) => {
            let entry = &view.vecmap[k];
            if !(text::same(entry.agent.as_str(), rec.agent.as_str()) && text::same(
                entry.id.as_str(),
                rec.id.as_str(),
            )) {
                report.error(
                    IssueKind::MemoryLinkBroken,
                    dir,
                    mismapped_detail(
                        rec.agent.as_str(),
                        rec.id.as_str(),
                        rec.vec_id,
                        entry.agent.as_str(),
                        entry.id.as_str(),
                    ),
                );
            }
        },
    }
    let ghost second = mapping_errors(v, dir@, v.records[i as int]);
    assert(report.tally().errors =~= start.errors + first + second);
    match find_node(view, rec.vec_id) {
        None => {
            report.error(
                IssueKind::MemoryLinkBroken,
                dir,
                nodeless_detail(rec.agent.as_str(), rec.id.as_str(), rec.vec_id),
            );
        },
        Some(k) => {
            if view.nodes[k].deleted {
                report.error(
                    IssueKind::MemoryLinkBroken,
                    dir,
                    tombstoned_detail(rec.agent.as_str(), rec.id.as_str(), rec.vec_id),
                );
            }
        },
    }
    let ghost third = vector_errors(v, dir@, v.records[i as int]);
    proof {
        assert(report.tally().errors =~= start.errors + first + second + third);
        assert(record_errors(v, dir@)(i as int) == first + second + third);
        assert(report.tally().errors =~= start.errors + record_errors(v, dir@)(i as int));
        assert(report.tally().warnings =~= start.warnings + Seq::<Finding>::empty());
    }
}

fn check_vecmap(view: &LogicalView, i: usize, dir: &str, report: &mut VerifyReport)
    requires
        view.wf(),
        i < view.vecmap@.len(),
    ensures
        final(report).tally() == old(report).tally().with(
            vecmap_errors(view.says(), dir@)(i as int),
            Seq::empty(),
        ),
{
    let ghost start = report.tally();
    let ghost v = view.says();
    let entry = &view.vecmap[i];
    assert(v.vecmap[i as int] == entry.row());
    match find_record(view, &entry.agent, &entry.id) {
        None => {
            report.error(
                IssueKind::MemoryLinkBroken,
                dir,
                orphan_detail(entry.vec_id, entry.agent.as_str(), entry.id.as_str()),
            );
        },
        Some(k) => {
            let own: u64 = view.records[k].vec_id;
            if own != entry.vec_id {
                report.error(
                    IssueKind::MemoryLinkBroken,
                    dir,
                    disputed_detail(entry.vec_id, entry.agent.as_str(), entry.id.as_str(), own),
                );
            }
        },
    }
    proof {
        assert(vecmap_errors(v, dir@)(i as int) == vecmap_error(v, dir@, v.vecmap[i as int]));
        assert(report.tally().errors =~= start.errors + vecmap_errors(v, dir@)(i as int));
        assert(report.tally().warnings =~= start.warnings + Seq::<Finding>::empty());
    }
}

fn max_id(view: &LogicalView) -> (r: Option<u64>)
    ensures
        r == highest_id(view.says()),
{
    let n: usize = view.nodes.len();
    let m: usize = view.vecmap.len();
    let ghost v = view.says();
    proof {
        if n > 0 {
            assert(v.nodes.last() == view.nodes@[n - 1].row());
        }
        if m > 0 {
            assert(v.vecmap.last() == view.vecmap@[m - 1].row());
        }
    }
    if n == 0 && m == 0 {
        None
    } else if n == 0 {
        Some(view.vecmap[m - 1].vec_id)
    } else if m == 0 {
        Some(view.nodes[n - 1].id)
    } else if view.nodes[n - 1].id >= view.vecmap[m - 1].vec_id {
        Some(view.nodes[n - 1].id)
    } else {
        Some(view.vecmap[m - 1].vec_id)
    }
}

fn check_allocator(view: &LogicalView, dir: &str, report: &mut VerifyReport)
    ensures
        final(report).tally() == old(report).tally().with(
            allocator_errors(view.says(), dir@),
            allocator_warnings(view.says(), dir@),
        ),
{
    let ghost start = report.tally();
    match (view.memory_meta, max_id(view)) {
        (Some(next), Some(max)) => {
            if next <= max {
                report.error(IssueKind::AllocatorStale, dir, stale_detail(next, max));
            }
        },
        (None, Some(max)) => {
            report.warning(IssueKind::AllocatorStale, dir, unallocated_detail(max));
        },
        _ => {},
    }
    proof {
        assert(report.tally().errors =~= start.errors + allocator_errors(view.says(), dir@));
        assert(report.tally().warnings =~= start.warnings + allocator_warnings(view.says(), dir@));
    }
}

/// Holds records, mappings and nodes against one another, both ways, and the
/// allocator against the ids in use.
pub fn check_memory_links(view: &LogicalView, dir: &str, report: &mut VerifyReport)
    requires
        view.wf(),
    ensures
        final(report).tally() == old(report).tally().with(
            link_errors(view.says(), dir@),
            allocator_warnings(view.says(), dir@),
        ),
{
    let ghost start = report.tally();
    let ghost v = view.says();
    let ghost fr = record_errors(v, dir@);
    let ghost fm = vecmap_errors(v, dir@);
    let ghost fnode = node_errors(v, dir@);
    let mut i: usize = 0;
    proof {
        assert(start.errors + Seq::<Finding>::empty() =~= start.errors);
        assert(start.warnings + Seq::<Finding>::empty() =~= start.warnings);
    }
    while i < view.records.len()
        invariant
            view.wf(),
            v == view.says(),
            fr == record_errors(v, dir@),
            i <= view.records@.len(),
            report.tally() == start.with(flat(i as nat, fr), Seq::empty()),
        decreases view.records@.len() - i,
    {
        check_record(view, i, dir, report);
        proof {
            assert(flat((i + 1) as nat, fr) == flat(i as nat, fr) + fr(i as int));
            assert(report.tally().errors =~= start.errors + flat((i + 1) as nat, fr));
            assert(report.tally().warnings =~= start.warnings + Seq::<Finding>::empty());
        }
        i = i + 1;
    }
    let ghost one = start.errors + flat(v.records.len(), fr);
    let mut j: usize = 0;
    assert(one + flat(0, fm) =~= one);
    while j < view.vecmap.len()
        invariant
            view.wf(),
            v == view.says(),
            fm == vecmap_errors(v, dir@),
            j <= view.vecmap@.len(),
            report.tally() == (crate::store::verify::Tally { errors: one + flat(j as nat, fm), ..start }),
        decreases view.vecmap@.len() - j,
    {
        check_vecmap(view, j, dir, report);
        proof {
            assert(flat((j + 1) as nat, fm) == flat(j as nat, fm) + fm(j as int));
            assert(report.tally().errors =~= one + flat((j + 1) as nat, fm));
            assert(report.tally().warnings =~= start.warnings);
        }
        j = j + 1;
    }
    let ghost two = one + flat(v.vecmap.len(), fm);
    let mut k: usize = 0;
    assert(two + flat(0, fnode) =~= two);
    while k < view.nodes.len()
        invariant
            view.wf(),
            v == view.says(),
            fnode == node_errors(v, dir@),
            k <= view.nodes@.len(),
            report.tally() == (crate::store::verify::Tally { errors: two + flat(k as nat, fnode), ..start }),
        decreases view.nodes@.len() - k,
    {
        let node = &view.nodes[k];
        assert(v.nodes[k as int] == node.row());
        if !node.deleted && find_vecmap(view, node.id).is_none() {
            report.error(IssueKind::MemoryLinkBroken, dir, unreachable_detail(node.id));
        }
        proof {
            assert(flat((k + 1) as nat, fnode) == flat(k as nat, fnode) + fnode(k as int));
            assert(report.tally().errors =~= two + flat((k + 1) as nat, fnode));
        }
        k = k + 1;
    }
    check_allocator(view, dir, report);
    assert(report.tally().errors =~= start.errors + link_errors(v, dir@));
}

} // verus!
