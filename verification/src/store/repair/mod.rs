//! Repairing what can be derived.
//!
//! Records and graph data are primary and never rewritten. Mappings, the
//! allocator, the full-text index and the vector graph are derived from what
//! is there, and can be built again; a vector that is gone has to be embedded
//! again by whoever has the model.
use crate::store::verify::{findings, Finding, IntegrityIssue, IssueKind, VerifyReport};
use crate::text;
use crate::text::contains_text;
use vstd::prelude::*;

pub mod effect_laws;
pub mod plan_laws;
pub mod rebuild;
pub mod rebuild_laws;
pub mod record_laws;

verus! {

/// One operation that a plan proposes.
#[derive(Debug, Clone, Copy, PartialEq, Eq, Structural)]
pub enum RepairAction {
    RebuildMemoryMappings,
    RebuildFts,
    RebuildVectorGraph,
    ReembedMissingVectors,
}

/// What an audit calls for. A plan is data; making one writes nothing.
#[derive(Debug)]
pub struct RepairPlan {
    /// Each action once, in the order in which the findings call for it.
    pub actions: Vec<RepairAction>,
    /// Problems for which no repair is promised.
    pub primary_data_at_risk: Vec<IntegrityIssue>,
    pub warnings: Vec<IntegrityIssue>,
}

impl RepairPlan {
    /// Whether nothing but derived data is concerned.
    #[must_use]
    pub fn can_apply_derived_only(&self) -> (r: bool)
        ensures
            r == (self.primary_data_at_risk@.len() == 0),
    {
        self.primary_data_at_risk.len() == 0
    }
}

/// What a warning calls for.
pub open spec fn warning_calls(kind: IssueKind) -> Seq<RepairAction> {
    if kind == IssueKind::VectorMetaInconsistent {
        seq![RepairAction::RebuildVectorGraph]
    } else if kind == IssueKind::FtsStatsInconsistent {
        seq![RepairAction::RebuildFts]
    } else {
        Seq::empty()
    }
}

/// What an error calls for; nothing, if no repair is promised for it.
pub open spec fn error_calls(f: Finding) -> Seq<RepairAction> {
    let kind = f.kind;
    if kind == IssueKind::AllocatorStale {
        seq![RepairAction::RebuildMemoryMappings]
    } else if kind == IssueKind::FtsLinkBroken || kind == IssueKind::FtsStatsInconsistent {
        seq![RepairAction::RebuildFts]
    } else if kind == IssueKind::VectorNeighborMissing || kind == IssueKind::VectorDimMismatch || kind
        == IssueKind::VectorMetaInconsistent {
        seq![RepairAction::RebuildVectorGraph]
    } else if kind == IssueKind::MemoryLinkBroken {
        seq![RepairAction::RebuildMemoryMappings, RepairAction::ReembedMissingVectors]
    } else if kind == IssueKind::IdxValueCorrupt && contains_text(f.detail, "fts "@) {
        seq![RepairAction::RebuildFts]
    } else if kind == IssueKind::IdxValueCorrupt && contains_text(f.detail, "vector index metadata"@) {
        seq![RepairAction::RebuildVectorGraph]
    } else {
        Seq::empty()
    }
}

/// Actions with one more, unless it is there already.
pub open spec fn with_action(actions: Seq<RepairAction>, action: RepairAction) -> Seq<RepairAction> {
    if actions.contains(action) {
        actions
    } else {
        actions.push(action)
    }
}

/// Actions with more, each unless it is there already.
pub open spec fn with_actions(actions: Seq<RepairAction>, more: Seq<RepairAction>) -> Seq<RepairAction>
    decreases more.len(),
{
    if more.len() == 0 {
        actions
    } else {
        with_action(with_actions(actions, more.drop_last()), more.last())
    }
}

/// What warnings call for, over `actions`.
pub open spec fn warnings_call(actions: Seq<RepairAction>, warnings: Seq<Finding>) -> Seq<RepairAction>
    decreases warnings.len(),
{
    if warnings.len() == 0 {
        actions
    } else {
        with_actions(warnings_call(actions, warnings.drop_last()), warning_calls(warnings.last().kind))
    }
}

/// What errors call for, over `actions`.
pub open spec fn errors_call(actions: Seq<RepairAction>, errors: Seq<Finding>) -> Seq<RepairAction>
    decreases errors.len(),
{
    if errors.len() == 0 {
        actions
    } else {
        with_actions(errors_call(actions, errors.drop_last()), error_calls(errors.last()))
    }
}

/// The errors for which no repair is promised.
pub open spec fn at_risk(errors: Seq<Finding>) -> Seq<Finding>
    decreases errors.len(),
{
    if errors.len() == 0 {
        Seq::empty()
    } else if error_calls(errors.last()).len() == 0 {
        at_risk(errors.drop_last()).push(errors.last())
    } else {
        at_risk(errors.drop_last())
    }
}

fn add_action(actions: &mut Vec<RepairAction>, action: RepairAction)
    ensures
        final(actions)@ == with_action(old(actions)@, action),
{
    let mut i: usize = 0;
    while i < actions.len()
        invariant
            i <= actions@.len(),
            actions@ == old(actions)@,
            forall|j: int| 0 <= j < i ==> actions@[j] != action,
        decreases actions@.len() - i,
    {
        if actions[i] == action {
            assert(actions@.contains(action));
            return;
        }
        i = i + 1;
    }
    assert(!actions@.contains(action));
    actions.push(action);
}

fn plan_warning(actions: &mut Vec<RepairAction>, kind: IssueKind)
    ensures
        final(actions)@ == with_actions(old(actions)@, warning_calls(kind)),
{
    let ghost start = actions@;
    proof {
        lemma_one_action(start, RepairAction::RebuildVectorGraph);
        lemma_one_action(start, RepairAction::RebuildFts);
    }
    if kind == IssueKind::VectorMetaInconsistent {
        add_action(actions, RepairAction::RebuildVectorGraph);
    } else if kind == IssueKind::FtsStatsInconsistent {
        add_action(actions, RepairAction::RebuildFts);
    }
}

proof fn lemma_one_action(actions: Seq<RepairAction>, a: RepairAction)
    ensures
        with_actions(actions, seq![a]) == with_action(actions, a),
{
    assert(seq![a].drop_last() =~= Seq::<RepairAction>::empty());
    reveal_with_fuel(with_actions, 2);
}

proof fn lemma_two_actions(actions: Seq<RepairAction>, a: RepairAction, b: RepairAction)
    ensures
        with_actions(actions, seq![a, b]) == with_action(with_action(actions, a), b),
{
    assert(seq![a, b].drop_last() =~= seq![a]);
    lemma_one_action(actions, a);
}

/// Adds what an error calls for; tells whether it calls for something.
fn plan_error(actions: &mut Vec<RepairAction>, issue: &IntegrityIssue) -> (planned: bool)
    ensures
        final(actions)@ == with_actions(old(actions)@, error_calls(issue.finding())),
        planned == (error_calls(issue.finding()).len() > 0),
{
    let ghost start = actions@;
    proof {
        lemma_one_action(start, RepairAction::RebuildMemoryMappings);
        lemma_one_action(start, RepairAction::RebuildFts);
        lemma_one_action(start, RepairAction::RebuildVectorGraph);
        lemma_two_actions(start, RepairAction::RebuildMemoryMappings, RepairAction::ReembedMissingVectors);
    }
    let kind = issue.kind;
    let detail: &str = issue.detail.as_str();
    if kind == IssueKind::AllocatorStale {
        add_action(actions, RepairAction::RebuildMemoryMappings);
        true
    } else if kind == IssueKind::FtsLinkBroken || kind == IssueKind::FtsStatsInconsistent {
        add_action(actions, RepairAction::RebuildFts);
        true
    } else if kind == IssueKind::VectorNeighborMissing || kind == IssueKind::VectorDimMismatch || kind
        == IssueKind::VectorMetaInconsistent {
        add_action(actions, RepairAction::RebuildVectorGraph);
        true
    } else if kind == IssueKind::MemoryLinkBroken {
        add_action(actions, RepairAction::RebuildMemoryMappings);
        add_action(actions, RepairAction::ReembedMissingVectors);
        true
    } else if kind == IssueKind::IdxValueCorrupt && text::contains(detail, "fts ") {
        add_action(actions, RepairAction::RebuildFts);
        true
    } else if kind == IssueKind::IdxValueCorrupt && text::contains(detail, "vector index metadata") {
        add_action(actions, RepairAction::RebuildVectorGraph);
        true
    } else {
        false
    }
}

/// Reads a plan out of an audit. What is not known to be derived counts as
/// primary data at risk.
#[must_use]
pub fn plan_repair(report: &VerifyReport) -> (plan: RepairPlan)
    ensures
        findings(plan.warnings@) == findings(report.warnings@),
        plan.actions@ == errors_call(
            warnings_call(Seq::empty(), findings(report.warnings@)),
            findings(report.errors@),
        ),
        findings(plan.primary_data_at_risk@) == at_risk(findings(report.errors@)),
{
    let mut actions: Vec<RepairAction> = Vec::new();
    let mut warnings: Vec<IntegrityIssue> = Vec::new();
    let mut primary_data_at_risk: Vec<IntegrityIssue> = Vec::new();
    let ghost told = findings(report.warnings@);
    let ghost wrong = findings(report.errors@);
    let mut i: usize = 0;
    proof {
        assert(told.subrange(0, 0) =~= Seq::<Finding>::empty());
        assert(actions@ =~= Seq::<RepairAction>::empty());
        assert(findings(warnings@) =~= told.subrange(0, 0));
    }
    while i < report.warnings.len()
        invariant
            told == findings(report.warnings@),
            i <= report.warnings@.len(),
            findings(warnings@) == told.subrange(0, i as int),
            actions@ == warnings_call(Seq::empty(), told.subrange(0, i as int)),
        decreases report.warnings@.len() - i,
    {
        let ghost more = told.subrange(0, i + 1);
        proof {
            assert(more.drop_last() =~= told.subrange(0, i as int));
            assert(more.last() == report.warnings@[i as int].finding());
        }
        let ghost before = findings(warnings@);
        let copied = report.warnings[i].copy();
        let ghost finding = copied.finding();
        warnings.push(copied);
        assert(findings(warnings@) =~= before.push(finding));
        assert(findings(warnings@) =~= more);
        plan_warning(&mut actions, report.warnings[i].kind);
        i = i + 1;
    }
    assert(told.subrange(0, i as int) =~= told);
    let ghost called = actions@;
    let mut k: usize = 0;
    proof {
        assert(wrong.subrange(0, 0) =~= Seq::<Finding>::empty());
        assert(findings(primary_data_at_risk@) =~= Seq::<Finding>::empty());
    }
    while k < report.errors.len()
        invariant
            wrong == findings(report.errors@),
            k <= report.errors@.len(),
            findings(primary_data_at_risk@) == at_risk(wrong.subrange(0, k as int)),
            actions@ == errors_call(called, wrong.subrange(0, k as int)),
        decreases report.errors@.len() - k,
    {
        let ghost more = wrong.subrange(0, k + 1);
        proof {
            assert(more.drop_last() =~= wrong.subrange(0, k as int));
            assert(more.last() == report.errors@[k as int].finding());
        }
        let planned = plan_error(&mut actions, &report.errors[k]);
        if !planned {
            let ghost before = findings(primary_data_at_risk@);
            let copied = report.errors[k].copy();
            let ghost finding = copied.finding();
            primary_data_at_risk.push(copied);
            assert(findings(primary_data_at_risk@) =~= before.push(finding));
        }
        k = k + 1;
    }
    assert(wrong.subrange(0, k as int) =~= wrong);
    RepairPlan { actions, primary_data_at_risk, warnings }
}

/// No action is proposed twice.
pub proof fn actions_are_proposed_once(warnings: Seq<Finding>, errors: Seq<Finding>)
    ensures
        errors_call(warnings_call(Seq::empty(), warnings), errors).no_duplicates(),
{
    lemma_warnings_once(warnings);
    lemma_errors_once(warnings_call(Seq::empty(), warnings), errors);
}

proof fn lemma_actions_once(actions: Seq<RepairAction>, more: Seq<RepairAction>)
    requires
        actions.no_duplicates(),
    ensures
        with_actions(actions, more).no_duplicates(),
    decreases more.len(),
{
    if more.len() > 0 {
        lemma_actions_once(actions, more.drop_last());
    }
}

proof fn lemma_warnings_once(warnings: Seq<Finding>)
    ensures
        warnings_call(Seq::empty(), warnings).no_duplicates(),
    decreases warnings.len(),
{
    if warnings.len() > 0 {
        lemma_warnings_once(warnings.drop_last());
        lemma_actions_once(
            warnings_call(Seq::empty(), warnings.drop_last()),
            warning_calls(warnings.last().kind),
        );
    }
}

proof fn lemma_errors_once(actions: Seq<RepairAction>, errors: Seq<Finding>)
    requires
        actions.no_duplicates(),
    ensures
        errors_call(actions, errors).no_duplicates(),
    decreases errors.len(),
{
    if errors.len() > 0 {
        lemma_errors_once(actions, errors.drop_last());
        lemma_actions_once(errors_call(actions, errors.drop_last()), error_calls(errors.last()));
    }
}

/// A plan may be applied exactly if every error calls for an action: physical
/// and unknown errors never do.
pub proof fn derived_only_means_every_error_is_planned(errors: Seq<Finding>)
    ensures
        at_risk(errors).len() == 0 <==> forall|i: int|
            0 <= i < errors.len() ==> error_calls(#[trigger] errors[i]).len() > 0,
    decreases errors.len(),
{
    if errors.len() > 0 {
        let head = errors.drop_last();
        derived_only_means_every_error_is_planned(head);
        if at_risk(errors).len() == 0 {
            assert forall|i: int| 0 <= i < errors.len() implies error_calls(#[trigger] errors[i]).len() > 0 by {
                if i < head.len() {
                    assert(head[i] == errors[i]);
                }
            }
        } else if forall|i: int| 0 <= i < errors.len() ==> error_calls(#[trigger] errors[i]).len() > 0 {
            assert(error_calls(errors[errors.len() - 1]).len() > 0);
            assert forall|i: int| 0 <= i < head.len() implies error_calls(#[trigger] head[i]).len() > 0 by {
                assert(head[i] == errors[i]);
            }
        }
    }
}

} // verus!
