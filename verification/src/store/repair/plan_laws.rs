//! What a plan proposes, told by the kinds of the findings.
use super::{
    actions_are_proposed_once, at_risk, error_calls, errors_call, plan_repair, warning_calls, warnings_call, with_action, with_actions,
    RepairAction, RepairPlan,
};
use crate::store::verify::{findings, Finding, IntegrityIssue, IssueKind, VerifyReport};
use crate::text::{contains_text, text_at};
use vstd::prelude::*;

verus! {

/// Some issue is of a kind.
pub open spec fn has_kind(issues: Seq<IntegrityIssue>, kind: IssueKind) -> bool {
    exists|i: int| 0 <= i < issues.len() && (#[trigger] issues[i]).kind == kind
}

/// The words stand somewhere in a text.
pub open spec fn stands_in(words: Seq<char>, text: Seq<char>) -> bool {
    exists|before: Seq<char>, after: Seq<char>| text == #[trigger] (before + words + after)
}

/// A value of the full-text index does not decode.
pub open spec fn is_bad_text_value(issue: IntegrityIssue) -> bool {
    issue.kind is IdxValueCorrupt && stands_in("fts "@, issue.detail@)
}

/// The metadata of the vector index does not decode.
pub open spec fn is_bad_vector_meta(issue: IntegrityIssue) -> bool {
    issue.kind is IdxValueCorrupt && !stands_in("fts "@, issue.detail@) && stands_in(
        "vector index metadata"@,
        issue.detail@,
    )
}

/// Some error is a value of the full-text index that does not decode.
pub open spec fn has_bad_text_value(issues: Seq<IntegrityIssue>) -> bool {
    exists|i: int| 0 <= i < issues.len() && #[trigger] is_bad_text_value(issues[i])
}

/// Some error is vector metadata that does not decode.
pub open spec fn has_bad_vector_meta(issues: Seq<IntegrityIssue>) -> bool {
    exists|i: int| 0 <= i < issues.len() && #[trigger] is_bad_vector_meta(issues[i])
}

/// An error of derived data, which can be built again.
pub open spec fn is_of_derived_data(issue: IntegrityIssue) -> bool {
    ||| issue.kind is AllocatorStale
    ||| issue.kind is MemoryLinkBroken
    ||| issue.kind is FtsLinkBroken
    ||| issue.kind is FtsStatsInconsistent
    ||| issue.kind is VectorNeighborMissing
    ||| issue.kind is VectorDimMismatch
    ||| issue.kind is VectorMetaInconsistent
    ||| is_bad_text_value(issue)
    ||| is_bad_vector_meta(issue)
}

/// An issue that says the same.
pub open spec fn says_the_same(a: IntegrityIssue, b: IntegrityIssue) -> bool {
    a.kind == b.kind && a.path@ == b.path@ && a.detail@ == b.detail@
}

proof fn lemma_stands_in(words: Seq<char>, text: Seq<char>)
    ensures
        contains_text(text, words) == stands_in(words, text),
{
    if contains_text(text, words) {
        let i = choose|i: int| text_at(text, words, i);
        let before = text.subrange(0, i);
        let after = text.subrange(i + words.len(), text.len() as int);
        assert(text =~= before + words + after);
    }
    if stands_in(words, text) {
        let (before, after) = choose|before: Seq<char>, after: Seq<char>| text == #[trigger] (before + words + after);
        let i = before.len() as int;
        assert(text.subrange(i, i + words.len()) =~= words);
        assert(text_at(text, words, i));
    }
}

proof fn lemma_with_actions(actions: Seq<RepairAction>, more: Seq<RepairAction>, action: RepairAction)
    ensures
        with_actions(actions, more).contains(action) <==> actions.contains(action) || more.contains(action),
    decreases more.len(),
{
    if more.len() > 0 {
        let head = more.drop_last();
        lemma_with_actions(actions, head, action);
        let before = with_actions(actions, head);
        lemma_with_action(before, more.last(), action);
        assert(more =~= head.push(more.last()));
        lemma_push_contains(head, more.last(), action);
    }
}

proof fn lemma_push_contains(head: Seq<RepairAction>, last: RepairAction, action: RepairAction)
    ensures
        head.push(last).contains(action) <==> head.contains(action) || last == action,
{
    let all = head.push(last);
    if head.contains(action) {
        let i = choose|i: int| 0 <= i < head.len() && head[i] == action;
        assert(all[i] == action);
    }
    assert(all[head.len() as int] == last);
}

proof fn lemma_with_action(actions: Seq<RepairAction>, more: RepairAction, action: RepairAction)
    ensures
        with_action(actions, more).contains(action) <==> actions.contains(action) || more == action,
{
    lemma_push_contains(actions, more, action);
}

proof fn lemma_warnings(warnings: Seq<Finding>, action: RepairAction)
    ensures
        warnings_call(Seq::empty(), warnings).contains(action) <==> exists|i: int|
            0 <= i < warnings.len() && #[trigger] warning_calls(warnings[i].kind).contains(action),
    decreases warnings.len(),
{
    if warnings.len() > 0 {
        let head = warnings.drop_last();
        lemma_warnings(head, action);
        lemma_with_actions(warnings_call(Seq::empty(), head), warning_calls(warnings.last().kind), action);
        if exists|i: int| 0 <= i < head.len() && #[trigger] warning_calls(head[i].kind).contains(action) {
            let i = choose|i: int| 0 <= i < head.len() && #[trigger] warning_calls(head[i].kind).contains(action);
            assert(warning_calls(warnings[i].kind).contains(action));
        }
        if exists|i: int| 0 <= i < warnings.len() && #[trigger] warning_calls(warnings[i].kind).contains(action) {
            let i = choose|i: int| 0 <= i < warnings.len()
                && #[trigger] warning_calls(warnings[i].kind).contains(action);
            if i < head.len() {
                assert(warning_calls(head[i].kind).contains(action));
            }
        }
        assert(warning_calls(warnings[warnings.len() - 1].kind) == warning_calls(warnings.last().kind));
    }
}

proof fn lemma_errors(actions: Seq<RepairAction>, errors: Seq<Finding>, action: RepairAction)
    ensures
        errors_call(actions, errors).contains(action) <==> actions.contains(action) || exists|i: int|
            0 <= i < errors.len() && #[trigger] error_calls(errors[i]).contains(action),
    decreases errors.len(),
{
    if errors.len() > 0 {
        let head = errors.drop_last();
        lemma_errors(actions, head, action);
        lemma_with_actions(errors_call(actions, head), error_calls(errors.last()), action);
        if exists|i: int| 0 <= i < head.len() && #[trigger] error_calls(head[i]).contains(action) {
            let i = choose|i: int| 0 <= i < head.len() && #[trigger] error_calls(head[i]).contains(action);
            assert(error_calls(errors[i]).contains(action));
        }
        if exists|i: int| 0 <= i < errors.len() && #[trigger] error_calls(errors[i]).contains(action) {
            let i = choose|i: int| 0 <= i < errors.len() && #[trigger] error_calls(errors[i]).contains(action);
            if i < head.len() {
                assert(error_calls(head[i]).contains(action));
            }
        }
        assert(error_calls(errors[errors.len() - 1]) == error_calls(errors.last()));
    }
}

/// A sequence of at most two holds its first and its last.
proof fn lemma_few(calls: Seq<RepairAction>)
    requires
        calls.len() <= 2,
    ensures
        forall|action: RepairAction| #[trigger]
            calls.contains(action) <==> calls.len() > 0 && (calls[0] == action || calls[calls.len() - 1] == action),
{
    if calls.len() > 0 {
        assert(calls.contains(calls[0]));
        assert(calls.contains(calls[calls.len() - 1]));
    }
}

/// What one error calls for, action by action.
proof fn lemma_error(issue: IntegrityIssue)
    ensures
        ({
            let calls = error_calls(issue.finding());
            &&& calls.contains(RepairAction::RebuildMemoryMappings) <==> issue.kind is AllocatorStale
                || issue.kind is MemoryLinkBroken
            &&& calls.contains(RepairAction::ReembedMissingVectors) <==> issue.kind is MemoryLinkBroken
            &&& calls.contains(RepairAction::RebuildFts) <==> issue.kind is FtsLinkBroken
                || issue.kind is FtsStatsInconsistent || is_bad_text_value(issue)
            &&& calls.contains(RepairAction::RebuildVectorGraph) <==> issue.kind is VectorNeighborMissing
                || issue.kind is VectorDimMismatch || issue.kind is VectorMetaInconsistent || is_bad_vector_meta(issue)
            &&& calls.len() == 0 <==> !is_of_derived_data(issue)
        }),
{
    lemma_stands_in("fts "@, issue.detail@);
    lemma_stands_in("vector index metadata"@, issue.detail@);
    lemma_few(error_calls(issue.finding()));
}

proof fn lemma_warning(kind: IssueKind)
    ensures
        ({
            let calls = warning_calls(kind);
            &&& !calls.contains(RepairAction::RebuildMemoryMappings)
            &&& !calls.contains(RepairAction::ReembedMissingVectors)
            &&& calls.contains(RepairAction::RebuildFts) <==> kind is FtsStatsInconsistent
            &&& calls.contains(RepairAction::RebuildVectorGraph) <==> kind is VectorMetaInconsistent
        }),
{
    lemma_few(warning_calls(kind));
}

/// An action is called for by some warning, or by some error.
spec fn is_called_for(report: &VerifyReport, action: RepairAction) -> bool {
    ||| exists|i: int|
        0 <= i < report.warnings@.len() && #[trigger] warning_calls(report.warnings@[i].kind).contains(action)
    ||| exists|i: int|
        0 <= i < report.errors@.len() && #[trigger] error_calls(report.errors@[i].finding()).contains(action)
}

proof fn lemma_called_for(report: &VerifyReport, plan: RepairPlan, action: RepairAction)
    requires
        call_ensures(plan_repair, (report,), plan),
    ensures
        plan.actions@.contains(action) <==> is_called_for(report, action),
{
    let told = findings(report.warnings@);
    let wrong = findings(report.errors@);
    lemma_warnings(told, action);
    lemma_errors(warnings_call(Seq::empty(), told), wrong, action);
    if exists|i: int| 0 <= i < told.len() && #[trigger] warning_calls(told[i].kind).contains(action) {
        let i = choose|i: int| 0 <= i < told.len() && #[trigger] warning_calls(told[i].kind).contains(action);
        assert(warning_calls(report.warnings@[i].kind).contains(action));
    }
    if exists|i: int| 0 <= i < wrong.len() && #[trigger] error_calls(wrong[i]).contains(action) {
        let i = choose|i: int| 0 <= i < wrong.len() && #[trigger] error_calls(wrong[i]).contains(action);
        assert(error_calls(report.errors@[i].finding()).contains(action));
    }
    if is_called_for(report, action) {
        if exists|i: int|
            0 <= i < report.warnings@.len() && #[trigger] warning_calls(report.warnings@[i].kind).contains(action) {
            let i = choose|i: int|
                0 <= i < report.warnings@.len() && #[trigger] warning_calls(report.warnings@[i].kind).contains(action);
            assert(warning_calls(told[i].kind).contains(action));
        } else {
            let i = choose|i: int|
                0 <= i < report.errors@.len() && #[trigger] error_calls(report.errors@[i].finding()).contains(action);
            assert(error_calls(wrong[i]).contains(action));
        }
    }
}

/// The mappings are to be rebuilt exactly if the allocator is stale or a link
/// is broken.
pub proof fn mappings_are_planned_for_their_findings(report: &VerifyReport, plan: RepairPlan)
    requires
        call_ensures(plan_repair, (report,), plan),
    ensures
        plan.actions@.contains(RepairAction::RebuildMemoryMappings) <==> has_kind(
            report.errors@,
            IssueKind::AllocatorStale,
        ) || has_kind(report.errors@, IssueKind::MemoryLinkBroken),
{
    let action = RepairAction::RebuildMemoryMappings;
    lemma_called_for(report, plan, action);
    assert forall|i: int| 0 <= i < report.errors@.len() implies (#[trigger] error_calls(
        report.errors@[i].finding(),
    ).contains(action) <==> report.errors@[i].kind is AllocatorStale || report.errors@[i].kind is MemoryLinkBroken) by {
        lemma_error(report.errors@[i]);
    }
    assert forall|i: int| 0 <= i < report.warnings@.len() implies !#[trigger] warning_calls(
        report.warnings@[i].kind,
    ).contains(action) by {
        lemma_warning(report.warnings@[i].kind);
    }
    if has_kind(report.errors@, IssueKind::AllocatorStale) {
        let i = choose|i: int|
            0 <= i < report.errors@.len() && (#[trigger] report.errors@[i]).kind == IssueKind::AllocatorStale;
        assert(error_calls(report.errors@[i].finding()).contains(action));
    }
    if has_kind(report.errors@, IssueKind::MemoryLinkBroken) {
        let i = choose|i: int|
            0 <= i < report.errors@.len() && (#[trigger] report.errors@[i]).kind == IssueKind::MemoryLinkBroken;
        assert(error_calls(report.errors@[i].finding()).contains(action));
    }
}

/// Vectors are to be embedded again exactly if a link is broken.
pub proof fn embedding_is_planned_for_its_findings(report: &VerifyReport, plan: RepairPlan)
    requires
        call_ensures(plan_repair, (report,), plan),
    ensures
        plan.actions@.contains(RepairAction::ReembedMissingVectors) <==> has_kind(
            report.errors@,
            IssueKind::MemoryLinkBroken,
        ),
{
    let action = RepairAction::ReembedMissingVectors;
    lemma_called_for(report, plan, action);
    assert forall|i: int| 0 <= i < report.errors@.len() implies (#[trigger] error_calls(
        report.errors@[i].finding(),
    ).contains(action) <==> report.errors@[i].kind is MemoryLinkBroken) by {
        lemma_error(report.errors@[i]);
    }
    assert forall|i: int| 0 <= i < report.warnings@.len() implies !#[trigger] warning_calls(
        report.warnings@[i].kind,
    ).contains(action) by {
        lemma_warning(report.warnings@[i].kind);
    }
    if has_kind(report.errors@, IssueKind::MemoryLinkBroken) {
        let i = choose|i: int|
            0 <= i < report.errors@.len() && (#[trigger] report.errors@[i]).kind == IssueKind::MemoryLinkBroken;
        assert(error_calls(report.errors@[i].finding()).contains(action));
    }
}

proof fn lemma_kinded_error(report: &VerifyReport, kind: IssueKind, action: RepairAction)
    requires
        has_kind(report.errors@, kind),
        forall|i: int|
            0 <= i < report.errors@.len() && (#[trigger] report.errors@[i]).kind == kind ==> error_calls(
                report.errors@[i].finding(),
            ).contains(action),
    ensures
        is_called_for(report, action),
{
    let i = choose|i: int| 0 <= i < report.errors@.len() && (#[trigger] report.errors@[i]).kind == kind;
    assert(error_calls(report.errors@[i].finding()).contains(action));
}

proof fn lemma_kinded_warning(report: &VerifyReport, kind: IssueKind, action: RepairAction)
    requires
        has_kind(report.warnings@, kind),
        warning_calls(kind).contains(action),
    ensures
        is_called_for(report, action),
{
    let i = choose|i: int| 0 <= i < report.warnings@.len() && (#[trigger] report.warnings@[i]).kind == kind;
    assert(warning_calls(report.warnings@[i].kind).contains(action));
}

/// The full-text index is to be rebuilt exactly if its statistics disagree, as
/// an error or as a warning, if postings and documents disagree, or if a value
/// of it does not decode.
pub proof fn text_is_planned_for_its_findings(report: &VerifyReport, plan: RepairPlan)
    requires
        call_ensures(plan_repair, (report,), plan),
    ensures
        plan.actions@.contains(RepairAction::RebuildFts) <==> {
            ||| has_kind(report.warnings@, IssueKind::FtsStatsInconsistent)
            ||| has_kind(report.errors@, IssueKind::FtsStatsInconsistent)
            ||| has_kind(report.errors@, IssueKind::FtsLinkBroken)
            ||| has_bad_text_value(report.errors@)
        },
{
    let action = RepairAction::RebuildFts;
    lemma_called_for(report, plan, action);
    assert forall|i: int| 0 <= i < report.errors@.len() implies (#[trigger] error_calls(
        report.errors@[i].finding(),
    ).contains(action) <==> report.errors@[i].kind is FtsLinkBroken || report.errors@[i].kind is FtsStatsInconsistent
        || is_bad_text_value(report.errors@[i])) by {
        lemma_error(report.errors@[i]);
    }
    assert forall|i: int| 0 <= i < report.warnings@.len() implies (#[trigger] warning_calls(
        report.warnings@[i].kind,
    ).contains(action) <==> report.warnings@[i].kind is FtsStatsInconsistent) by {
        lemma_warning(report.warnings@[i].kind);
    }
    lemma_warning(IssueKind::FtsStatsInconsistent);
    if has_kind(report.warnings@, IssueKind::FtsStatsInconsistent) {
        lemma_kinded_warning(report, IssueKind::FtsStatsInconsistent, action);
    }
    if has_kind(report.errors@, IssueKind::FtsStatsInconsistent) {
        lemma_kinded_error(report, IssueKind::FtsStatsInconsistent, action);
    }
    if has_kind(report.errors@, IssueKind::FtsLinkBroken) {
        lemma_kinded_error(report, IssueKind::FtsLinkBroken, action);
    }
    if has_bad_text_value(report.errors@) {
        let i = choose|i: int| 0 <= i < report.errors@.len() && #[trigger] is_bad_text_value(report.errors@[i]);
        assert(error_calls(report.errors@[i].finding()).contains(action));
    }
}

/// The vector graph is to be rebuilt exactly if its metadata disagrees, as an
/// error or as a warning, or does not decode, if a neighbor is missing, or if a
/// dimension is another.
pub proof fn the_graph_is_planned_for_its_findings(report: &VerifyReport, plan: RepairPlan)
    requires
        call_ensures(plan_repair, (report,), plan),
    ensures
        plan.actions@.contains(RepairAction::RebuildVectorGraph) <==> {
            ||| has_kind(report.warnings@, IssueKind::VectorMetaInconsistent)
            ||| has_kind(report.errors@, IssueKind::VectorMetaInconsistent)
            ||| has_kind(report.errors@, IssueKind::VectorNeighborMissing)
            ||| has_kind(report.errors@, IssueKind::VectorDimMismatch)
            ||| has_bad_vector_meta(report.errors@)
        },
{
    let action = RepairAction::RebuildVectorGraph;
    lemma_called_for(report, plan, action);
    assert forall|i: int| 0 <= i < report.errors@.len() implies (#[trigger] error_calls(
        report.errors@[i].finding(),
    ).contains(action) <==> report.errors@[i].kind is VectorNeighborMissing
        || report.errors@[i].kind is VectorDimMismatch || report.errors@[i].kind is VectorMetaInconsistent
        || is_bad_vector_meta(report.errors@[i])) by {
        lemma_error(report.errors@[i]);
    }
    assert forall|i: int| 0 <= i < report.warnings@.len() implies (#[trigger] warning_calls(
        report.warnings@[i].kind,
    ).contains(action) <==> report.warnings@[i].kind is VectorMetaInconsistent) by {
        lemma_warning(report.warnings@[i].kind);
    }
    lemma_warning(IssueKind::VectorMetaInconsistent);
    if has_kind(report.warnings@, IssueKind::VectorMetaInconsistent) {
        lemma_kinded_warning(report, IssueKind::VectorMetaInconsistent, action);
    }
    if has_kind(report.errors@, IssueKind::VectorMetaInconsistent) {
        lemma_kinded_error(report, IssueKind::VectorMetaInconsistent, action);
    }
    if has_kind(report.errors@, IssueKind::VectorNeighborMissing) {
        lemma_kinded_error(report, IssueKind::VectorNeighborMissing, action);
    }
    if has_kind(report.errors@, IssueKind::VectorDimMismatch) {
        lemma_kinded_error(report, IssueKind::VectorDimMismatch, action);
    }
    if has_bad_vector_meta(report.errors@) {
        let i = choose|i: int| 0 <= i < report.errors@.len() && #[trigger] is_bad_vector_meta(report.errors@[i]);
        assert(error_calls(report.errors@[i].finding()).contains(action));
    }
}

/// The errors of primary data are those at `at`, and `risks` say the same, in
/// order.
pub open spec fn picks_risks(errors: Seq<IntegrityIssue>, risks: Seq<IntegrityIssue>, at: Seq<int>) -> bool {
    &&& at.len() == risks.len()
    &&& forall|i: int, j: int| 0 <= i < j < at.len() ==> #[trigger] at[i] < #[trigger] at[j]
    &&& forall|i: int|
        0 <= i < at.len() ==> 0 <= #[trigger] at[i] < errors.len() && !is_of_derived_data(errors[at[i]])
            && says_the_same(risks[i], errors[at[i]])
    &&& forall|k: int| 0 <= k < errors.len() && !is_of_derived_data(#[trigger] errors[k]) ==> at.contains(k)
}

proof fn lemma_risks(errors: Seq<IntegrityIssue>) -> (at: Seq<int>)
    ensures
        at.len() == at_risk(findings(errors)).len(),
        forall|i: int, j: int| 0 <= i < j < at.len() ==> #[trigger] at[i] < #[trigger] at[j],
        forall|i: int|
            0 <= i < at.len() ==> 0 <= #[trigger] at[i] < errors.len() && !is_of_derived_data(errors[at[i]])
                && at_risk(findings(errors))[i] == errors[at[i]].finding(),
        forall|k: int| 0 <= k < errors.len() && !is_of_derived_data(#[trigger] errors[k]) ==> at.contains(k),
    decreases errors.len(),
{
    if errors.len() == 0 {
        Seq::empty()
    } else {
        let head = errors.drop_last();
        let n = head.len() as int;
        let all = findings(errors);
        let before = lemma_risks(head);
        assert(all.drop_last() =~= findings(head));
        assert(all.last() == errors.last().finding());
        lemma_error(errors.last());
        if is_of_derived_data(errors.last()) {
            assert forall|k: int| 0 <= k < errors.len() && !is_of_derived_data(
                #[trigger] errors[k],
            ) implies before.contains(k) by {
                assert(head[k] == errors[k]);
            }
            assert forall|i: int| 0 <= i < before.len() implies 0 <= #[trigger] before[i] < errors.len()
                && !is_of_derived_data(errors[before[i]]) && at_risk(all)[i] == errors[before[i]].finding() by {
                assert(head[before[i]] == errors[before[i]]);
            }
            before
        } else {
            let at = before.push(n);
            assert forall|k: int| 0 <= k < errors.len() && !is_of_derived_data(
                #[trigger] errors[k],
            ) implies at.contains(k) by {
                if k < n {
                    assert(head[k] == errors[k]);
                    assert(before.contains(k));
                    let i = choose|i: int| 0 <= i < before.len() && before[i] == k;
                    assert(at[i] == k);
                } else {
                    assert(at[before.len() as int] == k);
                }
            }
            assert forall|i: int| 0 <= i < at.len() implies 0 <= #[trigger] at[i] < errors.len()
                && !is_of_derived_data(errors[at[i]]) && at_risk(all)[i] == errors[at[i]].finding() by {
                if i < before.len() {
                    assert(at[i] == before[i]);
                    assert(head[before[i]] == errors[before[i]]);
                }
            }
            assert forall|i: int, j: int| 0 <= i < j < at.len() implies #[trigger] at[i] < #[trigger] at[j] by {
                assert(at[i] == before[i]);
                if j < before.len() {
                    assert(at[j] == before[j]);
                }
            }
            at
        }
    }
}

/// The data at risk are exactly the errors that are not of derived data, each
/// as the audit told it, in its order; and every warning is handed on.
pub proof fn a_plan_keeps_what_it_cannot_repair(report: &VerifyReport, plan: RepairPlan)
    requires
        call_ensures(plan_repair, (report,), plan),
    ensures
        exists|at: Seq<int>| #[trigger] picks_risks(report.errors@, plan.primary_data_at_risk@, at),
        plan.warnings@.len() == report.warnings@.len(),
        forall|i: int|
            0 <= i < plan.warnings@.len() ==> says_the_same(#[trigger] plan.warnings@[i], report.warnings@[i]),
{
    let at = lemma_risks(report.errors@);
    let risks = plan.primary_data_at_risk@;
    assert(findings(risks).len() == risks.len());
    assert forall|i: int| 0 <= i < at.len() implies 0 <= #[trigger] at[i] < report.errors@.len()
        && !is_of_derived_data(report.errors@[at[i]]) && says_the_same(risks[i], report.errors@[at[i]]) by {
        assert(findings(risks)[i] == risks[i].finding());
    }
    assert(picks_risks(report.errors@, risks, at));
    assert(findings(plan.warnings@).len() == findings(report.warnings@).len());
    assert forall|i: int| 0 <= i < plan.warnings@.len() implies says_the_same(
        #[trigger] plan.warnings@[i],
        report.warnings@[i],
    ) by {
        assert(findings(plan.warnings@)[i] == findings(report.warnings@)[i]);
    }
}

/// The `n`th finding, the warnings before the errors, asks for an action.
pub open spec fn asks_for(report: &VerifyReport, n: int, action: RepairAction) -> bool {
    let told = report.warnings@.len() as int;
    if n < told {
        0 <= n && match action {
            RepairAction::RebuildFts => report.warnings@[n].kind is FtsStatsInconsistent,
            RepairAction::RebuildVectorGraph => report.warnings@[n].kind is VectorMetaInconsistent,
            _ => false,
        }
    } else {
        let issue = report.errors@[n - told];
        n - told < report.errors@.len() && match action {
            RepairAction::RebuildMemoryMappings => issue.kind is AllocatorStale || issue.kind is MemoryLinkBroken,
            RepairAction::ReembedMissingVectors => issue.kind is MemoryLinkBroken,
            RepairAction::RebuildFts => issue.kind is FtsLinkBroken || issue.kind is FtsStatsInconsistent
                || is_bad_text_value(issue),
            RepairAction::RebuildVectorGraph => issue.kind is VectorNeighborMissing || issue.kind is VectorDimMismatch
                || issue.kind is VectorMetaInconsistent || is_bad_vector_meta(issue),
        }
    }
}

/// The `n`th finding asks for `a`, and none before it for `b`; where it asks
/// for both, the mappings come first.
pub open spec fn asked_earlier(report: &VerifyReport, n: int, a: RepairAction, b: RepairAction) -> bool {
    &&& asks_for(report, n, a)
    &&& forall|m: int| 0 <= m < n ==> !#[trigger] asks_for(report, m, b)
    &&& asks_for(report, n, b) ==> a is RebuildMemoryMappings
}

/// One of the first `n` findings asks for `a`, and none before it for `b`.
pub open spec fn is_asked_earlier(report: &VerifyReport, n: int, a: RepairAction, b: RepairAction) -> bool {
    exists|m: int| 0 <= m < n && #[trigger] asked_earlier(report, m, a, b)
}

/// What is planned of the first `n` findings: each action that they ask for,
/// in the order in which they ask.
spec fn plans_first(report: &VerifyReport, n: int, actions: Seq<RepairAction>) -> bool {
    &&& forall|action: RepairAction| #[trigger]
        actions.contains(action) <==> exists|m: int| 0 <= m < n && #[trigger] asks_for(report, m, action)
    &&& forall|i: int, j: int|
        0 <= i < j < actions.len() ==> is_asked_earlier(report, n, #[trigger] actions[i], #[trigger] actions[j])
}

proof fn lemma_plan_one_more(report: &VerifyReport, n: int, actions: Seq<RepairAction>, calls: Seq<RepairAction>)
    requires
        0 <= n,
        plans_first(report, n, actions),
        calls.len() <= 2,
        forall|action: RepairAction| #[trigger] calls.contains(action) <==> asks_for(report, n, action),
        calls.len() == 2 ==> calls[0] is RebuildMemoryMappings && calls[1] is ReembedMissingVectors,
    ensures
        plans_first(report, n + 1, with_actions(actions, calls)),
{
    let next = with_actions(actions, calls);
    lemma_few(calls);
    if calls.len() == 1 {
        assert(calls.drop_last() =~= Seq::<RepairAction>::empty());
    } else if calls.len() == 2 {
        assert(calls.drop_last() =~= seq![calls[0]]);
        assert(calls.drop_last().drop_last() =~= Seq::<RepairAction>::empty());
    }
    reveal_with_fuel(with_actions, 3);
    assert forall|action: RepairAction| #[trigger] next.contains(action) <==> exists|m: int|
        0 <= m < n + 1 && #[trigger] asks_for(report, m, action) by {
        lemma_with_actions(actions, calls, action);
        if calls.contains(action) {
            assert(asks_for(report, n, action));
        }
        if actions.contains(action) {
            let m = choose|m: int| 0 <= m < n && #[trigger] asks_for(report, m, action);
            assert(asks_for(report, m, action));
        }
        if exists|m: int| 0 <= m < n + 1 && #[trigger] asks_for(report, m, action) {
            let m = choose|m: int| 0 <= m < n + 1 && #[trigger] asks_for(report, m, action);
            if m < n {
                assert(actions.contains(action));
            } else {
                assert(calls.contains(action));
            }
        }
    }
    assert(next.len() >= actions.len());
    assert forall|i: int| 0 <= i < actions.len() implies next[i] == actions[i] by {}
    assert forall|i: int| actions.len() <= i < next.len() implies calls.contains(#[trigger] next[i])
        && !actions.contains(next[i]) by {}
    assert forall|i: int, j: int| 0 <= i < j < next.len() implies is_asked_earlier(
        report,
        n + 1,
        #[trigger] next[i],
        #[trigger] next[j],
    ) by {
        if j < actions.len() {
            assert(next[i] == actions[i] && next[j] == actions[j]);
            assert(is_asked_earlier(report, n, actions[i], actions[j]));
            let m = choose|m: int| 0 <= m < n && #[trigger] asked_earlier(report, m, actions[i], actions[j]);
            assert(asked_earlier(report, m, next[i], next[j]));
        } else {
            let b = next[j];
            assert(!actions.contains(b));
            assert forall|m: int| 0 <= m < n implies !#[trigger] asks_for(report, m, b) by {}
            if i < actions.len() {
                assert(actions.contains(actions[i]));
                let m = choose|m: int| 0 <= m < n && #[trigger] asks_for(report, m, actions[i]);
                assert(asked_earlier(report, m, next[i], b));
            } else {
                assert(asks_for(report, n, next[i]));
                assert(asked_earlier(report, n, next[i], b));
            }
        }
    }
}

proof fn lemma_plans_warnings(report: &VerifyReport, n: int)
    requires
        0 <= n <= report.warnings@.len(),
    ensures
        plans_first(report, n, warnings_call(Seq::empty(), findings(report.warnings@).take(n))),
    decreases n,
{
    let told = findings(report.warnings@);
    if n > 0 {
        lemma_plans_warnings(report, n - 1);
        assert(told.take(n).drop_last() =~= told.take(n - 1));
        assert(told.take(n).last() == report.warnings@[n - 1].finding());
        let kind = report.warnings@[n - 1].kind;
        lemma_warning(kind);
        lemma_plan_one_more(
            report,
            n - 1,
            warnings_call(Seq::empty(), told.take(n - 1)),
            warning_calls(kind),
        );
    } else {
        assert(told.take(0) =~= Seq::<Finding>::empty());
    }
}

proof fn lemma_plans_errors(report: &VerifyReport, n: int)
    requires
        0 <= n <= report.errors@.len(),
    ensures
        plans_first(
            report,
            report.warnings@.len() + n,
            errors_call(
                warnings_call(Seq::empty(), findings(report.warnings@)),
                findings(report.errors@).take(n),
            ),
        ),
    decreases n,
{
    let told = findings(report.warnings@);
    let wrong = findings(report.errors@);
    let start = warnings_call(Seq::empty(), told);
    if n > 0 {
        lemma_plans_errors(report, n - 1);
        assert(wrong.take(n).drop_last() =~= wrong.take(n - 1));
        assert(wrong.take(n).last() == report.errors@[n - 1].finding());
        let issue = report.errors@[n - 1];
        lemma_error(issue);
        lemma_plan_one_more(
            report,
            report.warnings@.len() + n - 1,
            errors_call(start, wrong.take(n - 1)),
            error_calls(issue.finding()),
        );
    } else {
        lemma_plans_warnings(report, report.warnings@.len() as int);
        assert(told.take(told.len() as int) =~= told);
        assert(wrong.take(0) =~= Seq::<Finding>::empty());
    }
}

/// A plan holds every action that a finding asks for and no other, each once,
/// in the order in which the findings first ask for them, the warnings before
/// the errors.
pub proof fn a_plan_is_in_the_order_of_its_findings(report: &VerifyReport, plan: RepairPlan)
    requires
        call_ensures(plan_repair, (report,), plan),
    ensures
        plan.actions@.no_duplicates(),
        forall|action: RepairAction| #[trigger]
            plan.actions@.contains(action) <==> exists|n: int|
                0 <= n < report.warnings@.len() + report.errors@.len() && #[trigger] asks_for(report, n, action),
        forall|i: int, j: int|
            0 <= i < j < plan.actions@.len() ==> is_asked_earlier(
                report,
                (report.warnings@.len() + report.errors@.len()) as int,
                #[trigger] plan.actions@[i],
                #[trigger] plan.actions@[j],
            ),
{
    let told = findings(report.warnings@);
    let wrong = findings(report.errors@);
    actions_are_proposed_once(told, wrong);
    lemma_plans_errors(report, report.errors@.len() as int);
    assert(wrong.take(wrong.len() as int) =~= wrong);
}

} // verus!
