//! Postings against document terms, both ways, the statistics recomputed, and
//! every document under the agent that owns its vector.
use super::memory::{find_vecmap, number_key};
use super::table::{find_row, holder, rows_of, Keyed, Part};
use super::{
    terms_of, DocRow, DocV, FtsStats, LogicalView, PostingRow, PostingV, StatsRow, StatsV, TermCount, TermV, VecMapRow,
    ViewV,
};
use crate::store::sst_block::capped64;
use crate::store::verify::{flat, found_if, issue, Finding, IssueKind, Tally, VerifyReport};
use crate::text;
use crate::text::{dec_text, quoted_text};
use vstd::prelude::*;

verus! {

/// The diagnosis of a term, shown as `term`, that occurs never.
pub open spec fn zero_text(agent: Seq<char>, vec_id: u64, term: Seq<char>) -> Seq<char> {
    "doc-terms ("@ + agent + ", "@ + dec_text(vec_id as nat) + ") lists term "@ + term + " with tf 0"@
}

/// The diagnosis of a term, shown as `term`, that occurs never.
pub fn zero_detail(agent: &str, vec_id: u64, term: &str) -> (s: String)
    ensures
        s@ == zero_text(agent@, vec_id, term@),
{
    String::from_str("doc-terms (").concat(agent).concat(", ").concat(text::dec(vec_id).as_str())
        .concat(") lists term ").concat(term).concat(" with tf 0")
}

/// The diagnosis of a term, shown as `term`, without a posting.
pub open spec fn unposted_text(agent: Seq<char>, vec_id: u64, term: Seq<char>) -> Seq<char> {
    "doc-terms ("@ + agent + ", "@ + dec_text(vec_id as nat) + ") lists term "@ + term
        + " but no matching posting exists"@
}

/// The diagnosis of a term, shown as `term`, without a posting.
pub fn unposted_detail(agent: &str, vec_id: u64, term: &str) -> (s: String)
    ensures
        s@ == unposted_text(agent@, vec_id, term@),
{
    String::from_str("doc-terms (").concat(agent).concat(", ").concat(text::dec(vec_id).as_str())
        .concat(") lists term ").concat(term).concat(" but no matching posting exists")
}

/// The diagnosis of a term, shown as `term`, whose posting counts otherwise.
pub open spec fn miscounted_text(term: Seq<char>, agent: Seq<char>, vec_id: u64, tf: u32, posted: u32) -> Seq<char> {
    "term "@ + term + " of doc ("@ + agent + ", "@ + dec_text(vec_id as nat) + ") has tf "@ + dec_text(tf as nat)
        + " in doc-terms but "@ + dec_text(posted as nat) + " in its posting"@
}

/// The diagnosis of a term, shown as `term`, whose posting counts otherwise.
pub fn miscounted_detail(term: &str, agent: &str, vec_id: u64, tf: u32, posted: u32) -> (s: String)
    ensures
        s@ == miscounted_text(term@, agent@, vec_id, tf, posted),
{
    String::from_str("term ").concat(term).concat(" of doc (").concat(agent).concat(", ")
        .concat(text::dec(vec_id).as_str()).concat(") has tf ").concat(text::dec(tf as u64).as_str())
        .concat(" in doc-terms but ").concat(text::dec(posted as u64).as_str()).concat(" in its posting")
}

/// The diagnosis of a document whose vector no mapping maps.
pub open spec fn unmapped_doc_text(agent: Seq<char>, vec_id: u64) -> Seq<char> {
    "doc-terms ("@ + agent + ", "@ + dec_text(vec_id as nat) + ") references a vec_id no vecmap entry maps"@
}

/// The diagnosis of a document whose vector no mapping maps.
pub fn unmapped_doc_detail(agent: &str, vec_id: u64) -> (s: String)
    ensures
        s@ == unmapped_doc_text(agent@, vec_id),
{
    String::from_str("doc-terms (").concat(agent).concat(", ").concat(text::dec(vec_id).as_str())
        .concat(") references a vec_id no vecmap entry maps")
}

/// The diagnosis of a document under one agent whose vector is another's; both
/// agents are shown.
pub open spec fn foreign_text(agent: Seq<char>, vec_id: u64, shown: Seq<char>, owner: Seq<char>) -> Seq<char> {
    "fts document ("@ + agent + ", "@ + dec_text(vec_id as nat) + ") is indexed under agent "@ + shown + " but vec_id "@
        + dec_text(vec_id as nat) + " belongs to agent "@ + owner
}

/// The diagnosis of a document under one agent whose vector is another's; both
/// agents are shown.
pub fn foreign_detail(agent: &str, vec_id: u64, shown: &str, owner: &str) -> (s: String)
    ensures
        s@ == foreign_text(agent@, vec_id, shown@, owner@),
{
    String::from_str("fts document (").concat(agent).concat(", ").concat(text::dec(vec_id).as_str())
        .concat(") is indexed under agent ").concat(shown).concat(" but vec_id ").concat(text::dec(vec_id).as_str())
        .concat(" belongs to agent ").concat(owner)
}

/// The diagnosis of a posting, its term shown as `term`, without a document.
pub open spec fn orphan_posting_text(agent: Seq<char>, term: Seq<char>, vec_id: u64) -> Seq<char> {
    "posting ("@ + agent + ", "@ + term + ", "@ + dec_text(vec_id as nat)
        + ") has no matching doc-terms entry — an orphan a delete could never clean up"@
}

/// The diagnosis of a posting, its term shown as `term`, without a document.
pub fn orphan_posting_detail(agent: &str, term: &str, vec_id: u64) -> (s: String)
    ensures
        s@ == orphan_posting_text(agent@, term@, vec_id),
{
    String::from_str("posting (").concat(agent).concat(", ").concat(term).concat(", ")
        .concat(text::dec(vec_id).as_str())
        .concat(") has no matching doc-terms entry — an orphan a delete could never clean up")
}

/// The diagnosis of an agent, shown as `shown`, without statistics.
pub open spec fn statless_text(shown: Seq<char>, docs: u64) -> Seq<char> {
    "agent "@ + shown + " has "@ + dec_text(docs as nat)
        + " indexed documents but no stats record — healed from doc-terms on the next search"@
}

/// The diagnosis of an agent, shown as `shown`, without statistics.
pub fn statless_detail(shown: &str, docs: u64) -> (s: String)
    ensures
        s@ == statless_text(shown@, docs),
{
    String::from_str("agent ").concat(shown).concat(" has ").concat(text::dec(docs).as_str())
        .concat(" indexed documents but no stats record — healed from doc-terms on the next search")
}

/// The diagnosis of statistics of an agent, shown as `shown`, that are wrong.
pub open spec fn lying_text(shown: Seq<char>, docs: u64, terms: u64, own_docs: u64, own_terms: u64) -> Seq<char> {
    "agent "@ + shown + " stats record says doc_count "@ + dec_text(docs as nat) + " / total_terms "@
        + dec_text(terms as nat) + " but doc-terms recompute to "@ + dec_text(own_docs as nat) + " / "@
        + dec_text(own_terms as nat) + " — an intact-but-wrong record silently skews every BM25 score"@
}

/// The diagnosis of statistics of an agent, shown as `shown`, that are wrong.
pub fn lying_detail(shown: &str, docs: u64, terms: u64, own_docs: u64, own_terms: u64) -> (s: String)
    ensures
        s@ == lying_text(shown@, docs, terms, own_docs, own_terms),
{
    String::from_str("agent ").concat(shown).concat(" stats record says doc_count ").concat(text::dec(docs).as_str())
        .concat(" / total_terms ").concat(text::dec(terms).as_str()).concat(" but doc-terms recompute to ")
        .concat(text::dec(own_docs).as_str()).concat(" / ").concat(text::dec(own_terms).as_str())
        .concat(" — an intact-but-wrong record silently skews every BM25 score")
}

/// The diagnosis of statistics of an agent, shown as `shown`, without documents.
pub open spec fn ghostly_text(shown: Seq<char>, docs: u64) -> Seq<char> {
    "agent "@ + shown + " has a stats record (doc_count "@ + dec_text(docs as nat)
        + ") but no indexed documents at all"@
}

/// The diagnosis of statistics of an agent, shown as `shown`, without documents.
pub fn ghostly_detail(shown: &str, docs: u64) -> (s: String)
    ensures
        s@ == ghostly_text(shown@, docs),
{
    String::from_str("agent ").concat(shown).concat(" has a stats record (doc_count ").concat(text::dec(docs).as_str())
        .concat(") but no indexed documents at all")
}

/// The key of a posting.
pub open spec fn posting_key(agent: Seq<char>, term: Seq<char>, vec_id: u64) -> Seq<Part> {
    seq![Part::Text(agent), Part::Text(term), Part::Number(vec_id)]
}

/// The key of a document.
pub open spec fn doc_key(agent: Seq<char>, vec_id: u64) -> Seq<Part> {
    seq![Part::Text(agent), Part::Number(vec_id)]
}

/// The key of an agent's statistics.
pub open spec fn stats_key(agent: Seq<char>) -> Seq<Part> {
    seq![Part::Text(agent)]
}

/// What is wrong with one term of a document.
pub open spec fn term_errors(v: ViewV, dir: Seq<char>, doc: DocV, t: TermV) -> Seq<Finding> {
    if t.tf == 0 {
        seq![issue(IssueKind::FtsLinkBroken, dir, zero_text(doc.agent, doc.vec_id, quoted_text(t.term)))]
    } else {
        match holder::<PostingRow>(v.postings, posting_key(doc.agent, t.term, doc.vec_id)) {
            None => seq![
                issue(
                    IssueKind::FtsLinkBroken,
                    dir,
                    unposted_text(doc.agent, doc.vec_id, quoted_text(t.term)),
                ),
            ],
            Some(posting) => found_if(
                posting.tf != t.tf,
                issue(
                    IssueKind::FtsLinkBroken,
                    dir,
                    miscounted_text(quoted_text(t.term), doc.agent, doc.vec_id, t.tf, posting.tf),
                ),
            ),
        }
    }
}

/// What is wrong with each term of a document.
pub open spec fn doc_term_errors(v: ViewV, dir: Seq<char>, doc: DocV) -> spec_fn(int) -> Seq<Finding> {
    |k: int| term_errors(v, dir, doc, doc.terms[k])
}

/// What the mappings have against a document.
pub open spec fn owner_errors(v: ViewV, dir: Seq<char>, doc: DocV) -> Seq<Finding> {
    match holder::<VecMapRow>(v.vecmap, number_key(doc.vec_id)) {
        None => seq![issue(IssueKind::FtsLinkBroken, dir, unmapped_doc_text(doc.agent, doc.vec_id))],
        Some(entry) => found_if(
            entry.agent != doc.agent,
            issue(
                IssueKind::AgentIsolationBreach,
                dir,
                foreign_text(doc.agent, doc.vec_id, quoted_text(doc.agent), quoted_text(entry.agent)),
            ),
        ),
    }
}

/// What is wrong with each document.
pub open spec fn doc_errors(v: ViewV, populated: bool, dir: Seq<char>) -> spec_fn(int) -> Seq<Finding> {
    |i: int|
        flat(v.docterms[i].terms.len(), doc_term_errors(v, dir, v.docterms[i])) + if populated {
            owner_errors(v, dir, v.docterms[i])
        } else {
            Seq::empty()
        }
}

/// Some term count is of `term`.
pub open spec fn lists_term(terms: Seq<TermV>, term: Seq<char>) -> bool {
    exists|k: int| 0 <= k < terms.len() && (#[trigger] terms[k]).term == term
}

/// A posting's document lists its term.
pub open spec fn is_listed(v: ViewV, p: PostingV) -> bool {
    match holder::<DocRow>(v.docterms, doc_key(p.agent, p.vec_id)) {
        Some(doc) => lists_term(doc.terms, p.term),
        None => false,
    }
}

/// What is wrong with each posting.
pub open spec fn posting_errors(v: ViewV, dir: Seq<char>) -> spec_fn(int) -> Seq<Finding> {
    |i: int|
        found_if(
            !is_listed(v, v.postings[i]),
            issue(
                IssueKind::FtsLinkBroken,
                dir,
                orphan_posting_text(
                    v.postings[i].agent,
                    quoted_text(v.postings[i].term),
                    v.postings[i].vec_id,
                ),
            ),
        )
}

/// How many terms a document has, each counted as often as it occurs.
pub open spec fn term_total(terms: Seq<TermV>) -> nat
    decreases terms.len(),
{
    if terms.len() == 0 {
        0
    } else {
        term_total(terms.drop_last()) + terms.last().tf as nat
    }
}

/// The statistics with one more document.
pub open spec fn with_document(stats: FtsStats, terms: Seq<TermV>) -> FtsStats {
    FtsStats {
        doc_count: capped64(stats.doc_count as nat + 1),
        total_terms: capped64(stats.total_terms as nat + capped64(term_total(terms)) as nat),
    }
}

/// The statistics of every agent with documents, recomputed. The documents are
/// in the order of their agents.
pub open spec fn recomputed(docs: Seq<DocV>) -> Seq<StatsV>
    decreases docs.len(),
{
    if docs.len() == 0 {
        Seq::empty()
    } else {
        let before = recomputed(docs.drop_last());
        let doc = docs.last();
        if before.len() > 0 && before.last().agent == doc.agent {
            before.drop_last().push(
                StatsV { agent: doc.agent, stats: with_document(before.last().stats, doc.terms) },
            )
        } else {
            before.push(
                StatsV {
                    agent: doc.agent,
                    stats: with_document(FtsStats { doc_count: 0, total_terms: 0 }, doc.terms),
                },
            )
        }
    }
}

/// An agent is among those of `rows`.
pub open spec fn has_agent(rows: Seq<StatsV>, agent: Seq<char>) -> bool {
    exists|i: int| 0 <= i < rows.len() && (#[trigger] rows[i]).agent == agent
}

/// What is wrong with the stored statistics of an agent with documents.
pub open spec fn stats_errors(v: ViewV, dir: Seq<char>) -> spec_fn(int) -> Seq<Finding> {
    |i: int|
        {
            let own = recomputed(v.docterms)[i];
            match holder::<StatsRow>(v.fts_stats, stats_key(own.agent)) {
                None => Seq::empty(),
                Some(stored) => found_if(
                    stored.stats != own.stats,
                    issue(
                        IssueKind::FtsStatsInconsistent,
                        dir,
                        lying_text(
                            quoted_text(own.agent),
                            stored.stats.doc_count,
                            stored.stats.total_terms,
                            own.stats.doc_count,
                            own.stats.total_terms,
                        ),
                    ),
                ),
            }
        }
}

/// What is worth telling of an agent with documents: its statistics are gone,
/// and will be recomputed.
pub open spec fn stats_warnings(v: ViewV, dir: Seq<char>) -> spec_fn(int) -> Seq<Finding> {
    |i: int|
        {
            let own = recomputed(v.docterms)[i];
            found_if(
                holder::<StatsRow>(v.fts_stats, stats_key(own.agent)) is None,
                issue(
                    IssueKind::FtsStatsInconsistent,
                    dir,
                    statless_text(quoted_text(own.agent), own.stats.doc_count),
                ),
            )
        }
}

/// What is wrong with stored statistics of an agent without documents.
pub open spec fn empty_stats_errors(v: ViewV, dir: Seq<char>) -> spec_fn(int) -> Seq<Finding> {
    |i: int|
        {
            let stored = v.fts_stats[i];
            found_if(
                !has_agent(recomputed(v.docterms), stored.agent) && stored.stats != (FtsStats {
                    doc_count: 0,
                    total_terms: 0,
                }),
                issue(
                    IssueKind::FtsStatsInconsistent,
                    dir,
                    ghostly_text(quoted_text(stored.agent), stored.stats.doc_count),
                ),
            )
        }
}

/// Everything that is wrong with the full-text index.
pub open spec fn fts_errors(v: ViewV, populated: bool, dir: Seq<char>) -> Seq<Finding> {
    flat(v.docterms.len(), doc_errors(v, populated, dir)) + flat(v.postings.len(), posting_errors(v, dir)) + flat(
        recomputed(v.docterms).len(),
        stats_errors(v, dir),
    ) + flat(v.fts_stats.len(), empty_stats_errors(v, dir))
}

/// Everything that is worth telling of the full-text index.
pub open spec fn fts_warnings(v: ViewV, dir: Seq<char>) -> Seq<Finding> {
    flat(recomputed(v.docterms).len(), stats_warnings(v, dir))
}

fn check_term(view: &LogicalView, doc: &DocRow, t: &TermCount, dir: &str, report: &mut VerifyReport)
    requires
        view.wf(),
    ensures
        final(report).tally() == old(report).tally().with(
            term_errors(view.says(), dir@, doc.row(), t.says()),
            Seq::empty(),
        ),
{
    let ghost start = report.tally();
    if t.tf == 0 {
        let shown = text::quoted(t.term.as_str());
        report.error(
            IssueKind::FtsLinkBroken,
            dir,
            zero_detail(doc.agent.as_str(), doc.vec_id, shown.as_str()),
        );
    } else {
        let probe = PostingRow { agent: doc.agent.clone(), term: t.term.clone(), vec_id: doc.vec_id, tf: 0 };
        match find_row(&view.postings, &probe) {
            None => {
                let shown = text::quoted(t.term.as_str());
                report.error(
                    IssueKind::FtsLinkBroken,
                    dir,
                    unposted_detail(doc.agent.as_str(), doc.vec_id, shown.as_str()),
                );
            },
            Some(k) => {
                let posted: u32 = view.postings[k].tf;
                if posted != t.tf {
                    let shown = text::quoted(t.term.as_str());
                    report.error(
                        IssueKind::FtsLinkBroken,
                        dir,
                        miscounted_detail(shown.as_str(), doc.agent.as_str(), doc.vec_id, t.tf, posted),
                    );
                }
            },
        }
    }
    proof {
        let more = term_errors(view.says(), dir@, doc.row(), t.says());
        assert(report.tally().errors =~= start.errors + more);
        assert(report.tally().warnings =~= start.warnings + Seq::<Finding>::empty());
    }
}

fn check_owner(view: &LogicalView, doc: &DocRow, dir: &str, report: &mut VerifyReport)
    requires
        view.wf(),
    ensures
        final(report).tally() == old(report).tally().with(
            owner_errors(view.says(), dir@, doc.row()),
            Seq::empty(),
        ),
{
    let ghost start = report.tally();
    match find_vecmap(view, doc.vec_id) {
        None => {
            report.error(
                IssueKind::FtsLinkBroken,
                dir,
                unmapped_doc_detail(doc.agent.as_str(), doc.vec_id),
            );
        },
        Some(k) => {
            let owner: &str = view.vecmap[k].agent.as_str();
            if !text::same(owner, doc.agent.as_str()) {
                let shown = text::quoted(doc.agent.as_str());
                let shown_owner = text::quoted(owner);
                report.error(
                    IssueKind::AgentIsolationBreach,
                    dir,
                    foreign_detail(doc.agent.as_str(), doc.vec_id, shown.as_str(), shown_owner.as_str()),
                );
            }
        },
    }
    proof {
        let more = owner_errors(view.says(), dir@, doc.row());
        assert(report.tally().errors =~= start.errors + more);
        assert(report.tally().warnings =~= start.warnings + Seq::<Finding>::empty());
    }
}

fn check_doc(view: &LogicalView, i: usize, populated: bool, dir: &str, report: &mut VerifyReport)
    requires
        view.wf(),
        i < view.docterms@.len(),
    ensures
        final(report).tally() == old(report).tally().with(
            doc_errors(view.says(), populated, dir@)(i as int),
            Seq::empty(),
        ),
{
    let ghost start = report.tally();
    let ghost v = view.says();
    let doc = &view.docterms[i];
    let ghost d = doc.row();
    let ghost f = doc_term_errors(v, dir@, d);
    assert(v.docterms[i as int] == d);
    let mut k: usize = 0;
    proof {
        assert(start.errors + Seq::<Finding>::empty() =~= start.errors);
        assert(start.warnings + Seq::<Finding>::empty() =~= start.warnings);
    }
    while k < doc.terms.len()
        invariant
            view.wf(),
            v == view.says(),
            d == doc.row(),
            f == doc_term_errors(v, dir@, d),
            k <= doc.terms@.len(),
            report.tally() == start.with(flat(k as nat, f), Seq::empty()),
        decreases doc.terms@.len() - k,
    {
        assert(d.terms[k as int] == doc.terms@[k as int].says());
        check_term(view, doc, &doc.terms[k], dir, report);
        proof {
            assert(flat((k + 1) as nat, f) == flat(k as nat, f) + f(k as int));
            assert(report.tally().errors =~= start.errors + flat((k + 1) as nat, f));
            assert(report.tally().warnings =~= start.warnings + Seq::<Finding>::empty());
        }
        k = k + 1;
    }
    if populated {
        check_owner(view, doc, dir, report);
    }
    proof {
        let more = doc_errors(v, populated, dir@)(i as int);
        assert(report.tally().errors =~= start.errors + more);
        assert(report.tally().warnings =~= start.warnings + Seq::<Finding>::empty());
    }
}

fn term_is_listed(terms: &Vec<TermCount>, term: &str) -> (r: bool)
    ensures
        r == lists_term(terms_of(terms@), term@),
{
    let ghost view = terms_of(terms@);
    let mut k: usize = 0;
    while k < terms.len()
        invariant
            view == terms_of(terms@),
            k <= terms@.len(),
            forall|j: int| 0 <= j < k ==> (#[trigger] view[j]).term != term@,
        decreases terms@.len() - k,
    {
        assert(view[k as int] == terms@[k as int].says());
        if text::same(terms[k].term.as_str(), term) {
            return true;
        }
        k = k + 1;
    }
    false
}

fn posting_is_listed(view: &LogicalView, p: &PostingRow) -> (r: bool)
    requires
        view.wf(),
    ensures
        r == is_listed(view.says(), p.row()),
{
    let probe = DocRow { agent: p.agent.clone(), vec_id: p.vec_id, terms: Vec::new() };
    match find_row(&view.docterms, &probe) {
        Some(k) => term_is_listed(&view.docterms[k].terms, p.term.as_str()),
        None => false,
    }
}

fn sum_terms(terms: &Vec<TermCount>) -> (n: u64)
    ensures
        n == capped64(term_total(terms_of(terms@))),
{
    let ghost view = terms_of(terms@);
    let mut n: u64 = 0;
    let mut k: usize = 0;
    assert(view.subrange(0, 0) =~= Seq::<TermV>::empty());
    while k < terms.len()
        invariant
            view == terms_of(terms@),
            k <= terms@.len(),
            n == capped64(term_total(view.subrange(0, k as int))),
        decreases terms@.len() - k,
    {
        proof {
            let more = view.subrange(0, k + 1);
            assert(more.drop_last() =~= view.subrange(0, k as int));
            assert(more.last() == terms@[k as int].says());
        }
        n = n.saturating_add(terms[k].tf as u64);
        k = k + 1;
    }
    assert(view.subrange(0, k as int) =~= view);
    n
}

/// Recomputes the statistics of every agent with documents.
pub fn recompute(docs: &Vec<DocRow>) -> (rows: Vec<StatsRow>)
    ensures
        rows_of(rows@) == recomputed(rows_of(docs@)),
{
    let ghost view = rows_of(docs@);
    let mut out: Vec<StatsRow> = Vec::new();
    let mut i: usize = 0;
    proof {
        assert(view.subrange(0, 0) =~= Seq::<DocV>::empty());
        assert(rows_of(out@) =~= Seq::<StatsV>::empty());
    }
    while i < docs.len()
        invariant
            view == rows_of(docs@),
            i <= docs@.len(),
            rows_of(out@) == recomputed(view.subrange(0, i as int)),
        decreases docs@.len() - i,
    {
        let doc = &docs[i];
        let ghost d = doc.row();
        let ghost before = rows_of(out@);
        proof {
            let more = view.subrange(0, i + 1);
            assert(more.drop_last() =~= view.subrange(0, i as int));
            assert(more.last() == d);
        }
        let total: u64 = sum_terms(&doc.terms);
        let n: usize = out.len();
        if n > 0 && text::same(out[n - 1].agent.as_str(), doc.agent.as_str()) {
            let last = out[n - 1].stats;
            assert(before.last() == out@[n - 1].row());
            let stats = FtsStats {
                doc_count: last.doc_count.saturating_add(1),
                total_terms: last.total_terms.saturating_add(total),
            };
            out.set(n - 1, StatsRow { agent: doc.agent.clone(), stats });
            assert(rows_of(out@) =~= before.drop_last().push(StatsV { agent: d.agent, stats }));
        } else {
            proof {
                if n > 0 {
                    assert(before.last() == out@[n - 1].row());
                }
            }
            let stats = FtsStats { doc_count: 1, total_terms: total };
            out.push(StatsRow { agent: doc.agent.clone(), stats });
            assert(rows_of(out@) =~= before.push(StatsV { agent: d.agent, stats }));
        }
        i = i + 1;
    }
    assert(view.subrange(0, i as int) =~= view);
    out
}

fn agent_is_among(rows: &Vec<StatsRow>, agent: &str) -> (r: bool)
    ensures
        r == has_agent(rows_of(rows@), agent@),
{
    let ghost view = rows_of(rows@);
    let mut k: usize = 0;
    while k < rows.len()
        invariant
            view == rows_of(rows@),
            k <= rows@.len(),
            forall|j: int| 0 <= j < k ==> (#[trigger] view[j]).agent != agent@,
        decreases rows@.len() - k,
    {
        assert(view[k as int] == rows@[k as int].row());
        if text::same(rows[k].agent.as_str(), agent) {
            return true;
        }
        k = k + 1;
    }
    false
}

fn check_agent(view: &LogicalView, own: &Vec<StatsRow>, i: usize, dir: &str, report: &mut VerifyReport)
    requires
        view.wf(),
        rows_of(own@) == recomputed(view.says().docterms),
        i < own@.len(),
    ensures
        final(report).tally() == old(report).tally().with(
            stats_errors(view.says(), dir@)(i as int),
            stats_warnings(view.says(), dir@)(i as int),
        ),
{
    let ghost start = report.tally();
    let row = &own[i];
    assert(recomputed(view.says().docterms)[i as int] == row.row());
    let shown = text::quoted(row.agent.as_str());
    let probe = StatsRow { agent: row.agent.clone(), stats: row.stats };
    match find_row(&view.fts_stats, &probe) {
        None => {
            report.warning(
                IssueKind::FtsStatsInconsistent,
                dir,
                statless_detail(shown.as_str(), row.stats.doc_count),
            );
        },
        Some(k) => {
            let stored = view.fts_stats[k].stats;
            if stored != row.stats {
                report.error(
                    IssueKind::FtsStatsInconsistent,
                    dir,
                    lying_detail(
                        shown.as_str(),
                        stored.doc_count,
                        stored.total_terms,
                        row.stats.doc_count,
                        row.stats.total_terms,
                    ),
                );
            }
        },
    }
    proof {
        assert(report.tally().errors =~= start.errors + stats_errors(view.says(), dir@)(i as int));
        assert(report.tally().warnings =~= start.warnings + stats_warnings(view.says(), dir@)(i as int));
    }
}

fn check_docs(view: &LogicalView, populated: bool, dir: &str, report: &mut VerifyReport)
    requires
        view.wf(),
    ensures
        final(report).tally() == old(report).tally().with(
            flat(view.says().docterms.len(), doc_errors(view.says(), populated, dir@)),
            Seq::empty(),
        ),
{
    let ghost start = report.tally();
    let ghost v = view.says();
    let ghost f = doc_errors(v, populated, dir@);
    let mut i: usize = 0;
    proof {
        assert(start.errors + Seq::<Finding>::empty() =~= start.errors);
        assert(start.warnings + Seq::<Finding>::empty() =~= start.warnings);
    }
    while i < view.docterms.len()
        invariant
            view.wf(),
            v == view.says(),
            f == doc_errors(v, populated, dir@),
            i <= view.docterms@.len(),
            report.tally() == start.with(flat(i as nat, f), Seq::empty()),
        decreases view.docterms@.len() - i,
    {
        check_doc(view, i, populated, dir, report);
        proof {
            assert(flat((i + 1) as nat, f) == flat(i as nat, f) + f(i as int));
            assert(report.tally().errors =~= start.errors + flat((i + 1) as nat, f));
            assert(report.tally().warnings =~= start.warnings + Seq::<Finding>::empty());
        }
        i = i + 1;
    }
}

fn check_postings(view: &LogicalView, dir: &str, report: &mut VerifyReport)
    requires
        view.wf(),
    ensures
        final(report).tally() == old(report).tally().with(
            flat(view.says().postings.len(), posting_errors(view.says(), dir@)),
            Seq::empty(),
        ),
{
    let ghost start = report.tally();
    let ghost v = view.says();
    let ghost f = posting_errors(v, dir@);
    let mut i: usize = 0;
    proof {
        assert(start.errors + Seq::<Finding>::empty() =~= start.errors);
        assert(start.warnings + Seq::<Finding>::empty() =~= start.warnings);
    }
    while i < view.postings.len()
        invariant
            view.wf(),
            v == view.says(),
            f == posting_errors(v, dir@),
            i <= view.postings@.len(),
            report.tally() == start.with(flat(i as nat, f), Seq::empty()),
        decreases view.postings@.len() - i,
    {
        let p = &view.postings[i];
        assert(v.postings[i as int] == p.row());
        if !posting_is_listed(view, p) {
            let shown = text::quoted(p.term.as_str());
            report.error(
                IssueKind::FtsLinkBroken,
                dir,
                orphan_posting_detail(p.agent.as_str(), shown.as_str(), p.vec_id),
            );
        }
        proof {
            assert(flat((i + 1) as nat, f) == flat(i as nat, f) + f(i as int));
            assert(report.tally().errors =~= start.errors + flat((i + 1) as nat, f));
            assert(report.tally().warnings =~= start.warnings + Seq::<Finding>::empty());
        }
        i = i + 1;
    }
}

fn check_stats(view: &LogicalView, dir: &str, report: &mut VerifyReport)
    requires
        view.wf(),
    ensures
        final(report).tally() == old(report).tally().with(
            flat(recomputed(view.says().docterms).len(), stats_errors(view.says(), dir@)) + flat(
                view.says().fts_stats.len(),
                empty_stats_errors(view.says(), dir@),
            ),
            flat(recomputed(view.says().docterms).len(), stats_warnings(view.says(), dir@)),
        ),
{
    let ghost start = report.tally();
    let ghost v = view.says();
    let ghost fe = stats_errors(v, dir@);
    let ghost fw = stats_warnings(v, dir@);
    let ghost fs = empty_stats_errors(v, dir@);
    let own = recompute(&view.docterms);
    let mut i: usize = 0;
    proof {
        assert(start.errors + Seq::<Finding>::empty() =~= start.errors);
        assert(start.warnings + Seq::<Finding>::empty() =~= start.warnings);
    }
    while i < own.len()
        invariant
            view.wf(),
            v == view.says(),
            rows_of(own@) == recomputed(v.docterms),
            fe == stats_errors(v, dir@),
            fw == stats_warnings(v, dir@),
            i <= own@.len(),
            report.tally() == start.with(flat(i as nat, fe), flat(i as nat, fw)),
        decreases own@.len() - i,
    {
        check_agent(view, &own, i, dir, report);
        proof {
            assert(flat((i + 1) as nat, fe) == flat(i as nat, fe) + fe(i as int));
            assert(flat((i + 1) as nat, fw) == flat(i as nat, fw) + fw(i as int));
            assert(report.tally().errors =~= start.errors + flat((i + 1) as nat, fe));
            assert(report.tally().warnings =~= start.warnings + flat((i + 1) as nat, fw));
        }
        i = i + 1;
    }
    assert(own@.len() == recomputed(v.docterms).len());
    let ghost mid = report.tally();
    let mut k: usize = 0;
    assert(mid.errors + flat(0, fs) =~= mid.errors);
    while k < view.fts_stats.len()
        invariant
            view.wf(),
            v == view.says(),
            rows_of(own@) == recomputed(v.docterms),
            fs == empty_stats_errors(v, dir@),
            k <= view.fts_stats@.len(),
            report.tally() == (Tally { errors: mid.errors + flat(k as nat, fs), ..mid }),
        decreases view.fts_stats@.len() - k,
    {
        let row = &view.fts_stats[k];
        assert(v.fts_stats[k as int] == row.row());
        let empty = FtsStats { doc_count: 0, total_terms: 0 };
        if !agent_is_among(&own, row.agent.as_str()) && row.stats != empty {
            let shown = text::quoted(row.agent.as_str());
            report.error(
                IssueKind::FtsStatsInconsistent,
                dir,
                ghostly_detail(shown.as_str(), row.stats.doc_count),
            );
        }
        proof {
            assert(flat((k + 1) as nat, fs) == flat(k as nat, fs) + fs(k as int));
            assert(report.tally().errors =~= mid.errors + flat((k + 1) as nat, fs));
        }
        k = k + 1;
    }
    proof {
        let n = recomputed(v.docterms).len();
        assert(report.tally().errors =~= start.errors + (flat(n, fe) + flat(v.fts_stats.len(), fs)));
    }
}

/// Holds document terms and postings against one another, recomputes the
/// statistics, and, where the memory keyspace is in use, holds documents
/// against the agents that own their vectors.
pub fn check_fts(view: &LogicalView, memory_populated: bool, dir: &str, report: &mut VerifyReport)
    requires
        view.wf(),
    ensures
        final(report).tally() == old(report).tally().with(
            fts_errors(view.says(), memory_populated, dir@),
            fts_warnings(view.says(), dir@),
        ),
{
    let ghost start = report.tally();
    check_docs(view, memory_populated, dir, report);
    check_postings(view, dir, report);
    check_stats(view, dir, report);
    proof {
        let v = view.says();
        assert(report.tally().errors =~= start.errors + fts_errors(v, memory_populated, dir@));
        assert(report.tally().warnings =~= start.warnings + fts_warnings(v, dir@));
    }
}

} // verus!
