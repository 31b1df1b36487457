//! What the statistics of an agent are: the number of its documents, and of
//! their terms.
use super::fts::{has_agent, recompute, recomputed, term_total, with_document};
use super::table::{in_order, key_lt, lemma_key2, lemma_part_order, part_lt, rows_of, Keyed, Part};
use super::{terms_of, DocRow, DocV, FtsStats, StatsRow, StatsV, TermCount, TermV};
use vstd::prelude::*;

verus! {

/// How many of the first `n` documents are of an agent.
pub open spec fn docs_counted(docs: Seq<DocV>, agent: Seq<char>, n: int) -> int
    decreases n,
{
    if n <= 0 {
        0
    } else {
        docs_counted(docs, agent, n - 1) + if docs[n - 1].agent == agent {
            1int
        } else {
            0int
        }
    }
}

/// The sum of the first `n` term frequencies.
pub open spec fn tf_counted(terms: Seq<TermV>, n: int) -> int
    decreases n,
{
    if n <= 0 {
        0
    } else {
        tf_counted(terms, n - 1) + terms[n - 1].tf
    }
}

/// The sum of all term frequencies of those of the first `n` documents that
/// are of an agent.
pub open spec fn terms_counted(docs: Seq<DocV>, agent: Seq<char>, n: int) -> int
    decreases n,
{
    if n <= 0 {
        0
    } else {
        terms_counted(docs, agent, n - 1) + if docs[n - 1].agent == agent {
            tf_counted(docs[n - 1].terms, docs[n - 1].terms.len() as int)
        } else {
            0
        }
    }
}

/// A count, or the highest that a counter holds.
pub open spec fn counts_to(counter: u64, n: int) -> bool {
    if n <= u64::MAX {
        counter == n
    } else {
        counter == u64::MAX
    }
}

/// The statistics of an agent are those of its documents.
pub open spec fn are_stats_of(stats: FtsStats, docs: Seq<DocV>, agent: Seq<char>) -> bool {
    &&& counts_to(stats.doc_count, docs_counted(docs, agent, docs.len() as int))
    &&& counts_to(stats.total_terms, terms_counted(docs, agent, docs.len() as int))
}

/// Some document is of an agent.
pub open spec fn has_document(docs: Seq<DocV>, agent: Seq<char>) -> bool {
    exists|i: int| 0 <= i < docs.len() && (#[trigger] docs[i]).agent == agent
}

proof fn lemma_tf_counted(terms: Seq<TermV>, n: int)
    requires
        0 <= n <= terms.len(),
    ensures
        tf_counted(terms, n) == term_total(terms.take(n)),
    decreases n,
{
    if n > 0 {
        lemma_tf_counted(terms, n - 1);
        assert(terms.take(n).drop_last() =~= terms.take(n - 1));
        assert(terms.take(n).last() == terms[n - 1]);
    }
}

proof fn lemma_counted_push(docs: Seq<DocV>, doc: DocV, agent: Seq<char>, n: int)
    requires
        0 <= n <= docs.len(),
    ensures
        docs_counted(docs.push(doc), agent, n) == docs_counted(docs, agent, n),
        terms_counted(docs.push(doc), agent, n) == terms_counted(docs, agent, n),
        docs_counted(docs, agent, n) >= 0,
        terms_counted(docs, agent, n) >= 0,
    decreases n,
{
    if n > 0 {
        lemma_counted_push(docs, doc, agent, n - 1);
        assert(docs.push(doc)[n - 1] == docs[n - 1]);
        let terms = docs[n - 1].terms;
        lemma_tf_counted(terms, terms.len() as int);
    }
}

/// Nothing is counted of an agent without documents.
pub proof fn lemma_none_counted(docs: Seq<DocV>, agent: Seq<char>, n: int)
    requires
        0 <= n <= docs.len(),
        !has_document(docs, agent),
    ensures
        docs_counted(docs, agent, n) == 0,
        terms_counted(docs, agent, n) == 0,
    decreases n,
{
    if n > 0 {
        lemma_none_counted(docs, agent, n - 1);
        assert(docs[n - 1].agent != agent);
    }
}

/// The documents are in the order of their agents.
spec fn agents_ascend(docs: Seq<DocV>) -> bool {
    forall|i: int, j: int|
        0 <= i < j < docs.len() ==> (#[trigger] docs[i]).agent == (#[trigger] docs[j]).agent || part_lt(
            Part::Text(docs[i].agent),
            Part::Text(docs[j].agent),
        )
}

proof fn lemma_agents_ascend(docs: Seq<DocV>)
    requires
        in_order::<DocRow>(docs),
    ensures
        agents_ascend(docs),
{
    assert forall|i: int, j: int| 0 <= i < j < docs.len() implies (#[trigger] docs[i]).agent == (
    #[trigger] docs[j]).agent || part_lt(Part::Text(docs[i].agent), Part::Text(docs[j].agent)) by {
        assert(key_lt(DocRow::key(docs[i]), DocRow::key(docs[j])));
        lemma_key2(
            Part::Text(docs[i].agent),
            Part::Number(docs[i].vec_id),
            Part::Text(docs[j].agent),
            Part::Number(docs[j].vec_id),
        );
    }
}

/// Each row is of an agent with documents, and says what they say; agents
/// ascend.
spec fn rows_tell(rows: Seq<StatsV>, docs: Seq<DocV>) -> bool {
    &&& forall|i: int|
        0 <= i < rows.len() ==> has_document(docs, (#[trigger] rows[i]).agent) && are_stats_of(
            rows[i].stats,
            docs,
            rows[i].agent,
        )
    &&& forall|i: int, j: int|
        0 <= i < j < rows.len() ==> part_lt(
            Part::Text((#[trigger] rows[i]).agent),
            Part::Text((#[trigger] rows[j]).agent),
        )
    &&& forall|agent: Seq<char>| #[trigger] has_document(docs, agent) ==> has_agent(rows, agent)
    &&& docs.len() > 0 ==> rows.len() > 0 && rows.last().agent == docs.last().agent
}

proof fn lemma_with_document(stats: FtsStats, docs: Seq<DocV>, doc: DocV)
    requires
        are_stats_of(stats, docs, doc.agent),
    ensures
        are_stats_of(with_document(stats, doc.terms), docs.push(doc), doc.agent),
{
    let n = docs.len() as int;
    let more = docs.push(doc);
    lemma_counted_push(docs, doc, doc.agent, n);
    lemma_tf_counted(doc.terms, doc.terms.len() as int);
    assert(doc.terms.take(doc.terms.len() as int) =~= doc.terms);
    assert(more[n] == doc);
}

proof fn lemma_other_document(stats: FtsStats, docs: Seq<DocV>, doc: DocV, agent: Seq<char>)
    requires
        are_stats_of(stats, docs, agent),
        agent != doc.agent,
    ensures
        are_stats_of(stats, docs.push(doc), agent),
{
    let n = docs.len() as int;
    lemma_counted_push(docs, doc, agent, n);
    assert(docs.push(doc)[n] == doc);
}

proof fn lemma_rows_tell(docs: Seq<DocV>)
    requires
        agents_ascend(docs),
    ensures
        rows_tell(recomputed(docs), docs),
    decreases docs.len(),
{
    let rows = recomputed(docs);
    if docs.len() > 0 {
        let head = docs.drop_last();
        let doc = docs.last();
        let n = head.len() as int;
        assert(docs =~= head.push(doc));
        assert forall|i: int, j: int| 0 <= i < j < head.len() implies (#[trigger] head[i]).agent == (
        #[trigger] head[j]).agent || part_lt(Part::Text(head[i].agent), Part::Text(head[j].agent)) by {
            assert(docs[i].agent == docs[j].agent || part_lt(Part::Text(docs[i].agent), Part::Text(docs[j].agent)));
        }
        lemma_rows_tell(head);
        let before = recomputed(head);
        let k = before.len() - 1;
        let joins = before.len() > 0 && before.last().agent == doc.agent;
        if !joins {
            assert(!has_document(head, doc.agent)) by {
                if has_document(head, doc.agent) {
                    assert(has_agent(before, doc.agent));
                    let i = choose|i: int| 0 <= i < before.len() && (#[trigger] before[i]).agent == doc.agent;
                    assert(i < k);
                    let a = Part::Text(before[i].agent);
                    let b = Part::Text(before[k].agent);
                    assert(part_lt(a, b));
                    assert(head[n - 1] == docs[n - 1] && docs[n] == doc);
                    assert(docs[n - 1].agent == docs[n].agent || part_lt(
                        Part::Text(docs[n - 1].agent),
                        Part::Text(docs[n].agent),
                    ));
                    lemma_part_order(a, b, a);
                }
            }
            lemma_none_counted(head, doc.agent, n);
        }
        assert forall|i: int| 0 <= i < rows.len() implies has_document(docs, (#[trigger] rows[i]).agent)
            && are_stats_of(rows[i].stats, docs, rows[i].agent) by {
            assert(docs[n].agent == doc.agent);
            if i < k || (i == k && !joins) {
                assert(rows[i] == before[i]);
                assert(has_document(head, before[i].agent));
                let d = choose|d: int| 0 <= d < head.len() && (#[trigger] head[d]).agent == before[i].agent;
                assert(docs[d].agent == before[i].agent);
                assert(before[i].agent != doc.agent) by {
                    if joins {
                        assert(part_lt(Part::Text(before[i].agent), Part::Text(before[k].agent)));
                        lemma_part_order(Part::Text(doc.agent), Part::Text(doc.agent), Part::Text(doc.agent));
                    } else if before[i].agent == doc.agent {
                        assert(has_document(head, doc.agent));
                    }
                }
                lemma_other_document(before[i].stats, head, doc, before[i].agent);
            } else if joins {
                lemma_with_document(before[k].stats, head, doc);
            } else {
                let none = FtsStats { doc_count: 0, total_terms: 0 };
                assert(are_stats_of(none, head, doc.agent));
                lemma_with_document(none, head, doc);
            }
        }
        assert forall|i: int, j: int| 0 <= i < j < rows.len() implies part_lt(
            Part::Text((#[trigger] rows[i]).agent),
            Part::Text((#[trigger] rows[j]).agent),
        ) by {
            assert(rows[i].agent == before[i].agent);
            if j < before.len() {
                assert(rows[j].agent == before[j].agent);
                assert(part_lt(Part::Text(before[i].agent), Part::Text(before[j].agent)));
            } else {
                assert(has_document(head, before[i].agent));
                let d = choose|d: int| 0 <= d < head.len() && (#[trigger] head[d]).agent == before[i].agent;
                assert(docs[d].agent == docs[n].agent || part_lt(
                    Part::Text(docs[d].agent),
                    Part::Text(docs[n].agent),
                ));
                if before[i].agent == doc.agent {
                    assert(has_document(head, doc.agent));
                }
            }
        }
        assert forall|agent: Seq<char>| #[trigger] has_document(docs, agent) implies has_agent(rows, agent) by {
            let d = choose|d: int| 0 <= d < docs.len() && (#[trigger] docs[d]).agent == agent;
            if agent == doc.agent {
                assert(rows[rows.len() - 1].agent == agent);
            } else {
                assert(head[d].agent == agent);
                assert(has_document(head, agent));
                let i = choose|i: int| 0 <= i < before.len() && (#[trigger] before[i]).agent == agent;
                assert(rows[i].agent == agent);
            }
        }
    }
}

/// What is recomputed of documents in their order: one row for each agent with
/// a document, with the number of its documents and the sum of the frequencies
/// of all their terms.
pub proof fn recomputed_statistics_are_sums(docs: Seq<DocV>)
    requires
        in_order::<DocRow>(docs),
    ensures
        forall|i: int|
            0 <= i < recomputed(docs).len() ==> has_document(docs, (#[trigger] recomputed(docs)[i]).agent)
                && are_stats_of(recomputed(docs)[i].stats, docs, recomputed(docs)[i].agent),
        forall|agent: Seq<char>| #[trigger] has_document(docs, agent) ==> has_agent(recomputed(docs), agent),
        forall|i: int, j: int|
            0 <= i < j < recomputed(docs).len() ==> (#[trigger] recomputed(docs)[i]).agent != (
            #[trigger] recomputed(docs)[j]).agent,
{
    lemma_agents_ascend(docs);
    lemma_rows_tell(docs);
    let rows = recomputed(docs);
    assert forall|i: int, j: int| 0 <= i < j < rows.len() implies (#[trigger] rows[i]).agent != (
    #[trigger] rows[j]).agent by {
        assert(part_lt(Part::Text(rows[i].agent), Part::Text(rows[j].agent)));
        let a = Part::Text(rows[i].agent);
        lemma_part_order(a, a, a);
    }
}

/// What recomputing gives: for each agent with documents, once, how many it has
/// and how many terms they have, each counted as often as it occurs.
pub proof fn recomputing_counts_documents_and_terms(docs: &Vec<DocRow>, rows: Vec<StatsRow>)
    requires
        in_order::<DocRow>(rows_of(docs@)),
        call_ensures(recompute, (docs,), rows),
    ensures
        forall|i: int|
            0 <= i < rows@.len() ==> counts_to(
                (#[trigger] rows@[i]).stats.doc_count,
                own_docs(docs@, rows@[i].agent@, docs@.len() as int),
            ) && counts_to(rows@[i].stats.total_terms, own_terms(docs@, rows@[i].agent@, docs@.len() as int)),
        forall|k: int|
            0 <= k < docs@.len() ==> exists|i: int|
                0 <= i < rows@.len() && (#[trigger] rows@[i]).agent@ == (#[trigger] docs@[k]).agent@,
{
    let view = rows_of(docs@);
    let made = rows_of(rows@);
    recomputed_statistics_are_sums(view);
    assert forall|i: int| 0 <= i < rows@.len() implies counts_to(
        (#[trigger] rows@[i]).stats.doc_count,
        own_docs(docs@, rows@[i].agent@, docs@.len() as int),
    ) && counts_to(rows@[i].stats.total_terms, own_terms(docs@, rows@[i].agent@, docs@.len() as int)) by {
        assert(made[i] == rows@[i].row());
        lemma_own(docs@, rows@[i].agent@, docs@.len() as int);
    }
    assert forall|k: int| 0 <= k < docs@.len() implies exists|i: int|
        0 <= i < rows@.len() && (#[trigger] rows@[i]).agent@ == (#[trigger] docs@[k]).agent@ by {
        assert(view[k].agent == docs@[k].agent@);
        assert(has_document(view, docs@[k].agent@));
        let i = choose|i: int| 0 <= i < made.len() && (#[trigger] made[i]).agent == docs@[k].agent@;
        assert(made[i] == rows@[i].row());
        assert(rows@[i].agent@ == docs@[k].agent@);
    }
}

/// How many of the first `n` documents are of an agent.
pub open spec fn own_docs(docs: Seq<DocRow>, agent: Seq<char>, n: int) -> int
    decreases n,
{
    if n <= 0 {
        0
    } else {
        own_docs(docs, agent, n - 1) + if docs[n - 1].agent@ == agent {
            1int
        } else {
            0int
        }
    }
}

/// The sum of the first `n` term frequencies.
pub open spec fn own_tf(terms: Seq<TermCount>, n: int) -> int
    decreases n,
{
    if n <= 0 {
        0
    } else {
        own_tf(terms, n - 1) + terms[n - 1].tf
    }
}

/// The sum of all term frequencies of those of the first `n` documents that
/// are of an agent.
pub open spec fn own_terms(docs: Seq<DocRow>, agent: Seq<char>, n: int) -> int
    decreases n,
{
    if n <= 0 {
        0
    } else {
        own_terms(docs, agent, n - 1) + if docs[n - 1].agent@ == agent {
            own_tf(docs[n - 1].terms@, docs[n - 1].terms@.len() as int)
        } else {
            0
        }
    }
}

proof fn lemma_own_tf(terms: Seq<TermCount>, n: int)
    requires
        0 <= n <= terms.len(),
    ensures
        own_tf(terms, n) == tf_counted(terms_of(terms), n),
    decreases n,
{
    if n > 0 {
        lemma_own_tf(terms, n - 1);
        assert(terms_of(terms)[n - 1] == terms[n - 1].says());
    }
}

proof fn lemma_own(docs: Seq<DocRow>, agent: Seq<char>, n: int)
    requires
        0 <= n <= docs.len(),
    ensures
        own_docs(docs, agent, n) == docs_counted(rows_of(docs), agent, n),
        own_terms(docs, agent, n) == terms_counted(rows_of(docs), agent, n),
    decreases n,
{
    if n > 0 {
        lemma_own(docs, agent, n - 1);
        assert(rows_of(docs)[n - 1] == docs[n - 1].row());
        lemma_own_tf(docs[n - 1].terms@, docs[n - 1].terms@.len() as int);
    }
}

proof fn lemma_raised_terms(terms: Seq<TermV>, raised: Seq<TermV>, k: int, n: int)
    requires
        0 <= n <= terms.len(),
        0 <= k < terms.len(),
        raised.len() == terms.len(),
        raised[k].tf == terms[k].tf + 1,
        forall|j: int| 0 <= j < terms.len() && j != k ==> (#[trigger] raised[j]).tf == terms[j].tf,
    ensures
        tf_counted(raised, n) == tf_counted(terms, n) + if k < n {
            1int
        } else {
            0int
        },
    decreases n,
{
    if n > 0 {
        lemma_raised_terms(terms, raised, k, n - 1);
        if n - 1 != k {
            assert(raised[n - 1].tf == terms[n - 1].tf);
        }
    }
}

proof fn lemma_raised_docs(docs: Seq<DocV>, raised: Seq<DocV>, at: int, k: int, agent: Seq<char>, n: int)
    requires
        0 <= n <= docs.len(),
        0 <= at < docs.len(),
        is_raised(docs, raised, at, k),
    ensures
        docs_counted(raised, agent, n) == docs_counted(docs, agent, n),
        terms_counted(raised, agent, n) == terms_counted(docs, agent, n) + if at < n && docs[at].agent == agent {
            1int
        } else {
            0int
        },
    decreases n,
{
    if n > 0 {
        lemma_raised_docs(docs, raised, at, k, agent, n - 1);
        if n - 1 == at {
            lemma_raised_terms(docs[at].terms, raised[at].terms, k, docs[at].terms.len() as int);
        } else {
            assert(raised[n - 1] == docs[n - 1]);
        }
    }
}

/// `raised` are the documents `docs`, but that term `k` of document `at` occurs
/// once more.
pub open spec fn is_raised(docs: Seq<DocV>, raised: Seq<DocV>, at: int, k: int) -> bool {
    &&& raised.len() == docs.len()
    &&& forall|i: int| 0 <= i < docs.len() && i != at ==> #[trigger] raised[i] == docs[i]
    &&& raised[at].agent == docs[at].agent
    &&& raised[at].vec_id == docs[at].vec_id
    &&& raised[at].terms.len() == docs[at].terms.len()
    &&& 0 <= k < docs[at].terms.len()
    &&& raised[at].terms[k].tf == docs[at].terms[k].tf + 1
    &&& forall|j: int|
        0 <= j < docs[at].terms.len() && j != k ==> (#[trigger] raised[at].terms[j]).tf == docs[at].terms[j].tf
}

/// One more occurrence of one term raises the total of that document's agent by
/// one, as long as a counter holds it, and changes no other total and no count.
pub proof fn one_more_occurrence_raises_the_total_by_one(
    docs: Seq<DocV>,
    raised: Seq<DocV>,
    at: int,
    k: int,
    i: int,
    j: int,
)
    requires
        in_order::<DocRow>(docs),
        in_order::<DocRow>(raised),
        0 <= at < docs.len(),
        is_raised(docs, raised, at, k),
        0 <= i < recomputed(docs).len(),
        0 <= j < recomputed(raised).len(),
        recomputed(docs)[i].agent == recomputed(raised)[j].agent,
        recomputed(docs)[i].stats.total_terms < u64::MAX,
    ensures
        recomputed(raised)[j].stats.doc_count == recomputed(docs)[i].stats.doc_count,
        recomputed(raised)[j].stats.total_terms == recomputed(docs)[i].stats.total_terms + if docs[at].agent
            == recomputed(docs)[i].agent {
            1int
        } else {
            0int
        },
{
    recomputed_statistics_are_sums(docs);
    recomputed_statistics_are_sums(raised);
    let agent = recomputed(docs)[i].agent;
    lemma_raised_docs(docs, raised, at, k, agent, docs.len() as int);
    assert(are_stats_of(recomputed(docs)[i].stats, docs, agent));
    assert(are_stats_of(recomputed(raised)[j].stats, raised, agent));
}

} // verus!
