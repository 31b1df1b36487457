//! What a parse makes of the entries: a row for each that decodes, an error for
//! each that does not, and nothing else.
use super::parse::{
    after, edge_place, parses, place_of, taken, taken_pair, taken_text, taken_u64, takes, PlaceV, IDX_PREFIX,
};
use super::cause_laws::is_in_order;
use super::table::{in_order, key_lt, lemma_key_order, placed, Keyed, Part};
use super::{
    checks_logic, logical_errors, logical_warnings, terms_of, DocRow, DocV, EdgeV, EntityRow, EntityV, FtsPrefixes,
    FtsStats, IndexCodec, MemoryRecord, NodeRow, NodeV, PostingRow, PostingV, RecordRow, RecordV, StatsRow, StatsV,
    TermCount, VecMapEntry, VecMapRow, VecMapV, VectorNode, ViewV,
};
use crate::bytes;
use crate::error::EngineError;
use crate::bytes::{be_bytes, be_value, has_prefix};
use crate::key::{field_fits, graph_index, len_prefixed, memory_index, vector_index, Key};
use crate::store::verify::complete_laws::tells_of;
use crate::store::verify::{Finding, IssueKind, Tally};
use crate::store::Value;
use crate::text;
use crate::text::utf8;
use vstd::prelude::*;

verus! {

/// What was told stays told, in its place.
pub open spec fn goes_on_telling(a: Seq<Finding>, b: Seq<Finding>) -> bool {
    a.len() <= b.len() && forall|k: int| 0 <= k < a.len() ==> #[trigger] b[k] == a[k]
}

proof fn lemma_takes_grow<C: IndexCodec>(
    codec: &C,
    prefixes: FtsPrefixes,
    key: &Key,
    value: &Value,
    dir: Seq<char>,
    before: ViewV,
    t: Tally,
    after: ViewV,
    u: Tally,
)
    requires
        takes(codec, prefixes, key, value, dir, before, t, after, u),
    ensures
        goes_on_telling(t.errors, u.errors),
        goes_on_telling(t.warnings, u.warnings),
{
}

/// A parse adds to what was told.
pub proof fn lemma_parses_grow<C: IndexCodec>(
    codec: &C,
    prefixes: FtsPrefixes,
    kv: Seq<(Key, Value)>,
    n: int,
    dir: Seq<char>,
    t: Tally,
    v: ViewV,
    u: Tally,
)
    requires
        parses(codec, prefixes, kv, n, dir, t, v, u),
    ensures
        goes_on_telling(t.errors, u.errors),
        goes_on_telling(t.warnings, u.warnings),
    decreases n,
{
    if n > 0 {
        let (mid, m) = choose|mid: ViewV, m: Tally|
            parses(codec, prefixes, kv, n - 1, dir, t, mid, m) && #[trigger] takes(
                codec,
                prefixes,
                &kv[n - 1].0,
                &kv[n - 1].1,
                dir,
                mid,
                m,
                v,
                u,
            );
        lemma_parses_grow(codec, prefixes, kv, n - 1, dir, t, mid, m);
        lemma_takes_grow(codec, prefixes, &kv[n - 1].0, &kv[n - 1].1, dir, mid, m, v, u);
        assert forall|k: int| 0 <= k < t.errors.len() implies #[trigger] u.errors[k] == t.errors[k] by {
            assert(m.errors[k] == t.errors[k]);
        }
        assert forall|k: int| 0 <= k < t.warnings.len() implies #[trigger] u.warnings[k] == t.warnings[k] by {
            assert(m.warnings[k] == t.warnings[k]);
        }
    }
}

/// The logical checks add to what was told.
pub proof fn lemma_checks_grow<C: IndexCodec>(
    codec: &C,
    prefixes: FtsPrefixes,
    kv: Seq<(Key, Value)>,
    dir: Seq<char>,
    t: Tally,
    u: Tally,
)
    requires
        checks_logic(codec, prefixes, kv, dir, t, u),
    ensures
        goes_on_telling(t.errors, u.errors),
        goes_on_telling(t.warnings, u.warnings),
{
    let (v, mid) = choose|v: ViewV, mid: Tally|
        #[trigger] parses(codec, prefixes, kv, kv.len() as int, dir, t, v, mid) && u == mid.with(
            logical_errors(v, dir),
            logical_warnings(v, dir),
        );
    lemma_parses_grow(codec, prefixes, kv, kv.len() as int, dir, t, v, mid);
    assert forall|k: int| 0 <= k < t.errors.len() implies #[trigger] u.errors[k] == t.errors[k] by {
        assert(mid.errors[k] == t.errors[k]);
    }
    assert forall|k: int| 0 <= k < t.warnings.len() implies #[trigger] u.warnings[k] == t.warnings[k] by {
        assert(mid.warnings[k] == t.warnings[k]);
    }
}

/// What is taken off the front of bytes is what stands there.
pub proof fn lemma_taken(buf: Seq<u8>, field: Seq<u8>, rest: Seq<u8>)
    requires
        taken(buf) == Some((field, rest)),
    ensures
        buf == len_prefixed(field) + rest,
        field_fits(field),
{
    let head = buf.subrange(0, 4);
    let len = be_value(head);
    bytes::lemma_be_value_roundtrip(head);
    bytes::lemma_be_fits_32(head);
    assert(field.len() == len);
    assert(buf =~= head + field + rest);
    assert(len_prefixed(field) + rest =~= buf);
}

/// A pair that was taken is what stands there.
pub proof fn lemma_pair_taken(buf: Seq<u8>, first: Seq<char>, second: Seq<char>)
    requires
        taken_pair(buf) == Some((first, second)),
    ensures
        buf == len_prefixed(utf8(first)) + utf8(second),
{
    let (field, rest) = taken(buf)->Some_0;
    lemma_taken(buf, field, rest);
    text::lemma_utf8_text_is_exact(field, first);
    text::lemma_utf8_text_is_exact(rest, second);
}

/// No two entries have one key.
pub open spec fn keys_differ(kv: Seq<(Key, Value)>) -> bool {
    forall|i: int, j: int| 0 <= i < j < kv.len() ==> (#[trigger] kv[i]).0@ != (#[trigger] kv[j]).0@
}

/// The one key of a place: its prefix, then its parts, texts behind their
/// lengths where something follows them, numbers in eight bytes.
pub open spec fn key_of(place: PlaceV, fts: FtsPrefixes) -> Seq<u8> {
    match place {
        PlaceV::Malformed => Seq::empty(),
        PlaceV::MemoryMeta => memory_index::META_KEY@,
        PlaceV::Record { agent, id } => memory_index::record_key_bytes(agent, id),
        PlaceV::VecMap { vec_id } => memory_index::vecmap_key_bytes(vec_id),
        PlaceV::VectorMeta => vector_index::META_KEY@,
        PlaceV::Node { node } => vector_index::node_key_bytes(node),
        PlaceV::Posting { agent, term, vec_id } => fts.postings@ + (len_prefixed(utf8(agent)) + (len_prefixed(
            utf8(term),
        ) + be_bytes(vec_id as nat, 8))),
        PlaceV::DocTerms { agent, vec_id } => fts.docterms@ + (len_prefixed(utf8(agent)) + be_bytes(
            vec_id as nat,
            8,
        )),
        PlaceV::Stats { agent } => fts.stats@ + len_prefixed(utf8(agent)),
        PlaceV::Entity { agent, id } => graph_index::entity_key_bytes(agent, id),
        PlaceV::Edge { agent, src, relation, dst } => graph_index::edge_key_bytes(agent, src, relation, dst),
    }
}

proof fn lemma_text_taken(buf: Seq<u8>, first: Seq<char>, rest: Seq<u8>)
    requires
        taken_text(buf) == Some((first, rest)),
    ensures
        buf == len_prefixed(utf8(first)) + rest,
        field_fits(utf8(first)),
{
    let (field, tail) = taken(buf)->Some_0;
    lemma_taken(buf, field, tail);
    text::lemma_utf8_text_is_exact(field, first);
}

proof fn lemma_number_taken(buf: Seq<u8>, n: u64)
    requires
        taken_u64(buf) == Some(n),
    ensures
        buf == be_bytes(n as nat, 8),
{
    bytes::lemma_be_value_roundtrip(buf);
    bytes::lemma_be_fits(buf);
}

proof fn lemma_behind(key: Seq<u8>, prefix: Seq<u8>)
    requires
        has_prefix(key, prefix),
    ensures
        key == prefix + after(key, prefix),
{
    assert(key.subrange(0, prefix.len() as int) =~= prefix);
    assert(key =~= prefix + after(key, prefix));
}

proof fn lemma_record_place(key: Seq<u8>, fts: FtsPrefixes, agent: Seq<char>, id: Seq<char>)
    requires
        place_of(key, fts) == (PlaceV::Record { agent, id }),
    ensures
        key == key_of(PlaceV::Record { agent, id }, fts),
{
    let prefix = memory_index::RECORD_PREFIX@;
    lemma_behind(key, prefix);
    lemma_pair_taken(after(key, prefix), agent, id);
    assert(key =~= key_of(PlaceV::Record { agent, id }, fts));
}

proof fn lemma_vec_map_place(key: Seq<u8>, fts: FtsPrefixes, vec_id: u64)
    requires
        place_of(key, fts) == (PlaceV::VecMap { vec_id }),
    ensures
        key == key_of(PlaceV::VecMap { vec_id }, fts),
{
    let prefix = memory_index::VECMAP_PREFIX@;
    lemma_behind(key, prefix);
    lemma_number_taken(after(key, prefix), vec_id);
}

proof fn lemma_node_place(key: Seq<u8>, fts: FtsPrefixes, node: u64)
    requires
        place_of(key, fts) == (PlaceV::Node { node }),
    ensures
        key == key_of(PlaceV::Node { node }, fts),
{
    let prefix = vector_index::NODE_PREFIX@;
    lemma_behind(key, prefix);
    lemma_number_taken(after(key, prefix), node);
}

proof fn lemma_posting_place(key: Seq<u8>, fts: FtsPrefixes, agent: Seq<char>, term: Seq<char>, vec_id: u64)
    requires
        place_of(key, fts) == (PlaceV::Posting { agent, term, vec_id }),
    ensures
        key == key_of(PlaceV::Posting { agent, term, vec_id }, fts),
{
    lemma_behind(key, fts.postings@);
    let buf = after(key, fts.postings@);
    let (a, rest) = taken_text(buf)->Some_0;
    lemma_text_taken(buf, a, rest);
    let (b, tail) = taken_text(rest)->Some_0;
    lemma_text_taken(rest, b, tail);
    lemma_number_taken(tail, vec_id);
}

proof fn lemma_doc_terms_place(key: Seq<u8>, fts: FtsPrefixes, agent: Seq<char>, vec_id: u64)
    requires
        place_of(key, fts) == (PlaceV::DocTerms { agent, vec_id }),
    ensures
        key == key_of(PlaceV::DocTerms { agent, vec_id }, fts),
{
    lemma_behind(key, fts.docterms@);
    let buf = after(key, fts.docterms@);
    let (a, rest) = taken_text(buf)->Some_0;
    lemma_text_taken(buf, a, rest);
    lemma_number_taken(rest, vec_id);
}

proof fn lemma_stats_place(key: Seq<u8>, fts: FtsPrefixes, agent: Seq<char>)
    requires
        place_of(key, fts) == (PlaceV::Stats { agent }),
    ensures
        key == key_of(PlaceV::Stats { agent }, fts),
{
    lemma_behind(key, fts.stats@);
    let buf = after(key, fts.stats@);
    let (a, rest) = taken_text(buf)->Some_0;
    lemma_text_taken(buf, a, rest);
    assert(len_prefixed(utf8(a)) + rest =~= len_prefixed(utf8(a)));
}

proof fn lemma_entity_place(key: Seq<u8>, fts: FtsPrefixes, agent: Seq<char>, id: Seq<char>)
    requires
        place_of(key, fts) == (PlaceV::Entity { agent, id }),
    ensures
        key == key_of(PlaceV::Entity { agent, id }, fts),
{
    let prefix = graph_index::ENTITY_PREFIX@;
    lemma_behind(key, prefix);
    lemma_pair_taken(after(key, prefix), agent, id);
    assert(key =~= key_of(PlaceV::Entity { agent, id }, fts));
}

proof fn lemma_edge_bytes(agent: Seq<char>, src: Seq<char>, relation: Seq<char>, dst: Seq<char>)
    ensures
        graph_index::edge_key_bytes(agent, src, relation, dst) == graph_index::EDGE_PREFIX@ + (len_prefixed(
            utf8(agent),
        ) + (len_prefixed(utf8(src)) + (len_prefixed(utf8(relation)) + utf8(dst)))),
{
    let tail = len_prefixed(utf8(agent)) + (len_prefixed(utf8(src)) + (len_prefixed(utf8(relation)) + utf8(dst)));
    assert(graph_index::edge_key_bytes(agent, src, relation, dst) =~= graph_index::EDGE_PREFIX@ + tail);
}

proof fn lemma_edge_parts(buf: Seq<u8>, agent: Seq<char>, src: Seq<char>, relation: Seq<char>, dst: Seq<char>)
    requires
        edge_place(buf) == (PlaceV::Edge { agent, src, relation, dst }),
    ensures
        buf == len_prefixed(utf8(agent)) + (len_prefixed(utf8(src)) + (len_prefixed(utf8(relation)) + utf8(dst))),
{
    let (a, rest) = taken_text(buf)->Some_0;
    lemma_text_taken(buf, a, rest);
    let (b, tail) = taken_text(rest)->Some_0;
    lemma_text_taken(rest, b, tail);
    lemma_pair_taken(tail, relation, dst);
}

proof fn lemma_edge_branch(key: Seq<u8>, fts: FtsPrefixes)
    requires
        place_of(key, fts) is Edge,
    ensures
        has_prefix(key, graph_index::EDGE_PREFIX@),
        place_of(key, fts) == edge_place(after(key, graph_index::EDGE_PREFIX@)),
{
}

proof fn lemma_edge_key(key: Seq<u8>, agent: Seq<char>, src: Seq<char>, relation: Seq<char>, dst: Seq<char>)
    requires
        has_prefix(key, graph_index::EDGE_PREFIX@),
        edge_place(after(key, graph_index::EDGE_PREFIX@)) == (PlaceV::Edge { agent, src, relation, dst }),
    ensures
        key == graph_index::edge_key_bytes(agent, src, relation, dst),
{
    let prefix = graph_index::EDGE_PREFIX@;
    lemma_behind(key, prefix);
    lemma_edge_parts(after(key, prefix), agent, src, relation, dst);
    lemma_edge_bytes(agent, src, relation, dst);
}

/// A key that names a place is the place's one key: what a parse reads out of
/// it is all that it holds.
pub proof fn a_place_has_one_key(key: Seq<u8>, fts: FtsPrefixes)
    ensures
        !(place_of(key, fts) is Malformed) ==> key == key_of(place_of(key, fts), fts),
{
    match place_of(key, fts) {
        PlaceV::Record { agent, id } => {
            lemma_record_place(key, fts, agent, id);
        },
        PlaceV::VecMap { vec_id } => {
            lemma_vec_map_place(key, fts, vec_id);
        },
        PlaceV::Node { node } => {
            lemma_node_place(key, fts, node);
        },
        PlaceV::Posting { agent, term, vec_id } => {
            lemma_posting_place(key, fts, agent, term, vec_id);
        },
        PlaceV::DocTerms { agent, vec_id } => {
            lemma_doc_terms_place(key, fts, agent, vec_id);
        },
        PlaceV::Stats { agent } => {
            lemma_stats_place(key, fts, agent);
        },
        PlaceV::Entity { agent, id } => {
            lemma_entity_place(key, fts, agent, id);
        },
        PlaceV::Edge { agent, src, relation, dst } => {
            lemma_edge_branch(key, fts);
            lemma_edge_key(key, agent, src, relation, dst);
        },
        _ => {},
    }
}

/// Rows with one more among them are in order, hold it, and hold the others but
/// the one with its key.
pub proof fn lemma_placed<T: Keyed>(rows: Seq<T::V>, row: T::V)
    requires
        in_order::<T>(rows),
    ensures
        in_order::<T>(placed::<T>(rows, row)),
        placed::<T>(rows, row).contains(row),
        forall|x: T::V| #[trigger] rows.contains(x) && T::key(x) != T::key(row) ==> placed::<T>(rows, row).contains(x),
        forall|x: T::V| #[trigger] placed::<T>(rows, row).contains(x) ==> x == row || rows.contains(x),
    decreases rows.len(),
{
    let out = placed::<T>(rows, row);
    let key = T::key(row);
    if rows.len() == 0 {
        assert(out[0] == row);
    } else {
        let head = rows.drop_last();
        let last = rows.last();
        let n = head.len() as int;
        assert(rows[n] == last);
        assert forall|i: int, j: int| 0 <= i < j < head.len() implies key_lt(
            #[trigger] T::key(head[i]),
            #[trigger] T::key(head[j]),
        ) by {
            assert(key_lt(T::key(rows[i]), T::key(rows[j])));
        }
        lemma_key_order(T::key(last), key, key);
        lemma_key_order(key, T::key(last), key);
        assert forall|i: int| 0 <= i < n implies key_lt(#[trigger] T::key(head[i]), T::key(last)) by {
            assert(key_lt(T::key(rows[i]), T::key(rows[n])));
        }
        if key_lt(T::key(last), key) {
            assert forall|i: int, j: int| 0 <= i < j < out.len() implies key_lt(
                #[trigger] T::key(out[i]),
                #[trigger] T::key(out[j]),
            ) by {
                if j == rows.len() {
                    if i < n {
                        assert(key_lt(T::key(rows[i]), T::key(rows[n])));
                        lemma_key_order(T::key(rows[i]), T::key(last), key);
                    }
                } else {
                    assert(key_lt(T::key(rows[i]), T::key(rows[j])));
                }
            }
            assert(out[rows.len() as int] == row);
            assert forall|x: T::V| #[trigger] rows.contains(x) && T::key(x) != key implies out.contains(x) by {
                let i = choose|i: int| 0 <= i < rows.len() && rows[i] == x;
                assert(out[i] == x);
            }
            assert forall|x: T::V| #[trigger] out.contains(x) implies x == row || rows.contains(x) by {
                let i = choose|i: int| 0 <= i < out.len() && out[i] == x;
                if i < rows.len() {
                    assert(rows[i] == x);
                }
            }
        } else if T::key(last) == key {
            assert forall|i: int, j: int| 0 <= i < j < out.len() implies key_lt(
                #[trigger] T::key(out[i]),
                #[trigger] T::key(out[j]),
            ) by {
                assert(key_lt(T::key(rows[i]), T::key(rows[j])));
            }
            assert(out[n] == row);
            assert forall|x: T::V| #[trigger] rows.contains(x) && T::key(x) != key implies out.contains(x) by {
                let i = choose|i: int| 0 <= i < rows.len() && rows[i] == x;
                assert(out[i] == x);
            }
            assert forall|x: T::V| #[trigger] out.contains(x) implies x == row || rows.contains(x) by {
                let i = choose|i: int| 0 <= i < out.len() && out[i] == x;
                if i < n {
                    assert(rows[i] == x);
                }
            }
        } else {
            lemma_placed::<T>(head, row);
            let low = placed::<T>(head, row);
            assert(out == low.push(last));
            assert forall|i: int, j: int| 0 <= i < j < out.len() implies key_lt(
                #[trigger] T::key(out[i]),
                #[trigger] T::key(out[j]),
            ) by {
                if j < low.len() {
                    assert(key_lt(T::key(low[i]), T::key(low[j])));
                } else {
                    assert(low.contains(low[i]));
                    if low[i] != row {
                        assert(head.contains(low[i]));
                        let k = choose|k: int| 0 <= k < head.len() && head[k] == low[i];
                        assert(key_lt(T::key(head[k]), T::key(last)));
                    }
                }
            }
            let at = choose|at: int| 0 <= at < low.len() && low[at] == row;
            assert(out[at] == row);
            assert forall|x: T::V| #[trigger] rows.contains(x) && T::key(x) != key implies out.contains(x) by {
                let i = choose|i: int| 0 <= i < rows.len() && rows[i] == x;
                if i < n {
                    assert(head[i] == x);
                    assert(head.contains(x));
                    let k = choose|k: int| 0 <= k < low.len() && low[k] == x;
                    assert(out[k] == x);
                } else {
                    assert(out[low.len() as int] == x);
                }
            }
            assert forall|x: T::V| #[trigger] out.contains(x) implies x == row || rows.contains(x) by {
                let i = choose|i: int| 0 <= i < out.len() && out[i] == x;
                if i < low.len() {
                    assert(low[i] == x);
                    assert(low.contains(x));
                    if x != row {
                        assert(head.contains(x));
                        let k = choose|k: int| 0 <= k < head.len() && head[k] == x;
                        assert(rows[k] == x);
                    }
                } else {
                    assert(rows[n] == x);
                }
            }
        }
    }
}

proof fn lemma_still_told(a: Seq<Finding>, b: Seq<Finding>, kind: IssueKind, dir: Seq<char>)
    requires
        goes_on_telling(a, b),
    ensures
        tells_of(a, kind, dir) ==> tells_of(b, kind, dir),
{
    if tells_of(a, kind, dir) {
        let k = choose|k: int| 0 <= k < a.len() && (#[trigger] a[k]).kind == kind && a[k].path == dir;
        assert(b[k] == a[k]);
    }
}

/// A memory record: the entry's value decodes, and the row is what its key and its
/// value say.
pub open spec fn is_record_row<C: IndexCodec>(codec: &C, fts: FtsPrefixes, entry: (Key, Value), row: RecordV) -> bool {
    match place_of(entry.0@, fts) {
        PlaceV::Record { agent, id } => exists|d: MemoryRecord|
            #[trigger] call_ensures(C::record, (codec, &entry.1), Ok(d))
                && row == (RecordV { agent, id, vec_id: d.vec_id }),
        _ => false,
    }
}

/// A memory record that is an entry's is among the rows, or is told not to decode.
pub open spec fn record_taken<C: IndexCodec>(
    codec: &C,
    fts: FtsPrefixes,
    entry: (Key, Value),
    rows: Seq<RecordV>,
    errors: Seq<Finding>,
    dir: Seq<char>,
) -> bool {
    has_prefix(entry.0@, IDX_PREFIX@) && place_of(entry.0@, fts) is Record ==> {
        ||| exists|i: int| 0 <= i < rows.len() && is_record_row(codec, fts, entry, #[trigger] rows[i])
        ||| tells_of(errors, IssueKind::IdxValueCorrupt, dir)
    }
}

proof fn lemma_record_key(a: RecordV, b: RecordV)
    ensures
        RecordRow::key(a) == RecordRow::key(b) ==> a.agent == b.agent && a.id == b.id,
{
    if RecordRow::key(a) == RecordRow::key(b) {
        assert(RecordRow::key(a)[0] == Part::Text(a.agent));
        assert(RecordRow::key(b)[0] == Part::Text(b.agent));
        assert(RecordRow::key(a)[1] == Part::Text(a.id));
        assert(RecordRow::key(b)[1] == Part::Text(b.id));
    }
}

/// The rows are those of the entries: each that decodes, and no other.
pub proof fn lemma_record_rows<C: IndexCodec>(
    codec: &C,
    fts: FtsPrefixes,
    kv: Seq<(Key, Value)>,
    n: int,
    dir: Seq<char>,
    t: Tally,
    v: ViewV,
    u: Tally,
)
    requires
        0 <= n <= kv.len(),
        keys_differ(kv),
        parses(codec, fts, kv, n, dir, t, v, u),
    ensures
        in_order::<RecordRow>(v.records),
        forall|e: int| 0 <= e < n ==> record_taken(codec, fts, #[trigger] kv[e], v.records, u.errors, dir),
        forall|i: int| 0 <= i < v.records.len() ==> has_record_entry(codec, fts, kv, n, #[trigger] v.records[i]),
    decreases n,
{
    if n > 0 {
        let (mid, m) = choose|mid: ViewV, m: Tally|
            parses(codec, fts, kv, n - 1, dir, t, mid, m) && #[trigger] takes(
                codec,
                fts,
                &kv[n - 1].0,
                &kv[n - 1].1,
                dir,
                mid,
                m,
                v,
                u,
            );
        lemma_record_rows(codec, fts, kv, n - 1, dir, t, mid, m);
        lemma_takes_grow(codec, fts, &kv[n - 1].0, &kv[n - 1].1, dir, mid, m, v, u);
        lemma_still_told(m.errors, u.errors, IssueKind::IdxValueCorrupt, dir);
        let step = lemma_record_step(codec, fts, kv[n - 1], dir, mid, m, v, u);
        lemma_record_one_more(codec, fts, kv, n, dir, mid.records, m.errors, v.records, u.errors, step);
    }
}

proof fn lemma_record_step<C: IndexCodec>(
    codec: &C,
    fts: FtsPrefixes,
    entry: (Key, Value),
    dir: Seq<char>,
    before: ViewV,
    t: Tally,
    after: ViewV,
    u: Tally,
) -> (row: Option<RecordV>)
    requires
        takes(codec, fts, &entry.0, &entry.1, dir, before, t, after, u),
    ensures
        match row {
            Some(x) => is_record_row(codec, fts, entry, x) && after.records == placed::<RecordRow>(before.records, x),
            None => after.records == before.records && (has_prefix(entry.0@, IDX_PREFIX@) && place_of(
                entry.0@,
                fts,
            ) is Record ==> tells_of(u.errors, IssueKind::IdxValueCorrupt, dir)),
        },
{
    if has_prefix(entry.0@, IDX_PREFIX@) && place_of(entry.0@, fts) is Record {
        if after.records == before.records && u.errors.len() > t.errors.len() {
            assert(u.errors[t.errors.len() as int].kind == IssueKind::IdxValueCorrupt);
            None
        } else {
            let x = choose|x: RecordV|
                #[trigger] placed::<RecordRow>(before.records, x) == after.records
                    && is_record_row(codec, fts, entry, x);
            Some(x)
        }
    } else {
        None
    }
}

proof fn lemma_record_one_more<C: IndexCodec>(
    codec: &C,
    fts: FtsPrefixes,
    kv: Seq<(Key, Value)>,
    n: int,
    dir: Seq<char>,
    before: Seq<RecordV>,
    told: Seq<Finding>,
    after: Seq<RecordV>,
    now: Seq<Finding>,
    step: Option<RecordV>,
)
    requires
        0 < n <= kv.len(),
        keys_differ(kv),
        in_order::<RecordRow>(before),
        forall|e: int| 0 <= e < n - 1 ==> record_taken(codec, fts, #[trigger] kv[e], before, told, dir),
        forall|i: int| 0 <= i < before.len() ==> has_record_entry(codec, fts, kv, n - 1, #[trigger] before[i]),
        tells_of(told, IssueKind::IdxValueCorrupt, dir) ==> tells_of(now, IssueKind::IdxValueCorrupt, dir),
        match step {
            Some(x) => is_record_row(codec, fts, kv[n - 1], x) && after == placed::<RecordRow>(before, x),
            None => after == before && (has_prefix(kv[n - 1].0@, IDX_PREFIX@) && place_of(
                kv[n - 1].0@,
                fts,
            ) is Record ==> tells_of(now, IssueKind::IdxValueCorrupt, dir)),
        },
    ensures
        in_order::<RecordRow>(after),
        forall|e: int| 0 <= e < n ==> record_taken(codec, fts, #[trigger] kv[e], after, now, dir),
        forall|i: int| 0 <= i < after.len() ==> has_record_entry(codec, fts, kv, n, #[trigger] after[i]),
{
    assert forall|x: RecordV| #[trigger] has_record_entry(codec, fts, kv, n - 1, x) implies has_record_entry(codec, fts, kv, n, x) by {
        let e = choose|e: int| 0 <= e < n - 1 && is_record_row(codec, fts, #[trigger] kv[e], x);
        assert(is_record_row(codec, fts, kv[e], x));
    }
    match step {
        None => {
            assert forall|e: int| 0 <= e < n implies record_taken(codec, fts, #[trigger] kv[e], after, now, dir) by {
                if e < n - 1 {
                    assert(record_taken(codec, fts, kv[e], before, told, dir));
                }
            }
        },
        Some(row) => {
            lemma_placed::<RecordRow>(before, row);
            assert forall|i: int| 0 <= i < after.len() implies has_record_entry(codec, fts, kv, n, #[trigger] after[i]) by {
                assert(after.contains(after[i]));
                if after[i] == row {
                    assert(is_record_row(codec, fts, kv[n - 1], after[i]));
                } else {
                    let k = choose|k: int| 0 <= k < before.len() && before[k] == after[i];
                    assert(has_record_entry(codec, fts, kv, n - 1, before[k]));
                }
            }
            assert forall|e: int| 0 <= e < n implies record_taken(codec, fts, #[trigger] kv[e], after, now, dir) by {
                if e == n - 1 {
                    let k = choose|k: int| 0 <= k < after.len() && after[k] == row;
                    assert(is_record_row(codec, fts, kv[e], after[k]));
                } else {
                    assert(record_taken(codec, fts, kv[e], before, told, dir));
                    if exists|i: int| 0 <= i < before.len() && is_record_row(codec, fts, kv[e], #[trigger] before[i]) {
                        let i = choose|i: int| 0 <= i < before.len()
                            && is_record_row(codec, fts, kv[e], #[trigger] before[i]);
                        let other = before[i];
                        lemma_record_key(other, row);
                        a_place_has_one_key(kv[e].0@, fts);
                        a_place_has_one_key(kv[n - 1].0@, fts);
                        assert(kv[e].0@ != kv[n - 1].0@);
                        assert(before.contains(other));
                        assert(after.contains(other));
                        let k = choose|k: int| 0 <= k < after.len() && after[k] == other;
                        assert(is_record_row(codec, fts, kv[e], after[k]));
                    }
                }
            }
        },
    }
}

/// Some entry is a row's.
pub open spec fn has_record_entry<C: IndexCodec>(
    codec: &C,
    fts: FtsPrefixes,
    kv: Seq<(Key, Value)>,
    n: int,
    row: RecordV,
) -> bool {
    exists|e: int| 0 <= e < n && is_record_row(codec, fts, #[trigger] kv[e], row)
}

/// A mapping: the entry's value decodes, and the row is what its key and its
/// value say.
pub open spec fn is_mapping_row<C: IndexCodec>(codec: &C, fts: FtsPrefixes, entry: (Key, Value), row: VecMapV) -> bool {
    match place_of(entry.0@, fts) {
        PlaceV::VecMap { vec_id } => exists|d: VecMapEntry|
            #[trigger] call_ensures(C::vecmap, (codec, &entry.1), Ok(d))
                && row == (VecMapV { vec_id, agent: d.agent@, id: d.id@ }),
        _ => false,
    }
}

/// A mapping that is an entry's is among the rows, or is told not to decode.
pub open spec fn mapping_taken<C: IndexCodec>(
    codec: &C,
    fts: FtsPrefixes,
    entry: (Key, Value),
    rows: Seq<VecMapV>,
    errors: Seq<Finding>,
    dir: Seq<char>,
) -> bool {
    has_prefix(entry.0@, IDX_PREFIX@) && place_of(entry.0@, fts) is VecMap ==> {
        ||| exists|i: int| 0 <= i < rows.len() && is_mapping_row(codec, fts, entry, #[trigger] rows[i])
        ||| tells_of(errors, IssueKind::IdxValueCorrupt, dir)
    }
}

proof fn lemma_mapping_key(a: VecMapV, b: VecMapV)
    ensures
        VecMapRow::key(a) == VecMapRow::key(b) ==> a.vec_id == b.vec_id,
{
    if VecMapRow::key(a) == VecMapRow::key(b) {
        assert(VecMapRow::key(a)[0] == Part::Number(a.vec_id));
        assert(VecMapRow::key(b)[0] == Part::Number(b.vec_id));
    }
}

/// The rows are those of the entries: each that decodes, and no other.
pub proof fn lemma_mapping_rows<C: IndexCodec>(
    codec: &C,
    fts: FtsPrefixes,
    kv: Seq<(Key, Value)>,
    n: int,
    dir: Seq<char>,
    t: Tally,
    v: ViewV,
    u: Tally,
)
    requires
        0 <= n <= kv.len(),
        keys_differ(kv),
        parses(codec, fts, kv, n, dir, t, v, u),
    ensures
        in_order::<VecMapRow>(v.vecmap),
        forall|e: int| 0 <= e < n ==> mapping_taken(codec, fts, #[trigger] kv[e], v.vecmap, u.errors, dir),
        forall|i: int| 0 <= i < v.vecmap.len() ==> has_mapping_entry(codec, fts, kv, n, #[trigger] v.vecmap[i]),
    decreases n,
{
    if n > 0 {
        let (mid, m) = choose|mid: ViewV, m: Tally|
            parses(codec, fts, kv, n - 1, dir, t, mid, m) && #[trigger] takes(
                codec,
                fts,
                &kv[n - 1].0,
                &kv[n - 1].1,
                dir,
                mid,
                m,
                v,
                u,
            );
        lemma_mapping_rows(codec, fts, kv, n - 1, dir, t, mid, m);
        lemma_takes_grow(codec, fts, &kv[n - 1].0, &kv[n - 1].1, dir, mid, m, v, u);
        lemma_still_told(m.errors, u.errors, IssueKind::IdxValueCorrupt, dir);
        let step = lemma_mapping_step(codec, fts, kv[n - 1], dir, mid, m, v, u);
        lemma_mapping_one_more(codec, fts, kv, n, dir, mid.vecmap, m.errors, v.vecmap, u.errors, step);
    }
}

proof fn lemma_mapping_step<C: IndexCodec>(
    codec: &C,
    fts: FtsPrefixes,
    entry: (Key, Value),
    dir: Seq<char>,
    before: ViewV,
    t: Tally,
    after: ViewV,
    u: Tally,
) -> (row: Option<VecMapV>)
    requires
        takes(codec, fts, &entry.0, &entry.1, dir, before, t, after, u),
    ensures
        match row {
            Some(x) => is_mapping_row(codec, fts, entry, x) && after.vecmap == placed::<VecMapRow>(before.vecmap, x),
            None => after.vecmap == before.vecmap && (has_prefix(entry.0@, IDX_PREFIX@) && place_of(
                entry.0@,
                fts,
            ) is VecMap ==> tells_of(u.errors, IssueKind::IdxValueCorrupt, dir)),
        },
{
    if has_prefix(entry.0@, IDX_PREFIX@) && place_of(entry.0@, fts) is VecMap {
        if after.vecmap == before.vecmap && u.errors.len() > t.errors.len() {
            assert(u.errors[t.errors.len() as int].kind == IssueKind::IdxValueCorrupt);
            None
        } else {
            let x = choose|x: VecMapV|
                #[trigger] placed::<VecMapRow>(before.vecmap, x) == after.vecmap
                    && is_mapping_row(codec, fts, entry, x);
            Some(x)
        }
    } else {
        None
    }
}

proof fn lemma_mapping_one_more<C: IndexCodec>(
    codec: &C,
    fts: FtsPrefixes,
    kv: Seq<(Key, Value)>,
    n: int,
    dir: Seq<char>,
    before: Seq<VecMapV>,
    told: Seq<Finding>,
    after: Seq<VecMapV>,
    now: Seq<Finding>,
    step: Option<VecMapV>,
)
    requires
        0 < n <= kv.len(),
        keys_differ(kv),
        in_order::<VecMapRow>(before),
        forall|e: int| 0 <= e < n - 1 ==> mapping_taken(codec, fts, #[trigger] kv[e], before, told, dir),
        forall|i: int| 0 <= i < before.len() ==> has_mapping_entry(codec, fts, kv, n - 1, #[trigger] before[i]),
        tells_of(told, IssueKind::IdxValueCorrupt, dir) ==> tells_of(now, IssueKind::IdxValueCorrupt, dir),
        match step {
            Some(x) => is_mapping_row(codec, fts, kv[n - 1], x) && after == placed::<VecMapRow>(before, x),
            None => after == before && (has_prefix(kv[n - 1].0@, IDX_PREFIX@) && place_of(
                kv[n - 1].0@,
                fts,
            ) is VecMap ==> tells_of(now, IssueKind::IdxValueCorrupt, dir)),
        },
    ensures
        in_order::<VecMapRow>(after),
        forall|e: int| 0 <= e < n ==> mapping_taken(codec, fts, #[trigger] kv[e], after, now, dir),
        forall|i: int| 0 <= i < after.len() ==> has_mapping_entry(codec, fts, kv, n, #[trigger] after[i]),
{
    assert forall|x: VecMapV| #[trigger] has_mapping_entry(codec, fts, kv, n - 1, x) implies has_mapping_entry(codec, fts, kv, n, x) by {
        let e = choose|e: int| 0 <= e < n - 1 && is_mapping_row(codec, fts, #[trigger] kv[e], x);
        assert(is_mapping_row(codec, fts, kv[e], x));
    }
    match step {
        None => {
            assert forall|e: int| 0 <= e < n implies mapping_taken(codec, fts, #[trigger] kv[e], after, now, dir) by {
                if e < n - 1 {
                    assert(mapping_taken(codec, fts, kv[e], before, told, dir));
                }
            }
        },
        Some(row) => {
            lemma_placed::<VecMapRow>(before, row);
            assert forall|i: int| 0 <= i < after.len() implies has_mapping_entry(codec, fts, kv, n, #[trigger] after[i]) by {
                assert(after.contains(after[i]));
                if after[i] == row {
                    assert(is_mapping_row(codec, fts, kv[n - 1], after[i]));
                } else {
                    let k = choose|k: int| 0 <= k < before.len() && before[k] == after[i];
                    assert(has_mapping_entry(codec, fts, kv, n - 1, before[k]));
                }
            }
            assert forall|e: int| 0 <= e < n implies mapping_taken(codec, fts, #[trigger] kv[e], after, now, dir) by {
                if e == n - 1 {
                    let k = choose|k: int| 0 <= k < after.len() && after[k] == row;
                    assert(is_mapping_row(codec, fts, kv[e], after[k]));
                } else {
                    assert(mapping_taken(codec, fts, kv[e], before, told, dir));
                    if exists|i: int| 0 <= i < before.len() && is_mapping_row(codec, fts, kv[e], #[trigger] before[i]) {
                        let i = choose|i: int| 0 <= i < before.len()
                            && is_mapping_row(codec, fts, kv[e], #[trigger] before[i]);
                        let other = before[i];
                        lemma_mapping_key(other, row);
                        a_place_has_one_key(kv[e].0@, fts);
                        a_place_has_one_key(kv[n - 1].0@, fts);
                        assert(kv[e].0@ != kv[n - 1].0@);
                        assert(before.contains(other));
                        assert(after.contains(other));
                        let k = choose|k: int| 0 <= k < after.len() && after[k] == other;
                        assert(is_mapping_row(codec, fts, kv[e], after[k]));
                    }
                }
            }
        },
    }
}

/// Some entry is a row's.
pub open spec fn has_mapping_entry<C: IndexCodec>(
    codec: &C,
    fts: FtsPrefixes,
    kv: Seq<(Key, Value)>,
    n: int,
    row: VecMapV,
) -> bool {
    exists|e: int| 0 <= e < n && is_mapping_row(codec, fts, #[trigger] kv[e], row)
}

/// A vector node: the entry's value decodes, and the row is what its key and its
/// value say.
pub open spec fn is_node_row<C: IndexCodec>(codec: &C, fts: FtsPrefixes, entry: (Key, Value), row: NodeV) -> bool {
    match place_of(entry.0@, fts) {
        PlaceV::Node { node } => exists|d: VectorNode|
            #[trigger] call_ensures(C::node, (codec, &entry.1), Ok(d))
                && row == (NodeV { id: node, dim: d.dim, neighbors: d.neighbors@, deleted: d.deleted }),
        _ => false,
    }
}

/// A vector node that is an entry's is among the rows, or is told not to decode.
pub open spec fn node_taken<C: IndexCodec>(
    codec: &C,
    fts: FtsPrefixes,
    entry: (Key, Value),
    rows: Seq<NodeV>,
    errors: Seq<Finding>,
    dir: Seq<char>,
) -> bool {
    has_prefix(entry.0@, IDX_PREFIX@) && place_of(entry.0@, fts) is Node ==> {
        ||| exists|i: int| 0 <= i < rows.len() && is_node_row(codec, fts, entry, #[trigger] rows[i])
        ||| tells_of(errors, IssueKind::IdxValueCorrupt, dir)
    }
}

proof fn lemma_node_key(a: NodeV, b: NodeV)
    ensures
        NodeRow::key(a) == NodeRow::key(b) ==> a.id == b.id,
{
    if NodeRow::key(a) == NodeRow::key(b) {
        assert(NodeRow::key(a)[0] == Part::Number(a.id));
        assert(NodeRow::key(b)[0] == Part::Number(b.id));
    }
}

/// The rows are those of the entries: each that decodes, and no other.
pub proof fn lemma_node_rows<C: IndexCodec>(
    codec: &C,
    fts: FtsPrefixes,
    kv: Seq<(Key, Value)>,
    n: int,
    dir: Seq<char>,
    t: Tally,
    v: ViewV,
    u: Tally,
)
    requires
        0 <= n <= kv.len(),
        keys_differ(kv),
        parses(codec, fts, kv, n, dir, t, v, u),
    ensures
        in_order::<NodeRow>(v.nodes),
        forall|e: int| 0 <= e < n ==> node_taken(codec, fts, #[trigger] kv[e], v.nodes, u.errors, dir),
        forall|i: int| 0 <= i < v.nodes.len() ==> has_node_entry(codec, fts, kv, n, #[trigger] v.nodes[i]),
    decreases n,
{
    if n > 0 {
        let (mid, m) = choose|mid: ViewV, m: Tally|
            parses(codec, fts, kv, n - 1, dir, t, mid, m) && #[trigger] takes(
                codec,
                fts,
                &kv[n - 1].0,
                &kv[n - 1].1,
                dir,
                mid,
                m,
                v,
                u,
            );
        lemma_node_rows(codec, fts, kv, n - 1, dir, t, mid, m);
        lemma_takes_grow(codec, fts, &kv[n - 1].0, &kv[n - 1].1, dir, mid, m, v, u);
        lemma_still_told(m.errors, u.errors, IssueKind::IdxValueCorrupt, dir);
        let step = lemma_node_step(codec, fts, kv[n - 1], dir, mid, m, v, u);
        lemma_node_one_more(codec, fts, kv, n, dir, mid.nodes, m.errors, v.nodes, u.errors, step);
    }
}

proof fn lemma_node_step<C: IndexCodec>(
    codec: &C,
    fts: FtsPrefixes,
    entry: (Key, Value),
    dir: Seq<char>,
    before: ViewV,
    t: Tally,
    after: ViewV,
    u: Tally,
) -> (row: Option<NodeV>)
    requires
        takes(codec, fts, &entry.0, &entry.1, dir, before, t, after, u),
    ensures
        match row {
            Some(x) => is_node_row(codec, fts, entry, x) && after.nodes == placed::<NodeRow>(before.nodes, x),
            None => after.nodes == before.nodes && (has_prefix(entry.0@, IDX_PREFIX@) && place_of(
                entry.0@,
                fts,
            ) is Node ==> tells_of(u.errors, IssueKind::IdxValueCorrupt, dir)),
        },
{
    if has_prefix(entry.0@, IDX_PREFIX@) && place_of(entry.0@, fts) is Node {
        if after.nodes == before.nodes && u.errors.len() > t.errors.len() {
            assert(u.errors[t.errors.len() as int].kind == IssueKind::IdxValueCorrupt);
            None
        } else {
            let x = choose|x: NodeV|
                #[trigger] placed::<NodeRow>(before.nodes, x) == after.nodes && is_node_row(codec, fts, entry, x);
            Some(x)
        }
    } else {
        None
    }
}

proof fn lemma_node_one_more<C: IndexCodec>(
    codec: &C,
    fts: FtsPrefixes,
    kv: Seq<(Key, Value)>,
    n: int,
    dir: Seq<char>,
    before: Seq<NodeV>,
    told: Seq<Finding>,
    after: Seq<NodeV>,
    now: Seq<Finding>,
    step: Option<NodeV>,
)
    requires
        0 < n <= kv.len(),
        keys_differ(kv),
        in_order::<NodeRow>(before),
        forall|e: int| 0 <= e < n - 1 ==> node_taken(codec, fts, #[trigger] kv[e], before, told, dir),
        forall|i: int| 0 <= i < before.len() ==> has_node_entry(codec, fts, kv, n - 1, #[trigger] before[i]),
        tells_of(told, IssueKind::IdxValueCorrupt, dir) ==> tells_of(now, IssueKind::IdxValueCorrupt, dir),
        match step {
            Some(x) => is_node_row(codec, fts, kv[n - 1], x) && after == placed::<NodeRow>(before, x),
            None => after == before && (has_prefix(kv[n - 1].0@, IDX_PREFIX@) && place_of(
                kv[n - 1].0@,
                fts,
            ) is Node ==> tells_of(now, IssueKind::IdxValueCorrupt, dir)),
        },
    ensures
        in_order::<NodeRow>(after),
        forall|e: int| 0 <= e < n ==> node_taken(codec, fts, #[trigger] kv[e], after, now, dir),
        forall|i: int| 0 <= i < after.len() ==> has_node_entry(codec, fts, kv, n, #[trigger] after[i]),
{
    assert forall|x: NodeV| #[trigger] has_node_entry(codec, fts, kv, n - 1, x) implies has_node_entry(codec, fts, kv, n, x) by {
        let e = choose|e: int| 0 <= e < n - 1 && is_node_row(codec, fts, #[trigger] kv[e], x);
        assert(is_node_row(codec, fts, kv[e], x));
    }
    match step {
        None => {
            assert forall|e: int| 0 <= e < n implies node_taken(codec, fts, #[trigger] kv[e], after, now, dir) by {
                if e < n - 1 {
                    assert(node_taken(codec, fts, kv[e], before, told, dir));
                }
            }
        },
        Some(row) => {
            lemma_placed::<NodeRow>(before, row);
            assert forall|i: int| 0 <= i < after.len() implies has_node_entry(codec, fts, kv, n, #[trigger] after[i]) by {
                assert(after.contains(after[i]));
                if after[i] == row {
                    assert(is_node_row(codec, fts, kv[n - 1], after[i]));
                } else {
                    let k = choose|k: int| 0 <= k < before.len() && before[k] == after[i];
                    assert(has_node_entry(codec, fts, kv, n - 1, before[k]));
                }
            }
            assert forall|e: int| 0 <= e < n implies node_taken(codec, fts, #[trigger] kv[e], after, now, dir) by {
                if e == n - 1 {
                    let k = choose|k: int| 0 <= k < after.len() && after[k] == row;
                    assert(is_node_row(codec, fts, kv[e], after[k]));
                } else {
                    assert(node_taken(codec, fts, kv[e], before, told, dir));
                    if exists|i: int| 0 <= i < before.len() && is_node_row(codec, fts, kv[e], #[trigger] before[i]) {
                        let i = choose|i: int| 0 <= i < before.len()
                            && is_node_row(codec, fts, kv[e], #[trigger] before[i]);
                        let other = before[i];
                        lemma_node_key(other, row);
                        a_place_has_one_key(kv[e].0@, fts);
                        a_place_has_one_key(kv[n - 1].0@, fts);
                        assert(kv[e].0@ != kv[n - 1].0@);
                        assert(before.contains(other));
                        assert(after.contains(other));
                        let k = choose|k: int| 0 <= k < after.len() && after[k] == other;
                        assert(is_node_row(codec, fts, kv[e], after[k]));
                    }
                }
            }
        },
    }
}

/// Some entry is a row's.
pub open spec fn has_node_entry<C: IndexCodec>(
    codec: &C,
    fts: FtsPrefixes,
    kv: Seq<(Key, Value)>,
    n: int,
    row: NodeV,
) -> bool {
    exists|e: int| 0 <= e < n && is_node_row(codec, fts, #[trigger] kv[e], row)
}

/// A posting: the entry's value decodes, and the row is what its key and its
/// value say.
pub open spec fn is_posting_row<C: IndexCodec>(codec: &C, fts: FtsPrefixes, entry: (Key, Value), row: PostingV) -> bool {
    match place_of(entry.0@, fts) {
        PlaceV::Posting { agent, term, vec_id } => exists|d: u32|
            #[trigger] call_ensures(C::posting, (codec, &entry.1), Ok(d))
                && row == (PostingV { agent, term, vec_id, tf: d }),
        _ => false,
    }
}

/// A posting that is an entry's is among the rows, or is told not to decode.
pub open spec fn posting_taken<C: IndexCodec>(
    codec: &C,
    fts: FtsPrefixes,
    entry: (Key, Value),
    rows: Seq<PostingV>,
    errors: Seq<Finding>,
    dir: Seq<char>,
) -> bool {
    has_prefix(entry.0@, IDX_PREFIX@) && place_of(entry.0@, fts) is Posting ==> {
        ||| exists|i: int| 0 <= i < rows.len() && is_posting_row(codec, fts, entry, #[trigger] rows[i])
        ||| tells_of(errors, IssueKind::IdxValueCorrupt, dir)
    }
}

proof fn lemma_posting_key(a: PostingV, b: PostingV)
    ensures
        PostingRow::key(a) == PostingRow::key(b) ==> a.agent == b.agent && a.term == b.term && a.vec_id == b.vec_id,
{
    if PostingRow::key(a) == PostingRow::key(b) {
        assert(PostingRow::key(a)[0] == Part::Text(a.agent));
        assert(PostingRow::key(b)[0] == Part::Text(b.agent));
        assert(PostingRow::key(a)[1] == Part::Text(a.term));
        assert(PostingRow::key(b)[1] == Part::Text(b.term));
        assert(PostingRow::key(a)[2] == Part::Number(a.vec_id));
        assert(PostingRow::key(b)[2] == Part::Number(b.vec_id));
    }
}

/// The rows are those of the entries: each that decodes, and no other.
pub proof fn lemma_posting_rows<C: IndexCodec>(
    codec: &C,
    fts: FtsPrefixes,
    kv: Seq<(Key, Value)>,
    n: int,
    dir: Seq<char>,
    t: Tally,
    v: ViewV,
    u: Tally,
)
    requires
        0 <= n <= kv.len(),
        keys_differ(kv),
        parses(codec, fts, kv, n, dir, t, v, u),
    ensures
        in_order::<PostingRow>(v.postings),
        forall|e: int| 0 <= e < n ==> posting_taken(codec, fts, #[trigger] kv[e], v.postings, u.errors, dir),
        forall|i: int| 0 <= i < v.postings.len() ==> has_posting_entry(codec, fts, kv, n, #[trigger] v.postings[i]),
    decreases n,
{
    if n > 0 {
        let (mid, m) = choose|mid: ViewV, m: Tally|
            parses(codec, fts, kv, n - 1, dir, t, mid, m) && #[trigger] takes(
                codec,
                fts,
                &kv[n - 1].0,
                &kv[n - 1].1,
                dir,
                mid,
                m,
                v,
                u,
            );
        lemma_posting_rows(codec, fts, kv, n - 1, dir, t, mid, m);
        lemma_takes_grow(codec, fts, &kv[n - 1].0, &kv[n - 1].1, dir, mid, m, v, u);
        lemma_still_told(m.errors, u.errors, IssueKind::IdxValueCorrupt, dir);
        let step = lemma_posting_step(codec, fts, kv[n - 1], dir, mid, m, v, u);
        lemma_posting_one_more(codec, fts, kv, n, dir, mid.postings, m.errors, v.postings, u.errors, step);
    }
}

proof fn lemma_posting_step<C: IndexCodec>(
    codec: &C,
    fts: FtsPrefixes,
    entry: (Key, Value),
    dir: Seq<char>,
    before: ViewV,
    t: Tally,
    after: ViewV,
    u: Tally,
) -> (row: Option<PostingV>)
    requires
        takes(codec, fts, &entry.0, &entry.1, dir, before, t, after, u),
    ensures
        match row {
            Some(x) =>
                is_posting_row(codec, fts, entry, x) && after.postings == placed::<PostingRow>(before.postings, x),
            None => after.postings == before.postings && (has_prefix(entry.0@, IDX_PREFIX@) && place_of(
                entry.0@,
                fts,
            ) is Posting ==> tells_of(u.errors, IssueKind::IdxValueCorrupt, dir)),
        },
{
    if has_prefix(entry.0@, IDX_PREFIX@) && place_of(entry.0@, fts) is Posting {
        if after.postings == before.postings && u.errors.len() > t.errors.len() {
            assert(u.errors[t.errors.len() as int].kind == IssueKind::IdxValueCorrupt);
            None
        } else {
            let x = choose|x: PostingV|
                #[trigger] placed::<PostingRow>(before.postings, x) == after.postings
                    && is_posting_row(codec, fts, entry, x);
            Some(x)
        }
    } else {
        None
    }
}

proof fn lemma_posting_one_more<C: IndexCodec>(
    codec: &C,
    fts: FtsPrefixes,
    kv: Seq<(Key, Value)>,
    n: int,
    dir: Seq<char>,
    before: Seq<PostingV>,
    told: Seq<Finding>,
    after: Seq<PostingV>,
    now: Seq<Finding>,
    step: Option<PostingV>,
)
    requires
        0 < n <= kv.len(),
        keys_differ(kv),
        in_order::<PostingRow>(before),
        forall|e: int| 0 <= e < n - 1 ==> posting_taken(codec, fts, #[trigger] kv[e], before, told, dir),
        forall|i: int| 0 <= i < before.len() ==> has_posting_entry(codec, fts, kv, n - 1, #[trigger] before[i]),
        tells_of(told, IssueKind::IdxValueCorrupt, dir) ==> tells_of(now, IssueKind::IdxValueCorrupt, dir),
        match step {
            Some(x) => is_posting_row(codec, fts, kv[n - 1], x) && after == placed::<PostingRow>(before, x),
            None => after == before && (has_prefix(kv[n - 1].0@, IDX_PREFIX@) && place_of(
                kv[n - 1].0@,
                fts,
            ) is Posting ==> tells_of(now, IssueKind::IdxValueCorrupt, dir)),
        },
    ensures
        in_order::<PostingRow>(after),
        forall|e: int| 0 <= e < n ==> posting_taken(codec, fts, #[trigger] kv[e], after, now, dir),
        forall|i: int| 0 <= i < after.len() ==> has_posting_entry(codec, fts, kv, n, #[trigger] after[i]),
{
    assert forall|x: PostingV| #[trigger] has_posting_entry(codec, fts, kv, n - 1, x) implies has_posting_entry(codec, fts, kv, n, x) by {
        let e = choose|e: int| 0 <= e < n - 1 && is_posting_row(codec, fts, #[trigger] kv[e], x);
        assert(is_posting_row(codec, fts, kv[e], x));
    }
    match step {
        None => {
            assert forall|e: int| 0 <= e < n implies posting_taken(codec, fts, #[trigger] kv[e], after, now, dir) by {
                if e < n - 1 {
                    assert(posting_taken(codec, fts, kv[e], before, told, dir));
                }
            }
        },
        Some(row) => {
            lemma_placed::<PostingRow>(before, row);
            assert forall|i: int| 0 <= i < after.len() implies has_posting_entry(codec, fts, kv, n, #[trigger] after[i]) by {
                assert(after.contains(after[i]));
                if after[i] == row {
                    assert(is_posting_row(codec, fts, kv[n - 1], after[i]));
                } else {
                    let k = choose|k: int| 0 <= k < before.len() && before[k] == after[i];
                    assert(has_posting_entry(codec, fts, kv, n - 1, before[k]));
                }
            }
            assert forall|e: int| 0 <= e < n implies posting_taken(codec, fts, #[trigger] kv[e], after, now, dir) by {
                if e == n - 1 {
                    let k = choose|k: int| 0 <= k < after.len() && after[k] == row;
                    assert(is_posting_row(codec, fts, kv[e], after[k]));
                } else {
                    assert(posting_taken(codec, fts, kv[e], before, told, dir));
                    if exists|i: int| 0 <= i < before.len() && is_posting_row(codec, fts, kv[e], #[trigger] before[i]) {
                        let i = choose|i: int| 0 <= i < before.len()
                            && is_posting_row(codec, fts, kv[e], #[trigger] before[i]);
                        let other = before[i];
                        lemma_posting_key(other, row);
                        a_place_has_one_key(kv[e].0@, fts);
                        a_place_has_one_key(kv[n - 1].0@, fts);
                        assert(kv[e].0@ != kv[n - 1].0@);
                        assert(before.contains(other));
                        assert(after.contains(other));
                        let k = choose|k: int| 0 <= k < after.len() && after[k] == other;
                        assert(is_posting_row(codec, fts, kv[e], after[k]));
                    }
                }
            }
        },
    }
}

/// Some entry is a row's.
pub open spec fn has_posting_entry<C: IndexCodec>(
    codec: &C,
    fts: FtsPrefixes,
    kv: Seq<(Key, Value)>,
    n: int,
    row: PostingV,
) -> bool {
    exists|e: int| 0 <= e < n && is_posting_row(codec, fts, #[trigger] kv[e], row)
}

/// A document: the entry's value decodes, and the row is what its key and its
/// value say.
pub open spec fn is_document_row<C: IndexCodec>(codec: &C, fts: FtsPrefixes, entry: (Key, Value), row: DocV) -> bool {
    match place_of(entry.0@, fts) {
        PlaceV::DocTerms { agent, vec_id } => exists|d: Vec<TermCount>|
            #[trigger] call_ensures(C::docterms, (codec, &entry.1), Ok(d))
                && row == (DocV { agent, vec_id, terms: terms_of(d@) }),
        _ => false,
    }
}

/// A document that is an entry's is among the rows, or is told not to decode.
pub open spec fn document_taken<C: IndexCodec>(
    codec: &C,
    fts: FtsPrefixes,
    entry: (Key, Value),
    rows: Seq<DocV>,
    errors: Seq<Finding>,
    dir: Seq<char>,
) -> bool {
    has_prefix(entry.0@, IDX_PREFIX@) && place_of(entry.0@, fts) is DocTerms ==> {
        ||| exists|i: int| 0 <= i < rows.len() && is_document_row(codec, fts, entry, #[trigger] rows[i])
        ||| tells_of(errors, IssueKind::IdxValueCorrupt, dir)
    }
}

proof fn lemma_document_key(a: DocV, b: DocV)
    ensures
        DocRow::key(a) == DocRow::key(b) ==> a.agent == b.agent && a.vec_id == b.vec_id,
{
    if DocRow::key(a) == DocRow::key(b) {
        assert(DocRow::key(a)[0] == Part::Text(a.agent));
        assert(DocRow::key(b)[0] == Part::Text(b.agent));
        assert(DocRow::key(a)[1] == Part::Number(a.vec_id));
        assert(DocRow::key(b)[1] == Part::Number(b.vec_id));
    }
}

/// The rows are those of the entries: each that decodes, and no other.
pub proof fn lemma_document_rows<C: IndexCodec>(
    codec: &C,
    fts: FtsPrefixes,
    kv: Seq<(Key, Value)>,
    n: int,
    dir: Seq<char>,
    t: Tally,
    v: ViewV,
    u: Tally,
)
    requires
        0 <= n <= kv.len(),
        keys_differ(kv),
        parses(codec, fts, kv, n, dir, t, v, u),
    ensures
        in_order::<DocRow>(v.docterms),
        forall|e: int| 0 <= e < n ==> document_taken(codec, fts, #[trigger] kv[e], v.docterms, u.errors, dir),
        forall|i: int| 0 <= i < v.docterms.len() ==> has_document_entry(codec, fts, kv, n, #[trigger] v.docterms[i]),
    decreases n,
{
    if n > 0 {
        let (mid, m) = choose|mid: ViewV, m: Tally|
            parses(codec, fts, kv, n - 1, dir, t, mid, m) && #[trigger] takes(
                codec,
                fts,
                &kv[n - 1].0,
                &kv[n - 1].1,
                dir,
                mid,
                m,
                v,
                u,
            );
        lemma_document_rows(codec, fts, kv, n - 1, dir, t, mid, m);
        lemma_takes_grow(codec, fts, &kv[n - 1].0, &kv[n - 1].1, dir, mid, m, v, u);
        lemma_still_told(m.errors, u.errors, IssueKind::IdxValueCorrupt, dir);
        let step = lemma_document_step(codec, fts, kv[n - 1], dir, mid, m, v, u);
        lemma_document_one_more(codec, fts, kv, n, dir, mid.docterms, m.errors, v.docterms, u.errors, step);
    }
}

proof fn lemma_document_step<C: IndexCodec>(
    codec: &C,
    fts: FtsPrefixes,
    entry: (Key, Value),
    dir: Seq<char>,
    before: ViewV,
    t: Tally,
    after: ViewV,
    u: Tally,
) -> (row: Option<DocV>)
    requires
        takes(codec, fts, &entry.0, &entry.1, dir, before, t, after, u),
    ensures
        match row {
            Some(x) => is_document_row(codec, fts, entry, x) && after.docterms == placed::<DocRow>(before.docterms, x),
            None => after.docterms == before.docterms && (has_prefix(entry.0@, IDX_PREFIX@) && place_of(
                entry.0@,
                fts,
            ) is DocTerms ==> tells_of(u.errors, IssueKind::IdxValueCorrupt, dir)),
        },
{
    if has_prefix(entry.0@, IDX_PREFIX@) && place_of(entry.0@, fts) is DocTerms {
        if after.docterms == before.docterms && u.errors.len() > t.errors.len() {
            assert(u.errors[t.errors.len() as int].kind == IssueKind::IdxValueCorrupt);
            None
        } else {
            let x = choose|x: DocV|
                #[trigger] placed::<DocRow>(before.docterms, x) == after.docterms
                    && is_document_row(codec, fts, entry, x);
            Some(x)
        }
    } else {
        None
    }
}

proof fn lemma_document_one_more<C: IndexCodec>(
    codec: &C,
    fts: FtsPrefixes,
    kv: Seq<(Key, Value)>,
    n: int,
    dir: Seq<char>,
    before: Seq<DocV>,
    told: Seq<Finding>,
    after: Seq<DocV>,
    now: Seq<Finding>,
    step: Option<DocV>,
)
    requires
        0 < n <= kv.len(),
        keys_differ(kv),
        in_order::<DocRow>(before),
        forall|e: int| 0 <= e < n - 1 ==> document_taken(codec, fts, #[trigger] kv[e], before, told, dir),
        forall|i: int| 0 <= i < before.len() ==> has_document_entry(codec, fts, kv, n - 1, #[trigger] before[i]),
        tells_of(told, IssueKind::IdxValueCorrupt, dir) ==> tells_of(now, IssueKind::IdxValueCorrupt, dir),
        match step {
            Some(x) => is_document_row(codec, fts, kv[n - 1], x) && after == placed::<DocRow>(before, x),
            None => after == before && (has_prefix(kv[n - 1].0@, IDX_PREFIX@) && place_of(
                kv[n - 1].0@,
                fts,
            ) is DocTerms ==> tells_of(now, IssueKind::IdxValueCorrupt, dir)),
        },
    ensures
        in_order::<DocRow>(after),
        forall|e: int| 0 <= e < n ==> document_taken(codec, fts, #[trigger] kv[e], after, now, dir),
        forall|i: int| 0 <= i < after.len() ==> has_document_entry(codec, fts, kv, n, #[trigger] after[i]),
{
    assert forall|x: DocV| #[trigger] has_document_entry(codec, fts, kv, n - 1, x) implies has_document_entry(codec, fts, kv, n, x) by {
        let e = choose|e: int| 0 <= e < n - 1 && is_document_row(codec, fts, #[trigger] kv[e], x);
        assert(is_document_row(codec, fts, kv[e], x));
    }
    match step {
        None => {
            assert forall|e: int| 0 <= e < n implies document_taken(codec, fts, #[trigger] kv[e], after, now, dir) by {
                if e < n - 1 {
                    assert(document_taken(codec, fts, kv[e], before, told, dir));
                }
            }
        },
        Some(row) => {
            lemma_placed::<DocRow>(before, row);
            assert forall|i: int| 0 <= i < after.len() implies has_document_entry(codec, fts, kv, n, #[trigger] after[i]) by {
                assert(after.contains(after[i]));
                if after[i] == row {
                    assert(is_document_row(codec, fts, kv[n - 1], after[i]));
                } else {
                    let k = choose|k: int| 0 <= k < before.len() && before[k] == after[i];
                    assert(has_document_entry(codec, fts, kv, n - 1, before[k]));
                }
            }
            assert forall|e: int| 0 <= e < n implies document_taken(codec, fts, #[trigger] kv[e], after, now, dir) by {
                if e == n - 1 {
                    let k = choose|k: int| 0 <= k < after.len() && after[k] == row;
                    assert(is_document_row(codec, fts, kv[e], after[k]));
                } else {
                    assert(document_taken(codec, fts, kv[e], before, told, dir));
                    if exists|i: int| 0 <= i < before.len()
                        && is_document_row(codec, fts, kv[e], #[trigger] before[i]) {
                        let i = choose|i: int| 0 <= i < before.len()
                            && is_document_row(codec, fts, kv[e], #[trigger] before[i]);
                        let other = before[i];
                        lemma_document_key(other, row);
                        a_place_has_one_key(kv[e].0@, fts);
                        a_place_has_one_key(kv[n - 1].0@, fts);
                        assert(kv[e].0@ != kv[n - 1].0@);
                        assert(before.contains(other));
                        assert(after.contains(other));
                        let k = choose|k: int| 0 <= k < after.len() && after[k] == other;
                        assert(is_document_row(codec, fts, kv[e], after[k]));
                    }
                }
            }
        },
    }
}

/// Some entry is a row's.
pub open spec fn has_document_entry<C: IndexCodec>(
    codec: &C,
    fts: FtsPrefixes,
    kv: Seq<(Key, Value)>,
    n: int,
    row: DocV,
) -> bool {
    exists|e: int| 0 <= e < n && is_document_row(codec, fts, #[trigger] kv[e], row)
}

/// Statistics: the entry's value decodes, and the row is what its key and its
/// value say.
pub open spec fn is_statistics_row<C: IndexCodec>(codec: &C, fts: FtsPrefixes, entry: (Key, Value), row: StatsV) -> bool {
    match place_of(entry.0@, fts) {
        PlaceV::Stats { agent } => exists|d: FtsStats|
            #[trigger] call_ensures(C::fts_stats, (codec, &entry.1), Ok(d)) && row == (StatsV { agent, stats: d }),
        _ => false,
    }
}

/// Statistics that is an entry's is among the rows, or is told not to decode.
pub open spec fn statistics_taken<C: IndexCodec>(
    codec: &C,
    fts: FtsPrefixes,
    entry: (Key, Value),
    rows: Seq<StatsV>,
    warnings: Seq<Finding>,
    dir: Seq<char>,
) -> bool {
    has_prefix(entry.0@, IDX_PREFIX@) && place_of(entry.0@, fts) is Stats ==> {
        ||| exists|i: int| 0 <= i < rows.len() && is_statistics_row(codec, fts, entry, #[trigger] rows[i])
        ||| tells_of(warnings, IssueKind::FtsStatsInconsistent, dir)
    }
}

proof fn lemma_statistics_key(a: StatsV, b: StatsV)
    ensures
        StatsRow::key(a) == StatsRow::key(b) ==> a.agent == b.agent,
{
    if StatsRow::key(a) == StatsRow::key(b) {
        assert(StatsRow::key(a)[0] == Part::Text(a.agent));
        assert(StatsRow::key(b)[0] == Part::Text(b.agent));
    }
}

/// The rows are those of the entries: each that decodes, and no other.
pub proof fn lemma_statistics_rows<C: IndexCodec>(
    codec: &C,
    fts: FtsPrefixes,
    kv: Seq<(Key, Value)>,
    n: int,
    dir: Seq<char>,
    t: Tally,
    v: ViewV,
    u: Tally,
)
    requires
        0 <= n <= kv.len(),
        keys_differ(kv),
        parses(codec, fts, kv, n, dir, t, v, u),
    ensures
        in_order::<StatsRow>(v.fts_stats),
        forall|e: int| 0 <= e < n ==> statistics_taken(codec, fts, #[trigger] kv[e], v.fts_stats, u.warnings, dir),
        forall|i: int| 0 <= i < v.fts_stats.len() ==> has_statistics_entry(codec, fts, kv, n, #[trigger] v.fts_stats[i]),
    decreases n,
{
    if n > 0 {
        let (mid, m) = choose|mid: ViewV, m: Tally|
            parses(codec, fts, kv, n - 1, dir, t, mid, m) && #[trigger] takes(
                codec,
                fts,
                &kv[n - 1].0,
                &kv[n - 1].1,
                dir,
                mid,
                m,
                v,
                u,
            );
        lemma_statistics_rows(codec, fts, kv, n - 1, dir, t, mid, m);
        lemma_takes_grow(codec, fts, &kv[n - 1].0, &kv[n - 1].1, dir, mid, m, v, u);
        lemma_still_told(m.warnings, u.warnings, IssueKind::FtsStatsInconsistent, dir);
        let step = lemma_statistics_step(codec, fts, kv[n - 1], dir, mid, m, v, u);
        lemma_statistics_one_more(codec, fts, kv, n, dir, mid.fts_stats, m.warnings, v.fts_stats, u.warnings, step);
    }
}

proof fn lemma_statistics_step<C: IndexCodec>(
    codec: &C,
    fts: FtsPrefixes,
    entry: (Key, Value),
    dir: Seq<char>,
    before: ViewV,
    t: Tally,
    after: ViewV,
    u: Tally,
) -> (row: Option<StatsV>)
    requires
        takes(codec, fts, &entry.0, &entry.1, dir, before, t, after, u),
    ensures
        match row {
            Some(x) =>
                is_statistics_row(codec, fts, entry, x) && after.fts_stats == placed::<StatsRow>(before.fts_stats, x),
            None => after.fts_stats == before.fts_stats && (has_prefix(entry.0@, IDX_PREFIX@) && place_of(
                entry.0@,
                fts,
            ) is Stats ==> tells_of(u.warnings, IssueKind::FtsStatsInconsistent, dir)),
        },
{
    if has_prefix(entry.0@, IDX_PREFIX@) && place_of(entry.0@, fts) is Stats {
        if after.fts_stats == before.fts_stats && u.warnings.len() > t.warnings.len() {
            assert(u.warnings[t.warnings.len() as int].kind == IssueKind::FtsStatsInconsistent);
            None
        } else {
            let x = choose|x: StatsV|
                #[trigger] placed::<StatsRow>(before.fts_stats, x) == after.fts_stats
                    && is_statistics_row(codec, fts, entry, x);
            Some(x)
        }
    } else {
        None
    }
}

proof fn lemma_statistics_one_more<C: IndexCodec>(
    codec: &C,
    fts: FtsPrefixes,
    kv: Seq<(Key, Value)>,
    n: int,
    dir: Seq<char>,
    before: Seq<StatsV>,
    told: Seq<Finding>,
    after: Seq<StatsV>,
    now: Seq<Finding>,
    step: Option<StatsV>,
)
    requires
        0 < n <= kv.len(),
        keys_differ(kv),
        in_order::<StatsRow>(before),
        forall|e: int| 0 <= e < n - 1 ==> statistics_taken(codec, fts, #[trigger] kv[e], before, told, dir),
        forall|i: int| 0 <= i < before.len() ==> has_statistics_entry(codec, fts, kv, n - 1, #[trigger] before[i]),
        tells_of(told, IssueKind::FtsStatsInconsistent, dir) ==> tells_of(now, IssueKind::FtsStatsInconsistent, dir),
        match step {
            Some(x) => is_statistics_row(codec, fts, kv[n - 1], x) && after == placed::<StatsRow>(before, x),
            None => after == before && (has_prefix(kv[n - 1].0@, IDX_PREFIX@) && place_of(
                kv[n - 1].0@,
                fts,
            ) is Stats ==> tells_of(now, IssueKind::FtsStatsInconsistent, dir)),
        },
    ensures
        in_order::<StatsRow>(after),
        forall|e: int| 0 <= e < n ==> statistics_taken(codec, fts, #[trigger] kv[e], after, now, dir),
        forall|i: int| 0 <= i < after.len() ==> has_statistics_entry(codec, fts, kv, n, #[trigger] after[i]),
{
    assert forall|x: StatsV| #[trigger] has_statistics_entry(codec, fts, kv, n - 1, x) implies has_statistics_entry(codec, fts, kv, n, x) by {
        let e = choose|e: int| 0 <= e < n - 1 && is_statistics_row(codec, fts, #[trigger] kv[e], x);
        assert(is_statistics_row(codec, fts, kv[e], x));
    }
    match step {
        None => {
            assert forall|e: int| 0 <= e < n implies statistics_taken(codec, fts, #[trigger] kv[e], after, now, dir) by {
                if e < n - 1 {
                    assert(statistics_taken(codec, fts, kv[e], before, told, dir));
                }
            }
        },
        Some(row) => {
            lemma_placed::<StatsRow>(before, row);
            assert forall|i: int| 0 <= i < after.len() implies has_statistics_entry(codec, fts, kv, n, #[trigger] after[i]) by {
                assert(after.contains(after[i]));
                if after[i] == row {
                    assert(is_statistics_row(codec, fts, kv[n - 1], after[i]));
                } else {
                    let k = choose|k: int| 0 <= k < before.len() && before[k] == after[i];
                    assert(has_statistics_entry(codec, fts, kv, n - 1, before[k]));
                }
            }
            assert forall|e: int| 0 <= e < n implies statistics_taken(codec, fts, #[trigger] kv[e], after, now, dir) by {
                if e == n - 1 {
                    let k = choose|k: int| 0 <= k < after.len() && after[k] == row;
                    assert(is_statistics_row(codec, fts, kv[e], after[k]));
                } else {
                    assert(statistics_taken(codec, fts, kv[e], before, told, dir));
                    if exists|i: int| 0 <= i < before.len()
                        && is_statistics_row(codec, fts, kv[e], #[trigger] before[i]) {
                        let i = choose|i: int| 0 <= i < before.len()
                            && is_statistics_row(codec, fts, kv[e], #[trigger] before[i]);
                        let other = before[i];
                        lemma_statistics_key(other, row);
                        a_place_has_one_key(kv[e].0@, fts);
                        a_place_has_one_key(kv[n - 1].0@, fts);
                        assert(kv[e].0@ != kv[n - 1].0@);
                        assert(before.contains(other));
                        assert(after.contains(other));
                        let k = choose|k: int| 0 <= k < after.len() && after[k] == other;
                        assert(is_statistics_row(codec, fts, kv[e], after[k]));
                    }
                }
            }
        },
    }
}

/// Some entry is a row's.
pub open spec fn has_statistics_entry<C: IndexCodec>(
    codec: &C,
    fts: FtsPrefixes,
    kv: Seq<(Key, Value)>,
    n: int,
    row: StatsV,
) -> bool {
    exists|e: int| 0 <= e < n && is_statistics_row(codec, fts, #[trigger] kv[e], row)
}

/// An entity: the entry's value decodes, and the row is what its key and its
/// value say.
pub open spec fn is_entity_row<C: IndexCodec>(codec: &C, fts: FtsPrefixes, entry: (Key, Value), row: EntityV) -> bool {
    match place_of(entry.0@, fts) {
        PlaceV::Entity { agent, id } => exists|r: Result<(), EngineError>|
            #[trigger] call_ensures(C::entity, (codec, &entry.1), r) && r is Ok && row == (EntityV { agent, id }),
        _ => false,
    }
}

/// An entity that is an entry's is among the rows, or is told not to decode.
pub open spec fn entity_taken<C: IndexCodec>(
    codec: &C,
    fts: FtsPrefixes,
    entry: (Key, Value),
    rows: Seq<EntityV>,
    errors: Seq<Finding>,
    dir: Seq<char>,
) -> bool {
    has_prefix(entry.0@, IDX_PREFIX@) && place_of(entry.0@, fts) is Entity ==> {
        ||| exists|i: int| 0 <= i < rows.len() && is_entity_row(codec, fts, entry, #[trigger] rows[i])
        ||| tells_of(errors, IssueKind::IdxValueCorrupt, dir)
    }
}

proof fn lemma_entity_key(a: EntityV, b: EntityV)
    ensures
        EntityRow::key(a) == EntityRow::key(b) ==> a.agent == b.agent && a.id == b.id,
{
    if EntityRow::key(a) == EntityRow::key(b) {
        assert(EntityRow::key(a)[0] == Part::Text(a.agent));
        assert(EntityRow::key(b)[0] == Part::Text(b.agent));
        assert(EntityRow::key(a)[1] == Part::Text(a.id));
        assert(EntityRow::key(b)[1] == Part::Text(b.id));
    }
}

/// The rows are those of the entries: each that decodes, and no other.
pub proof fn lemma_entity_rows<C: IndexCodec>(
    codec: &C,
    fts: FtsPrefixes,
    kv: Seq<(Key, Value)>,
    n: int,
    dir: Seq<char>,
    t: Tally,
    v: ViewV,
    u: Tally,
)
    requires
        0 <= n <= kv.len(),
        keys_differ(kv),
        parses(codec, fts, kv, n, dir, t, v, u),
    ensures
        in_order::<EntityRow>(v.entities),
        forall|e: int| 0 <= e < n ==> entity_taken(codec, fts, #[trigger] kv[e], v.entities, u.errors, dir),
        forall|i: int| 0 <= i < v.entities.len() ==> has_entity_entry(codec, fts, kv, n, #[trigger] v.entities[i]),
    decreases n,
{
    if n > 0 {
        let (mid, m) = choose|mid: ViewV, m: Tally|
            parses(codec, fts, kv, n - 1, dir, t, mid, m) && #[trigger] takes(
                codec,
                fts,
                &kv[n - 1].0,
                &kv[n - 1].1,
                dir,
                mid,
                m,
                v,
                u,
            );
        lemma_entity_rows(codec, fts, kv, n - 1, dir, t, mid, m);
        lemma_takes_grow(codec, fts, &kv[n - 1].0, &kv[n - 1].1, dir, mid, m, v, u);
        lemma_still_told(m.errors, u.errors, IssueKind::IdxValueCorrupt, dir);
        let step = lemma_entity_step(codec, fts, kv[n - 1], dir, mid, m, v, u);
        lemma_entity_one_more(codec, fts, kv, n, dir, mid.entities, m.errors, v.entities, u.errors, step);
    }
}

proof fn lemma_entity_step<C: IndexCodec>(
    codec: &C,
    fts: FtsPrefixes,
    entry: (Key, Value),
    dir: Seq<char>,
    before: ViewV,
    t: Tally,
    after: ViewV,
    u: Tally,
) -> (row: Option<EntityV>)
    requires
        takes(codec, fts, &entry.0, &entry.1, dir, before, t, after, u),
    ensures
        match row {
            Some(x) => is_entity_row(codec, fts, entry, x) && after.entities == placed::<EntityRow>(before.entities, x),
            None => after.entities == before.entities && (has_prefix(entry.0@, IDX_PREFIX@) && place_of(
                entry.0@,
                fts,
            ) is Entity ==> tells_of(u.errors, IssueKind::IdxValueCorrupt, dir)),
        },
{
    if has_prefix(entry.0@, IDX_PREFIX@) && place_of(entry.0@, fts) is Entity {
        if after.entities == before.entities && u.errors.len() > t.errors.len() {
            assert(u.errors[t.errors.len() as int].kind == IssueKind::IdxValueCorrupt);
            None
        } else {
            let x = choose|x: EntityV|
                #[trigger] placed::<EntityRow>(before.entities, x) == after.entities
                    && is_entity_row(codec, fts, entry, x);
            Some(x)
        }
    } else {
        None
    }
}

proof fn lemma_entity_one_more<C: IndexCodec>(
    codec: &C,
    fts: FtsPrefixes,
    kv: Seq<(Key, Value)>,
    n: int,
    dir: Seq<char>,
    before: Seq<EntityV>,
    told: Seq<Finding>,
    after: Seq<EntityV>,
    now: Seq<Finding>,
    step: Option<EntityV>,
)
    requires
        0 < n <= kv.len(),
        keys_differ(kv),
        in_order::<EntityRow>(before),
        forall|e: int| 0 <= e < n - 1 ==> entity_taken(codec, fts, #[trigger] kv[e], before, told, dir),
        forall|i: int| 0 <= i < before.len() ==> has_entity_entry(codec, fts, kv, n - 1, #[trigger] before[i]),
        tells_of(told, IssueKind::IdxValueCorrupt, dir) ==> tells_of(now, IssueKind::IdxValueCorrupt, dir),
        match step {
            Some(x) => is_entity_row(codec, fts, kv[n - 1], x) && after == placed::<EntityRow>(before, x),
            None => after == before && (has_prefix(kv[n - 1].0@, IDX_PREFIX@) && place_of(
                kv[n - 1].0@,
                fts,
            ) is Entity ==> tells_of(now, IssueKind::IdxValueCorrupt, dir)),
        },
    ensures
        in_order::<EntityRow>(after),
        forall|e: int| 0 <= e < n ==> entity_taken(codec, fts, #[trigger] kv[e], after, now, dir),
        forall|i: int| 0 <= i < after.len() ==> has_entity_entry(codec, fts, kv, n, #[trigger] after[i]),
{
    assert forall|x: EntityV| #[trigger] has_entity_entry(codec, fts, kv, n - 1, x) implies has_entity_entry(codec, fts, kv, n, x) by {
        let e = choose|e: int| 0 <= e < n - 1 && is_entity_row(codec, fts, #[trigger] kv[e], x);
        assert(is_entity_row(codec, fts, kv[e], x));
    }
    match step {
        None => {
            assert forall|e: int| 0 <= e < n implies entity_taken(codec, fts, #[trigger] kv[e], after, now, dir) by {
                if e < n - 1 {
                    assert(entity_taken(codec, fts, kv[e], before, told, dir));
                }
            }
        },
        Some(row) => {
            lemma_placed::<EntityRow>(before, row);
            assert forall|i: int| 0 <= i < after.len() implies has_entity_entry(codec, fts, kv, n, #[trigger] after[i]) by {
                assert(after.contains(after[i]));
                if after[i] == row {
                    assert(is_entity_row(codec, fts, kv[n - 1], after[i]));
                } else {
                    let k = choose|k: int| 0 <= k < before.len() && before[k] == after[i];
                    assert(has_entity_entry(codec, fts, kv, n - 1, before[k]));
                }
            }
            assert forall|e: int| 0 <= e < n implies entity_taken(codec, fts, #[trigger] kv[e], after, now, dir) by {
                if e == n - 1 {
                    let k = choose|k: int| 0 <= k < after.len() && after[k] == row;
                    assert(is_entity_row(codec, fts, kv[e], after[k]));
                } else {
                    assert(entity_taken(codec, fts, kv[e], before, told, dir));
                    if exists|i: int| 0 <= i < before.len() && is_entity_row(codec, fts, kv[e], #[trigger] before[i]) {
                        let i = choose|i: int| 0 <= i < before.len()
                            && is_entity_row(codec, fts, kv[e], #[trigger] before[i]);
                        let other = before[i];
                        lemma_entity_key(other, row);
                        a_place_has_one_key(kv[e].0@, fts);
                        a_place_has_one_key(kv[n - 1].0@, fts);
                        assert(kv[e].0@ != kv[n - 1].0@);
                        assert(before.contains(other));
                        assert(after.contains(other));
                        let k = choose|k: int| 0 <= k < after.len() && after[k] == other;
                        assert(is_entity_row(codec, fts, kv[e], after[k]));
                    }
                }
            }
        },
    }
}

/// Some entry is a row's.
pub open spec fn has_entity_entry<C: IndexCodec>(
    codec: &C,
    fts: FtsPrefixes,
    kv: Seq<(Key, Value)>,
    n: int,
    row: EntityV,
) -> bool {
    exists|e: int| 0 <= e < n && is_entity_row(codec, fts, #[trigger] kv[e], row)
}

/// An edge: the entry's value decodes, and the row is what its key says.
pub open spec fn is_edge_row<C: IndexCodec>(codec: &C, fts: FtsPrefixes, entry: (Key, Value), row: EdgeV) -> bool {
    match place_of(entry.0@, fts) {
        PlaceV::Edge { agent, src, relation, dst } => exists|r: Result<(), EngineError>|
            #[trigger] call_ensures(C::edge, (codec, &entry.1), r) && r is Ok && row == (EdgeV {
                agent,
                src,
                relation,
                dst,
            }),
        _ => false,
    }
}

/// An edge that is an entry's is among the rows, or is told not to decode.
pub open spec fn edge_taken<C: IndexCodec>(
    codec: &C,
    fts: FtsPrefixes,
    entry: (Key, Value),
    rows: Seq<EdgeV>,
    errors: Seq<Finding>,
    dir: Seq<char>,
) -> bool {
    has_prefix(entry.0@, IDX_PREFIX@) && place_of(entry.0@, fts) is Edge ==> {
        ||| exists|i: int| 0 <= i < rows.len() && is_edge_row(codec, fts, entry, #[trigger] rows[i])
        ||| tells_of(errors, IssueKind::IdxValueCorrupt, dir)
    }
}

/// Some entry is an edge's.
pub open spec fn has_edge_entry<C: IndexCodec>(
    codec: &C,
    fts: FtsPrefixes,
    kv: Seq<(Key, Value)>,
    n: int,
    row: EdgeV,
) -> bool {
    exists|e: int| 0 <= e < n && is_edge_row(codec, fts, #[trigger] kv[e], row)
}

proof fn lemma_edge_step<C: IndexCodec>(
    codec: &C,
    fts: FtsPrefixes,
    entry: (Key, Value),
    dir: Seq<char>,
    before: ViewV,
    t: Tally,
    after: ViewV,
    u: Tally,
) -> (row: Option<EdgeV>)
    requires
        takes(codec, fts, &entry.0, &entry.1, dir, before, t, after, u),
    ensures
        match row {
            Some(x) => is_edge_row(codec, fts, entry, x) && after.edges == before.edges.push(x),
            None => after.edges == before.edges && (has_prefix(entry.0@, IDX_PREFIX@) && place_of(
                entry.0@,
                fts,
            ) is Edge ==> tells_of(u.errors, IssueKind::IdxValueCorrupt, dir)),
        },
{
    if has_prefix(entry.0@, IDX_PREFIX@) && place_of(entry.0@, fts) is Edge {
        if u.errors.len() > t.errors.len() {
            assert(u.errors[t.errors.len() as int].kind == IssueKind::IdxValueCorrupt);
            None
        } else {
            let x = choose|x: EdgeV|
                #[trigger] before.edges.push(x) == after.edges && is_edge_row(codec, fts, entry, x);
            Some(x)
        }
    } else {
        None
    }
}

/// The edges are those of the entries: each that decodes, and no other.
pub proof fn lemma_edge_rows<C: IndexCodec>(
    codec: &C,
    fts: FtsPrefixes,
    kv: Seq<(Key, Value)>,
    n: int,
    dir: Seq<char>,
    t: Tally,
    v: ViewV,
    u: Tally,
)
    requires
        0 <= n <= kv.len(),
        parses(codec, fts, kv, n, dir, t, v, u),
    ensures
        forall|e: int| 0 <= e < n ==> edge_taken(codec, fts, #[trigger] kv[e], v.edges, u.errors, dir),
        forall|i: int| 0 <= i < v.edges.len() ==> has_edge_entry(codec, fts, kv, n, #[trigger] v.edges[i]),
    decreases n,
{
    if n > 0 {
        let (mid, m) = choose|mid: ViewV, m: Tally|
            parses(codec, fts, kv, n - 1, dir, t, mid, m) && #[trigger] takes(
                codec,
                fts,
                &kv[n - 1].0,
                &kv[n - 1].1,
                dir,
                mid,
                m,
                v,
                u,
            );
        lemma_edge_rows(codec, fts, kv, n - 1, dir, t, mid, m);
        lemma_takes_grow(codec, fts, &kv[n - 1].0, &kv[n - 1].1, dir, mid, m, v, u);
        lemma_still_told(m.errors, u.errors, IssueKind::IdxValueCorrupt, dir);
        let step = lemma_edge_step(codec, fts, kv[n - 1], dir, mid, m, v, u);
        assert forall|i: int| 0 <= i < v.edges.len() implies has_edge_entry(codec, fts, kv, n, #[trigger] v.edges[i]) by {
            if i < mid.edges.len() {
                assert(v.edges[i] == mid.edges[i]);
                assert(has_edge_entry(codec, fts, kv, n - 1, mid.edges[i]));
                let e = choose|e: int| 0 <= e < n - 1 && is_edge_row(codec, fts, #[trigger] kv[e], mid.edges[i]);
                assert(is_edge_row(codec, fts, kv[e], v.edges[i]));
            } else {
                assert(is_edge_row(codec, fts, kv[n - 1], v.edges[i]));
            }
        }
        assert forall|e: int| 0 <= e < n implies edge_taken(codec, fts, #[trigger] kv[e], v.edges, u.errors, dir) by {
            if e < n - 1 {
                assert(edge_taken(codec, fts, kv[e], mid.edges, m.errors, dir));
                if exists|i: int| 0 <= i < mid.edges.len() && is_edge_row(codec, fts, kv[e], #[trigger] mid.edges[i]) {
                    let i = choose|i: int|
                        0 <= i < mid.edges.len() && is_edge_row(codec, fts, kv[e], #[trigger] mid.edges[i]);
                    assert(is_edge_row(codec, fts, kv[e], v.edges[i]));
                }
            } else if step is Some {
                assert(is_edge_row(codec, fts, kv[e], v.edges[mid.edges.len() as int]));
            }
        }
    }
}

/// What an entry of the allocator, of the vector metadata, or with a key that
/// does not parse comes to.
pub open spec fn single_taken<C: IndexCodec>(
    codec: &C,
    fts: FtsPrefixes,
    entry: (Key, Value),
    v: ViewV,
    errors: Seq<Finding>,
    warnings: Seq<Finding>,
    dir: Seq<char>,
) -> bool {
    has_prefix(entry.0@, IDX_PREFIX@) ==> {
        &&& place_of(entry.0@, fts) is Malformed ==> tells_of(errors, IssueKind::IdxKeyMalformed, dir)
        &&& entry.0@ == memory_index::META_KEY@ ==> tells_of(errors, IssueKind::IdxValueCorrupt, dir) || (
        v.memory_meta matches Some(next) && call_ensures(C::memory_meta, (codec, &entry.1), Ok(next)))
        &&& entry.0@ == vector_index::META_KEY@ ==> tells_of(warnings, IssueKind::VectorMetaInconsistent, dir) || (
        v.vector_meta matches Some(meta) && call_ensures(C::vector_meta, (codec, &entry.1), Ok(meta)))
    }
}

/// Some entry is what the allocator, or the vector metadata, is known from.
pub open spec fn has_single_entry<C: IndexCodec>(codec: &C, kv: Seq<(Key, Value)>, n: int, v: ViewV) -> bool {
    &&& v.memory_meta matches Some(next) ==> exists|e: int|
        0 <= e < n && (#[trigger] kv[e]).0@ == memory_index::META_KEY@ && call_ensures(
            C::memory_meta,
            (codec, &kv[e].1),
            Ok(next),
        )
    &&& v.vector_meta matches Some(meta) ==> exists|e: int|
        0 <= e < n && (#[trigger] kv[e]).0@ == vector_index::META_KEY@ && call_ensures(
            C::vector_meta,
            (codec, &kv[e].1),
            Ok(meta),
        )
}

proof fn lemma_meta_places(fts: FtsPrefixes)
    ensures
        place_of(memory_index::META_KEY@, fts) is MemoryMeta,
        place_of(vector_index::META_KEY@, fts) is VectorMeta,
{
    super::laws::written_keys_parse_back(Seq::empty(), Seq::empty(), 0, fts);
}

proof fn lemma_single_step<C: IndexCodec>(
    codec: &C,
    fts: FtsPrefixes,
    entry: (Key, Value),
    dir: Seq<char>,
    before: ViewV,
    t: Tally,
    after: ViewV,
    u: Tally,
)
    requires
        takes(codec, fts, &entry.0, &entry.1, dir, before, t, after, u),
    ensures
        single_taken(codec, fts, entry, after, u.errors, u.warnings, dir),
        entry.0@ != memory_index::META_KEY@ ==> after.memory_meta == before.memory_meta,
        entry.0@ != vector_index::META_KEY@ ==> after.vector_meta == before.vector_meta,
        after.memory_meta != before.memory_meta ==> entry.0@ == memory_index::META_KEY@
            && (after.memory_meta matches Some(
            next,
        ) && call_ensures(C::memory_meta, (codec, &entry.1), Ok(next))),
        after.vector_meta != before.vector_meta ==> entry.0@ == vector_index::META_KEY@
            && (after.vector_meta matches Some(
            meta,
        ) && call_ensures(C::vector_meta, (codec, &entry.1), Ok(meta))),
{
    lemma_meta_places(fts);
    a_place_has_one_key(entry.0@, fts);
    if u.errors.len() > t.errors.len() {
        let f = u.errors[t.errors.len() as int];
        assert(f.path == dir);
        assert(tells_of(u.errors, f.kind, dir));
    }
    if u.warnings.len() > t.warnings.len() {
        let f = u.warnings[t.warnings.len() as int];
        assert(f.path == dir);
        assert(tells_of(u.warnings, f.kind, dir));
    }
}

/// A key that does not parse is told; the allocator and the vector metadata are
/// known from their entries, or told not to decode.
pub proof fn lemma_singles<C: IndexCodec>(
    codec: &C,
    fts: FtsPrefixes,
    kv: Seq<(Key, Value)>,
    n: int,
    dir: Seq<char>,
    t: Tally,
    v: ViewV,
    u: Tally,
)
    requires
        0 <= n <= kv.len(),
        keys_differ(kv),
        parses(codec, fts, kv, n, dir, t, v, u),
    ensures
        forall|e: int|
            0 <= e < n ==> single_taken(codec, fts, #[trigger] kv[e], v, u.errors, u.warnings, dir),
        has_single_entry(codec, kv, n, v),
    decreases n,
{
    if n > 0 {
        let (mid, m) = choose|mid: ViewV, m: Tally|
            parses(codec, fts, kv, n - 1, dir, t, mid, m) && #[trigger] takes(
                codec,
                fts,
                &kv[n - 1].0,
                &kv[n - 1].1,
                dir,
                mid,
                m,
                v,
                u,
            );
        lemma_singles(codec, fts, kv, n - 1, dir, t, mid, m);
        lemma_takes_grow(codec, fts, &kv[n - 1].0, &kv[n - 1].1, dir, mid, m, v, u);
        lemma_single_step(codec, fts, kv[n - 1], dir, mid, m, v, u);
        lemma_still_told(m.errors, u.errors, IssueKind::IdxValueCorrupt, dir);
        lemma_still_told(m.errors, u.errors, IssueKind::IdxKeyMalformed, dir);
        lemma_still_told(m.warnings, u.warnings, IssueKind::VectorMetaInconsistent, dir);
        assert forall|e: int| 0 <= e < n implies single_taken(
            codec,
            fts,
            #[trigger] kv[e],
            v,
            u.errors,
            u.warnings,
            dir,
        ) by {
            if e < n - 1 {
                assert(single_taken(codec, fts, kv[e], mid, m.errors, m.warnings, dir));
                assert(kv[e].0@ != kv[n - 1].0@);
            }
        }
        if v.memory_meta != mid.memory_meta {
            assert(kv[n - 1].0@ == memory_index::META_KEY@);
        }
        if v.vector_meta != mid.vector_meta {
            assert(kv[n - 1].0@ == vector_index::META_KEY@);
        }
    }
}

/// An entry does not parse, or may not decode.
pub open spec fn is_bad_entry<C: IndexCodec>(codec: &C, fts: FtsPrefixes, entry: (Key, Value)) -> bool {
    has_prefix(entry.0@, IDX_PREFIX@) && match place_of(entry.0@, fts) {
        PlaceV::Malformed => true,
        PlaceV::MemoryMeta => exists|e: EngineError| #[trigger]
            call_ensures(C::memory_meta, (codec, &entry.1), Err(e)),
        PlaceV::Record { .. } => exists|e: EngineError| #[trigger] call_ensures(C::record, (codec, &entry.1), Err(e)),
        PlaceV::VecMap { .. } => exists|e: EngineError| #[trigger] call_ensures(C::vecmap, (codec, &entry.1), Err(e)),
        PlaceV::VectorMeta => exists|e: EngineError| #[trigger]
            call_ensures(C::vector_meta, (codec, &entry.1), Err(e)),
        PlaceV::Node { .. } => exists|e: EngineError| #[trigger] call_ensures(C::node, (codec, &entry.1), Err(e)),
        PlaceV::Posting { .. } => exists|e: EngineError| #[trigger] call_ensures(C::posting, (codec, &entry.1), Err(e)),
        PlaceV::DocTerms { .. } => exists|e: EngineError| #[trigger]
            call_ensures(C::docterms, (codec, &entry.1), Err(e)),
        PlaceV::Stats { .. } => exists|e: EngineError| #[trigger] call_ensures(C::fts_stats, (codec, &entry.1), Err(e)),
        PlaceV::Entity { .. } => exists|e: EngineError| #[trigger] call_ensures(C::entity, (codec, &entry.1), Err(e)),
        PlaceV::Edge { .. } => exists|e: EngineError| #[trigger] call_ensures(C::edge, (codec, &entry.1), Err(e)),
    }
}

/// Where every reserved entry parses and decodes, a parse tells nothing.
pub proof fn nothing_is_told_of_good_entries<C: IndexCodec>(
    codec: &C,
    fts: FtsPrefixes,
    kv: Seq<(Key, Value)>,
    n: int,
    dir: Seq<char>,
    t: Tally,
    v: ViewV,
    u: Tally,
)
    requires
        0 <= n <= kv.len(),
        forall|e: int| 0 <= e < n ==> !is_bad_entry(codec, fts, #[trigger] kv[e]),
        parses(codec, fts, kv, n, dir, t, v, u),
    ensures
        u == t,
    decreases n,
{
    if n > 0 {
        let (mid, m) = choose|mid: ViewV, m: Tally|
            parses(codec, fts, kv, n - 1, dir, t, mid, m) && #[trigger] takes(
                codec,
                fts,
                &kv[n - 1].0,
                &kv[n - 1].1,
                dir,
                mid,
                m,
                v,
                u,
            );
        nothing_is_told_of_good_entries(codec, fts, kv, n - 1, dir, t, mid, m);
        assert(!is_bad_entry(codec, fts, kv[n - 1]));
    }
}

/// What a view holds is what the entries hold: of each reserved entry the view
/// has the row that its key and its value say, or it is told not to parse or not
/// to decode; every row is some entry's; and every table is in order.
pub proof fn a_view_holds_what_the_entries_hold<C: IndexCodec>(
    codec: &C,
    fts: FtsPrefixes,
    kv: Seq<(Key, Value)>,
    dir: Seq<char>,
    t: Tally,
    v: ViewV,
    u: Tally,
)
    requires
        keys_differ(kv),
        parses(codec, fts, kv, kv.len() as int, dir, t, v, u),
    ensures
        is_in_order(v),
        forall|e: int|
            0 <= e < kv.len() ==> {
                &&& record_taken(codec, fts, #[trigger] kv[e], v.records, u.errors, dir)
                &&& mapping_taken(codec, fts, kv[e], v.vecmap, u.errors, dir)
                &&& node_taken(codec, fts, kv[e], v.nodes, u.errors, dir)
                &&& posting_taken(codec, fts, kv[e], v.postings, u.errors, dir)
                &&& document_taken(codec, fts, kv[e], v.docterms, u.errors, dir)
                &&& statistics_taken(codec, fts, kv[e], v.fts_stats, u.warnings, dir)
                &&& entity_taken(codec, fts, kv[e], v.entities, u.errors, dir)
                &&& edge_taken(codec, fts, kv[e], v.edges, u.errors, dir)
                &&& single_taken(codec, fts, kv[e], v, u.errors, u.warnings, dir)
            },
        forall|i: int|
            0 <= i < v.records.len() ==> has_record_entry(codec, fts, kv, kv.len() as int, #[trigger] v.records[i]),
        forall|i: int|
            0 <= i < v.vecmap.len() ==> has_mapping_entry(codec, fts, kv, kv.len() as int, #[trigger] v.vecmap[i]),
        forall|i: int|
            0 <= i < v.nodes.len() ==> has_node_entry(codec, fts, kv, kv.len() as int, #[trigger] v.nodes[i]),
        forall|i: int|
            0 <= i < v.postings.len() ==> has_posting_entry(codec, fts, kv, kv.len() as int, #[trigger] v.postings[i]),
        forall|i: int|
            0 <= i < v.docterms.len() ==> has_document_entry(codec, fts, kv, kv.len() as int, #[trigger] v.docterms[i]),
        forall|i: int|
            0 <= i < v.fts_stats.len() ==> has_statistics_entry(
                codec,
                fts,
                kv,
                kv.len() as int,
                #[trigger] v.fts_stats[i],
            ),
        forall|i: int|
            0 <= i < v.entities.len() ==> has_entity_entry(codec, fts, kv, kv.len() as int, #[trigger] v.entities[i]),
        forall|i: int|
            0 <= i < v.edges.len() ==> has_edge_entry(codec, fts, kv, kv.len() as int, #[trigger] v.edges[i]),
        has_single_entry(codec, kv, kv.len() as int, v),
{
    let n = kv.len() as int;
    lemma_record_rows(codec, fts, kv, n, dir, t, v, u);
    lemma_mapping_rows(codec, fts, kv, n, dir, t, v, u);
    lemma_node_rows(codec, fts, kv, n, dir, t, v, u);
    lemma_posting_rows(codec, fts, kv, n, dir, t, v, u);
    lemma_document_rows(codec, fts, kv, n, dir, t, v, u);
    lemma_statistics_rows(codec, fts, kv, n, dir, t, v, u);
    lemma_entity_rows(codec, fts, kv, n, dir, t, v, u);
    lemma_edge_rows(codec, fts, kv, n, dir, t, v, u);
    lemma_singles(codec, fts, kv, n, dir, t, v, u);
}

/// Full-text keys lie in a space of their own, under three prefixes none of
/// which is under another.
pub open spec fn has_own_space(fts: FtsPrefixes) -> bool {
    &&& is_text_prefix(fts.postings@)
    &&& is_text_prefix(fts.docterms@)
    &&& is_text_prefix(fts.stats@)
    &&& forall|key: Seq<u8>| #[trigger] has_prefix(key, fts.docterms@) ==> !has_prefix(key, fts.postings@)
    &&& forall|key: Seq<u8>| #[trigger]
        has_prefix(key, fts.stats@) ==> !has_prefix(key, fts.postings@) && !has_prefix(key, fts.docterms@)
}

/// A reserved prefix that is neither of the memory nor of the vector index.
pub open spec fn is_text_prefix(prefix: Seq<u8>) -> bool {
    has_prefix(prefix, IDX_PREFIX@) && prefix.len() > 4 && prefix[4] != 0x6d && prefix[4] != 0x76
}

proof fn lemma_text_space(prefix: Seq<u8>, tail: Seq<u8>)
    requires
        is_text_prefix(prefix),
    ensures
        ({
            let key = prefix + tail;
            &&& has_prefix(key, prefix)
            &&& after(key, prefix) == tail
            &&& key != memory_index::META_KEY@
            &&& key != vector_index::META_KEY@
            &&& !has_prefix(key, memory_index::RECORD_PREFIX@)
            &&& !has_prefix(key, memory_index::VECMAP_PREFIX@)
            &&& !has_prefix(key, vector_index::NODE_PREFIX@)
        }),
{
    let key = prefix + tail;
    bytes::lemma_prefix_concat(prefix, tail);
    assert(after(key, prefix) =~= tail);
    assert(key[4] == prefix[4]);
    assert(memory_index::META_KEY@[4] == 0x6d && vector_index::META_KEY@[4] == 0x76);
    assert(memory_index::RECORD_PREFIX@[4] == 0x6d && memory_index::VECMAP_PREFIX@[4] == 0x6d);
    assert(vector_index::NODE_PREFIX@[4] == 0x76);
    if has_prefix(key, memory_index::RECORD_PREFIX@) {
        assert(key.subrange(0, 15)[4] == key[4]);
    }
    if has_prefix(key, memory_index::VECMAP_PREFIX@) {
        assert(key.subrange(0, 18)[4] == key[4]);
    }
    if has_prefix(key, vector_index::NODE_PREFIX@) {
        assert(key.subrange(0, 16)[4] == key[4]);
    }
}

proof fn lemma_text_back(t: Seq<char>, rest: Seq<u8>)
    requires
        field_fits(utf8(t)),
    ensures
        taken_text(len_prefixed(utf8(t)) + rest) == Some((t, rest)),
{
    super::laws::a_written_field_is_taken_back(utf8(t), rest);
    text::lemma_utf8_roundtrip(t);
}

/// The keys of postings, documents and statistics parse back to what they were
/// made of.
pub proof fn written_text_keys_parse_back(agent: Seq<char>, term: Seq<char>, vec_id: u64, fts: FtsPrefixes)
    requires
        has_own_space(fts),
        field_fits(utf8(agent)),
        field_fits(utf8(term)),
    ensures
        place_of(key_of(PlaceV::Posting { agent, term, vec_id }, fts), fts) == (PlaceV::Posting { agent, term, vec_id }),
        place_of(key_of(PlaceV::DocTerms { agent, vec_id }, fts), fts) == (PlaceV::DocTerms { agent, vec_id }),
        place_of(key_of(PlaceV::Stats { agent }, fts), fts) == (PlaceV::Stats { agent }),
{
    bytes::lemma_be64(vec_id);
    let number = be_bytes(vec_id as nat, 8);
    let named = len_prefixed(utf8(term)) + number;
    let posting = len_prefixed(utf8(agent)) + named;
    let document = len_prefixed(utf8(agent)) + number;
    let statistics = len_prefixed(utf8(agent));
    lemma_text_space(fts.postings@, posting);
    lemma_text_space(fts.docterms@, document);
    lemma_text_space(fts.stats@, statistics);
    lemma_text_back(agent, named);
    lemma_text_back(term, number);
    lemma_text_back(agent, number);
    lemma_text_back(agent, Seq::empty());
    assert(statistics + Seq::<u8>::empty() =~= statistics);
    assert(has_prefix(fts.docterms@ + document, fts.docterms@));
    assert(has_prefix(fts.stats@ + statistics, fts.stats@));
}

} // verus!
