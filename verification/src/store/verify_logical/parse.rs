//! One pass over the live entries: every reserved key is parsed and its value
//! decoded; what does not parse or decode is reported on the way. Keys outside
//! the reserved space are nobody's business here.
use super::table::{placed, put_row};
use super::{
    edges_of, no_view, terms_of, DocRow, DocV, EdgeRow, EdgeV, EntityRow, EntityV, FtsPrefixes, FtsStats, IndexCodec,
    LogicalView, MemoryRecord, NodeRow, NodeV, PostingRow, PostingV, RecordRow, RecordV, StatsRow, StatsV, TermCount,
    VecMapEntry, VecMapRow, VecMapV, VectorIndexMeta, VectorNode, ViewV,
};
use crate::bytes;
use crate::bytes::{be_value, has_prefix};
use crate::error::EngineError;
use crate::key::{graph_index, memory_index, vector_index, Key};
use crate::store::verify::{IssueKind, Tally, VerifyReport};
use crate::store::Value;
use crate::text;
use crate::text::{lossy_text, quoted_text, utf8_text};
use vstd::prelude::*;

verus! {

/// `idx/`: the prefix of every reserved key.
pub const IDX_PREFIX: [u8; 4] = [0x69, 0x64, 0x78, 0x2f];

/// The field behind its 32-bit length, and what follows it.
pub open spec fn taken(buf: Seq<u8>) -> Option<(Seq<u8>, Seq<u8>)> {
    if buf.len() < 4 {
        None
    } else {
        let len = be_value(buf.subrange(0, 4)) as int;
        if 4 + len > buf.len() {
            None
        } else {
            Some((buf.subrange(4, 4 + len), buf.subrange(4 + len, buf.len() as int)))
        }
    }
}

/// The text behind its 32-bit length, and what follows it.
pub open spec fn taken_text(buf: Seq<u8>) -> Option<(Seq<char>, Seq<u8>)> {
    match taken(buf) {
        Some((field, rest)) => match utf8_text(field) {
            Some(text) => Some((text, rest)),
            None => None,
        },
        None => None,
    }
}

/// The number that exactly eight bytes write.
pub open spec fn taken_u64(buf: Seq<u8>) -> Option<u64> {
    if buf.len() == 8 {
        Some(be_value(buf) as u64)
    } else {
        None
    }
}

/// A text behind its length, then a text to the end.
pub open spec fn taken_pair(buf: Seq<u8>) -> Option<(Seq<char>, Seq<char>)> {
    match taken_text(buf) {
        Some((first, rest)) => match utf8_text(rest) {
            Some(second) => Some((first, second)),
            None => None,
        },
        None => None,
    }
}

/// Splits one field off `buf`. The length is held against what is there
/// before anything is cut.
pub fn take_len_prefixed(buf: &[u8]) -> (r: Option<(&[u8], &[u8])>)
    ensures
        match r {
            Some((field, rest)) => taken(buf@) == Some((field@, rest@)),
            None => taken(buf@) is None,
        },
{
    if buf.len() < 4 {
        return None;
    }
    let len: u64 = bytes::from_be(vstd::slice::slice_subrange(buf, 0, 4));
    if len > (buf.len() - 4) as u64 {
        return None;
    }
    let end: usize = 4 + len as usize;
    Some((vstd::slice::slice_subrange(buf, 4, end), vstd::slice::slice_subrange(buf, end, buf.len())))
}

/// Splits one text off `buf`.
pub fn take_str(buf: &[u8]) -> (r: Option<(String, &[u8])>)
    ensures
        match r {
            Some((text, rest)) => taken_text(buf@) == Some((text@, rest@)),
            None => taken_text(buf@) is None,
        },
{
    match take_len_prefixed(buf) {
        None => None,
        Some((field, rest)) => match text::from_utf8(bytes::copy(field)) {
            Some(s) => Some((s, rest)),
            None => None,
        },
    }
}

/// The number that exactly eight bytes write.
pub fn take_u64(buf: &[u8]) -> (r: Option<u64>)
    ensures
        r == taken_u64(buf@),
{
    if buf.len() == 8 {
        Some(bytes::from_be(buf))
    } else {
        None
    }
}

/// A text behind its length, then a text to the end.
pub fn take_pair(buf: &[u8]) -> (r: Option<(String, String)>)
    ensures
        match r {
            Some((first, second)) => taken_pair(buf@) == Some((first@, second@)),
            None => taken_pair(buf@) is None,
        },
{
    match take_str(buf) {
        None => None,
        Some((first, rest)) => match text::from_utf8(bytes::copy(rest)) {
            Some(second) => Some((first, second)),
            None => None,
        },
    }
}

/// What a reserved key names.
#[derive(Debug)]
pub enum Place {
    Malformed,
    MemoryMeta,
    Record { agent: String, id: String },
    VecMap { vec_id: u64 },
    VectorMeta,
    Node { node: u64 },
    Posting { agent: String, term: String, vec_id: u64 },
    DocTerms { agent: String, vec_id: u64 },
    Stats { agent: String },
    Entity { agent: String, id: String },
    Edge { agent: String, src: String, relation: String, dst: String },
}

/// What a reserved key names.
pub enum PlaceV {
    Malformed,
    MemoryMeta,
    Record { agent: Seq<char>, id: Seq<char> },
    VecMap { vec_id: u64 },
    VectorMeta,
    Node { node: u64 },
    Posting { agent: Seq<char>, term: Seq<char>, vec_id: u64 },
    DocTerms { agent: Seq<char>, vec_id: u64 },
    Stats { agent: Seq<char> },
    Entity { agent: Seq<char>, id: Seq<char> },
    Edge { agent: Seq<char>, src: Seq<char>, relation: Seq<char>, dst: Seq<char> },
}

impl Place {
    /// What the place says.
    pub open spec fn says(&self) -> PlaceV {
        match self {
            Place::Malformed => PlaceV::Malformed,
            Place::MemoryMeta => PlaceV::MemoryMeta,
            Place::Record { agent, id } => PlaceV::Record { agent: agent@, id: id@ },
            Place::VecMap { vec_id } => PlaceV::VecMap { vec_id: *vec_id },
            Place::VectorMeta => PlaceV::VectorMeta,
            Place::Node { node } => PlaceV::Node { node: *node },
            Place::Posting { agent, term, vec_id } => PlaceV::Posting { agent: agent@, term: term@, vec_id: *vec_id },
            Place::DocTerms { agent, vec_id } => PlaceV::DocTerms { agent: agent@, vec_id: *vec_id },
            Place::Stats { agent } => PlaceV::Stats { agent: agent@ },
            Place::Entity { agent, id } => PlaceV::Entity { agent: agent@, id: id@ },
            Place::Edge { agent, src, relation, dst } =>
                PlaceV::Edge { agent: agent@, src: src@, relation: relation@, dst: dst@ },
        }
    }
}

/// What follows a prefix.
pub open spec fn after(key: Seq<u8>, prefix: Seq<u8>) -> Seq<u8> {
    key.subrange(prefix.len() as int, key.len() as int)
}

/// What an agent's document key names, past its prefix.
pub open spec fn docterms_place(suffix: Seq<u8>) -> PlaceV {
    match taken_text(suffix) {
        Some((agent, rest)) => match taken_u64(rest) {
            Some(vec_id) => PlaceV::DocTerms { agent, vec_id },
            None => PlaceV::Malformed,
        },
        None => PlaceV::Malformed,
    }
}

/// What a posting key names, past its prefix.
pub open spec fn posting_place(suffix: Seq<u8>) -> PlaceV {
    match taken_text(suffix) {
        Some((agent, rest)) => match taken_text(rest) {
            Some((term, rest)) => match taken_u64(rest) {
                Some(vec_id) => PlaceV::Posting { agent, term, vec_id },
                None => PlaceV::Malformed,
            },
            None => PlaceV::Malformed,
        },
        None => PlaceV::Malformed,
    }
}

/// What an edge key names, past its prefix.
pub open spec fn edge_place(suffix: Seq<u8>) -> PlaceV {
    match taken_text(suffix) {
        Some((agent, rest)) => match taken_text(rest) {
            Some((src, rest)) => match taken_pair(rest) {
                Some((relation, dst)) => PlaceV::Edge { agent, src, relation, dst },
                None => PlaceV::Malformed,
            },
            None => PlaceV::Malformed,
        },
        None => PlaceV::Malformed,
    }
}

/// What a statistics key names, past its prefix.
pub open spec fn stats_place(suffix: Seq<u8>) -> PlaceV {
    match taken_text(suffix) {
        Some((agent, rest)) => if rest.len() == 0 {
            PlaceV::Stats { agent }
        } else {
            PlaceV::Malformed
        },
        None => PlaceV::Malformed,
    }
}

/// What a reserved key names, by the layout of the keyspace that it lies in.
pub open spec fn place_of(key: Seq<u8>, fts: FtsPrefixes) -> PlaceV {
    if key == memory_index::META_KEY@ {
        PlaceV::MemoryMeta
    } else if has_prefix(key, memory_index::RECORD_PREFIX@) {
        match taken_pair(after(key, memory_index::RECORD_PREFIX@)) {
            Some((agent, id)) => PlaceV::Record { agent, id },
            None => PlaceV::Malformed,
        }
    } else if has_prefix(key, memory_index::VECMAP_PREFIX@) {
        match taken_u64(after(key, memory_index::VECMAP_PREFIX@)) {
            Some(vec_id) => PlaceV::VecMap { vec_id },
            None => PlaceV::Malformed,
        }
    } else if key == vector_index::META_KEY@ {
        PlaceV::VectorMeta
    } else if has_prefix(key, vector_index::NODE_PREFIX@) {
        match taken_u64(after(key, vector_index::NODE_PREFIX@)) {
            Some(node) => PlaceV::Node { node },
            None => PlaceV::Malformed,
        }
    } else if has_prefix(key, fts.postings@) {
        posting_place(after(key, fts.postings@))
    } else if has_prefix(key, fts.docterms@) {
        docterms_place(after(key, fts.docterms@))
    } else if has_prefix(key, fts.stats@) {
        stats_place(after(key, fts.stats@))
    } else if has_prefix(key, graph_index::ENTITY_PREFIX@) {
        match taken_pair(after(key, graph_index::ENTITY_PREFIX@)) {
            Some((agent, id)) => PlaceV::Entity { agent, id },
            None => PlaceV::Malformed,
        }
    } else if has_prefix(key, graph_index::EDGE_PREFIX@) {
        edge_place(after(key, graph_index::EDGE_PREFIX@))
    } else {
        PlaceV::Malformed
    }
}

fn suffix<'a>(key: &'a [u8], prefix: &[u8]) -> (r: &'a [u8])
    requires
        has_prefix(key@, prefix@),
    ensures
        r@ == after(key@, prefix@),
{
    vstd::slice::slice_subrange(key, prefix.len(), key.len())
}

fn parse_posting(buf: &[u8]) -> (place: Place)
    ensures
        place.says() == posting_place(buf@),
{
    match take_str(buf) {
        Some((agent, rest)) => match take_str(rest) {
            Some((term, rest)) => match take_u64(rest) {
                Some(vec_id) => Place::Posting { agent, term, vec_id },
                None => Place::Malformed,
            },
            None => Place::Malformed,
        },
        None => Place::Malformed,
    }
}

fn parse_docterms(buf: &[u8]) -> (place: Place)
    ensures
        place.says() == docterms_place(buf@),
{
    match take_str(buf) {
        Some((agent, rest)) => match take_u64(rest) {
            Some(vec_id) => Place::DocTerms { agent, vec_id },
            None => Place::Malformed,
        },
        None => Place::Malformed,
    }
}

fn parse_stats(buf: &[u8]) -> (place: Place)
    ensures
        place.says() == stats_place(buf@),
{
    match take_str(buf) {
        Some((agent, rest)) => if rest.len() == 0 {
            Place::Stats { agent }
        } else {
            Place::Malformed
        },
        None => Place::Malformed,
    }
}

fn parse_edge(buf: &[u8]) -> (place: Place)
    ensures
        place.says() == edge_place(buf@),
{
    match take_str(buf) {
        Some((agent, rest)) => match take_str(rest) {
            Some((src, rest)) => match take_pair(rest) {
                Some((relation, dst)) => Place::Edge { agent, src, relation, dst },
                None => Place::Malformed,
            },
            None => Place::Malformed,
        },
        None => Place::Malformed,
    }
}

/// What a reserved key names.
pub fn parse_key(key: &[u8], fts: &FtsPrefixes) -> (place: Place)
    ensures
        place.says() == place_of(key@, *fts),
{
    if bytes::eq(key, &memory_index::META_KEY) {
        Place::MemoryMeta
    } else if bytes::starts_with(key, &memory_index::RECORD_PREFIX) {
        match take_pair(suffix(key, &memory_index::RECORD_PREFIX)) {
            Some((agent, id)) => Place::Record { agent, id },
            None => Place::Malformed,
        }
    } else if bytes::starts_with(key, &memory_index::VECMAP_PREFIX) {
        match take_u64(suffix(key, &memory_index::VECMAP_PREFIX)) {
            Some(vec_id) => Place::VecMap { vec_id },
            None => Place::Malformed,
        }
    } else if bytes::eq(key, &vector_index::META_KEY) {
        Place::VectorMeta
    } else if bytes::starts_with(key, &vector_index::NODE_PREFIX) {
        match take_u64(suffix(key, &vector_index::NODE_PREFIX)) {
            Some(node) => Place::Node { node },
            None => Place::Malformed,
        }
    } else if bytes::starts_with(key, fts.postings.as_slice()) {
        parse_posting(suffix(key, fts.postings.as_slice()))
    } else if bytes::starts_with(key, fts.docterms.as_slice()) {
        parse_docterms(suffix(key, fts.docterms.as_slice()))
    } else if bytes::starts_with(key, fts.stats.as_slice()) {
        parse_stats(suffix(key, fts.stats.as_slice()))
    } else if bytes::starts_with(key, &graph_index::ENTITY_PREFIX) {
        match take_pair(suffix(key, &graph_index::ENTITY_PREFIX)) {
            Some((agent, id)) => Place::Entity { agent, id },
            None => Place::Malformed,
        }
    } else if bytes::starts_with(key, &graph_index::EDGE_PREFIX) {
        parse_edge(suffix(key, &graph_index::EDGE_PREFIX))
    } else {
        Place::Malformed
    }
}

/// A key as a diagnosis shows it.
pub open spec fn shown_key(key: Seq<u8>) -> Seq<char> {
    quoted_text(lossy_text(key))
}

/// A key as a diagnosis shows it.
pub fn show_key(key: &[u8]) -> (s: String)
    ensures
        s@ == shown_key(key@),
{
    text::quoted(text::lossy(key).as_str())
}

/// The diagnosis of a key, shown as `shown`, that does not parse.
pub open spec fn malformed_text(shown: Seq<char>) -> Seq<char> {
    "key "@ + shown + " sits in a reserved idx/ keyspace but does not parse against its layout"@
}

/// The diagnosis of a value, at the key shown as `shown`, that does not
/// decode.
pub open spec fn corrupt_text(what: Seq<char>, shown: Seq<char>, why: Seq<char>) -> Seq<char> {
    what + " at key "@ + shown + ": "@ + why
}

/// The diagnosis of a key, shown as `shown`, that does not parse.
pub fn malformed_detail(shown: &str) -> (s: String)
    ensures
        s@ == malformed_text(shown@),
{
    String::from_str("key ").concat(shown).concat(
        " sits in a reserved idx/ keyspace but does not parse against its layout",
    )
}

/// The diagnosis of a value, at the key shown as `shown`, that does not
/// decode.
pub fn corrupt_detail(what: &str, shown: &str, why: &str) -> (s: String)
    ensures
        s@ == corrupt_text(what@, shown@, why@),
{
    String::from_str(what).concat(" at key ").concat(shown).concat(": ").concat(why)
}

/// What taking up the memory allocator metadata at `key` does.
pub open spec fn takes_memory_meta<C: IndexCodec>(
    codec: &C,
    value: &Value,
    key: Seq<u8>,
    dir: Seq<char>,
    before: ViewV,
    t: Tally,
    after: ViewV,
    u: Tally,
) -> bool {
    exists|r: Result<u64, EngineError>|
        #[trigger] call_ensures(C::memory_meta, (codec, value), r) && match r {
            Ok(d) => after == (ViewV { memory_meta: Some(d), ..before }) && u == t,
            Err(e) => {
                &&& after == before
                &&& u == t.with_error(
                    IssueKind::IdxValueCorrupt,
                    dir,
                    corrupt_text("memory allocator metadata"@, shown_key(key), e.text()),
                )
            },
        }
}

fn take_memory_meta<C: IndexCodec>(
    codec: &C,
    value: &Value,
    key: &Key,
    dir: &str,
    view: &mut LogicalView,
    report: &mut VerifyReport,
)
    requires
        old(view).wf(),
    ensures
        final(view).wf(),
        takes_memory_meta(
            codec,
            value,
            key@,
            dir@,
            old(view).says(),
            old(report).tally(),
            final(view).says(),
            final(report).tally(),
        ),
{
    let r = codec.memory_meta(value);
    assert(call_ensures(C::memory_meta, (codec, value), r));
    match r {
        Ok(d) => {
                view.memory_meta = Some(d);
        },
        Err(e) => {
                let shown = show_key(key.as_bytes());
                report.error(
                    IssueKind::IdxValueCorrupt,
                    dir,
                    corrupt_detail("memory allocator metadata", shown.as_str(), e.message().as_str()),
                );
        },
    }
}

/// What taking up the memory record at `key` does.
pub open spec fn takes_record<C: IndexCodec>(
    codec: &C,
    agent: Seq<char>,
    id: Seq<char>,
    value: &Value,
    key: Seq<u8>,
    dir: Seq<char>,
    before: ViewV,
    t: Tally,
    after: ViewV,
    u: Tally,
) -> bool {
    exists|r: Result<MemoryRecord, EngineError>|
        #[trigger] call_ensures(C::record, (codec, value), r) && match r {
            Ok(d) =>
                after == (ViewV { records: placed::<RecordRow>(before.records, RecordV { agent, id, vec_id: d.vec_id }), ..before })
                    && u == t,
            Err(e) => {
                &&& after == before
                &&& u == t.with_error(
                    IssueKind::IdxValueCorrupt,
                    dir,
                    corrupt_text("memory record"@, shown_key(key), e.text()),
                )
            },
        }
}

fn take_record<C: IndexCodec>(
    codec: &C,
    agent: String,
    id: String,
    value: &Value,
    key: &Key,
    dir: &str,
    view: &mut LogicalView,
    report: &mut VerifyReport,
)
    requires
        old(view).wf(),
    ensures
        final(view).wf(),
        takes_record(
            codec,
            agent@,
            id@,
            value,
            key@,
            dir@,
            old(view).says(),
            old(report).tally(),
            final(view).says(),
            final(report).tally(),
        ),
{
    let r = codec.record(value);
    assert(call_ensures(C::record, (codec, value), r));
    match r {
        Ok(d) => {
                put_row(&mut view.records, RecordRow { agent, id, vec_id: d.vec_id });
        },
        Err(e) => {
                let shown = show_key(key.as_bytes());
                report.error(
                    IssueKind::IdxValueCorrupt,
                    dir,
                    corrupt_detail("memory record", shown.as_str(), e.message().as_str()),
                );
        },
    }
}

/// What taking up the memory vecmap entry at `key` does.
pub open spec fn takes_vecmap<C: IndexCodec>(
    codec: &C,
    vec_id: u64,
    value: &Value,
    key: Seq<u8>,
    dir: Seq<char>,
    before: ViewV,
    t: Tally,
    after: ViewV,
    u: Tally,
) -> bool {
    exists|r: Result<VecMapEntry, EngineError>|
        #[trigger] call_ensures(C::vecmap, (codec, value), r) && match r {
            Ok(d) =>
                after == (ViewV { vecmap: placed::<VecMapRow>(before.vecmap, VecMapV { vec_id, agent: d.agent@, id: d.id@ }), ..before })
                    && u == t,
            Err(e) => {
                &&& after == before
                &&& u == t.with_error(
                    IssueKind::IdxValueCorrupt,
                    dir,
                    corrupt_text("memory vecmap entry"@, shown_key(key), e.text()),
                )
            },
        }
}

fn take_vecmap<C: IndexCodec>(
    codec: &C,
    vec_id: u64,
    value: &Value,
    key: &Key,
    dir: &str,
    view: &mut LogicalView,
    report: &mut VerifyReport,
)
    requires
        old(view).wf(),
    ensures
        final(view).wf(),
        takes_vecmap(
            codec,
            vec_id,
            value,
            key@,
            dir@,
            old(view).says(),
            old(report).tally(),
            final(view).says(),
            final(report).tally(),
        ),
{
    let r = codec.vecmap(value);
    assert(call_ensures(C::vecmap, (codec, value), r));
    match r {
        Ok(d) => {
                put_row(&mut view.vecmap, VecMapRow { vec_id, agent: d.agent, id: d.id });
        },
        Err(e) => {
                let shown = show_key(key.as_bytes());
                report.error(
                    IssueKind::IdxValueCorrupt,
                    dir,
                    corrupt_detail("memory vecmap entry", shown.as_str(), e.message().as_str()),
                );
        },
    }
}

/// What taking up the vector meta at `key` does.
pub open spec fn takes_vector_meta<C: IndexCodec>(
    codec: &C,
    value: &Value,
    dir: Seq<char>,
    before: ViewV,
    t: Tally,
    after: ViewV,
    u: Tally,
) -> bool {
    exists|r: Result<VectorIndexMeta, EngineError>|
        #[trigger] call_ensures(C::vector_meta, (codec, value), r) && match r {
            Ok(d) => after == (ViewV { vector_meta: Some(d), ..before }) && u == t,
            Err(e) => {
                &&& after == before
                &&& u == t.with_warning(
                    IssueKind::VectorMetaInconsistent,
                    dir,
                    "vector index metadata is corrupt (rebuilt from data at the next open): "@ + e.text(),
                )
            },
        }
}

fn take_vector_meta<C: IndexCodec>(
    codec: &C,
    value: &Value,
    dir: &str,
    view: &mut LogicalView,
    report: &mut VerifyReport,
)
    requires
        old(view).wf(),
    ensures
        final(view).wf(),
        takes_vector_meta(
            codec,
            value,
            dir@,
            old(view).says(),
            old(report).tally(),
            final(view).says(),
            final(report).tally(),
        ),
{
    let r = codec.vector_meta(value);
    assert(call_ensures(C::vector_meta, (codec, value), r));
    match r {
        Ok(d) => {
                view.vector_meta = Some(d);
        },
        Err(e) => {
                report.warning(
                    IssueKind::VectorMetaInconsistent,
                    dir,
                    String::from_str(
                        "vector index metadata is corrupt (rebuilt from data at the next open): ",
                    ).concat(e.message().as_str()),
                );
        },
    }
}

/// What taking up the vector node at `key` does.
pub open spec fn takes_node<C: IndexCodec>(
    codec: &C,
    id: u64,
    value: &Value,
    key: Seq<u8>,
    dir: Seq<char>,
    before: ViewV,
    t: Tally,
    after: ViewV,
    u: Tally,
) -> bool {
    exists|r: Result<VectorNode, EngineError>|
        #[trigger] call_ensures(C::node, (codec, value), r) && match r {
            Ok(d) =>
                after == (ViewV { nodes: placed::<NodeRow>(before.nodes, NodeV { id, dim: d.dim, neighbors: d.neighbors@, deleted: d.deleted }), ..before })
                    && u == t,
            Err(e) => {
                &&& after == before
                &&& u == t.with_error(
                    IssueKind::IdxValueCorrupt,
                    dir,
                    corrupt_text("vector node"@, shown_key(key), e.text()),
                )
            },
        }
}

fn take_node<C: IndexCodec>(
    codec: &C,
    id: u64,
    value: &Value,
    key: &Key,
    dir: &str,
    view: &mut LogicalView,
    report: &mut VerifyReport,
)
    requires
        old(view).wf(),
    ensures
        final(view).wf(),
        takes_node(
            codec,
            id,
            value,
            key@,
            dir@,
            old(view).says(),
            old(report).tally(),
            final(view).says(),
            final(report).tally(),
        ),
{
    let r = codec.node(value);
    assert(call_ensures(C::node, (codec, value), r));
    match r {
        Ok(d) => {
                put_row(&mut view.nodes, NodeRow { id, dim: d.dim, neighbors: d.neighbors, deleted: d.deleted });
        },
        Err(e) => {
                let shown = show_key(key.as_bytes());
                report.error(
                    IssueKind::IdxValueCorrupt,
                    dir,
                    corrupt_detail("vector node", shown.as_str(), e.message().as_str()),
                );
        },
    }
}

/// What taking up the fts posting at `key` does.
pub open spec fn takes_posting<C: IndexCodec>(
    codec: &C,
    agent: Seq<char>,
    term: Seq<char>,
    vec_id: u64,
    value: &Value,
    key: Seq<u8>,
    dir: Seq<char>,
    before: ViewV,
    t: Tally,
    after: ViewV,
    u: Tally,
) -> bool {
    exists|r: Result<u32, EngineError>|
        #[trigger] call_ensures(C::posting, (codec, value), r) && match r {
            Ok(d) =>
                after == (ViewV { postings: placed::<PostingRow>(before.postings, PostingV { agent, term, vec_id, tf: d }), ..before })
                    && u == t,
            Err(e) => {
                &&& after == before
                &&& u == t.with_error(
                    IssueKind::IdxValueCorrupt,
                    dir,
                    corrupt_text("fts posting"@, shown_key(key), e.text()),
                )
            },
        }
}

fn take_posting<C: IndexCodec>(
    codec: &C,
    agent: String,
    term: String,
    vec_id: u64,
    value: &Value,
    key: &Key,
    dir: &str,
    view: &mut LogicalView,
    report: &mut VerifyReport,
)
    requires
        old(view).wf(),
    ensures
        final(view).wf(),
        takes_posting(
            codec,
            agent@,
            term@,
            vec_id,
            value,
            key@,
            dir@,
            old(view).says(),
            old(report).tally(),
            final(view).says(),
            final(report).tally(),
        ),
{
    let r = codec.posting(value);
    assert(call_ensures(C::posting, (codec, value), r));
    match r {
        Ok(d) => {
                put_row(&mut view.postings, PostingRow { agent, term, vec_id, tf: d });
        },
        Err(e) => {
                let shown = show_key(key.as_bytes());
                report.error(
                    IssueKind::IdxValueCorrupt,
                    dir,
                    corrupt_detail("fts posting", shown.as_str(), e.message().as_str()),
                );
        },
    }
}

/// What taking up the fts doc-terms at `key` does.
pub open spec fn takes_docterms<C: IndexCodec>(
    codec: &C,
    agent: Seq<char>,
    vec_id: u64,
    value: &Value,
    key: Seq<u8>,
    dir: Seq<char>,
    before: ViewV,
    t: Tally,
    after: ViewV,
    u: Tally,
) -> bool {
    exists|r: Result<Vec<TermCount>, EngineError>|
        #[trigger] call_ensures(C::docterms, (codec, value), r) && match r {
            Ok(d) =>
                after == (ViewV { docterms: placed::<DocRow>(before.docterms, DocV { agent, vec_id, terms: terms_of(d@) }), ..before })
                    && u == t,
            Err(e) => {
                &&& after == before
                &&& u == t.with_error(
                    IssueKind::IdxValueCorrupt,
                    dir,
                    corrupt_text("fts doc-terms"@, shown_key(key), e.text()),
                )
            },
        }
}

fn take_docterms<C: IndexCodec>(
    codec: &C,
    agent: String,
    vec_id: u64,
    value: &Value,
    key: &Key,
    dir: &str,
    view: &mut LogicalView,
    report: &mut VerifyReport,
)
    requires
        old(view).wf(),
    ensures
        final(view).wf(),
        takes_docterms(
            codec,
            agent@,
            vec_id,
            value,
            key@,
            dir@,
            old(view).says(),
            old(report).tally(),
            final(view).says(),
            final(report).tally(),
        ),
{
    let r = codec.docterms(value);
    assert(call_ensures(C::docterms, (codec, value), r));
    match r {
        Ok(d) => {
                put_row(&mut view.docterms, DocRow { agent, vec_id, terms: d });
        },
        Err(e) => {
                let shown = show_key(key.as_bytes());
                report.error(
                    IssueKind::IdxValueCorrupt,
                    dir,
                    corrupt_detail("fts doc-terms", shown.as_str(), e.message().as_str()),
                );
        },
    }
}

/// What taking up the stats at `key` does.
pub open spec fn takes_stats<C: IndexCodec>(
    codec: &C,
    agent: Seq<char>,
    value: &Value,
    dir: Seq<char>,
    before: ViewV,
    t: Tally,
    after: ViewV,
    u: Tally,
) -> bool {
    exists|r: Result<FtsStats, EngineError>|
        #[trigger] call_ensures(C::fts_stats, (codec, value), r) && match r {
            Ok(d) =>
                after == (ViewV { fts_stats: placed::<StatsRow>(before.fts_stats, StatsV { agent, stats: d }), ..before })
                    && u == t,
            Err(e) => {
                &&& after == before
                &&& u == t.with_warning(
                    IssueKind::FtsStatsInconsistent,
                    dir,
                    "fts stats record is corrupt (healed from doc-terms on the next search): "@ + e.text(),
                )
            },
        }
}

fn take_stats<C: IndexCodec>(
    codec: &C,
    agent: String,
    value: &Value,
    dir: &str,
    view: &mut LogicalView,
    report: &mut VerifyReport,
)
    requires
        old(view).wf(),
    ensures
        final(view).wf(),
        takes_stats(
            codec,
            agent@,
            value,
            dir@,
            old(view).says(),
            old(report).tally(),
            final(view).says(),
            final(report).tally(),
        ),
{
    let r = codec.fts_stats(value);
    assert(call_ensures(C::fts_stats, (codec, value), r));
    match r {
        Ok(d) => {
                put_row(&mut view.fts_stats, StatsRow { agent, stats: d });
        },
        Err(e) => {
                report.warning(
                    IssueKind::FtsStatsInconsistent,
                    dir,
                    String::from_str(
                        "fts stats record is corrupt (healed from doc-terms on the next search): ",
                    ).concat(e.message().as_str()),
                );
        },
    }
}

/// What taking up the graph entity at `key` does.
pub open spec fn takes_entity<C: IndexCodec>(
    codec: &C,
    agent: Seq<char>,
    id: Seq<char>,
    value: &Value,
    key: Seq<u8>,
    dir: Seq<char>,
    before: ViewV,
    t: Tally,
    after: ViewV,
    u: Tally,
) -> bool {
    exists|r: Result<(), EngineError>|
        #[trigger] call_ensures(C::entity, (codec, value), r) && match r {
            Ok(()) =>
                after == (ViewV { entities: placed::<EntityRow>(before.entities, EntityV { agent, id }), ..before })
                    && u == t,
            Err(e) => {
                &&& after == before
                &&& u == t.with_error(
                    IssueKind::IdxValueCorrupt,
                    dir,
                    corrupt_text("graph entity"@, shown_key(key), e.text()),
                )
            },
        }
}

fn take_entity<C: IndexCodec>(
    codec: &C,
    agent: String,
    id: String,
    value: &Value,
    key: &Key,
    dir: &str,
    view: &mut LogicalView,
    report: &mut VerifyReport,
)
    requires
        old(view).wf(),
    ensures
        final(view).wf(),
        takes_entity(
            codec,
            agent@,
            id@,
            value,
            key@,
            dir@,
            old(view).says(),
            old(report).tally(),
            final(view).says(),
            final(report).tally(),
        ),
{
    let r = codec.entity(value);
    assert(call_ensures(C::entity, (codec, value), r));
    match r {
        Ok(()) => {
                put_row(&mut view.entities, EntityRow { agent, id });
        },
        Err(e) => {
                let shown = show_key(key.as_bytes());
                report.error(
                    IssueKind::IdxValueCorrupt,
                    dir,
                    corrupt_detail("graph entity", shown.as_str(), e.message().as_str()),
                );
        },
    }
}

/// What taking up the graph edge at `key` does.
pub open spec fn takes_edge<C: IndexCodec>(
    codec: &C,
    agent: Seq<char>,
    src: Seq<char>,
    relation: Seq<char>,
    dst: Seq<char>,
    value: &Value,
    key: Seq<u8>,
    dir: Seq<char>,
    before: ViewV,
    t: Tally,
    after: ViewV,
    u: Tally,
) -> bool {
    exists|r: Result<(), EngineError>|
        #[trigger] call_ensures(C::edge, (codec, value), r) && match r {
            Ok(()) =>
                after == (ViewV { edges: before.edges.push(EdgeV { agent, src, relation, dst }), ..before }) && u == t,
            Err(e) => {
                &&& after == before
                &&& u == t.with_error(
                    IssueKind::IdxValueCorrupt,
                    dir,
                    corrupt_text("graph edge"@, shown_key(key), e.text()),
                )
            },
        }
}

fn take_edge<C: IndexCodec>(
    codec: &C,
    agent: String,
    src: String,
    relation: String,
    dst: String,
    value: &Value,
    key: &Key,
    dir: &str,
    view: &mut LogicalView,
    report: &mut VerifyReport,
)
    requires
        old(view).wf(),
    ensures
        final(view).wf(),
        takes_edge(
            codec,
            agent@,
            src@,
            relation@,
            dst@,
            value,
            key@,
            dir@,
            old(view).says(),
            old(report).tally(),
            final(view).says(),
            final(report).tally(),
        ),
{
    let r = codec.edge(value);
    assert(call_ensures(C::edge, (codec, value), r));
    match r {
        Ok(()) => {
                let ghost base = edges_of(view.edges@);
                let ghost edge = EdgeV { agent: agent@, src: src@, relation: relation@, dst: dst@ };
                view.edges.push(EdgeRow { agent, src, relation, dst });
                assert(edges_of(view.edges@) =~= base.push(edge));
        },
        Err(e) => {
                let shown = show_key(key.as_bytes());
                report.error(
                    IssueKind::IdxValueCorrupt,
                    dir,
                    corrupt_detail("graph edge", shown.as_str(), e.message().as_str()),
                );
        },
    }
}

/// What taking up one live entry does: an entry outside the reserved space is
/// passed over; a reserved one is decoded as its key says.
pub open spec fn takes<C: IndexCodec>(
    codec: &C,
    fts: FtsPrefixes,
    key: &Key,
    value: &Value,
    dir: Seq<char>,
    before: ViewV,
    t: Tally,
    after: ViewV,
    u: Tally,
) -> bool {
    if !has_prefix(key@, IDX_PREFIX@) {
        after == before && u == t
    } else {
        takes_reserved(codec, fts, key, value, dir, before, t, after, u)
    }
}

/// What taking up one reserved entry does.
pub open spec fn takes_reserved<C: IndexCodec>(
    codec: &C,
    fts: FtsPrefixes,
    key: &Key,
    value: &Value,
    dir: Seq<char>,
    before: ViewV,
    t: Tally,
    after: ViewV,
    u: Tally,
) -> bool {
    match place_of(key@, fts) {
        PlaceV::Malformed => {
            &&& after == before
            &&& u == t.with_error(IssueKind::IdxKeyMalformed, dir, malformed_text(shown_key(key@)))
        },
        PlaceV::MemoryMeta => takes_memory_meta(codec, value, key@, dir, before, t, after, u),
        PlaceV::Record { agent, id } => takes_record(codec, agent, id, value, key@, dir, before, t, after, u),
        PlaceV::VecMap { vec_id } => takes_vecmap(codec, vec_id, value, key@, dir, before, t, after, u),
        PlaceV::VectorMeta => takes_vector_meta(codec, value, dir, before, t, after, u),
        PlaceV::Node { node } => takes_node(codec, node, value, key@, dir, before, t, after, u),
        PlaceV::Posting { agent, term, vec_id } =>
            takes_posting(codec, agent, term, vec_id, value, key@, dir, before, t, after, u),
        PlaceV::DocTerms { agent, vec_id } =>
            takes_docterms(codec, agent, vec_id, value, key@, dir, before, t, after, u),
        PlaceV::Stats { agent } => takes_stats(codec, agent, value, dir, before, t, after, u),
        PlaceV::Entity { agent, id } => takes_entity(codec, agent, id, value, key@, dir, before, t, after, u),
        PlaceV::Edge { agent, src, relation, dst } =>
            takes_edge(codec, agent, src, relation, dst, value, key@, dir, before, t, after, u),
    }
}

fn take_entry<C: IndexCodec>(
    codec: &C,
    fts: &FtsPrefixes,
    key: &Key,
    value: &Value,
    dir: &str,
    view: &mut LogicalView,
    report: &mut VerifyReport,
)
    requires
        old(view).wf(),
    ensures
        final(view).wf(),
        takes_reserved(
            codec,
            *fts,
            key,
            value,
            dir@,
            old(view).says(),
            old(report).tally(),
            final(view).says(),
            final(report).tally(),
        ),
{
    match parse_key(key.as_bytes(), fts) {
        Place::Malformed => {
            let shown = show_key(key.as_bytes());
            report.error(IssueKind::IdxKeyMalformed, dir, malformed_detail(shown.as_str()));
        },
        Place::MemoryMeta => take_memory_meta(codec, value, key, dir, view, report),
        Place::Record { agent, id } => take_record(codec, agent, id, value, key, dir, view, report),
        Place::VecMap { vec_id } => take_vecmap(codec, vec_id, value, key, dir, view, report),
        Place::VectorMeta => take_vector_meta(codec, value, dir, view, report),
        Place::Node { node } => take_node(codec, node, value, key, dir, view, report),
        Place::Posting { agent, term, vec_id } =>
            take_posting(codec, agent, term, vec_id, value, key, dir, view, report),
        Place::DocTerms { agent, vec_id } => take_docterms(codec, agent, vec_id, value, key, dir, view, report),
        Place::Stats { agent } => take_stats(codec, agent, value, dir, view, report),
        Place::Entity { agent, id } => take_entity(codec, agent, id, value, key, dir, view, report),
        Place::Edge { agent, src, relation, dst } =>
            take_edge(codec, agent, src, relation, dst, value, key, dir, view, report),
    }
}

/// What parsing the first `n` live entries does, one after the other.
pub open spec fn parses<C: IndexCodec>(
    codec: &C,
    fts: FtsPrefixes,
    kv: Seq<(Key, Value)>,
    n: int,
    dir: Seq<char>,
    t: Tally,
    view: ViewV,
    u: Tally,
) -> bool
    decreases n,
{
    if n <= 0 {
        view == no_view() && u == t
    } else {
        exists|mid: ViewV, m: Tally|
            parses(codec, fts, kv, n - 1, dir, t, mid, m) && #[trigger] takes(
                codec,
                fts,
                &kv[n - 1].0,
                &kv[n - 1].1,
                dir,
                mid,
                m,
                view,
                u,
            )
    }
}

/// Parses and decodes every reserved entry.
pub fn parse_view<C: IndexCodec>(
    codec: &C,
    fts: &FtsPrefixes,
    kv: &Vec<(Key, Value)>,
    dir: &str,
    report: &mut VerifyReport,
) -> (view: LogicalView)
    ensures
        view.wf(),
        parses(
            codec,
            *fts,
            kv@,
            kv@.len() as int,
            dir@,
            old(report).tally(),
            view.says(),
            final(report).tally(),
        ),
{
    let mut view = LogicalView::new();
    let mut i: usize = 0;
    let ghost start = report.tally();
    while i < kv.len()
        invariant
            i <= kv@.len(),
            view.wf(),
            parses(codec, *fts, kv@, i as int, dir@, start, view.says(), report.tally()),
        decreases kv@.len() - i,
    {
        let ghost mid = view.says();
        let ghost m = report.tally();
        if bytes::starts_with(kv[i].0.as_bytes(), &IDX_PREFIX) {
            take_entry(codec, fts, &kv[i].0, &kv[i].1, dir, &mut view, report);
        }
        proof {
            let n = i + 1;
            assert(parses(codec, *fts, kv@, n - 1, dir@, start, mid, m));
            assert(takes(
                codec,
                *fts,
                &kv@[n - 1].0,
                &kv@[n - 1].1,
                dir@,
                mid,
                m,
                view.says(),
                report.tally(),
            ));
        }
        i = i + 1;
    }
    view
}

} // verus!
