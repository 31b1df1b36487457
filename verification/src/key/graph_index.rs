//! The keyspace of the graph index, `idx/graph/`.
//!
//! * `idx/graph/entity/<agent_len: u32 BE><agent><id>` is one entity;
//! * `idx/graph/edge/<agent_len><agent><src_len><src><relation_len><relation><dst>`
//!   is one edge.
//!
//! Every field but the last stands behind its length, so that agent `"ab"`
//! with id `"c"` and agent `"a"` with id `"bc"` are different keys, and a scan
//! of one agent's prefix (or of one node's outgoing edges) meets no other
//! agent's keys.
use super::{field_fits, len_prefixed, Key};
use crate::bytes;
use crate::bytes::{be_bytes, be_value, has_prefix};
use crate::error::EngineError;
use crate::text;
use crate::text::{text_of, utf8, utf8_text};
use vstd::prelude::*;

verus! {

/// `idx/graph/`: the prefix of every key of the index.
pub const INDEX_PREFIX: [u8; 10] = [
    0x69, 0x64, 0x78, 0x2f, 0x67, 0x72, 0x61, 0x70, 0x68, 0x2f,
];

/// `idx/graph/entity/`: the prefix of every entity key.
pub const ENTITY_PREFIX: [u8; 17] = [
    0x69, 0x64, 0x78, 0x2f, 0x67, 0x72, 0x61, 0x70, 0x68, 0x2f, 0x65, 0x6e,
    0x74, 0x69, 0x74, 0x79, 0x2f,
];

/// `idx/graph/edge/`: the prefix of every edge key.
pub const EDGE_PREFIX: [u8; 15] = [
    0x69, 0x64, 0x78, 0x2f, 0x67, 0x72, 0x61, 0x70, 0x68, 0x2f, 0x65, 0x64,
    0x67, 0x65, 0x2f,
];

/// The prefix of every entity of `agent`.
pub open spec fn entity_agent_prefix_bytes(agent: Seq<char>) -> Seq<u8> {
    ENTITY_PREFIX@ + len_prefixed(utf8(agent))
}

/// The key of entity `(agent, id)`.
pub open spec fn entity_key_bytes(agent: Seq<char>, id: Seq<char>) -> Seq<u8> {
    entity_agent_prefix_bytes(agent) + utf8(id)
}

/// The entity id that follows the first `prefix_len` bytes of an entity key.
pub open spec fn entity_id_of(prefix_len: nat, key: Seq<u8>) -> Option<Seq<char>> {
    if has_prefix(key, ENTITY_PREFIX@) && prefix_len <= key.len() {
        utf8_text(key.subrange(prefix_len as int, key.len() as int))
    } else {
        None
    }
}

/// The prefix of every edge of `agent`.
pub open spec fn edge_agent_prefix_bytes(agent: Seq<char>) -> Seq<u8> {
    EDGE_PREFIX@ + len_prefixed(utf8(agent))
}

/// The prefix of every outgoing edge of `(agent, src)`.
pub open spec fn edge_src_prefix_bytes(agent: Seq<char>, src: Seq<char>) -> Seq<u8> {
    edge_agent_prefix_bytes(agent) + len_prefixed(utf8(src))
}

/// The key of edge `(agent, src, relation, dst)`.
pub open spec fn edge_key_bytes(
    agent: Seq<char>,
    src: Seq<char>,
    relation: Seq<char>,
    dst: Seq<char>,
) -> Seq<u8> {
    edge_src_prefix_bytes(agent, src) + len_prefixed(utf8(relation)) + utf8(dst)
}

/// The relation and destination that follow the first `prefix_len` bytes of an
/// edge key: a length-prefixed text, then a text to the end of the key.
pub open spec fn edge_relation_dst_of(prefix_len: nat, key: Seq<u8>) -> Option<(Seq<char>, Seq<char>)> {
    if prefix_len + 4 > key.len() {
        None
    } else {
        let at = (prefix_len + 4) as int;
        let relation_len = be_value(key.subrange(prefix_len as int, at)) as int;
        if at + relation_len > key.len() {
            None
        } else {
            let relation = utf8_text(key.subrange(at, at + relation_len));
            let dst = utf8_text(key.subrange(at + relation_len, key.len() as int));
            match (relation, dst) {
                (Some(relation), Some(dst)) => Some((relation, dst)),
                _ => None,
            }
        }
    }
}

/// `r` is the refusal of a field of `len` bytes.
pub open spec fn too_long<T>(r: Result<T, EngineError>, field: Seq<char>, len: nat) -> bool {
    r matches Err(EngineError::GraphKeyTooLong { field: f, len: l }) && f@ == field && l == len
}

/// Appends `bytes` behind its 32-bit length; a length that does not fit is
/// refused, never truncated.
fn push_len_prefixed(buf: &mut Vec<u8>, field: &'static str, bytes: &[u8]) -> (r: Result<(), EngineError>)
    ensures
        field_fits(bytes@) ==> r is Ok && final(buf)@ == old(buf)@ + len_prefixed(bytes@),
        !field_fits(bytes@) ==> too_long(r, field@, bytes@.len()) && final(buf)@ == old(buf)@,
{
    let len: usize = bytes.len();
    if len as u64 > u32::MAX as u64 {
        return Err(EngineError::GraphKeyTooLong { field, len });
    }
    let prefix = bytes::to_be(len as u64, 4);
    bytes::push_all(buf, prefix.as_slice());
    bytes::push_all(buf, bytes);
    assert(buf@ =~= old(buf)@ + len_prefixed(bytes@));
    Ok(())
}

/// The prefix that scans every entity of `agent`.
pub fn entity_agent_prefix(agent: &str) -> (r: Result<Vec<u8>, EngineError>)
    ensures
        field_fits(utf8(agent@)) ==> (r matches Ok(p) && p@ == entity_agent_prefix_bytes(agent@)),
        !field_fits(utf8(agent@)) ==> too_long(r, "agent"@, utf8(agent@).len()),
{
    let mut buf: Vec<u8> = bytes::copy(&ENTITY_PREFIX);
    match push_len_prefixed(&mut buf, "agent", agent.as_bytes()) {
        Ok(()) => Ok(buf),
        Err(e) => Err(e),
    }
}

/// The key of entity `(agent, id)`.
pub fn entity_key(agent: &str, id: &str) -> (r: Result<Key, EngineError>)
    ensures
        field_fits(utf8(agent@)) ==> (r matches Ok(k) && k@ == entity_key_bytes(agent@, id@)),
        !field_fits(utf8(agent@)) ==> too_long(r, "agent"@, utf8(agent@).len()),
{
    match entity_agent_prefix(agent) {
        Ok(mut buf) => {
            bytes::push_all(&mut buf, id.as_bytes());
            Ok(Key::new(buf))
        },
        Err(e) => Err(e),
    }
}

/// The entity id of a key that was scanned under an agent prefix of
/// `prefix_len` bytes; `None` for a malformed or foreign key.
#[must_use]
pub fn entity_id(prefix_len: usize, key_bytes: &[u8]) -> (id: Option<String>)
    ensures
        text_of(id) == entity_id_of(prefix_len as nat, key_bytes@),
{
    if !bytes::starts_with(key_bytes, &ENTITY_PREFIX) || key_bytes.len() < prefix_len {
        return None;
    }
    let suffix = vstd::slice::slice_subrange(key_bytes, prefix_len, key_bytes.len());
    text::from_utf8(bytes::copy(suffix))
}

/// The prefix that scans every edge of `agent`, whatever its source.
pub fn edge_agent_prefix(agent: &str) -> (r: Result<Vec<u8>, EngineError>)
    ensures
        field_fits(utf8(agent@)) ==> (r matches Ok(p) && p@ == edge_agent_prefix_bytes(agent@)),
        !field_fits(utf8(agent@)) ==> too_long(r, "agent"@, utf8(agent@).len()),
{
    let mut buf: Vec<u8> = bytes::copy(&EDGE_PREFIX);
    match push_len_prefixed(&mut buf, "agent", agent.as_bytes()) {
        Ok(()) => Ok(buf),
        Err(e) => Err(e),
    }
}

/// The prefix that scans every outgoing edge of `(agent, src)`.
pub fn edge_src_prefix(agent: &str, src: &str) -> (r: Result<Vec<u8>, EngineError>)
    ensures
        field_fits(utf8(agent@)) && field_fits(utf8(src@)) ==> (r matches Ok(p)
            && p@ == edge_src_prefix_bytes(agent@, src@)),
        !field_fits(utf8(agent@)) ==> too_long(r, "agent"@, utf8(agent@).len()),
        field_fits(utf8(agent@)) && !field_fits(utf8(src@)) ==> too_long(
            r,
            "src"@,
            utf8(src@).len(),
        ),
{
    match edge_agent_prefix(agent) {
        Ok(mut buf) => match push_len_prefixed(&mut buf, "src", src.as_bytes()) {
            Ok(()) => Ok(buf),
            Err(e) => Err(e),
        },
        Err(e) => Err(e),
    }
}

/// The key of edge `(agent, src, relation, dst)`.
pub fn edge_key(agent: &str, src: &str, relation: &str, dst: &str) -> (r: Result<Key, EngineError>)
    ensures
        field_fits(utf8(agent@)) && field_fits(utf8(src@)) && field_fits(utf8(relation@)) ==> (
        r matches Ok(k) && k@ == edge_key_bytes(agent@, src@, relation@, dst@)),
        !field_fits(utf8(agent@)) ==> too_long(r, "agent"@, utf8(agent@).len()),
        field_fits(utf8(agent@)) && !field_fits(utf8(src@)) ==> too_long(
            r,
            "src"@,
            utf8(src@).len(),
        ),
        field_fits(utf8(agent@)) && field_fits(utf8(src@)) && !field_fits(utf8(relation@))
            ==> too_long(r, "relation"@, utf8(relation@).len()),
{
    match edge_src_prefix(agent, src) {
        Ok(mut buf) => match push_len_prefixed(&mut buf, "relation", relation.as_bytes()) {
            Ok(()) => {
                bytes::push_all(&mut buf, dst.as_bytes());
                Ok(Key::new(buf))
            },
            Err(e) => Err(e),
        },
        Err(e) => Err(e),
    }
}

/// The relation and destination of an edge key that was scanned under an
/// `(agent, src)` prefix of `prefix_len` bytes. The relation's length comes
/// out of the key and is held against what the key has left before anything
/// is cut out; a truncated or malformed key gives `None`.
#[must_use]
pub fn edge_relation_dst(prefix_len: usize, key_bytes: &[u8]) -> (r: Option<(String, String)>)
    ensures
        match r {
            Some((relation, dst)) => edge_relation_dst_of(prefix_len as nat, key_bytes@) == Some(
                (relation@, dst@),
            ),
            None => edge_relation_dst_of(prefix_len as nat, key_bytes@) is None,
        },
{
    let n: usize = key_bytes.len();
    if prefix_len > n || n - prefix_len < 4 {
        return None;
    }
    let at: usize = prefix_len + 4;
    let count = vstd::slice::slice_subrange(key_bytes, prefix_len, at);
    let relation_len: u64 = bytes::from_be(count);
    if relation_len > (n - at) as u64 {
        return None;
    }
    let end: usize = at + relation_len as usize;
    let relation = text::from_utf8(bytes::copy(vstd::slice::slice_subrange(key_bytes, at, end)));
    let dst = text::from_utf8(bytes::copy(vstd::slice::slice_subrange(key_bytes, end, n)));
    match (relation, dst) {
        (Some(relation), Some(dst)) => Some((relation, dst)),
        _ => None,
    }
}

/// `entity_id` gives back the id that `entity_key` was made of.
pub proof fn entity_key_roundtrips(agent: Seq<char>, id: Seq<char>)
    ensures
        has_prefix(entity_key_bytes(agent, id), ENTITY_PREFIX@),
        has_prefix(entity_key_bytes(agent, id), entity_agent_prefix_bytes(agent)),
        entity_id_of(entity_agent_prefix_bytes(agent).len(), entity_key_bytes(agent, id)) == Some(id),
{
    let prefix = entity_agent_prefix_bytes(agent);
    bytes::lemma_prefix_concat(prefix, utf8(id));
    assert(entity_key_bytes(agent, id).subrange(0, ENTITY_PREFIX@.len() as int) =~= ENTITY_PREFIX@);
    text::lemma_utf8_roundtrip(id);
}

/// A scan of one agent's entities meets that agent's entities and no others,
/// whatever the two agents' names have in common.
pub proof fn entity_prefix_scopes_by_agent(agent: Seq<char>, id: Seq<char>, other: Seq<char>)
    requires
        field_fits(utf8(agent)),
        field_fits(utf8(other)),
    ensures
        has_prefix(entity_key_bytes(agent, id), entity_agent_prefix_bytes(other)) <==> agent == other,
{
    super::lemma_len_prefixed_unambiguous(ENTITY_PREFIX@, utf8(agent), utf8(id), utf8(other));
    text::lemma_utf8_injective(agent, other);
}

/// Two entities share a key only if they are the same entity.
pub proof fn entity_keys_do_not_collide(
    agent: Seq<char>,
    id: Seq<char>,
    other_agent: Seq<char>,
    other_id: Seq<char>,
)
    requires
        field_fits(utf8(agent)),
        field_fits(utf8(other_agent)),
    ensures
        entity_key_bytes(agent, id) == entity_key_bytes(other_agent, other_id) <==> agent == other_agent && id
            == other_id,
{
    entity_key_roundtrips(agent, id);
    entity_key_roundtrips(other_agent, other_id);
    entity_prefix_scopes_by_agent(agent, id, other_agent);
}

/// `edge_relation_dst` gives back the relation and destination that
/// `edge_key` was made of.
pub proof fn edge_key_roundtrips(
    agent: Seq<char>,
    src: Seq<char>,
    relation: Seq<char>,
    dst: Seq<char>,
)
    requires
        field_fits(utf8(relation)),
    ensures
        has_prefix(edge_key_bytes(agent, src, relation, dst), edge_src_prefix_bytes(agent, src)),
        has_prefix(edge_key_bytes(agent, src, relation, dst), edge_agent_prefix_bytes(agent)),
        edge_relation_dst_of(
            edge_src_prefix_bytes(agent, src).len(),
            edge_key_bytes(agent, src, relation, dst),
        ) == Some((relation, dst)),
{
    let prefix = edge_src_prefix_bytes(agent, src);
    let key = edge_key_bytes(agent, src, relation, dst);
    let n = prefix.len() as int;
    let field = utf8(relation);
    bytes::lemma_be32(field.len() as u32);
    assert(key.subrange(0, n) =~= prefix);
    assert(key.subrange(0, edge_agent_prefix_bytes(agent).len() as int) =~= edge_agent_prefix_bytes(agent));
    assert(key.subrange(n, n + 4) =~= be_bytes(field.len(), 4));
    assert(key.subrange(n + 4, n + 4 + field.len()) =~= field);
    assert(key.subrange(n + 4 + field.len(), key.len() as int) =~= utf8(dst));
    text::lemma_utf8_roundtrip(relation);
    text::lemma_utf8_roundtrip(dst);
}

/// A scan of one node's outgoing edges meets that node's edges and no others.
pub proof fn edge_prefix_scopes_by_source(
    agent: Seq<char>,
    src: Seq<char>,
    relation: Seq<char>,
    dst: Seq<char>,
    other_agent: Seq<char>,
    other_src: Seq<char>,
)
    requires
        field_fits(utf8(agent)),
        field_fits(utf8(src)),
        field_fits(utf8(other_agent)),
        field_fits(utf8(other_src)),
    ensures
        has_prefix(
            edge_key_bytes(agent, src, relation, dst),
            edge_src_prefix_bytes(other_agent, other_src),
        ) <==> agent == other_agent && src == other_src,
        has_prefix(edge_key_bytes(agent, src, relation, dst), edge_agent_prefix_bytes(other_agent)) <==> agent
            == other_agent,
{
    let key = edge_key_bytes(agent, src, relation, dst);
    let tail = len_prefixed(utf8(relation)) + utf8(dst);
    let after_agent = len_prefixed(utf8(src)) + tail;
    assert(key =~= EDGE_PREFIX@ + len_prefixed(utf8(agent)) + after_agent);
    super::lemma_len_prefixed_unambiguous(EDGE_PREFIX@, utf8(agent), after_agent, utf8(other_agent));
    text::lemma_utf8_injective(agent, other_agent);
    let other = edge_src_prefix_bytes(other_agent, other_src);
    if has_prefix(key, other) {
        let p = edge_agent_prefix_bytes(other_agent);
        assert(key.subrange(0, p.len() as int) =~= key.subrange(0, other.len() as int).subrange(0, p.len() as int));
        assert(other.subrange(0, p.len() as int) =~= p);
    }
    if agent == other_agent {
        assert(key =~= edge_agent_prefix_bytes(agent) + len_prefixed(utf8(src)) + tail);
        super::lemma_len_prefixed_unambiguous(edge_agent_prefix_bytes(agent), utf8(src), tail, utf8(other_src));
        text::lemma_utf8_injective(src, other_src);
    }
}

/// Two edges share a key only if they are the same edge.
pub proof fn edge_keys_do_not_collide(
    agent: Seq<char>,
    src: Seq<char>,
    relation: Seq<char>,
    dst: Seq<char>,
    other_agent: Seq<char>,
    other_src: Seq<char>,
    other_relation: Seq<char>,
    other_dst: Seq<char>,
)
    requires
        field_fits(utf8(agent)),
        field_fits(utf8(src)),
        field_fits(utf8(relation)),
        field_fits(utf8(other_agent)),
        field_fits(utf8(other_src)),
        field_fits(utf8(other_relation)),
    ensures
        edge_key_bytes(agent, src, relation, dst) == edge_key_bytes(
            other_agent,
            other_src,
            other_relation,
            other_dst,
        ) <==> agent == other_agent && src == other_src && relation == other_relation && dst == other_dst,
{
    edge_key_roundtrips(agent, src, relation, dst);
    edge_key_roundtrips(other_agent, other_src, other_relation, other_dst);
    edge_prefix_scopes_by_source(agent, src, relation, dst, other_agent, other_src);
}

} // verus!
