//! The keyspace of the memory index, `idx/memory/`.
//!
//! * `idx/memory/meta` is the allocator's metadata record;
//! * `idx/memory/rec/<agent_len: u32 BE><agent><id>` is one memory record,
//!   its agent behind its length as in [`super::graph_index`];
//! * `idx/memory/vecmap/<vec_id: u64 BE>` maps a vector id back to its record.
use super::{field_fits, len_prefixed, Key};
use crate::bytes;
use crate::bytes::{be_bytes, be_value, bytes_lt, has_prefix};
use crate::error::EngineError;
use crate::text;
use crate::text::{text_of, utf8, utf8_text};
use vstd::prelude::*;

verus! {

/// `idx/memory/`: the prefix of every key of the index.
pub const INDEX_PREFIX: [u8; 11] = [
    0x69, 0x64, 0x78, 0x2f, 0x6d, 0x65, 0x6d, 0x6f, 0x72, 0x79, 0x2f,
];

/// `idx/memory/rec/`: the prefix of every memory-record key.
pub const RECORD_PREFIX: [u8; 15] = [
    0x69, 0x64, 0x78, 0x2f, 0x6d, 0x65, 0x6d, 0x6f, 0x72, 0x79, 0x2f, 0x72,
    0x65, 0x63, 0x2f,
];

/// `idx/memory/vecmap/`: the prefix of every vector-id mapping key.
pub const VECMAP_PREFIX: [u8; 18] = [
    0x69, 0x64, 0x78, 0x2f, 0x6d, 0x65, 0x6d, 0x6f, 0x72, 0x79, 0x2f, 0x76,
    0x65, 0x63, 0x6d, 0x61, 0x70, 0x2f,
];

/// `idx/memory/meta`: the key of the allocator's metadata record.
pub const META_KEY: [u8; 15] = [
    0x69, 0x64, 0x78, 0x2f, 0x6d, 0x65, 0x6d, 0x6f, 0x72, 0x79, 0x2f, 0x6d,
    0x65, 0x74, 0x61,
];

/// The prefix of every memory record of `agent`.
pub open spec fn record_agent_prefix_bytes(agent: Seq<char>) -> Seq<u8> {
    RECORD_PREFIX@ + len_prefixed(utf8(agent))
}

/// The key of memory record `(agent, id)`.
pub open spec fn record_key_bytes(agent: Seq<char>, id: Seq<char>) -> Seq<u8> {
    record_agent_prefix_bytes(agent) + utf8(id)
}

/// The record id that follows the first `prefix_len` bytes of a record key.
pub open spec fn record_id_of(prefix_len: nat, key: Seq<u8>) -> Option<Seq<char>> {
    if has_prefix(key, RECORD_PREFIX@) && prefix_len <= key.len() {
        utf8_text(key.subrange(prefix_len as int, key.len() as int))
    } else {
        None
    }
}

/// The key of the mapping of vector `vec_id`.
pub open spec fn vecmap_key_bytes(vec_id: u64) -> Seq<u8> {
    VECMAP_PREFIX@ + be_bytes(vec_id as nat, 8)
}

/// The vector id that a mapping key names: the eight bytes after its prefix.
pub open spec fn vecmap_id_of(key: Seq<u8>) -> Option<u64> {
    if has_prefix(key, VECMAP_PREFIX@) && key.len() == VECMAP_PREFIX@.len() + 8 {
        Some(be_value(key.subrange(VECMAP_PREFIX@.len() as int, key.len() as int)) as u64)
    } else {
        None
    }
}

/// `r` is the refusal of a field of `len` bytes.
pub open spec fn too_long<T>(r: Result<T, EngineError>, field: Seq<char>, len: nat) -> bool {
    r matches Err(EngineError::MemoryKeyTooLong { field: f, len: l }) && f@ == field && l == len
}

/// Appends `bytes` behind its 32-bit length; a length that does not fit is
/// refused, never truncated.
fn push_len_prefixed(buf: &mut Vec<u8>, field: &'static str, bytes: &[u8]) -> (r: Result<(), EngineError>)
    ensures
        field_fits(bytes@) ==> r is Ok && final(buf)@ == old(buf)@ + len_prefixed(bytes@),
        !field_fits(bytes@) ==> too_long(r, field@, bytes@.len()) && final(buf)@ == old(buf)@,
{
    let len: usize = bytes.len();
    if len as u64 > u32::MAX as u64 {
        return Err(EngineError::MemoryKeyTooLong { field, len });
    }
    let prefix = bytes::to_be(len as u64, 4);
    bytes::push_all(buf, prefix.as_slice());
    bytes::push_all(buf, bytes);
    assert(buf@ =~= old(buf)@ + len_prefixed(bytes@));
    Ok(())
}

/// The prefix that scans every memory record of `agent`.
pub fn record_agent_prefix(agent: &str) -> (r: Result<Vec<u8>, EngineError>)
    ensures
        field_fits(utf8(agent@)) ==> (r matches Ok(p) && p@ == record_agent_prefix_bytes(agent@)),
        !field_fits(utf8(agent@)) ==> too_long(r, "agent"@, utf8(agent@).len()),
{
    let mut buf: Vec<u8> = bytes::copy(&RECORD_PREFIX);
    match push_len_prefixed(&mut buf, "agent", agent.as_bytes()) {
        Ok(()) => Ok(buf),
        Err(e) => Err(e),
    }
}

/// The key of memory record `(agent, id)`.
pub fn record_key(agent: &str, id: &str) -> (r: Result<Key, EngineError>)
    ensures
        field_fits(utf8(agent@)) ==> (r matches Ok(k) && k@ == record_key_bytes(agent@, id@)),
        !field_fits(utf8(agent@)) ==> too_long(r, "agent"@, utf8(agent@).len()),
{
    match record_agent_prefix(agent) {
        Ok(mut buf) => {
            bytes::push_all(&mut buf, id.as_bytes());
            Ok(Key::new(buf))
        },
        Err(e) => Err(e),
    }
}

/// The record id of a key that was scanned under an agent prefix of
/// `prefix_len` bytes; `None` for a malformed or foreign key.
#[must_use]
pub fn record_id(prefix_len: usize, key_bytes: &[u8]) -> (id: Option<String>)
    ensures
        text_of(id) == record_id_of(prefix_len as nat, key_bytes@),
{
    if !bytes::starts_with(key_bytes, &RECORD_PREFIX) || key_bytes.len() < prefix_len {
        return None;
    }
    let suffix = vstd::slice::slice_subrange(key_bytes, prefix_len, key_bytes.len());
    text::from_utf8(bytes::copy(suffix))
}

/// The key of the mapping of vector `vec_id`.
#[must_use]
pub fn vecmap_key(vec_id: u64) -> (key: Key)
    ensures
        key@ == vecmap_key_bytes(vec_id),
{
    let mut buf: Vec<u8> = bytes::copy(&VECMAP_PREFIX);
    let suffix = bytes::to_be(vec_id, 8);
    bytes::push_all(&mut buf, suffix.as_slice());
    Key::new(buf)
}

/// The vector id that a mapping key names; `None` for a foreign or malformed
/// key.
#[must_use]
pub fn vecmap_id(key_bytes: &[u8]) -> (id: Option<u64>)
    ensures
        id == vecmap_id_of(key_bytes@),
{
    if bytes::starts_with(key_bytes, &VECMAP_PREFIX) && key_bytes.len() == 26 {
        Some(bytes::from_be(vstd::slice::slice_subrange(key_bytes, 18, 26)))
    } else {
        None
    }
}

/// The key of the allocator's metadata record.
#[must_use]
pub fn meta_key() -> (key: Key)
    ensures
        key@ == META_KEY@,
{
    Key::new(bytes::copy(&META_KEY))
}

/// `record_id` gives back the id that `record_key` was made of.
pub proof fn record_key_roundtrips(agent: Seq<char>, id: Seq<char>)
    ensures
        has_prefix(record_key_bytes(agent, id), RECORD_PREFIX@),
        has_prefix(record_key_bytes(agent, id), record_agent_prefix_bytes(agent)),
        record_id_of(record_agent_prefix_bytes(agent).len(), record_key_bytes(agent, id)) == Some(id),
{
    let prefix = record_agent_prefix_bytes(agent);
    bytes::lemma_prefix_concat(prefix, utf8(id));
    assert(record_key_bytes(agent, id).subrange(0, RECORD_PREFIX@.len() as int) =~= RECORD_PREFIX@);
    text::lemma_utf8_roundtrip(id);
}

/// A scan of one agent's records meets that agent's records and no others.
pub proof fn record_prefix_scopes_by_agent(agent: Seq<char>, id: Seq<char>, other: Seq<char>)
    requires
        field_fits(utf8(agent)),
        field_fits(utf8(other)),
    ensures
        has_prefix(record_key_bytes(agent, id), record_agent_prefix_bytes(other)) <==> agent == other,
{
    super::lemma_len_prefixed_unambiguous(RECORD_PREFIX@, utf8(agent), utf8(id), utf8(other));
    text::lemma_utf8_injective(agent, other);
}

/// Two records share a key only if they are the same record.
pub proof fn record_keys_do_not_collide(
    agent: Seq<char>,
    id: Seq<char>,
    other_agent: Seq<char>,
    other_id: Seq<char>,
)
    requires
        field_fits(utf8(agent)),
        field_fits(utf8(other_agent)),
    ensures
        record_key_bytes(agent, id) == record_key_bytes(other_agent, other_id) <==> agent == other_agent && id
            == other_id,
{
    record_key_roundtrips(agent, id);
    record_key_roundtrips(other_agent, other_id);
    record_prefix_scopes_by_agent(agent, id, other_agent);
}

/// `vecmap_id` is the inverse of `vecmap_key`.
pub proof fn vecmap_key_roundtrips(vec_id: u64)
    ensures
        has_prefix(vecmap_key_bytes(vec_id), VECMAP_PREFIX@),
        vecmap_id_of(vecmap_key_bytes(vec_id)) == Some(vec_id),
{
    bytes::lemma_be64(vec_id);
    bytes::lemma_prefix_concat(VECMAP_PREFIX@, be_bytes(vec_id as nat, 8));
}

/// A key that names a vector id is that id's mapping key, and no other key is.
pub proof fn vecmap_id_is_exact(key: Seq<u8>, vec_id: u64)
    ensures
        vecmap_id_of(key) == Some(vec_id) <==> key == vecmap_key_bytes(vec_id),
{
    vecmap_key_roundtrips(vec_id);
    if vecmap_id_of(key) == Some(vec_id) {
        let tail = key.subrange(18, 26);
        bytes::lemma_be_fits(tail);
        bytes::lemma_be_value_roundtrip(tail);
        assert(key =~= VECMAP_PREFIX@ + tail);
    }
}

/// Mapping keys sort in vector-id order.
pub proof fn vecmap_keys_sort_in_id_order(a: u64, b: u64)
    ensures
        bytes_lt(vecmap_key_bytes(a), vecmap_key_bytes(b)) <==> a < b,
{
    bytes::lemma_be64(a);
    bytes::lemma_be64(b);
    bytes::lemma_be_order(a as nat, b as nat, 8);
    bytes::lemma_lt_under_prefix(VECMAP_PREFIX@, be_bytes(a as nat, 8), be_bytes(b as nat, 8));
}

/// Every key of the index lies inside the reserved prefix, and none of the
/// three kinds is mistaken for another.
pub proof fn keyspaces_are_reserved_and_disjoint(agent: Seq<char>, id: Seq<char>, vec_id: u64)
    ensures
        has_prefix(META_KEY@, INDEX_PREFIX@),
        has_prefix(record_key_bytes(agent, id), INDEX_PREFIX@),
        has_prefix(vecmap_key_bytes(vec_id), INDEX_PREFIX@),
        !has_prefix(META_KEY@, RECORD_PREFIX@),
        !has_prefix(META_KEY@, VECMAP_PREFIX@),
        !has_prefix(record_key_bytes(agent, id), VECMAP_PREFIX@),
        !has_prefix(vecmap_key_bytes(vec_id), RECORD_PREFIX@),
        record_key_bytes(agent, id) != META_KEY@,
        vecmap_key_bytes(vec_id) != META_KEY@,
{
    let record = record_key_bytes(agent, id);
    let vecmap = vecmap_key_bytes(vec_id);
    assert(META_KEY@.subrange(0, 11) =~= INDEX_PREFIX@);
    assert(record.subrange(0, 11) =~= INDEX_PREFIX@);
    assert(vecmap.subrange(0, 11) =~= INDEX_PREFIX@);
    assert(record[11] == RECORD_PREFIX@[11]);
    assert(vecmap[11] == VECMAP_PREFIX@[11]);
    if has_prefix(META_KEY@, RECORD_PREFIX@) {
        assert(META_KEY@.subrange(0, 15)[11] == META_KEY@[11]);
    }
    if has_prefix(record, VECMAP_PREFIX@) {
        assert(record.subrange(0, 18)[11] == record[11]);
    }
    if has_prefix(vecmap, RECORD_PREFIX@) {
        assert(vecmap.subrange(0, 15)[11] == vecmap[11]);
    }
}

} // verus!
