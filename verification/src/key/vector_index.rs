//! The keyspace of the vector index, `idx/vector/`.
//!
//! * `idx/vector/meta` is the index's metadata record;
//! * `idx/vector/node/<id: 8 bytes, big-endian>` is one node per vector, so
//!   that a scan of the node prefix runs in ascending id order.
//!
//! `meta` sorts before `node/`: the whole index is one contiguous key range.
use super::Key;
use crate::bytes;
use crate::bytes::{be_bytes, be_value, bytes_lt, has_prefix};
use vstd::prelude::*;

verus! {

/// `idx/vector/`: the prefix of every key of the index.
pub const INDEX_PREFIX: [u8; 11] = [
    0x69, 0x64, 0x78, 0x2f, 0x76, 0x65, 0x63, 0x74, 0x6f, 0x72, 0x2f,
];

/// `idx/vector/node/`: the prefix of every node key.
pub const NODE_PREFIX: [u8; 16] = [
    0x69, 0x64, 0x78, 0x2f, 0x76, 0x65, 0x63, 0x74, 0x6f, 0x72, 0x2f, 0x6e,
    0x6f, 0x64, 0x65, 0x2f,
];

/// `idx/vector/meta`: the key of the metadata record.
pub const META_KEY: [u8; 15] = [
    0x69, 0x64, 0x78, 0x2f, 0x76, 0x65, 0x63, 0x74, 0x6f, 0x72, 0x2f, 0x6d,
    0x65, 0x74, 0x61,
];

/// The bytes of the node key of vector `id`.
pub open spec fn node_key_bytes(id: u64) -> Seq<u8> {
    NODE_PREFIX@ + be_bytes(id as nat, 8)
}

/// The id that a node key names: the eight bytes after the node prefix.
pub open spec fn node_id_of(key: Seq<u8>) -> Option<u64> {
    if has_prefix(key, NODE_PREFIX@) && key.len() == NODE_PREFIX@.len() + 8 {
        Some(be_value(key.subrange(NODE_PREFIX@.len() as int, key.len() as int)) as u64)
    } else {
        None
    }
}

/// Key of the node of vector `id`.
#[must_use]
pub fn node_key(id: u64) -> (key: Key)
    ensures
        key@ == node_key_bytes(id),
{
    let mut buf: Vec<u8> = bytes::copy(&NODE_PREFIX);
    let suffix = bytes::to_be(id, 8);
    bytes::push_all(&mut buf, suffix.as_slice());
    Key::new(buf)
}

/// Key of the index's metadata record.
#[must_use]
pub fn meta_key() -> (key: Key)
    ensures
        key@ == META_KEY@,
{
    Key::new(bytes::copy(&META_KEY))
}

/// The id that a node key names; `None` for a key outside the node keyspace
/// or with a malformed suffix.
#[must_use]
pub fn node_id(key_bytes: &[u8]) -> (id: Option<u64>)
    ensures
        id == node_id_of(key_bytes@),
{
    if bytes::starts_with(key_bytes, &NODE_PREFIX) && key_bytes.len() == 24 {
        Some(bytes::from_be(vstd::slice::slice_subrange(key_bytes, 16, 24)))
    } else {
        None
    }
}

/// `node_id` is the inverse of `node_key`.
pub proof fn node_key_roundtrips(id: u64)
    ensures
        has_prefix(node_key_bytes(id), NODE_PREFIX@),
        node_id_of(node_key_bytes(id)) == Some(id),
{
    bytes::lemma_be64(id);
    bytes::lemma_prefix_concat(NODE_PREFIX@, be_bytes(id as nat, 8));
}

/// A key that names an id is that id's node key, and no other key is.
pub proof fn node_id_is_exact(key: Seq<u8>, id: u64)
    ensures
        node_id_of(key) == Some(id) <==> key == node_key_bytes(id),
{
    node_key_roundtrips(id);
    if node_id_of(key) == Some(id) {
        let tail = key.subrange(16, 24);
        bytes::lemma_be_fits(tail);
        bytes::lemma_be_value_roundtrip(tail);
        assert(key =~= NODE_PREFIX@ + tail);
    }
}

/// Node keys sort in id order.
pub proof fn node_keys_sort_in_id_order(a: u64, b: u64)
    ensures
        bytes_lt(node_key_bytes(a), node_key_bytes(b)) <==> a < b,
{
    bytes::lemma_be64(a);
    bytes::lemma_be64(b);
    bytes::lemma_be_order(a as nat, b as nat, 8);
    bytes::lemma_lt_under_prefix(NODE_PREFIX@, be_bytes(a as nat, 8), be_bytes(b as nat, 8));
}

/// The metadata record lies inside the reserved prefix and sorts before every
/// node key.
pub proof fn meta_precedes_every_node(id: u64)
    ensures
        has_prefix(META_KEY@, INDEX_PREFIX@),
        has_prefix(node_key_bytes(id), INDEX_PREFIX@),
        bytes_lt(META_KEY@, node_key_bytes(id)),
{
    reveal(bytes_lt);
    let node = node_key_bytes(id);
    assert(META_KEY@.subrange(0, 11) =~= INDEX_PREFIX@);
    assert(node.subrange(0, 11) =~= INDEX_PREFIX@);
    assert(bytes::lt_at(META_KEY@, node, 11));
}

} // verus!
