use basemyai_engine::key::{graph_index, memory_index, vector_index, Key};


#[test]
fn ordering_is_lexicographic_on_raw_bytes() {
    let a = Key::from(&b"aa"[..]);
    let b = Key::from(&b"ab"[..]);
    assert!(a < b);
}

#[test]
fn vector_node_key_roundtrips_the_id() {
    let key = vector_index::node_key(0xDEAD_BEEF_0042_1337);
    assert!(key.as_bytes().starts_with(&vector_index::NODE_PREFIX));
    assert_eq!(vector_index::node_id(key.as_bytes()), Some(0xDEAD_BEEF_0042_1337));
}

#[test]
fn vector_node_keys_sort_in_id_order() {
    let a = vector_index::node_key(1);
    let b = vector_index::node_key(2);
    let big = vector_index::node_key(u64::from(u32::MAX) + 1);
    assert!(a < b);
    assert!(b < big);
}

#[test]
fn vector_node_id_rejects_foreign_and_malformed_keys() {
    assert_eq!(vector_index::node_id(b"idx/vector/meta"), None);
    assert_eq!(vector_index::node_id(b"idx/vector/node/short"), None);
    assert_eq!(vector_index::node_id(b"unrelated"), None);
}

#[test]
fn vector_meta_key_is_inside_the_reserved_prefix() {
    let meta = vector_index::meta_key();
    assert!(meta.as_bytes().starts_with(&vector_index::INDEX_PREFIX));
    // meta sorts before every node key, keeping the index range contiguous.
    assert!(meta < vector_index::node_key(0));
}

#[test]
fn graph_entity_key_roundtrips_and_scopes_by_agent() {
    let key = graph_index::entity_key("agent-a", "alice").expect("encode");
    assert!(key.as_bytes().starts_with(&graph_index::ENTITY_PREFIX));
    let prefix = graph_index::entity_agent_prefix("agent-a").expect("prefix");
    assert!(key.as_bytes().starts_with(&prefix[..]));
    // A different agent's prefix must not match, even with a shared
    // textual prefix ("agent-a" vs "agent-ab") — the length prefix on
    // `agent` is exactly what prevents that collision.
    let other_prefix = graph_index::entity_agent_prefix("agent-ab").expect("prefix");
    assert!(!key.as_bytes().starts_with(&other_prefix[..]));
}

#[test]
fn graph_entity_keys_do_not_collide_across_agent_id_boundary() {
    // agent="ab", id="c" vs agent="a", id="bc" — without the length
    // prefix on `agent` both would encode to the same bytes.
    let a = graph_index::entity_key("ab", "c").expect("encode");
    let b = graph_index::entity_key("a", "bc").expect("encode");
    assert_ne!(a.as_bytes(), b.as_bytes());
}

#[test]
fn graph_edge_key_roundtrips_relation_and_dst() {
    let agent = "agent-a";
    let src = "alice";
    let prefix = graph_index::edge_src_prefix(agent, src).expect("prefix");
    let key = graph_index::edge_key(agent, src, "employeur", "acme").expect("encode");
    assert!(key.as_bytes().starts_with(&prefix[..]));
    let (relation, dst) = graph_index::edge_relation_dst(prefix.len(), key.as_bytes()).expect("decode");
    assert_eq!(relation, "employeur");
    assert_eq!(dst, "acme");
}

#[test]
fn graph_edge_src_prefix_scopes_by_source_node() {
    let agent = "agent-a";
    let key_from_alice = graph_index::edge_key(agent, "alice", "rel", "bob").expect("encode");
    let prefix_for_bob = graph_index::edge_src_prefix(agent, "bob").expect("prefix");
    assert!(!key_from_alice.as_bytes().starts_with(&prefix_for_bob[..]));
    let prefix_for_alice = graph_index::edge_src_prefix(agent, "alice").expect("prefix");
    assert!(key_from_alice.as_bytes().starts_with(&prefix_for_alice[..]));
}

#[test]
fn graph_edge_relation_dst_rejects_truncated_and_foreign_keys() {
    let prefix = graph_index::edge_src_prefix("a", "src").expect("prefix");
    assert_eq!(graph_index::edge_relation_dst(prefix.len(), prefix.as_slice()), None);
    assert_eq!(graph_index::edge_relation_dst(prefix.len(), b"short"), None);
    // A relation_len claiming more bytes than actually follow.
    let mut lying = prefix.clone();
    lying.extend_from_slice(&u32::MAX.to_be_bytes());
    lying.extend_from_slice(b"x");
    assert_eq!(graph_index::edge_relation_dst(prefix.len(), &lying), None);
}

#[test]
fn memory_record_key_roundtrips_and_scopes_by_agent() {
    let key = memory_index::record_key("agent-a", "m1").expect("encode");
    assert!(key.as_bytes().starts_with(&memory_index::RECORD_PREFIX));
    let prefix = memory_index::record_agent_prefix("agent-a").expect("prefix");
    assert!(key.as_bytes().starts_with(&prefix[..]));
    assert_eq!(
        memory_index::record_id(prefix.len(), key.as_bytes()),
        Some("m1".to_string())
    );
    // Same shared-textual-prefix trap as the graph keys.
    let other_prefix = memory_index::record_agent_prefix("agent-ab").expect("prefix");
    assert!(!key.as_bytes().starts_with(&other_prefix[..]));
}

#[test]
fn memory_record_keys_do_not_collide_across_agent_id_boundary() {
    let a = memory_index::record_key("ab", "c").expect("encode");
    let b = memory_index::record_key("a", "bc").expect("encode");
    assert_ne!(a.as_bytes(), b.as_bytes());
}

#[test]
fn memory_record_id_rejects_foreign_and_undersized_keys() {
    let prefix = memory_index::record_agent_prefix("agent-a").expect("prefix");
    assert_eq!(memory_index::record_id(prefix.len(), b"unrelated"), None);
    assert_eq!(memory_index::record_id(prefix.len(), &memory_index::META_KEY), None);
    // A key shorter than the prefix it was allegedly scanned under.
    assert_eq!(memory_index::record_id(prefix.len(), &memory_index::RECORD_PREFIX), None);
}

#[test]
fn memory_vecmap_key_roundtrips_the_id_and_sorts_numerically() {
    let key = memory_index::vecmap_key(0xDEAD_BEEF);
    assert!(key.as_bytes().starts_with(&memory_index::VECMAP_PREFIX));
    assert_eq!(memory_index::vecmap_id(key.as_bytes()), Some(0xDEAD_BEEF));
    assert!(memory_index::vecmap_key(1) < memory_index::vecmap_key(2));
    assert!(memory_index::vecmap_key(2) < memory_index::vecmap_key(u64::from(u32::MAX) + 1));
    assert_eq!(memory_index::vecmap_id(b"idx/memory/meta"), None);
    assert_eq!(memory_index::vecmap_id(b"idx/memory/vecmap/short"), None);
}

#[test]
fn memory_meta_key_is_inside_the_reserved_prefix() {
    let meta = memory_index::meta_key();
    assert!(meta.as_bytes().starts_with(&memory_index::INDEX_PREFIX));
}

#[test]
fn constants_spell_their_prefixes() {
    assert_eq!(&vector_index::INDEX_PREFIX[..], b"idx/vector/");
    assert_eq!(&vector_index::NODE_PREFIX[..], b"idx/vector/node/");
    assert_eq!(&vector_index::META_KEY[..], b"idx/vector/meta");
    assert_eq!(&graph_index::INDEX_PREFIX[..], b"idx/graph/");
    assert_eq!(&graph_index::ENTITY_PREFIX[..], b"idx/graph/entity/");
    assert_eq!(&graph_index::EDGE_PREFIX[..], b"idx/graph/edge/");
    assert_eq!(&memory_index::INDEX_PREFIX[..], b"idx/memory/");
    assert_eq!(&memory_index::RECORD_PREFIX[..], b"idx/memory/rec/");
    assert_eq!(&memory_index::VECMAP_PREFIX[..], b"idx/memory/vecmap/");
    assert_eq!(&memory_index::META_KEY[..], b"idx/memory/meta");
}

#[test]
fn node_key_has_exact_bytes() {
    let mut expected = b"idx/vector/node/".to_vec();
    expected.extend_from_slice(&0x0102_0304_0506_0708u64.to_be_bytes());
    assert_eq!(vector_index::node_key(0x0102_0304_0506_0708).into_bytes(), expected);
}

#[test]
fn edge_key_has_exact_bytes() {
    let key = graph_index::edge_key("ab", "c", "rel", "dst").expect("encode");
    assert_eq!(
        key.as_bytes(),
        b"idx/graph/edge/\x00\x00\x00\x02ab\x00\x00\x00\x01c\x00\x00\x00\x03reldst"
    );
    let agent = graph_index::edge_agent_prefix("ab").expect("prefix");
    assert!(key.as_bytes().starts_with(&agent));
}

#[test]
fn entity_id_gives_back_the_id_and_refuses_bad_utf8() {
    let prefix = graph_index::entity_agent_prefix("agent").expect("prefix");
    let key = graph_index::entity_key("agent", "\u{e9}lan").expect("encode");
    assert_eq!(
        graph_index::entity_id(prefix.len(), key.as_bytes()),
        Some("\u{e9}lan".to_string())
    );
    let mut bad = prefix.clone();
    bad.push(0xff);
    assert_eq!(graph_index::entity_id(prefix.len(), &bad), None);
    assert_eq!(graph_index::entity_id(prefix.len(), b"idx/graph/edge/"), None);
}

#[test]
fn edge_relation_dst_refuses_bad_utf8() {
    let prefix = graph_index::edge_src_prefix("a", "s").expect("prefix");
    let mut bad = prefix.clone();
    bad.extend_from_slice(&1u32.to_be_bytes());
    bad.push(0xff);
    bad.push(b'x');
    assert_eq!(graph_index::edge_relation_dst(prefix.len(), &bad), None);
}

#[test]
fn key_conversions_keep_the_bytes() {
    let key = Key::new(vec![3, 1, 2]);
    assert_eq!(key.as_ref(), &[3u8, 1, 2][..]);
    assert_eq!(key.clone(), Key::from(vec![3u8, 1, 2]));
    assert_ne!(key, Key::from(&[3u8, 1][..]));
    assert!(Key::from(&[3u8, 1][..]) < key);
    assert_eq!(key.into_bytes(), vec![3, 1, 2]);
}
