//! The memtable and the batch.
use basemyai_engine::key::Key;
use basemyai_engine::store::batch::Batch;
use basemyai_engine::store::engine::write::{apply_ops, replay, WalOp, WalRecord};
use basemyai_engine::store::memtable::Memtable;

#[test]
fn put_then_get() {
    let mut m = Memtable::new();
    m.put(Key::from(&b"k"[..]), b"v".to_vec());
    assert_eq!(m.get(&Key::from(&b"k"[..])), Some(Some(&b"v".to_vec())));
}

#[test]
fn delete_records_tombstone() {
    let mut m = Memtable::new();
    m.put(Key::from(&b"k"[..]), b"v".to_vec());
    m.delete(Key::from(&b"k"[..]));
    assert_eq!(m.get(&Key::from(&b"k"[..])), Some(None));
}

#[test]
fn missing_key_is_outer_none() {
    let m = Memtable::new();
    assert_eq!(m.get(&Key::from(&b"missing"[..])), None);
}

#[test]
fn iter_is_sorted_ascending() {
    let mut m = Memtable::new();
    m.put(Key::from(&b"b"[..]), b"2".to_vec());
    m.put(Key::from(&b"a"[..]), b"1".to_vec());
    let keys: Vec<_> = m.iter().iter().map(|(k, _)| k.as_bytes().to_vec()).collect();
    assert_eq!(keys, vec![b"a".to_vec(), b"b".to_vec()]);
}

#[test]
fn clearing_forgets_tombstones_too() {
    let mut m = Memtable::new();
    m.put(Key::from(&b"a"[..]), b"1".to_vec());
    m.delete(Key::from(&b"b"[..]));
    assert_eq!(m.len(), 2);
    m.clear();
    assert!(m.is_empty());
    assert_eq!(m.get(&Key::from(&b"b"[..])), None);
}

#[test]
fn a_later_operation_of_a_batch_wins() {
    let mut batch = Batch::new();
    assert!(batch.is_empty());
    batch.put(b"a", b"1");
    batch.put(b"b", b"2");
    batch.delete(b"a");
    assert_eq!(batch.len(), 3);
    let mut m = Memtable::new();
    apply_ops(&mut m, batch.ops());
    assert_eq!(m.get(&Key::from(&b"a"[..])), Some(None));
    assert_eq!(m.get(&Key::from(&b"b"[..])), Some(Some(&b"2".to_vec())));
    assert_eq!(m.len(), 2);
}

#[test]
fn batches_are_joined_in_order() {
    let mut first = Batch::new();
    first.put(b"a", b"1");
    let mut second = Batch::new();
    second.delete(b"a");
    first.extend_from(&second);
    assert_eq!(first.len(), 2);
    let mut m = Memtable::new();
    apply_ops(&mut m, first.ops());
    assert_eq!(m.get(&Key::from(&b"a"[..])), Some(None));
    assert_eq!(second.len(), 1);
}

#[test]
fn a_bigger_batch_weighs_more() {
    let mut batch = Batch::new();
    let empty = batch.approx_wire_bytes();
    batch.put(b"key", b"value");
    let one = batch.approx_wire_bytes();
    batch.delete(b"key");
    let two = batch.approx_wire_bytes();
    assert!(empty < one);
    assert_eq!(one - empty, (two - one) + 5);
}

#[test]
fn replay_applies_records_in_order() {
    let records = vec![
        WalRecord { op: WalOp::Put, key: b"a".to_vec(), value: Some(b"1".to_vec()) },
        WalRecord { op: WalOp::Put, key: b"b".to_vec(), value: None },
        WalRecord { op: WalOp::Delete, key: b"a".to_vec(), value: None },
    ];
    let m = replay(&records);
    assert_eq!(m.get(&Key::from(&b"a"[..])), Some(None));
    assert_eq!(m.get(&Key::from(&b"b"[..])), Some(Some(&Vec::new())));
}
