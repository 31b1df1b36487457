//! The bloom filter of a table.
use basemyai_engine::store::sst_block::bloom::Bloom;

fn no_false_negatives() {
    let mut bloom = Bloom::new(1000);
    let keys: Vec<Vec<u8>> = (0..1000).map(|i| format!("key-{i}").into_bytes()).collect();
    for key in &keys {
        bloom.insert(key);
    }
    for key in &keys {
        assert!(bloom.contains(key), "false negative for {key:?}");
    }
}

fn roundtrips_through_wire_format() {
    let mut bloom = Bloom::new(100);
    bloom.insert(b"present");
    let filter = bloom.to_filter();
    let reloaded = Bloom::from_filter(filter);
    assert!(reloaded.contains(b"present"));
}

#[test]
fn sst_block_bloom_has_no_false_negatives() {
    no_false_negatives();
}

#[test]
fn bloom_bloom_has_no_false_negatives() {
    no_false_negatives();
}

#[test]
fn sst_block_bloom_filter_roundtrips_through_wire_format() {
    roundtrips_through_wire_format();
}

#[test]
fn bloom_bloom_filter_roundtrips_through_wire_format() {
    roundtrips_through_wire_format();
}

#[test]
fn an_empty_filter_holds_nothing() {
    let bloom = Bloom::new(10);
    assert!(!bloom.contains(b"anything"));
    assert!(!bloom.contains(b""));
}

#[test]
fn the_filter_is_sized_by_its_keys() {
    let filter = Bloom::new(1000).to_filter();
    assert_eq!(filter.num_bits, 10_000);
    assert_eq!(filter.num_hashes, 7);
    assert_eq!(filter.bits.len(), 1250);
    assert!(filter.bits.iter().all(|b| *b == 0));
}

#[test]
fn most_absent_keys_are_told_apart() {
    let mut bloom = Bloom::new(1000);
    for i in 0..1000 {
        bloom.insert(format!("key-{i}").as_bytes());
    }
    let wrong = (0..1000).filter(|i| bloom.contains(format!("absent-{i}").as_bytes())).count();
    assert!(wrong < 50, "{wrong} false positives in 1000");
}

#[test]
fn a_filter_short_of_its_bits_is_not_well_formed() {
    let mut filter = Bloom::new(100).to_filter();
    assert!(filter.is_well_formed());
    filter.bits.pop();
    assert!(!filter.is_well_formed());
}
