//! What a bloom filter is worth: room for its keys, and a denial for what was
//! never put in.
use super::bloom::{is_with_key, probe, Bloom, BLOOM_MAX_KEYS, BLOOM_NUM_HASHES};
use vstd::prelude::*;

verus! {

/// A new filter has ten bits for each key that it is made for, no fewer than
/// sixty-four, in whole bytes, and none to spare.
pub proof fn a_filter_has_ten_bits_for_each_key(keys: usize, bloom: Bloom)
    requires
        call_ensures(Bloom::new, (keys,), bloom),
        keys <= BLOOM_MAX_KEYS,
    ensures
        bloom.spec_num_bits() >= 10 * keys,
        bloom.spec_num_bits() >= 64,
        bloom.spec_num_bits() % 8 == 0,
        bloom.spec_num_bits() < 10 * keys + 8 || bloom.spec_num_bits() == 64,
        bloom.spec_bits().len() * 8 == bloom.spec_num_bits(),
{
}

/// A new filter denies every key.
pub proof fn a_new_filter_denies_every_key(keys: usize, bloom: Bloom, key: Seq<u8>)
    requires
        call_ensures(Bloom::new, (keys,), bloom),
    ensures
        !bloom.may_contain(key),
{
    bloom.lemma_some_bits();
    let b = probe(key, bloom.spec_num_bits(), 0);
    assert(b < bloom.spec_num_bits());
    assert(!bloom.is_set(b));
}

/// A filter asks a key with the same bits that it was put in with, and one key
/// more changes no other bit: a key is admitted only if every one of its bits
/// was set by some key.
pub proof fn a_filter_admits_by_bits_that_were_set(before: Bloom, after: Bloom, key: Seq<u8>, other: Seq<u8>)
    requires
        before.wf(),
        after.wf(),
        is_with_key(before, after, key),
    ensures
        after.may_contain(key),
        before.may_contain(other) ==> after.may_contain(other),
        after.may_contain(other) ==> forall|i: u64|
            i < BLOOM_NUM_HASHES ==> before.is_set(#[trigger] probe(other, before.spec_num_bits(), i)) || exists|j: u64|
                j < BLOOM_NUM_HASHES && #[trigger] probe(key, before.spec_num_bits(), j) == probe(
                    other,
                    before.spec_num_bits(),
                    i,
                ),
{
    before.lemma_some_bits();
    let n = before.spec_num_bits();
    assert forall|i: u64| i < BLOOM_NUM_HASHES implies #[trigger] probe(key, n, i) < n && probe(other, n, i) < n by {}
    assert forall|i: u64| i < BLOOM_NUM_HASHES implies after.is_set(#[trigger] probe(key, after.spec_num_bits(), i)) by {
        let b = probe(key, n, i);
        assert(after.is_set(b));
    }
    if before.may_contain(other) {
        assert forall|i: u64| i < BLOOM_NUM_HASHES implies after.is_set(
            #[trigger] probe(other, after.spec_num_bits(), i),
        ) by {
            assert(before.is_set(probe(other, n, i)));
        }
    }
    if after.may_contain(other) {
        assert forall|i: u64| i < BLOOM_NUM_HASHES implies before.is_set(#[trigger] probe(other, n, i))
            || exists|j: u64|
            j < BLOOM_NUM_HASHES && #[trigger] probe(key, n, j) == probe(other, n, i) by {
            let b = probe(other, n, i);
            assert(after.is_set(probe(other, after.spec_num_bits(), i)));
            assert(after.is_set(b));
        }
    }
}

} // verus!
