//! The bloom filter of a table: seven probes by double hashing,
//! `h1 + i * h2`, at ten bits per key.
//!
//! The hash function is part of the file format: a filter written with one
//! function means nothing to another. It is the standard library's default
//! hasher over the key's length (64-bit little-endian) and bytes.
use std::collections::hash_map::DefaultHasher;
use std::hash::Hasher;
use vstd::bytes::{spec_u64_to_le_bytes, u64_to_le_bytes};
use vstd::prelude::*;
use vstd::std_specs::hash::DefaultHasherAdditionalSpecFns;

verus! {

/// Bits per key: about one false positive in a hundred.
pub const BLOOM_BITS_PER_KEY: u64 = 10;

/// Probes per key.
pub const BLOOM_NUM_HASHES: u64 = 7;

/// What the second hash takes in before the key.
pub const BLOOM_SEED: u64 = 0xB10C_5EED;

/// The most keys a filter is sized for; no machine holds more.
pub const BLOOM_MAX_KEYS: usize = usize::MAX / 16;

/// The filter as it stands in a file.
#[derive(Debug)]
pub struct SstBloomFilter {
    pub num_bits: u64,
    pub num_hashes: u32,
    pub bits: Vec<u8>,
}

impl SstBloomFilter {
    /// There is at least one bit, and the bytes hold every bit.
    pub open spec fn wf(&self) -> bool {
        0 < self.num_bits && self.num_bits <= self.bits@.len() * 8
    }

    /// Whether there is at least one bit, and the bytes hold every bit.
    pub fn is_well_formed(&self) -> (r: bool)
        ensures
            r == self.wf(),
    {
        let full: u64 = self.num_bits / 8;
        let part: u64 = self.num_bits % 8;
        let len: u64 = self.bits.len() as u64;
        self.num_bits > 0 && (full < len || (full == len && part == 0))
    }
}

/// The resident filter of a table.
#[derive(Debug)]
pub struct Bloom {
    bits: Vec<u8>,
    num_bits: u64,
}

/// The two hashes of a key; the second one is odd.
pub open spec fn key_hashes(key: Seq<u8>) -> (u64, u64) {
    let len = spec_u64_to_le_bytes(key.len() as u64);
    let seed = spec_u64_to_le_bytes(BLOOM_SEED);
    (
        DefaultHasher::spec_finish(seq![len, key]),
        DefaultHasher::spec_finish(seq![seed, len, key]) | 1,
    )
}

/// The bit that probe `i` of `key` looks at.
pub open spec fn probe(key: Seq<u8>, num_bits: u64, i: u64) -> u64 {
    let (h1, h2) = key_hashes(key);
    (h1.wrapping_add(i.wrapping_mul(h2)) % num_bits) as u64
}

/// Bit `b` of `bits` is set; within a byte the lowest bit comes first.
pub open spec fn bit_is_set(bits: Seq<u8>, b: u64) -> bool {
    bits[(b / 8) as int] & (1u8 << ((b % 8) as u8)) != 0
}

/// Bit `b` is one of the bits that `key` looks at.
pub open spec fn is_probed(key: Seq<u8>, num_bits: u64, b: u64) -> bool {
    exists|i: u64| i < BLOOM_NUM_HASHES && #[trigger] probe(key, num_bits, i) == b
}

/// Number of bits of a filter for `keys` keys: ten per key, at least 64,
/// rounded up to whole bytes.
pub open spec fn sized_bits(keys: nat) -> nat {
    let wanted = if keys * 10 < 64 { 64 } else { keys * 10 };
    (wanted + 7) / 8 * 8
}

/// `after` is `before` with `key` added: the bits that `key` looks at are set
/// besides those that were.
pub open spec fn is_with_key(before: Bloom, after: Bloom, key: Seq<u8>) -> bool {
    &&& after.spec_num_bits() == before.spec_num_bits()
    &&& forall|b: u64|
        b < after.spec_num_bits() ==> (#[trigger] after.is_set(b) <==> before.is_set(b) || is_probed(
            key,
            before.spec_num_bits(),
            b,
        ))
}

proof fn lemma_set_bit(x: u8, k: u8)
    requires
        k < 8,
    ensures
        (x | (1u8 << k)) & (1u8 << k) != 0,
        forall|j: u8| j < 8 && j != k ==> ((x | (1u8 << k)) & #[trigger] (1u8 << j)) == (x & (1u8 << j)),
{
    assert((x | (1u8 << k)) & (1u8 << k) != 0) by (bit_vector)
        requires
            k < 8,
    ;
    assert forall|j: u8| j < 8 && j != k implies ((x | (1u8 << k)) & #[trigger] (1u8 << j)) == (x & (1u8
        << j)) by {
        assert(((x | (1u8 << k)) & (1u8 << j)) == (x & (1u8 << j))) by (bit_vector)
            requires
                j < 8,
                k < 8,
                j != k,
        ;
    }
}

impl Bloom {
    /// There is at least one bit, and the bytes hold every bit.
    pub closed spec fn wf(&self) -> bool {
        0 < self.num_bits && self.num_bits <= self.bits@.len() * 8
    }

    /// Number of bits.
    pub closed spec fn spec_num_bits(&self) -> u64 {
        self.num_bits
    }

    /// The bytes that hold the bits.
    pub closed spec fn spec_bits(&self) -> Seq<u8> {
        self.bits@
    }

    /// A filter is well-formed exactly if its file form is.
    pub proof fn lemma_well_formed(&self)
        ensures
            self.wf() == (0 < self.spec_num_bits() && self.spec_num_bits() <= self.spec_bits().len() * 8),
    {
    }

    /// Bit `b` is set.
    pub open spec fn is_set(&self, b: u64) -> bool {
        bit_is_set(self.spec_bits(), b)
    }

    /// The filter answers "maybe" for `key`: every probed bit is set.
    pub open spec fn may_contain(&self, key: Seq<u8>) -> bool {
        forall|i: u64| i < BLOOM_NUM_HASHES ==> self.is_set(#[trigger] probe(key, self.spec_num_bits(), i))
    }

    /// A filter that can be asked has at least one bit.
    pub proof fn lemma_some_bits(&self)
        requires
            self.wf(),
        ensures
            self.spec_num_bits() > 0,
    {
    }

    /// An empty filter sized for `expected_keys`.
    pub fn new(expected_keys: usize) -> (bloom: Bloom)
        ensures
            bloom.wf(),
            expected_keys <= BLOOM_MAX_KEYS ==> bloom.spec_num_bits() == sized_bits(expected_keys as nat),
            expected_keys > BLOOM_MAX_KEYS ==> bloom.spec_num_bits() == sized_bits(BLOOM_MAX_KEYS as nat),
            bloom.spec_bits().len() * 8 == bloom.spec_num_bits(),
            forall|b: u64| b < bloom.spec_num_bits() ==> !#[trigger] bloom.is_set(b),
    {
        let keys: usize = if expected_keys > BLOOM_MAX_KEYS {
            BLOOM_MAX_KEYS
        } else {
            expected_keys
        };
        let wanted: u64 = if keys as u64 * BLOOM_BITS_PER_KEY < 64 {
            64
        } else {
            keys as u64 * BLOOM_BITS_PER_KEY
        };
        let num_bytes: u64 = (wanted + 7) / 8;
        let bits: Vec<u8> = vec![0u8; num_bytes as usize];
        let bloom = Bloom { bits, num_bits: num_bytes * 8 };
        proof {
            assert forall|b: u64| b < bloom.spec_num_bits() implies !#[trigger] bloom.is_set(b) by {
                let mask = 1u8 << ((b % 8) as u8);
                assert(bloom.bits@[(b / 8) as int] == 0);
                assert(0u8 & mask == 0) by (bit_vector);
            }
        }
        bloom
    }

    /// The two hashes of a key.
    fn hashes(&self, key: &[u8]) -> (r: (u64, u64))
        ensures
            r == key_hashes(key@),
    {
        let len = u64_to_le_bytes(key.len() as u64);
        let mut first = DefaultHasher::new();
        first.write(len.as_slice());
        first.write(key);
        let seed = u64_to_le_bytes(BLOOM_SEED);
        let mut second = DefaultHasher::new();
        second.write(seed.as_slice());
        second.write(len.as_slice());
        second.write(key);
        proof {
            let l = spec_u64_to_le_bytes(key@.len() as u64);
            let s = spec_u64_to_le_bytes(BLOOM_SEED);
            assert(first@ =~= seq![l, key@]);
            assert(second@ =~= seq![s, l, key@]);
        }
        (first.finish(), second.finish() | 1)
    }

    /// Adds a key: sets every bit it looks at, and no other bit.
    pub fn insert(&mut self, key: &[u8])
        requires
            old(self).wf(),
        ensures
            final(self).wf(),
            final(self).spec_bits().len() == old(self).spec_bits().len(),
            is_with_key(*old(self), *final(self), key@),
    {
        let (h1, h2) = self.hashes(key);
        let mut i: u64 = 0;
        while i < BLOOM_NUM_HASHES
            invariant
                i <= BLOOM_NUM_HASHES,
                (h1, h2) == key_hashes(key@),
                self.wf(),
                self.num_bits == old(self).num_bits,
                self.bits@.len() == old(self).bits@.len(),
                forall|b: u64|
                    b < self.num_bits ==> (#[trigger] self.is_set(b) <==> old(self).is_set(b) || exists|j: u64|
                        j < i && #[trigger] probe(key@, self.num_bits, j) == b),
            decreases BLOOM_NUM_HASHES - i,
        {
            let bit: u64 = h1.wrapping_add(i.wrapping_mul(h2)) % self.num_bits;
            assert(bit / 8 < self.bits.len());
            let at: usize = (bit / 8) as usize;
            let k: u8 = (bit % 8) as u8;
            let ghost before = *self;
            let byte: u8 = self.bits[at];
            self.bits.set(at, byte | (1u8 << k));
            proof {
                lemma_set_bit(byte, k);
                assert(bit == probe(key@, self.num_bits, i));
                assert forall|b: u64| b < self.num_bits implies (#[trigger] self.is_set(b) <==> old(self).is_set(
                    b,
                ) || exists|j: u64| j < i + 1 && #[trigger] probe(key@, self.num_bits, j) == b) by {
                    let jb: u8 = (b % 8) as u8;
                    if b / 8 == bit / 8 && jb != k {
                        assert(((byte | (1u8 << k)) & (1u8 << jb)) == (byte & (1u8 << jb)));
                    }
                    assert(self.is_set(b) <==> before.is_set(b) || b == bit);
                    if before.is_set(b) && !old(self).is_set(b) {
                        let j = choose|j: u64| j < i && #[trigger] probe(key@, self.num_bits, j) == b;
                        assert(j < i + 1);
                    }
                }
            }
            i = i + 1;
        }
        proof {
            assert forall|b: u64| b < self.spec_num_bits() implies (#[trigger] self.is_set(b) <==> old(
                self,
            ).is_set(b) || is_probed(key@, old(self).spec_num_bits(), b)) by {}
        }
    }

    /// Whether the filter answers "maybe": no means that the key was never
    /// added.
    pub fn contains(&self, key: &[u8]) -> (r: bool)
        requires
            self.wf(),
        ensures
            r == self.may_contain(key@),
    {
        let (h1, h2) = self.hashes(key);
        let mut i: u64 = 0;
        while i < BLOOM_NUM_HASHES
            invariant
                i <= BLOOM_NUM_HASHES,
                (h1, h2) == key_hashes(key@),
                self.wf(),
                forall|j: u64| j < i ==> self.is_set(#[trigger] probe(key@, self.num_bits, j)),
            decreases BLOOM_NUM_HASHES - i,
        {
            let bit: u64 = h1.wrapping_add(i.wrapping_mul(h2)) % self.num_bits;
            assert(bit == probe(key@, self.num_bits, i));
            assert(bit / 8 < self.bits.len());
            let k: u8 = (bit % 8) as u8;
            if self.bits[(bit / 8) as usize] & (1u8 << k) == 0 {
                assert(!self.is_set(probe(key@, self.spec_num_bits(), i)));
                return false;
            }
            i = i + 1;
        }
        true
    }

    /// The filter as it goes into a file.
    pub fn to_filter(&self) -> (filter: SstBloomFilter)
        ensures
            filter.num_bits == self.spec_num_bits(),
            filter.num_hashes == BLOOM_NUM_HASHES,
            filter.bits@ == self.spec_bits(),
            filter.wf() == self.wf(),
    {
        SstBloomFilter {
            num_bits: self.num_bits,
            num_hashes: 7,
            bits: crate::bytes::copy(self.bits.as_slice()),
        }
    }

    /// The resident filter of what stood in a file.
    pub fn from_filter(filter: SstBloomFilter) -> (bloom: Bloom)
        ensures
            bloom.spec_num_bits() == filter.num_bits,
            bloom.spec_bits() == filter.bits@,
            bloom.wf() == filter.wf(),
    {
        Bloom { bits: filter.bits, num_bits: filter.num_bits }
    }
}

/// A key that was added is never denied, whatever is added after it.
pub proof fn no_false_negatives(before: Bloom, after: Bloom, added: Seq<u8>, key: Seq<u8>)
    requires
        before.wf(),
        is_with_key(before, after, added),
    ensures
        after.may_contain(added),
        before.may_contain(key) ==> after.may_contain(key),
{
    let n = after.spec_num_bits();
    assert forall|i: u64| i < BLOOM_NUM_HASHES implies after.is_set(#[trigger] probe(added, n, i)) by {
        assert(probe(added, n, i) < n);
        assert(is_probed(added, n, probe(added, n, i)));
    }
    if before.may_contain(key) {
        assert forall|i: u64| i < BLOOM_NUM_HASHES implies after.is_set(#[trigger] probe(key, n, i)) by {
            assert(probe(key, n, i) < n);
            assert(before.is_set(probe(key, n, i)));
        }
    }
}

/// A filter read back from a file answers as the one that was written.
pub proof fn filter_roundtrips(written: Bloom, filter: SstBloomFilter, read: Bloom, key: Seq<u8>)
    requires
        filter.num_bits == written.spec_num_bits(),
        filter.bits@ == written.spec_bits(),
        read.spec_num_bits() == filter.num_bits,
        read.spec_bits() == filter.bits@,
    ensures
        read.may_contain(key) == written.may_contain(key),
{
    assert forall|i: u64| i < BLOOM_NUM_HASHES implies read.is_set(
        #[trigger] probe(key, read.spec_num_bits(), i),
    ) == written.is_set(probe(key, written.spec_num_bits(), i)) by {}
    if read.may_contain(key) {
        assert forall|i: u64| i < BLOOM_NUM_HASHES implies written.is_set(
            #[trigger] probe(key, written.spec_num_bits(), i),
        ) by {
            assert(read.is_set(probe(key, read.spec_num_bits(), i)));
        }
    }
    if written.may_contain(key) {
        assert forall|i: u64| i < BLOOM_NUM_HASHES implies read.is_set(
            #[trigger] probe(key, read.spec_num_bits(), i),
        ) by {
            assert(written.is_set(probe(key, written.spec_num_bits(), i)));
        }
    }
}

} // verus!
