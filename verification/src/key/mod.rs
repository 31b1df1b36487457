//! Keys and the reserved keyspaces.
//!
//! [`Key`] is an opaque byte string ordered lexicographically. Callers own
//! their key layout, except under the prefixes that the three index modules
//! reserve: [`vector_index`], [`graph_index`] and [`memory_index`].
use crate::bytes;
use crate::bytes::{be_bytes, has_prefix};
use vstd::prelude::*;
use vstd::std_specs::cmp::{PartialEqSpecImpl, PartialOrdSpecImpl};
use vstd::std_specs::convert::FromSpecImpl;

pub mod graph_index;
pub mod memory_index;
pub mod vector_index;

verus! {

/// An opaque key, compared byte by byte.
#[derive(Debug, Eq, Ord, Hash)]
pub struct Key(Vec<u8>);

impl View for Key {
    type V = Seq<u8>;

    closed spec fn view(&self) -> Seq<u8> {
        self.0@
    }
}

impl Key {
    /// Builds a key from raw bytes; no encoding is imposed.
    pub fn new(bytes: Vec<u8>) -> (key: Key)
        ensures
            key@ == bytes@,
    {
        Key(bytes)
    }

    /// The raw bytes.
    pub fn as_bytes(&self) -> (bytes: &[u8])
        ensures
            bytes@ == self@,
    {
        self.0.as_slice()
    }

    /// The raw bytes, without a copy.
    pub fn into_bytes(self) -> (bytes: Vec<u8>)
        ensures
            bytes@ == self@,
    {
        self.0
    }
}

impl Clone for Key {
    fn clone(&self) -> (key: Key)
        ensures
            key@ == self@,
    {
        Key(bytes::copy(self.0.as_slice()))
    }
}

impl PartialEq for Key {
    fn eq(&self, other: &Key) -> (r: bool) {
        bytes::eq(self.0.as_slice(), other.0.as_slice())
    }
}

impl PartialEqSpecImpl for Key {
    open spec fn obeys_eq_spec() -> bool {
        true
    }

    open spec fn eq_spec(&self, other: &Key) -> bool {
        self@ == other@
    }
}

impl PartialOrd for Key {
    fn partial_cmp(&self, other: &Key) -> (r: Option<core::cmp::Ordering>) {
        if bytes::lt(self.0.as_slice(), other.0.as_slice()) {
            Some(core::cmp::Ordering::Less)
        } else if bytes::eq(self.0.as_slice(), other.0.as_slice()) {
            Some(core::cmp::Ordering::Equal)
        } else {
            Some(core::cmp::Ordering::Greater)
        }
    }
}

impl PartialOrdSpecImpl for Key {
    open spec fn obeys_partial_cmp_spec() -> bool {
        true
    }

    open spec fn partial_cmp_spec(&self, other: &Key) -> Option<core::cmp::Ordering> {
        if bytes::bytes_lt(self@, other@) {
            Some(core::cmp::Ordering::Less)
        } else if self@ == other@ {
            Some(core::cmp::Ordering::Equal)
        } else {
            Some(core::cmp::Ordering::Greater)
        }
    }
}

impl From<&[u8]> for Key {
    fn from(bytes: &[u8]) -> (key: Key)
        ensures
            key@ == bytes@,
    {
        Key(bytes::copy(bytes))
    }
}

impl FromSpecImpl<&[u8]> for Key {
    open spec fn obeys_from_spec() -> bool {
        false
    }

    open spec fn from_spec(bytes: &[u8]) -> Key {
        choose|key: Key| key@ == bytes@
    }
}

impl From<Vec<u8>> for Key {
    fn from(bytes: Vec<u8>) -> (key: Key)
        ensures
            key@ == bytes@,
    {
        Key(bytes)
    }
}

impl FromSpecImpl<Vec<u8>> for Key {
    open spec fn obeys_from_spec() -> bool {
        true
    }

    closed spec fn from_spec(bytes: Vec<u8>) -> Key {
        Key(bytes)
    }
}

impl AsRef<[u8]> for Key {
    fn as_ref(&self) -> (bytes: &[u8])
        ensures
            bytes@ == self@,
    {
        self.0.as_slice()
    }
}

/// A field behind the 32-bit big-endian count of its bytes. The count fixes
/// where the field ends, whatever bytes it holds.
pub open spec fn len_prefixed(field: Seq<u8>) -> Seq<u8> {
    be_bytes(field.len(), 4) + field
}

/// The count of `field` fits its 32-bit length prefix.
pub open spec fn field_fits(field: Seq<u8>) -> bool {
    field.len() <= u32::MAX
}

/// What follows a length-prefixed field never makes it look like another one.
pub proof fn lemma_len_prefixed_unambiguous(head: Seq<u8>, a: Seq<u8>, rest: Seq<u8>, b: Seq<u8>)
    requires
        field_fits(a),
        field_fits(b),
    ensures
        has_prefix(head + len_prefixed(a) + rest, head + len_prefixed(b)) <==> a == b,
{
    bytes::lemma_be32(a.len() as u32);
    bytes::lemma_be32(b.len() as u32);
    let key = head + len_prefixed(a) + rest;
    let prefix = head + len_prefixed(b);
    if has_prefix(key, prefix) {
        let h = head.len() as int;
        let part = key.subrange(0, prefix.len() as int);
        assert(part.subrange(h, h + 4) =~= be_bytes(a.len(), 4));
        assert(prefix.subrange(h, h + 4) =~= be_bytes(b.len(), 4));
        assert(a.len() == b.len());
        assert(part.subrange(h + 4, h + 4 + a.len()) =~= a);
        assert(prefix.subrange(h + 4, h + 4 + a.len()) =~= b);
    } else if a == b {
        assert(key.subrange(0, prefix.len() as int) =~= prefix);
    }
}

} // verus!
