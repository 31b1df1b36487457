//! What the byte order and prefixes are.
use crate::bytes;
use crate::bytes::{be_bytes, bytes_lt, has_prefix, lemma_be_order, lemma_be_roundtrip, pow256};
use vstd::prelude::*;

verus! {

/// Two byte strings agree before a position and not at it: there the first
/// ends, or holds the smaller byte.
pub open spec fn parts_below(a: Seq<u8>, b: Seq<u8>, n: int) -> bool {
    &&& 0 <= n < b.len()
    &&& a.len() >= n
    &&& a.take(n) == b.take(n)
    &&& a.len() == n || a[n] < b[n]
}

/// One byte string is below another exactly if it ends, or holds the smaller
/// byte, where the two part.
pub proof fn keys_are_ordered_byte_by_byte(a: &[u8], b: &[u8], r: bool)
    requires
        call_ensures(bytes::lt, (a, b), r),
    ensures
        r == bytes_lt(a@, b@),
        r <==> exists|n: int| #[trigger] parts_below(a@, b@, n),
{
    the_order_is_lexicographic(a@, b@);
}

/// The order of byte strings is lexicographic.
pub proof fn the_order_is_lexicographic(a: Seq<u8>, b: Seq<u8>)
    ensures
        bytes_lt(a, b) <==> exists|n: int| #[trigger] parts_below(a, b, n),
{
    reveal(bytes_lt);
    if bytes_lt(a, b) {
        let n = choose|n: int| bytes::lt_at(a, b, n);
        assert(a.take(n) =~= b.take(n));
        assert(parts_below(a, b, n));
    }
    if exists|n: int| #[trigger] parts_below(a, b, n) {
        let n = choose|n: int| #[trigger] parts_below(a, b, n);
        assert forall|i: int| 0 <= i < n implies a[i] == b[i] by {
            assert(a.take(n)[i] == b.take(n)[i]);
        }
        assert(bytes::lt_at(a, b, n));
    }
}

/// A byte string begins with a prefix exactly if it is the prefix and
/// something more.
pub proof fn a_prefix_and_its_rest_make_the_whole(whole: Seq<u8>, prefix: Seq<u8>)
    ensures
        has_prefix(whole, prefix) <==> exists|rest: Seq<u8>| #[trigger] (prefix + rest) == whole,
{
    if has_prefix(whole, prefix) {
        assert(prefix + whole.skip(prefix.len() as int) =~= whole);
    }
    if exists|rest: Seq<u8>| #[trigger] (prefix + rest) == whole {
        let rest = choose|rest: Seq<u8>| #[trigger] (prefix + rest) == whole;
        bytes::lemma_prefix_concat(prefix, rest);
    }
}

/// Numbers written in as many bytes are ordered as the numbers are, and no two
/// are written alike.
pub proof fn written_numbers_are_ordered_as_numbers(x: nat, y: nat, n: nat)
    requires
        x < pow256(n),
        y < pow256(n),
    ensures
        be_bytes(x, n).len() == n,
        bytes_lt(be_bytes(x, n), be_bytes(y, n)) <==> x < y,
        be_bytes(x, n) == be_bytes(y, n) ==> x == y,
{
    lemma_be_roundtrip(x, n);
    lemma_be_roundtrip(y, n);
    lemma_be_order(x, y, n);
}

} // verus!
