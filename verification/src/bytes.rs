//! Byte strings: lexicographic order, prefixes, big-endian integers.
use vstd::prelude::*;

verus! {

/// `a` and `b` agree before position `n`, where `a` either ends or holds the
/// smaller byte.
pub open spec fn lt_at(a: Seq<u8>, b: Seq<u8>, n: int) -> bool {
    &&& 0 <= n <= a.len()
    &&& n < b.len()
    &&& forall|i: int| 0 <= i < n ==> a[i] == b[i]
    &&& n == a.len() || a[n] < b[n]
}

/// Lexicographic order on raw bytes.
#[verifier::opaque]
pub open spec fn bytes_lt(a: Seq<u8>, b: Seq<u8>) -> bool {
    exists|n: int| lt_at(a, b, n)
}

/// `bytes_lt` or equal.
pub open spec fn bytes_le(a: Seq<u8>, b: Seq<u8>) -> bool {
    a == b || bytes_lt(a, b)
}

/// `bytes` begins with `prefix`.
pub open spec fn has_prefix(bytes: Seq<u8>, prefix: Seq<u8>) -> bool {
    prefix.len() <= bytes.len() && bytes.subrange(0, prefix.len() as int) == prefix
}

/// No byte string sorts below itself.
pub proof fn lemma_lt_irreflexive(a: Seq<u8>)
    ensures
        !bytes_lt(a, a),
{
    reveal(bytes_lt);
}

/// The order is transitive.
pub proof fn lemma_lt_transitive(a: Seq<u8>, b: Seq<u8>, c: Seq<u8>)
    requires
        bytes_lt(a, b),
        bytes_lt(b, c),
    ensures
        bytes_lt(a, c),
{
    reveal(bytes_lt);
    let m = choose|n: int| lt_at(a, b, n);
    let n = choose|n: int| lt_at(b, c, n);
    if m <= n {
        assert(lt_at(a, c, m));
    } else {
        assert(lt_at(a, c, n));
    }
}

proof fn lemma_first_difference(a: Seq<u8>, b: Seq<u8>, k: int) -> (n: int)
    requires
        0 <= k <= a.len(),
        k <= b.len(),
        forall|i: int| 0 <= i < k ==> a[i] == b[i],
    ensures
        k <= n <= a.len(),
        n <= b.len(),
        forall|i: int| 0 <= i < n ==> a[i] == b[i],
        n == a.len() || n == b.len() || a[n] != b[n],
    decreases a.len() - k,
{
    if k < a.len() && k < b.len() && a[k] == b[k] {
        lemma_first_difference(a, b, k + 1)
    } else {
        k
    }
}

/// Of two byte strings exactly one of `<`, `==`, `>` holds.
pub proof fn lemma_lt_total(a: Seq<u8>, b: Seq<u8>)
    ensures
        bytes_lt(a, b) || a == b || bytes_lt(b, a),
        !(bytes_lt(a, b) && bytes_lt(b, a)),
        bytes_lt(a, b) ==> a != b,
{
    reveal(bytes_lt);
    let n = lemma_first_difference(a, b, 0);
    if n == a.len() && n == b.len() {
        assert(a =~= b);
    } else if n == a.len() || (n < b.len() && a[n] < b[n]) {
        assert(lt_at(a, b, n));
    } else {
        assert(lt_at(b, a, n));
    }
    if bytes_lt(a, b) && bytes_lt(b, a) {
        lemma_lt_transitive(a, b, a);
    }
}

/// Mixed transitivity, with at most one of the two steps an equality.
pub proof fn lemma_le_lt(a: Seq<u8>, b: Seq<u8>, c: Seq<u8>)
    ensures
        bytes_le(a, b) && bytes_lt(b, c) ==> bytes_lt(a, c),
        bytes_lt(a, b) && bytes_le(b, c) ==> bytes_lt(a, c),
        bytes_le(a, b) && bytes_le(b, c) ==> bytes_le(a, c),
{
    if bytes_lt(a, b) && bytes_lt(b, c) {
        lemma_lt_transitive(a, b, c);
    }
}

/// A key that carries a prefix never sorts below that prefix.
pub proof fn lemma_prefix_le(k: Seq<u8>, p: Seq<u8>)
    requires
        has_prefix(k, p),
    ensures
        bytes_le(p, k),
{
    reveal(bytes_lt);
    if p.len() == k.len() {
        assert(k.subrange(0, p.len() as int) =~= k);
    } else {
        assert forall|i: int| 0 <= i < p.len() implies p[i] == k[i] by {
            assert(k.subrange(0, p.len() as int)[i] == k[i]);
        }
        assert(lt_at(p, k, p.len() as int));
    }
}

/// The keys that carry a prefix are contiguous: what sorts above the prefix
/// without carrying it sorts above every key that carries it.
pub proof fn lemma_past_prefix(k: Seq<u8>, p: Seq<u8>, x: Seq<u8>)
    requires
        has_prefix(k, p),
        bytes_lt(p, x),
        !has_prefix(x, p),
    ensures
        bytes_lt(k, x),
{
    reveal(bytes_lt);
    let n = choose|n: int| lt_at(p, x, n);
    if n == p.len() {
        assert(x.subrange(0, p.len() as int) =~= p);
    }
    assert forall|i: int| 0 <= i < p.len() implies p[i] == k[i] by {
        assert(k.subrange(0, p.len() as int)[i] == k[i]);
    }
    assert(lt_at(k, x, n));
}

/// Appending a zero byte gives the immediate successor: nothing lies between.
pub proof fn lemma_successor(a: Seq<u8>, x: Seq<u8>)
    ensures
        bytes_lt(a, a.push(0u8)),
        bytes_lt(a, x) <==> bytes_le(a.push(0u8), x),
{
    reveal(bytes_lt);
    let s = a.push(0u8);
    assert(lt_at(a, s, a.len() as int));
    if bytes_lt(a, x) {
        let n = choose|n: int| lt_at(a, x, n);
        if n < a.len() {
            assert(lt_at(s, x, n));
        } else if x[n] > 0 {
            assert(lt_at(s, x, n));
        } else if x.len() == n + 1 {
            assert(s =~= x);
        } else {
            assert(lt_at(s, x, n + 1));
        }
    }
    if bytes_le(s, x) {
        lemma_le_lt(a, s, x);
    }
}

/// A shared prefix does not change the order of what follows it.
pub proof fn lemma_lt_under_prefix(p: Seq<u8>, a: Seq<u8>, b: Seq<u8>)
    ensures
        bytes_lt(p + a, p + b) <==> bytes_lt(a, b),
{
    reveal(bytes_lt);
    let pa = p + a;
    let pb = p + b;
    if bytes_lt(a, b) {
        let n = choose|n: int| lt_at(a, b, n);
        assert forall|i: int| 0 <= i < p.len() + n implies pa[i] == pb[i] by {
            if i >= p.len() {
                assert(a[i - p.len()] == b[i - p.len()]);
            }
        }
        assert(lt_at(pa, pb, p.len() + n));
    }
    if bytes_lt(pa, pb) {
        let n = choose|n: int| lt_at(pa, pb, n);
        if n < p.len() {
            assert(pa[n] == p[n] && pb[n] == p[n]);
        }
        assert forall|i: int| 0 <= i < n - p.len() implies a[i] == b[i] by {
            assert(pa[i + p.len()] == pb[i + p.len()]);
        }
        assert(lt_at(a, b, n - p.len()));
    }
}

/// `bytes` carries the prefix it was built from, and what follows is the rest.
pub proof fn lemma_prefix_concat(p: Seq<u8>, s: Seq<u8>)
    ensures
        has_prefix(p + s, p),
        (p + s).subrange(p.len() as int, (p + s).len() as int) == s,
{
    assert((p + s).subrange(0, p.len() as int) =~= p);
    assert((p + s).subrange(p.len() as int, (p + s).len() as int) =~= s);
}

/// Whether `a` sorts strictly below `b`.
pub fn lt(a: &[u8], b: &[u8]) -> (r: bool)
    ensures
        r == bytes_lt(a@, b@),
{
    let mut i: usize = 0;
    while i < a.len() && i < b.len() && a[i] == b[i]
        invariant
            i <= a@.len(),
            i <= b@.len(),
            forall|k: int| 0 <= k < i ==> a@[k] == b@[k],
        decreases a@.len() - i,
    {
        i = i + 1;
    }
    proof {
        reveal(bytes_lt);
        lemma_lt_total(a@, b@);
    }
    if i < a.len() && i < b.len() {
        if a[i] < b[i] {
            assert(lt_at(a@, b@, i as int));
            true
        } else {
            assert(lt_at(b@, a@, i as int));
            false
        }
    } else if i < b.len() {
        assert(lt_at(a@, b@, i as int));
        true
    } else if i < a.len() {
        assert(lt_at(b@, a@, i as int));
        false
    } else {
        assert(a@ =~= b@);
        false
    }
}

/// Byte-for-byte equality.
pub fn eq(a: &[u8], b: &[u8]) -> (r: bool)
    ensures
        r == (a@ == b@),
{
    if a.len() != b.len() {
        return false;
    }
    let mut i: usize = 0;
    while i < a.len()
        invariant
            i <= a@.len(),
            a@.len() == b@.len(),
            forall|k: int| 0 <= k < i ==> a@[k] == b@[k],
        decreases a@.len() - i,
    {
        if a[i] != b[i] {
            return false;
        }
        i = i + 1;
    }
    assert(a@ =~= b@);
    true
}

/// Whether `bytes` begins with `prefix`.
pub fn starts_with(bytes: &[u8], prefix: &[u8]) -> (r: bool)
    ensures
        r == has_prefix(bytes@, prefix@),
{
    if bytes.len() < prefix.len() {
        return false;
    }
    eq(vstd::slice::slice_subrange(bytes, 0, prefix.len()), prefix)
}

/// An owned copy.
pub fn copy(bytes: &[u8]) -> (r: Vec<u8>)
    ensures
        r@ == bytes@,
{
    vstd::slice::slice_to_vec(bytes)
}

/// Appends `more` to `buf`.
pub fn push_all(buf: &mut Vec<u8>, more: &[u8])
    ensures
        final(buf)@ == old(buf)@ + more@,
{
    buf.extend_from_slice(more);
    assert(buf@ =~= old(buf)@ + more@);
}

/// `x` as `n` bytes, most significant first (the low `8 * n` bits).
pub open spec fn be_bytes(x: nat, n: nat) -> Seq<u8>
    decreases n,
{
    if n == 0 {
        Seq::empty()
    } else {
        be_bytes(x / 256, (n - 1) as nat).push((x % 256) as u8)
    }
}

/// The number that `s` writes, most significant byte first.
pub open spec fn be_value(s: Seq<u8>) -> nat
    decreases s.len(),
{
    if s.len() == 0 {
        0
    } else {
        be_value(s.drop_last()) * 256 + s.last() as nat
    }
}

/// `256` to the power `n`.
pub open spec fn pow256(n: nat) -> nat
    decreases n,
{
    if n == 0 {
        1
    } else {
        256 * pow256((n - 1) as nat)
    }
}

proof fn lemma_pow256_bounds()
    ensures
        pow256(4) == u32::MAX + 1,
        pow256(8) == u64::MAX + 1,
{
    reveal_with_fuel(pow256, 9);
}

proof fn lemma_be_value_bound(s: Seq<u8>)
    ensures
        be_value(s) < pow256(s.len()),
    decreases s.len(),
{
    if s.len() > 0 {
        lemma_be_value_bound(s.drop_last());
    }
}

proof fn lemma_pow256_step(x: nat, n: nat)
    requires
        n > 0,
        x < pow256(n),
    ensures
        x / 256 < pow256((n - 1) as nat),
{
}

/// Reading back the big-endian bytes of a number that fits gives the number.
pub proof fn lemma_be_roundtrip(x: nat, n: nat)
    requires
        x < pow256(n),
    ensures
        be_bytes(x, n).len() == n,
        be_value(be_bytes(x, n)) == x,
    decreases n,
{
    if n > 0 {
        lemma_pow256_step(x, n);
        lemma_be_roundtrip(x / 256, (n - 1) as nat);
        let s = be_bytes(x, n);
        assert(s.drop_last() =~= be_bytes(x / 256, (n - 1) as nat));
    }
}

/// Any byte string is the big-endian form of the number it writes.
pub proof fn lemma_be_value_roundtrip(s: Seq<u8>)
    ensures
        be_bytes(be_value(s), s.len()) == s,
    decreases s.len(),
{
    if s.len() > 0 {
        let rest = s.drop_last();
        lemma_be_value_roundtrip(rest);
        assert(be_value(s) / 256 == be_value(rest));
        assert(be_bytes(be_value(s), s.len()) =~= s);
    }
}

/// Numeric order and byte order agree on equally long big-endian numbers.
pub proof fn lemma_be_order(x: nat, y: nat, n: nat)
    requires
        x < pow256(n),
        y < pow256(n),
    ensures
        bytes_lt(be_bytes(x, n), be_bytes(y, n)) <==> x < y,
    decreases n,
{
    lemma_be_roundtrip(x, n);
    lemma_be_roundtrip(y, n);
    lemma_lt_total(be_bytes(x, n), be_bytes(y, n));
    if x < y {
        lemma_be_order_forward(x, y, n);
    } else if y < x {
        lemma_be_order_forward(y, x, n);
    }
}

proof fn lemma_be_order_forward(x: nat, y: nat, n: nat)
    requires
        x < y,
        y < pow256(n),
    ensures
        bytes_lt(be_bytes(x, n), be_bytes(y, n)),
    decreases n,
{
    reveal(bytes_lt);
    lemma_be_roundtrip(x, n);
    lemma_be_roundtrip(y, n);
    if n > 0 {
        let a = be_bytes(x, n);
        let b = be_bytes(y, n);
        let m = (n - 1) as nat;
        lemma_pow256_step(x, n);
        lemma_pow256_step(y, n);
        lemma_be_roundtrip(x / 256, m);
        lemma_be_roundtrip(y / 256, m);
        if x / 256 == y / 256 {
            assert(lt_at(a, b, m as int));
        } else {
            lemma_be_order_forward(x / 256, y / 256, m);
            let ha = be_bytes(x / 256, m);
            let hb = be_bytes(y / 256, m);
            let k = choose|k: int| lt_at(ha, hb, k);
            assert(lt_at(a, b, k));
        }
    }
}

/// Eight big-endian bytes write a 64-bit number.
pub proof fn lemma_be_fits(s: Seq<u8>)
    requires
        s.len() <= 8,
    ensures
        be_value(s) <= u64::MAX,
{
    lemma_be_value_bound(s);
    reveal_with_fuel(pow256, 9);
}

/// Four big-endian bytes write a 32-bit number.
pub proof fn lemma_be_fits_32(s: Seq<u8>)
    requires
        s.len() == 4,
    ensures
        be_value(s) <= u32::MAX,
{
    lemma_be_value_bound(s);
    reveal_with_fuel(pow256, 5);
}

/// Every 64-bit number survives eight big-endian bytes.
pub proof fn lemma_be64(x: u64)
    ensures
        be_bytes(x as nat, 8).len() == 8,
        be_value(be_bytes(x as nat, 8)) == x,
        (x as nat) < pow256(8),
{
    lemma_pow256_bounds();
    lemma_be_roundtrip(x as nat, 8);
}

/// Every 32-bit number survives four big-endian bytes.
pub proof fn lemma_be32(x: u32)
    ensures
        be_bytes(x as nat, 4).len() == 4,
        be_value(be_bytes(x as nat, 4)) == x,
        (x as nat) < pow256(4),
{
    lemma_pow256_bounds();
    lemma_be_roundtrip(x as nat, 4);
}

/// The last `n` big-endian bytes of `x`.
pub fn to_be(x: u64, n: usize) -> (r: Vec<u8>)
    ensures
        r@ == be_bytes(x as nat, n as nat),
    decreases n,
{
    if n == 0 {
        let r: Vec<u8> = Vec::new();
        assert(r@ =~= Seq::<u8>::empty());
        r
    } else {
        let mut r = to_be(x / 256, n - 1);
        r.push((x % 256) as u8);
        r
    }
}

/// The number that at most eight big-endian bytes write.
pub fn from_be(bytes: &[u8]) -> (r: u64)
    requires
        bytes@.len() <= 8,
    ensures
        r == be_value(bytes@),
{
    let mut value: u64 = 0;
    let mut i: usize = 0;
    while i < bytes.len()
        invariant
            i <= bytes@.len() <= 8,
            value == be_value(bytes@.subrange(0, i as int)),
        decreases bytes@.len() - i,
    {
        let ghost next = bytes@.subrange(0, i + 1);
        proof {
            assert(next.drop_last() =~= bytes@.subrange(0, i as int));
            lemma_be_value_bound(next);
            reveal_with_fuel(pow256, 9);
        }
        value = value * 256 + bytes[i] as u64;
        i = i + 1;
    }
    assert(bytes@.subrange(0, i as int) =~= bytes@);
    value
}

} // verus!
