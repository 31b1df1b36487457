//! Text: decimal rendering and parsing, prefixes and suffixes, and the
//! fragments that file names and report details are put together from.
use vstd::prelude::*;

verus! {

/// The character of one decimal digit.
pub open spec fn digit_char(d: nat) -> char {
    (48 + d) as char
}

/// `n` in decimal, without leading zeros.
pub open spec fn dec_text(n: nat) -> Seq<char>
    decreases n,
{
    if n < 10 {
        seq![digit_char(n)]
    } else {
        dec_text(n / 10).push(digit_char(n % 10))
    }
}

/// `count` zero digits.
pub open spec fn zeros(count: nat) -> Seq<char> {
    Seq::new(count, |i: int| '0')
}

/// `n` in decimal, padded on the left with zeros to twenty digits.
pub open spec fn dec20_text(n: nat) -> Seq<char> {
    let plain = dec_text(n);
    if plain.len() >= 20 {
        plain
    } else {
        zeros((20 - plain.len()) as nat) + plain
    }
}

fn digit_text(d: u64) -> (s: &'static str)
    requires
        d < 10,
    ensures
        s@ == seq![digit_char(d as nat)],
{
    proof {
        reveal_strlit("0");
        reveal_strlit("1");
        reveal_strlit("2");
        reveal_strlit("3");
        reveal_strlit("4");
        reveal_strlit("5");
        reveal_strlit("6");
        reveal_strlit("7");
        reveal_strlit("8");
        reveal_strlit("9");
    }
    let s: &'static str = match d {
        0 => "0",
        1 => "1",
        2 => "2",
        3 => "3",
        4 => "4",
        5 => "5",
        6 => "6",
        7 => "7",
        8 => "8",
        _ => "9",
    };
    assert(s@ =~= seq![digit_char(d as nat)]);
    s
}

/// Renders `n` in decimal.
pub fn dec(n: u64) -> (s: String)
    ensures
        s@ == dec_text(n as nat),
    decreases n,
{
    if n < 10 {
        String::from_str(digit_text(n))
    } else {
        let head = dec(n / 10);
        let s = head.concat(digit_text(n % 10));
        assert(s@ =~= dec_text((n / 10) as nat).push(digit_char((n % 10) as nat)));
        s
    }
}

/// Renders `n` in decimal, zero-padded to twenty digits.
pub fn dec20(n: u64) -> (s: String)
    ensures
        s@ == dec20_text(n as nat),
{
    let plain = dec(n);
    let len: usize = plain.as_str().unicode_len();
    if len >= 20 {
        return plain;
    }
    let mut padded = String::new();
    let mut i: usize = len;
    while i < 20
        invariant
            len <= i <= 20,
            padded@ == zeros((i - len) as nat),
        decreases 20 - i,
    {
        proof {
            reveal_strlit("0");
        }
        padded.append("0");
        i = i + 1;
        assert(padded@ =~= zeros((i - len) as nat));
    }
    padded.append(plain.as_str());
    padded
}

/// The list rendering `[1, 2, 3]` of a byte string.
pub open spec fn byte_list_text(bytes: Seq<u8>) -> Seq<char> {
    "["@ + byte_items_text(bytes) + "]"@
}

/// The bytes in decimal, separated by a comma and a space.
pub open spec fn byte_items_text(bytes: Seq<u8>) -> Seq<char>
    decreases bytes.len(),
{
    if bytes.len() == 0 {
        Seq::empty()
    } else if bytes.len() == 1 {
        dec_text(bytes[0] as nat)
    } else {
        byte_items_text(bytes.drop_last()) + ", "@ + dec_text(bytes.last() as nat)
    }
}

/// Renders `bytes` as a list of decimal numbers.
pub fn byte_list(bytes: &[u8]) -> (s: String)
    ensures
        s@ == byte_list_text(bytes@),
{
    let mut items = String::new();
    let mut i: usize = 0;
    while i < bytes.len()
        invariant
            i <= bytes@.len(),
            items@ == byte_items_text(bytes@.subrange(0, i as int)),
        decreases bytes@.len() - i,
    {
        let ghost next = bytes@.subrange(0, i + 1);
        proof {
            assert(next.drop_last() =~= bytes@.subrange(0, i as int));
            assert(next.last() == bytes@[i as int]);
        }
        if i > 0 {
            items.append(", ");
        }
        let d = dec(bytes[i] as u64);
        items.append(d.as_str());
        i = i + 1;
        assert(items@ =~= byte_items_text(next));
    }
    assert(bytes@.subrange(0, i as int) =~= bytes@);
    String::from_str("[").concat(items.as_str()).concat("]")
}

/// `c` is one of the ten decimal digits.
pub open spec fn is_digit(c: char) -> bool {
    48 <= c as nat <= 57
}

/// `s` is non-empty and made of decimal digits only.
pub open spec fn is_decimal(s: Seq<char>) -> bool {
    s.len() > 0 && forall|i: int| 0 <= i < s.len() ==> is_digit(#[trigger] s[i])
}

/// The number that a string of decimal digits writes.
pub open spec fn decimal_value(s: Seq<char>) -> nat
    decreases s.len(),
{
    if s.len() == 0 {
        0
    } else {
        (decimal_value(s.drop_last()) * 10 + (s.last() as nat - 48)) as nat
    }
}

/// `s` without one leading plus sign.
pub open spec fn unsigned_part(s: Seq<char>) -> Seq<char> {
    if s.len() > 0 && s[0] == '+' {
        s.subrange(1, s.len() as int)
    } else {
        s
    }
}

/// What the decimal text `s` (an optional plus sign, then digits) reads as a
/// 64-bit number, if it reads as one at all.
pub open spec fn parsed_u64(s: Seq<char>) -> Option<u64> {
    let digits = unsigned_part(s);
    if is_decimal(digits) && decimal_value(digits) <= u64::MAX {
        Some(decimal_value(digits) as u64)
    } else {
        None
    }
}

proof fn lemma_dec_text(n: nat)
    ensures
        is_decimal(dec_text(n)),
        decimal_value(dec_text(n)) == n,
    decreases n,
{
    let text = dec_text(n);
    if n < 10 {
        assert(text.drop_last() =~= Seq::<char>::empty());
        assert(decimal_value(text.drop_last()) == 0);
        assert(text.last() as nat == 48 + n);
    } else {
        let head = dec_text(n / 10);
        lemma_dec_text(n / 10);
        assert(text.drop_last() =~= head);
        assert(text.last() as nat == 48 + n % 10);
        assert forall|i: int| 0 <= i < text.len() implies is_digit(#[trigger] text[i]) by {
            if i < head.len() {
                assert(text[i] == head[i]);
            }
        }
    }
}

proof fn lemma_zero_padding(count: nat, digits: Seq<char>)
    requires
        is_decimal(digits),
    ensures
        is_decimal(zeros(count) + digits),
        decimal_value(zeros(count) + digits) == decimal_value(digits),
    decreases digits.len(),
{
    let text = zeros(count) + digits;
    assert(text.drop_last() =~= zeros(count) + digits.drop_last());
    if digits.len() == 1 {
        assert(digits.drop_last() =~= Seq::<char>::empty());
        assert(text.drop_last() =~= zeros(count));
        lemma_zeros_value(count);
        assert(decimal_value(digits.drop_last()) == 0);
    } else {
        lemma_zero_padding(count, digits.drop_last());
    }
}

proof fn lemma_zeros_value(count: nat)
    ensures
        decimal_value(zeros(count)) == 0,
    decreases count,
{
    if count > 0 {
        assert(zeros(count).drop_last() =~= zeros((count - 1) as nat));
        lemma_zeros_value((count - 1) as nat);
    }
}

/// A number that was written is read back, with or without padding.
pub proof fn written_numbers_read_back(n: u64)
    ensures
        parsed_u64(dec_text(n as nat)) == Some(n),
        parsed_u64(dec20_text(n as nat)) == Some(n),
{
    let plain = dec_text(n as nat);
    lemma_dec_text(n as nat);
    assert(is_digit(plain[0]));
    assert(unsigned_part(plain) == plain);
    if plain.len() < 20 {
        let count = (20 - plain.len()) as nat;
        lemma_zero_padding(count, plain);
        assert(is_digit((zeros(count) + plain)[0]));
        assert(unsigned_part(zeros(count) + plain) == zeros(count) + plain);
    }
}

proof fn lemma_decimal_value_monotone(s: Seq<char>, i: int)
    requires
        is_decimal(s),
        0 <= i <= s.len(),
    ensures
        decimal_value(s.subrange(0, i)) <= decimal_value(s),
    decreases s.len() - i,
{
    if i == s.len() {
        assert(s.subrange(0, i) =~= s);
    } else {
        lemma_decimal_value_monotone(s, i + 1);
        let t = s.subrange(0, i + 1);
        assert(t.drop_last() =~= s.subrange(0, i));
        assert(t.last() == s[i]);
        assert(is_digit(s[i]));
    }
}

/// Reads a 64-bit number in decimal, an optional plus sign before it.
pub fn parse_u64(s: &str) -> (r: Option<u64>)
    ensures
        r == parsed_u64(s@),
{
    let len: usize = s.unicode_len();
    let start: usize = if len > 0 && s.get_char(0) == '+' { 1 } else { 0 };
    let ghost digits = unsigned_part(s@);
    assert(digits =~= s@.subrange(start as int, len as int));
    if start == len {
        return None;
    }
    let mut value: u64 = 0;
    let mut i: usize = start;
    while i < len
        invariant
            start < len,
            start <= i <= len,
            len == s@.len(),
            digits == s@.subrange(start as int, len as int),
            digits == unsigned_part(s@),
            forall|k: int| 0 <= k < i - start ==> is_digit(#[trigger] digits[k]),
            value == decimal_value(digits.subrange(0, i - start)),
        decreases len - i,
    {
        let c = s.get_char(i);
        assert(digits[i - start] == c);
        let code: u32 = c as u32;
        if code < 48 || code > 57 {
            assert(!is_digit(digits[i - start]));
            return None;
        }
        let ghost prev = digits.subrange(0, i - start);
        let ghost next = digits.subrange(0, i - start + 1);
        proof {
            assert(next.drop_last() =~= prev);
            assert(next.last() == c);
        }
        let d: u64 = (code - 48) as u64;
        if value > u64::MAX / 10 || value * 10 > u64::MAX - d {
            proof {
                if is_decimal(digits) {
                    lemma_decimal_value_monotone(digits, i - start + 1);
                }
            }
            return None;
        }
        value = value * 10 + d;
        i = i + 1;
    }
    assert(digits.subrange(0, len - start) =~= digits);
    Some(value)
}

/// `s` ends with `suffix`.
pub open spec fn ends_in(s: Seq<char>, suffix: Seq<char>) -> bool {
    suffix.len() <= s.len() && s.subrange(s.len() - suffix.len(), s.len() as int) == suffix
}

/// `s` begins with `prefix`.
pub open spec fn begins_with(s: Seq<char>, prefix: Seq<char>) -> bool {
    prefix.len() <= s.len() && s.subrange(0, prefix.len() as int) == prefix
}

/// `needle` occurs somewhere in `s`.
pub open spec fn contains_text(s: Seq<char>, needle: Seq<char>) -> bool {
    exists|i: int| text_at(s, needle, i)
}

/// `needle` occurs in `s` at position `i`.
pub open spec fn text_at(s: Seq<char>, needle: Seq<char>, i: int) -> bool {
    0 <= i && i + needle.len() <= s.len() && s.subrange(i, i + needle.len()) == needle
}

fn matches_at(s: &str, needle: &str, at: usize, len: usize) -> (r: bool)
    requires
        len == needle@.len(),
        at + len <= s@.len() <= usize::MAX,
    ensures
        r == (s@.subrange(at as int, at + len) == needle@),
{
    let ghost part = s@.subrange(at as int, at + len);
    let mut i: usize = 0;
    while i < len
        invariant
            i <= len,
            len == needle@.len(),
            at + len <= s@.len() <= usize::MAX,
            part == s@.subrange(at as int, at + len),
            forall|k: int| 0 <= k < i ==> part[k] == needle@[k],
        decreases len - i,
    {
        if s.get_char(at + i) != needle.get_char(i) {
            assert(part[i as int] != needle@[i as int]);
            return false;
        }
        i = i + 1;
    }
    assert(part =~= needle@);
    true
}

/// Whether `s` ends with `suffix`.
pub fn ends_with(s: &str, suffix: &str) -> (r: bool)
    ensures
        r == ends_in(s@, suffix@),
{
    let n: usize = s.unicode_len();
    let m: usize = suffix.unicode_len();
    m <= n && matches_at(s, suffix, n - m, m)
}

/// Whether `s` begins with `prefix`.
pub fn starts_with(s: &str, prefix: &str) -> (r: bool)
    ensures
        r == begins_with(s@, prefix@),
{
    let n: usize = s.unicode_len();
    let m: usize = prefix.unicode_len();
    m <= n && matches_at(s, prefix, 0, m)
}

/// Whether `needle` occurs in `s`.
pub fn contains(s: &str, needle: &str) -> (r: bool)
    ensures
        r == contains_text(s@, needle@),
{
    let n: usize = s.unicode_len();
    let m: usize = needle.unicode_len();
    if m > n {
        return false;
    }
    let mut i: usize = 0;
    while i <= n - m
        invariant
            n == s@.len(),
            m == needle@.len(),
            m <= n,
            i <= n - m + 1,
            forall|k: int| 0 <= k < i ==> !#[trigger] text_at(s@, needle@, k),
        decreases n - m + 1 - i,
    {
        if matches_at(s, needle, i, m) {
            assert(text_at(s@, needle@, i as int));
            return true;
        }
        if i == n - m {
            return false;
        }
        i = i + 1;
    }
    false
}

/// The UTF-8 bytes of a text.
pub open spec fn utf8(s: Seq<char>) -> Seq<u8> {
    vstd::utf8::encode_utf8(s)
}

/// The text that valid UTF-8 bytes decode to; nothing for other bytes.
pub open spec fn utf8_text(bytes: Seq<u8>) -> Option<Seq<char>> {
    if vstd::utf8::valid_utf8(bytes) {
        Some(vstd::utf8::decode_utf8(bytes))
    } else {
        None
    }
}

/// The text of an optional string.
pub open spec fn text_of(s: Option<String>) -> Option<Seq<char>> {
    match s {
        Some(s) => Some(s@),
        None => None,
    }
}

/// Decoding the UTF-8 bytes of a text gives the text.
pub proof fn lemma_utf8_roundtrip(s: Seq<char>)
    ensures
        utf8_text(utf8(s)) == Some(s),
{
    vstd::utf8::encode_utf8_valid_utf8(s);
    vstd::utf8::encode_utf8_decode_utf8(s);
}

/// Bytes that decode to a text are its UTF-8 bytes.
pub proof fn lemma_utf8_text_is_exact(bytes: Seq<u8>, s: Seq<char>)
    requires
        utf8_text(bytes) == Some(s),
    ensures
        utf8(s) == bytes,
{
    vstd::utf8::decode_utf8_encode_utf8(bytes);
}

/// Different texts have different UTF-8 bytes.
pub proof fn lemma_utf8_injective(a: Seq<char>, b: Seq<char>)
    ensures
        utf8(a) == utf8(b) <==> a == b,
{
    lemma_utf8_roundtrip(a);
    lemma_utf8_roundtrip(b);
}

/// The text that the standard library's `Debug` formatting of strings gives.
pub uninterp spec fn quoted_text(s: Seq<char>) -> Seq<char>;

/// `format!("{:?}", ..)` of the standard library on a string: the text in
/// double quotes with its special characters escaped. Which characters count
/// as special follows the tables of the standard library and is left unsaid;
/// the result depends on the text alone.
#[verifier::external_body]
pub(crate) fn quoted(s: &str) -> (r: String)
    ensures
        r@ == quoted_text(s@),
{
    format!("{:?}", s)
}

/// The text that `String::from_utf8_lossy` makes of bytes.
pub uninterp spec fn lossy_text(bytes: Seq<u8>) -> Seq<char>;

/// `String::from_utf8_lossy` of the standard library: valid UTF-8 decodes to
/// its text; what stands for an invalid stretch is left unsaid, but it depends
/// on the bytes alone.
#[verifier::external_body]
pub(crate) fn lossy(bytes: &[u8]) -> (r: String)
    ensures
        r@ == lossy_text(bytes@),
        utf8_text(bytes@) matches Some(text) ==> r@ == text,
{
    String::from_utf8_lossy(bytes).into_owned()
}

/// `String::from_utf8` of the standard library: succeeds exactly on valid
/// UTF-8, and the text is what those bytes decode to.
#[verifier::external_body]
pub(crate) fn from_utf8(bytes: Vec<u8>) -> (r: Option<String>)
    ensures
        text_of(r) == utf8_text(bytes@),
{
    String::from_utf8(bytes).ok()
}

/// Whether the two texts are the same.
pub fn same(a: &str, b: &str) -> (r: bool)
    ensures
        r == (a@ == b@),
{
    let n: usize = a.unicode_len();
    let m: usize = b.unicode_len();
    if n != m {
        return false;
    }
    let r = matches_at(a, b, 0, n);
    assert(a@.subrange(0, n as int) =~= a@);
    r
}

} // verus!
