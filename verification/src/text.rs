//! Byte-string utilities shared by the formats of this crate: searching,
//! decimal and big-endian numbers, and cutting UTF-8 text at ASCII bytes.
use vstd::prelude::*;
use vstd::string::*;
use vstd::utf8::*;

verus! {

/// Position of the first occurrence of `b` in `s`, or the length of `s`
/// where there is none.
pub open spec fn find(s: Seq<u8>, b: u8) -> int
    decreases s.len(),
{
    if s.len() == 0 {
        0
    } else if s[0] == b {
        0
    } else {
        1 + find(s.drop_first(), b)
    }
}

/// `find` is the least position that holds `b`, if any does.
pub proof fn lemma_find(s: Seq<u8>, b: u8)
    ensures
        0 <= find(s, b) <= s.len(),
        find(s, b) < s.len() ==> s[find(s, b)] == b,
        forall|j: int| 0 <= j < find(s, b) ==> s[j] != b,
    decreases s.len(),
{
    if s.len() != 0 && s[0] != b {
        lemma_find(s.drop_first(), b);
        assert forall|j: int| 0 <= j < find(s, b) implies s[j] != b by {
            if j > 0 {
                assert(s[j] == s.drop_first()[j - 1]);
            }
        }
    }
}

/// A position with the two properties of `find` is `find`.
pub proof fn lemma_find_unique(s: Seq<u8>, b: u8, i: int)
    requires
        0 <= i <= s.len(),
        i < s.len() ==> s[i] == b,
        forall|j: int| 0 <= j < i ==> s[j] != b,
    ensures
        find(s, b) == i,
{
    lemma_find(s, b);
}

/// First position of `b` in `a`, or the length of `a`.
pub fn find_byte(a: &[u8], b: u8) -> (i: usize)
    ensures
        i == find(a@, b),
        i <= a@.len(),
        i < a@.len() ==> a@[i as int] == b,
        forall|j: int| 0 <= j < i ==> a@[j] != b,
{
    let mut i: usize = 0;
    while i < a.len() && a[i] != b
        invariant
            i <= a@.len(),
            forall|j: int| 0 <= j < i ==> a@[j] != b,
        decreases a@.len() - i,
    {
        i += 1;
    }
    proof {
        lemma_find_unique(a@, b, i as int);
    }
    i
}

/// Whether two byte strings are equal.
pub fn bytes_eq(a: &[u8], b: &[u8]) -> (same: bool)
    ensures
        same == (a@ == b@),
{
    if a.len() != b.len() {
        return false;
    }
    let mut i: usize = 0;
    while i < a.len()
        invariant
            i <= a@.len(),
            a@.len() == b@.len(),
            forall|j: int| 0 <= j < i ==> a@[j] == b@[j],
        decreases a@.len() - i,
    {
        if a[i] != b[i] {
            return false;
        }
        i += 1;
    }
    assert(a@ =~= b@);
    true
}

/// Whether `a` begins with `prefix`.
pub fn starts_with(a: &[u8], prefix: &[u8]) -> (yes: bool)
    ensures
        yes == prefix@.is_prefix_of(a@),
{
    if prefix.len() > a.len() {
        return false;
    }
    let head = vstd::slice::slice_subrange(a, 0, prefix.len());
    bytes_eq(head, prefix)
}

/// Whether `a` ends with `suffix`.
pub fn ends_with(a: &[u8], suffix: &[u8]) -> (yes: bool)
    ensures
        yes == suffix@.is_suffix_of(a@),
{
    if suffix.len() > a.len() {
        return false;
    }
    let tail = vstd::slice::slice_subrange(a, a.len() - suffix.len(), a.len());
    bytes_eq(tail, suffix)
}

/// A copy of the bytes of `a` from `from` up to `to`.
pub fn copy_range(a: &[u8], from: usize, to: usize) -> (out: Vec<u8>)
    requires
        from <= to <= a@.len(),
    ensures
        out@ == a@.subrange(from as int, to as int),
{
    vstd::slice::slice_to_vec(vstd::slice::slice_subrange(a, from, to))
}

/// Whether a position of a byte string lies at one of its ends or next to
/// an ASCII byte.
pub open spec fn ascii_edge(bytes: Seq<u8>, k: int) -> bool {
    ||| k == 0
    ||| k == bytes.len()
    ||| (0 < k < bytes.len() && (bytes[k] < 0x80 || bytes[k - 1] < 0x80))
}

/// In valid UTF-8 a position next to an ASCII byte is a character boundary.
pub proof fn lemma_ascii_edge_is_boundary(bytes: Seq<u8>, k: int)
    requires
        valid_utf8(bytes),
        ascii_edge(bytes, k),
    ensures
        is_char_boundary(bytes, k),
    decreases bytes.len(),
{
    if k == 0 || k == bytes.len() {
        is_char_boundary_start_end_of_seq(bytes);
    } else if bytes[k] < 0x80 {
        is_char_boundary_iff_not_is_continuation_byte(bytes, k);
    } else {
        let w = length_of_first_scalar(bytes);
        let rest = pop_first_scalar(bytes);
        if k < w {
            // bytes[k - 1] is ASCII, so it is the whole first scalar
            assert(k - 1 == 0);
            assert(false);
        } else {
            assert(forall|j: int| 0 <= j < rest.len() ==> rest[j] == bytes[j + w]);
            if k - w > 0 {
                assert(rest[k - w - 1] == bytes[k - 1]);
                assert(rest[k - w] == bytes[k]);
            }
            lemma_ascii_edge_is_boundary(rest, k - w);
        }
    }
}

/// The part of valid UTF-8 between two positions that lie next to ASCII
/// bytes is valid UTF-8.
pub proof fn lemma_valid_cut(bytes: Seq<u8>, from: int, to: int)
    requires
        valid_utf8(bytes),
        0 <= from <= to <= bytes.len(),
        ascii_edge(bytes, from),
        ascii_edge(bytes, to),
    ensures
        valid_utf8(bytes.subrange(from, to)),
{
    lemma_ascii_edge_is_boundary(bytes, from);
    lemma_ascii_edge_is_boundary(bytes, to);
    valid_utf8_split(bytes, to);
    let head = bytes.subrange(0, to);
    assert(is_char_boundary(head, from)) by {
        lemma_boundary_of_prefix(bytes, to, from);
    }
    valid_utf8_split(head, from);
    assert(head.subrange(from, head.len() as int) =~= bytes.subrange(from, to));
}

/// A boundary of the whole is a boundary of a prefix that reaches it.
pub proof fn lemma_boundary_of_prefix(bytes: Seq<u8>, to: int, k: int)
    requires
        valid_utf8(bytes),
        0 <= k <= to <= bytes.len(),
        is_char_boundary(bytes, to),
        is_char_boundary(bytes, k),
    ensures
        valid_utf8(bytes.subrange(0, to)),
        is_char_boundary(bytes.subrange(0, to), k),
    decreases bytes.len(),
{
    valid_utf8_split(bytes, to);
    let head = bytes.subrange(0, to);
    if k == 0 {
    } else {
        let w = length_of_first_scalar(bytes);
        let rest = pop_first_scalar(bytes);
        reveal_with_fuel(is_char_boundary, 2);
        assert(k >= w);
        assert(to >= w);
        assert(length_of_first_scalar(head) == w);
        lemma_boundary_of_prefix(rest, to - w, k - w);
        assert(pop_first_scalar(head) =~= rest.subrange(0, to - w));
    }
}

/// Calls `String::from_utf8`, which returns the text that the bytes encode
/// where they are valid UTF-8, and an error otherwise.
#[verifier::external_body]
pub(crate) fn string_from_utf8(bytes: Vec<u8>) -> (text: Option<String>)
    ensures
        text is Some <==> valid_utf8(bytes@),
        text is Some ==> text.unwrap()@ == decode_utf8(bytes@),
{
    String::from_utf8(bytes).ok()
}

/// The text that valid UTF-8 bytes encode.
pub fn text_of(bytes: Vec<u8>) -> (text: String)
    requires
        valid_utf8(bytes@),
    ensures
        encode_utf8(text@) == bytes@,
        text@ == decode_utf8(bytes@),
{
    proof {
        decode_utf8_encode_utf8(bytes@);
    }
    match string_from_utf8(bytes) {
        Some(text) => text,
        None => String::new(),
    }
}

/// The part of a text between two byte positions that lie next to ASCII
/// bytes.
pub fn substr(s: &str, from: usize, to: usize) -> (part: String)
    requires
        from <= to <= s.spec_bytes().len(),
        ascii_edge(s.spec_bytes(), from as int),
        ascii_edge(s.spec_bytes(), to as int),
    ensures
        encode_utf8(part@) == s.spec_bytes().subrange(from as int, to as int),
{
    proof {
        encode_utf8_valid_utf8(s@);
        lemma_valid_cut(s.spec_bytes(), from as int, to as int);
    }
    text_of(copy_range(s.as_bytes(), from, to))
}

/// Whether a byte is a decimal digit.
pub open spec fn is_digit(b: u8) -> bool {
    48 <= b <= 57
}

/// Whether a byte string holds decimal digits only.
pub open spec fn all_digits(s: Seq<u8>) -> bool {
    forall|i: int| 0 <= i < s.len() ==> is_digit(#[trigger] s[i])
}

/// The decimal numeral of a natural number, without leading zeros.
pub open spec fn decimal(n: nat) -> Seq<u8>
    decreases n,
{
    if n < 10 {
        seq![(48 + n) as u8]
    } else {
        decimal(n / 10).push((48 + n % 10) as u8)
    }
}

/// The decimal numeral of an integer: a minus sign before the numeral of
/// the magnitude where it is negative.
pub open spec fn signed_decimal(v: int) -> Seq<u8> {
    if v < 0 {
        seq![45u8] + decimal((-v) as nat)
    } else {
        decimal(v as nat)
    }
}

/// The number that a string of decimal digits denotes; zero for the empty
/// string.
pub open spec fn decimal_value(s: Seq<u8>) -> nat
    decreases s.len(),
{
    if s.len() == 0 {
        0
    } else {
        decimal_value(s.drop_last()) * 10 + (s.last() - 48) as nat
    }
}

/// A numeral is a non-empty string of digits that denotes its number.
pub proof fn lemma_decimal(n: nat)
    ensures
        decimal(n).len() >= 1,
        all_digits(decimal(n)),
        decimal_value(decimal(n)) == n,
    decreases n,
{
    if n < 10 {
        assert(decimal(n).drop_last() =~= Seq::<u8>::empty());
        assert(decimal_value(decimal(n).drop_last()) == 0);
    } else {
        lemma_decimal(n / 10);
        let d = decimal(n / 10);
        let full = decimal(n);
        assert(full.drop_last() =~= d);
        assert(full.last() == (48 + n % 10) as u8);
        assert forall|i: int| 0 <= i < full.len() implies is_digit(#[trigger] full[i]) by {
            if i < d.len() {
                assert(full[i] == d[i]);
            }
        }
    }
}

/// The value of a string of digits is at least the value of each prefix.
pub proof fn lemma_decimal_value_grows(s: Seq<u8>, i: int)
    requires
        all_digits(s),
        0 <= i <= s.len(),
    ensures
        decimal_value(s.subrange(0, i)) <= decimal_value(s),
    decreases s.len() - i,
{
    if i == s.len() {
        assert(s.subrange(0, i) =~= s);
    } else {
        lemma_decimal_value_grows(s, i + 1);
        let t = s.subrange(0, i + 1);
        assert(t.drop_last() =~= s.subrange(0, i));
        assert(is_digit(s[i]));
        assert(t.last() == s[i]);
    }
}

/// Appends the decimal numeral of `n`.
pub fn push_decimal(out: &mut Vec<u8>, n: u64)
    ensures
        final(out)@ == old(out)@ + decimal(n as nat),
    decreases n,
{
    if n >= 10 {
        push_decimal(out, n / 10);
    }
    out.push(48 + (n % 10) as u8);
    assert(out@ =~= old(out)@ + decimal(n as nat));
}

/// Appends the decimal numeral of a signed number.
pub fn push_signed_decimal(out: &mut Vec<u8>, v: i64)
    ensures
        final(out)@ == old(out)@ + signed_decimal(v as int),
{
    if v < 0 {
        out.push(45);
        let magnitude: u64 = (-(v + 1)) as u64 + 1;
        push_decimal(out, magnitude);
        assert(out@ =~= old(out)@ + signed_decimal(v as int));
    } else {
        push_decimal(out, v as u64);
    }
}

/// The number that a non-empty string of decimal digits denotes, where it
/// fits in 64 bits.
pub open spec fn parsed_decimal(s: Seq<u8>) -> Option<u64> {
    if s.len() > 0 && all_digits(s) && decimal_value(s) <= u64::MAX {
        Some(decimal_value(s) as u64)
    } else {
        None
    }
}

/// Reads a decimal number.
pub fn parse_decimal(s: &[u8]) -> (value: Option<u64>)
    ensures
        value == parsed_decimal(s@),
{
    if s.len() == 0 {
        return None;
    }
    let mut acc: u64 = 0;
    let mut i: usize = 0;
    while i < s.len()
        invariant
            i <= s@.len(),
            all_digits(s@.subrange(0, i as int)),
            acc == decimal_value(s@.subrange(0, i as int)),
        decreases s@.len() - i,
    {
        let b = s[i];
        if b < 48 || b > 57 {
            assert(!is_digit(s@[i as int]));
            return None;
        }
        let d: u64 = (b - 48) as u64;
        let ghost next = s@.subrange(0, i + 1);
        proof {
            assert(next.drop_last() =~= s@.subrange(0, i as int));
            assert(next.last() == b);
            assert forall|j: int| 0 <= j < next.len() implies is_digit(#[trigger] next[j]) by {
                if j < i {
                    assert(next[j] == s@.subrange(0, i as int)[j]);
                }
            }
        }
        if acc > (u64::MAX - d) / 10 {
            proof {
                if all_digits(s@) {
                    lemma_decimal_value_grows(s@, i + 1);
                }
            }
            return None;
        }
        acc = acc * 10 + d;
        i += 1;
    }
    assert(s@.subrange(0, i as int) =~= s@);
    Some(acc)
}

/// The four bytes of a 32-bit number, the most significant first.
pub open spec fn be32(x: u32) -> Seq<u8> {
    seq![
        (x / 0x1000000) as u8,
        (x / 0x10000 % 0x100) as u8,
        (x / 0x100 % 0x100) as u8,
        (x % 0x100) as u8,
    ]
}

/// The number that four bytes denote, the most significant first.
pub open spec fn be32_value(s: Seq<u8>) -> u32 {
    (s[0] * 0x1000000 + s[1] * 0x10000 + s[2] * 0x100 + s[3]) as u32
}

/// The two bytes of a 16-bit number, the most significant first.
pub open spec fn be16(x: u16) -> Seq<u8> {
    seq![(x / 0x100) as u8, (x % 0x100) as u8]
}

/// The number that two bytes denote, the most significant first.
pub open spec fn be16_value(s: Seq<u8>) -> u16 {
    (s[0] * 0x100 + s[1]) as u16
}

/// Reading back the four bytes of a number gives the number.
pub proof fn lemma_be32_value_of_be32(x: u32)
    ensures
        be32(x).len() == 4,
        be32_value(be32(x)) == x,
{
    let v = x as int;
    let b0 = v / 0x1000000;
    let b1 = v / 0x10000 % 0x100;
    let b2 = v / 0x100 % 0x100;
    let b3 = v % 0x100;
    assert(v / 0x10000 == b0 * 0x100 + b1);
    assert(v / 0x100 == (v / 0x10000) * 0x100 + b2);
    assert(v == (v / 0x100) * 0x100 + b3);
    assert(0 <= b0 < 0x100);
    assert(be32(x)[0] == b0 as u8);
    assert(be32(x)[1] == b1 as u8);
    assert(be32(x)[2] == b2 as u8);
    assert(be32(x)[3] == b3 as u8);
}

/// Writing the number that four bytes denote gives the four bytes.
pub proof fn lemma_be32_of_be32_value(s: Seq<u8>)
    requires
        s.len() == 4,
    ensures
        be32(be32_value(s)) == s,
{
    let v = s[0] * 0x1000000 + s[1] * 0x10000 + s[2] * 0x100 + s[3];
    assert(0 <= v < 0x1_0000_0000);
    assert(be32_value(s) == v);
    assert(v / 0x100 == s[0] * 0x10000 + s[1] * 0x100 + s[2]);
    assert(v % 0x100 == s[3]);
    assert(v / 0x10000 == s[0] * 0x100 + s[1]);
    assert(v / 0x1000000 == s[0]);
    assert(be32(be32_value(s)) =~= s);
}

/// Reading back the two bytes of a number gives the number, and writing
/// the number that two bytes denote gives the two bytes.
pub proof fn lemma_be16(x: u16, s: Seq<u8>)
    requires
        s.len() == 2,
    ensures
        be16(x).len() == 2,
        be16_value(be16(x)) == x,
        be16(be16_value(s)) == s,
{
    let v = s[0] * 0x100 + s[1];
    assert(v / 0x100 == s[0]);
    assert(v % 0x100 == s[1]);
    assert(be16(be16_value(s)) =~= s);
}

/// Appends a 32-bit number, the most significant byte first.
pub fn push_be32(out: &mut Vec<u8>, x: u32)
    ensures
        final(out)@ == old(out)@ + be32(x),
{
    out.push((x / 0x1000000) as u8);
    out.push((x / 0x10000 % 0x100) as u8);
    out.push((x / 0x100 % 0x100) as u8);
    out.push((x % 0x100) as u8);
    assert(out@ =~= old(out)@ + be32(x));
}

/// Appends a 16-bit number, the most significant byte first.
pub fn push_be16(out: &mut Vec<u8>, x: u16)
    ensures
        final(out)@ == old(out)@ + be16(x),
{
    out.push((x / 0x100) as u8);
    out.push((x % 0x100) as u8);
    assert(out@ =~= old(out)@ + be16(x));
}

/// Reads the 32-bit number at a position, the most significant byte first.
pub fn read_be32(a: &[u8], at: usize) -> (x: u32)
    requires
        at + 4 <= a@.len(),
    ensures
        x == be32_value(a@.subrange(at as int, at + 4)),
{
    let b0: u32 = a[at] as u32;
    let b1: u32 = a[at + 1] as u32;
    let b2: u32 = a[at + 2] as u32;
    let b3: u32 = a[at + 3] as u32;
    b0 * 0x1000000 + b1 * 0x10000 + b2 * 0x100 + b3
}

/// Reads the 16-bit number at a position, the most significant byte first.
pub fn read_be16(a: &[u8], at: usize) -> (x: u16)
    requires
        at + 2 <= a@.len(),
    ensures
        x == be16_value(a@.subrange(at as int, at + 2)),
{
    let b0: u16 = a[at] as u16;
    let b1: u16 = a[at + 1] as u16;
    b0 * 0x100 + b1
}

/// Whether a byte is an octal digit.
pub open spec fn is_octal_digit(b: u8) -> bool {
    48 <= b <= 55
}

/// Whether a byte string holds octal digits only.
pub open spec fn all_octal(s: Seq<u8>) -> bool {
    forall|i: int| 0 <= i < s.len() ==> is_octal_digit(#[trigger] s[i])
}

/// The number that a string of octal digits denotes; zero for the empty
/// string.
pub open spec fn octal_value(s: Seq<u8>) -> nat
    decreases s.len(),
{
    if s.len() == 0 {
        0
    } else {
        octal_value(s.drop_last()) * 8 + (s.last() - 48) as nat
    }
}

/// The value of a string of octal digits is at least the value of each
/// prefix.
pub proof fn lemma_octal_value_grows(s: Seq<u8>, i: int)
    requires
        all_octal(s),
        0 <= i <= s.len(),
    ensures
        octal_value(s.subrange(0, i)) <= octal_value(s),
    decreases s.len() - i,
{
    if i == s.len() {
        assert(s.subrange(0, i) =~= s);
    } else {
        lemma_octal_value_grows(s, i + 1);
        let t = s.subrange(0, i + 1);
        assert(t.drop_last() =~= s.subrange(0, i));
        assert(is_octal_digit(s[i]));
        assert(t.last() == s[i]);
    }
}

/// The digits of an octal numeral: what follows a plus sign where the text
/// begins with one, the whole text otherwise.
pub open spec fn octal_digits(s: Seq<u8>) -> Seq<u8> {
    if s.len() > 0 && s[0] == 43 {
        s.drop_first()
    } else {
        s
    }
}

/// The number that an octal numeral denotes: an optional plus sign, then
/// one or more octal digits whose value fits in 32 bits.
pub open spec fn parsed_octal(s: Seq<u8>) -> Option<u32> {
    let digits = octal_digits(s);
    if digits.len() > 0 && all_octal(digits) && octal_value(digits) <= u32::MAX {
        Some(octal_value(digits) as u32)
    } else {
        None
    }
}

/// Reads an octal number.
pub fn parse_octal(s: &[u8]) -> (value: Option<u32>)
    ensures
        value == parsed_octal(s@),
{
    let start: usize = if s.len() > 0 && s[0] == 43 {
        1
    } else {
        0
    };
    let ghost digits = octal_digits(s@);
    assert(digits =~= s@.subrange(start as int, s@.len() as int));
    if start == s.len() {
        return None;
    }
    let mut acc: u32 = 0;
    let mut i: usize = start;
    while i < s.len()
        invariant
            start <= i <= s@.len(),
            digits == s@.subrange(start as int, s@.len() as int),
            digits == octal_digits(s@),
            all_octal(digits.subrange(0, i - start)),
            acc == octal_value(digits.subrange(0, i - start)),
        decreases s@.len() - i,
    {
        let b = s[i];
        if b < 48 || b > 55 {
            assert(digits[i - start] == b);
            assert(!is_octal_digit(digits[i - start]));
            return None;
        }
        let d: u32 = (b - 48) as u32;
        let ghost next = digits.subrange(0, i + 1 - start);
        proof {
            assert(next.drop_last() =~= digits.subrange(0, i - start));
            assert(next.last() == b);
            assert forall|j: int| 0 <= j < next.len() implies is_octal_digit(
                #[trigger] next[j],
            ) by {
                if j < i - start {
                    assert(next[j] == digits.subrange(0, i - start)[j]);
                }
            }
        }
        if acc > (u32::MAX - d) / 8 {
            proof {
                if all_octal(digits) {
                    lemma_octal_value_grows(digits, i + 1 - start);
                }
            }
            return None;
        }
        acc = acc * 8 + d;
        i += 1;
    }
    assert(digits.subrange(0, i - start) =~= digits);
    Some(acc)
}

/// The encoding of two texts one after the other is the encoding of the
/// first followed by the encoding of the second.
pub proof fn lemma_encode_concat(a: Seq<char>, b: Seq<char>)
    ensures
        encode_utf8(a + b) == encode_utf8(a) + encode_utf8(b),
    decreases a.len(),
{
    if a.len() == 0 {
        assert(a + b =~= b);
        assert(encode_utf8(a) + encode_utf8(b) =~= encode_utf8(b));
    } else {
        lemma_encode_concat(a.drop_first(), b);
        assert((a + b).drop_first() =~= a.drop_first() + b);
        assert((a + b)[0] == a[0]);
        assert(encode_utf8(a + b) =~= encode_utf8(a) + encode_utf8(b));
    }
}

/// The parts of a list with a separator between each two neighbours.
pub open spec fn joined(parts: Seq<Seq<u8>>, sep: u8) -> Seq<u8>
    decreases parts.len(),
{
    if parts.len() == 0 {
        Seq::empty()
    } else if parts.len() == 1 {
        parts[0]
    } else {
        joined(parts.drop_last(), sep) + seq![sep] + parts.last()
    }
}

/// The encodings of a list of texts.
pub open spec fn encodings(texts: Seq<String>) -> Seq<Seq<u8>> {
    Seq::new(texts.len(), |i: int| encode_utf8(texts[i]@))
}

/// The encodings of a list of borrowed texts.
pub open spec fn str_encodings(texts: Seq<&str>) -> Seq<Seq<u8>> {
    Seq::new(texts.len(), |i: int| texts[i].spec_bytes())
}

/// The texts of a list with a space between each two neighbours.
pub fn join_with_space(parts: &Vec<String>) -> (line: String)
    ensures
        encode_utf8(line@) == joined(encodings(parts@), 32),
{
    let mut line = String::new();
    let mut i: usize = 0;
    proof {
        assert(encodings(parts@).take(0) =~= Seq::<Seq<u8>>::empty());
    }
    while i < parts.len()
        invariant
            i <= parts@.len(),
            encode_utf8(line@) == joined(encodings(parts@).take(i as int), 32),
        decreases parts@.len() - i,
    {
        let ghost before = line@;
        let ghost done = encodings(parts@).take(i as int);
        let ghost next = encodings(parts@).take(i + 1);
        proof {
            assert(next.drop_last() =~= done);
            assert(next.last() == encode_utf8(parts@[i as int]@));
        }
        if i > 0 {
            line.append(" ");
            proof {
                reveal_strlit(" ");
                is_ascii_chars_encode_utf8(" "@);
                assert(encode_utf8(" "@) =~= seq![32u8]);
                lemma_encode_concat(before, " "@);
            }
        }
        let ghost middle = line@;
        line.append(parts[i].as_str());
        proof {
            lemma_encode_concat(middle, parts@[i as int]@);
            if i == 0 {
                assert(encode_utf8(before) =~= Seq::<u8>::empty());
                assert(encode_utf8(line@) =~= next[0]);
            }
        }
        i += 1;
    }
    assert(encodings(parts@).take(i as int) =~= encodings(parts@));
    line
}

/// The end of a valid text that begins another valid text is a character
/// boundary of the longer one.
pub proof fn lemma_prefix_is_boundary(p: Seq<u8>, r: Seq<u8>)
    requires
        valid_utf8(p),
        valid_utf8(p + r),
    ensures
        is_char_boundary(p + r, p.len() as int),
    decreases p.len(),
{
    let whole = p + r;
    if p.len() != 0 {
        let w = length_of_first_scalar(p);
        assert(whole[0] == p[0]);
        assert(forall|j: int| 0 <= j < p.len() ==> whole[j] == p[j]);
        assert(length_of_first_scalar(whole) == w);
        assert(pop_first_scalar(whole) =~= pop_first_scalar(p) + r);
        lemma_prefix_is_boundary(pop_first_scalar(p), r);
    }
}

/// The part of a text between two character boundaries.
pub fn substr_between(s: &str, from: usize, to: usize) -> (part: String)
    requires
        from <= to <= s.spec_bytes().len(),
        is_char_boundary(s.spec_bytes(), from as int),
        is_char_boundary(s.spec_bytes(), to as int),
    ensures
        encode_utf8(part@) == s.spec_bytes().subrange(from as int, to as int),
{
    proof {
        let bytes = s.spec_bytes();
        encode_utf8_valid_utf8(s@);
        valid_utf8_split(bytes, to as int);
        let head = bytes.subrange(0, to as int);
        lemma_boundary_of_prefix(bytes, to as int, from as int);
        valid_utf8_split(head, from as int);
        assert(head.subrange(from as int, head.len() as int) =~= bytes.subrange(
            from as int,
            to as int,
        ));
    }
    text_of(copy_range(s.as_bytes(), from, to))
}

/// Whether `a` comes before `b` or is equal to it when the two are
/// compared byte by byte, a proper prefix coming before what it begins.
pub open spec fn lex_le(a: Seq<u8>, b: Seq<u8>) -> bool
    decreases a.len(),
{
    if a.len() == 0 {
        true
    } else if b.len() == 0 {
        false
    } else if a[0] != b[0] {
        a[0] < b[0]
    } else {
        lex_le(a.drop_first(), b.drop_first())
    }
}

/// Of two byte strings one comes before the other or they are equal.
pub proof fn lemma_lex_total(a: Seq<u8>, b: Seq<u8>)
    ensures
        lex_le(a, b) || lex_le(b, a),
    decreases a.len(),
{
    if a.len() != 0 && b.len() != 0 && a[0] == b[0] {
        lemma_lex_total(a.drop_first(), b.drop_first());
    }
}

/// The byte order is transitive.
pub proof fn lemma_lex_transitive(a: Seq<u8>, b: Seq<u8>, c: Seq<u8>)
    requires
        lex_le(a, b),
        lex_le(b, c),
    ensures
        lex_le(a, c),
    decreases a.len(),
{
    if a.len() != 0 && b.len() != 0 && c.len() != 0 && a[0] == b[0] && b[0] == c[0] {
        lemma_lex_transitive(a.drop_first(), b.drop_first(), c.drop_first());
    }
}

/// Whether `a` comes before `b` or is equal to it in the byte order.
pub fn bytes_le(a: &[u8], b: &[u8]) -> (yes: bool)
    ensures
        yes == lex_le(a@, b@),
{
    let mut i: usize = 0;
    proof {
        assert(a@.skip(0) =~= a@);
        assert(b@.skip(0) =~= b@);
    }
    while i < a.len() && i < b.len()
        invariant
            i <= a@.len(),
            i <= b@.len(),
            lex_le(a@, b@) == lex_le(a@.skip(i as int), b@.skip(i as int)),
        decreases a@.len() - i,
    {
        let ghost x = a@.skip(i as int);
        let ghost y = b@.skip(i as int);
        assert(x[0] == a@[i as int] && y[0] == b@[i as int]);
        if a[i] != b[i] {
            return a[i] < b[i];
        }
        proof {
            assert(x.drop_first() =~= a@.skip(i + 1));
            assert(y.drop_first() =~= b@.skip(i + 1));
        }
        i += 1;
    }
    i == a.len()
}

/// Appends a text to a text.
pub fn append_str(s: &mut String, part: &str)
    ensures
        encode_utf8(final(s)@) == encode_utf8(old(s)@) + part.spec_bytes(),
{
    proof {
        lemma_encode_concat(s@, part@);
    }
    s.append(part);
}

/// The empty text.
pub fn empty_string() -> (s: String)
    ensures
        encode_utf8(s@) == Seq::<u8>::empty(),
        s@ == Seq::<char>::empty(),
{
    let s = String::new();
    assert(encode_utf8(s@) =~= Seq::<u8>::empty());
    s
}

} // verus!
