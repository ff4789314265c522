//! White space in UTF-8 text: where it stands, how it is trimmed from the
//! end of a text, and how it parts a text into words.
use crate::text::{encodings, lemma_prefix_is_boundary, substr_between};
use vstd::prelude::*;
use vstd::string::*;
use vstd::utf8::*;

verus! {

/// Whether a byte is ASCII white space: a space, or one of the control
/// characters from tab to carriage return.
pub open spec fn is_ascii_space(b: u8) -> bool {
    b == 32 || (9 <= b <= 13)
}

/// Whether two bytes encode a white-space character: U+0085 or U+00A0.
pub open spec fn is_space2(a: u8, b: u8) -> bool {
    a == 0xC2 && (b == 0x85 || b == 0xA0)
}

/// Whether three bytes encode a white-space character: U+1680, one of
/// U+2000 to U+200A, U+2028, U+2029, U+202F, U+205F or U+3000.
pub open spec fn is_space3(a: u8, b: u8, c: u8) -> bool {
    ||| (a == 0xE1 && b == 0x9A && c == 0x80)
    ||| (a == 0xE2 && b == 0x80 && ((0x80 <= c <= 0x8A) || c == 0xA8 || c == 0xA9 || c == 0xAF))
    ||| (a == 0xE2 && b == 0x81 && c == 0x9F)
    ||| (a == 0xE3 && b == 0x80 && c == 0x80)
}

/// Number of bytes of the white-space character that begins at a
/// position; zero where none begins there.
pub open spec fn space_at(s: Seq<u8>, i: int) -> int {
    if 0 <= i < s.len() && is_ascii_space(s[i]) {
        1
    } else if 0 <= i && i + 1 < s.len() && is_space2(s[i], s[i + 1]) {
        2
    } else if 0 <= i && i + 2 < s.len() && is_space3(s[i], s[i + 1], s[i + 2]) {
        3
    } else {
        0
    }
}

/// Number of bytes of the white-space character that ends at a position;
/// zero where none ends there.
pub open spec fn space_before(s: Seq<u8>, end: int) -> int {
    if 1 <= end <= s.len() && is_ascii_space(s[end - 1]) {
        1
    } else if 2 <= end <= s.len() && is_space2(s[end - 2], s[end - 1]) {
        2
    } else if 3 <= end <= s.len() && is_space3(s[end - 3], s[end - 2], s[end - 1]) {
        3
    } else {
        0
    }
}

/// A text without the white space at its end.
pub open spec fn trim_end(s: Seq<u8>) -> Seq<u8>
    decreases s.len(),
{
    let w = space_before(s, s.len() as int);
    if w > 0 {
        trim_end(s.take(s.len() - w))
    } else {
        s
    }
}

/// The first position at or after `from` where white space begins, or
/// the length of the text where none does.
pub open spec fn first_space(s: Seq<u8>, from: int) -> int
    decreases s.len() - from,
{
    if from < 0 || from >= s.len() {
        s.len() as int
    } else if space_at(s, from) > 0 {
        from
    } else {
        first_space(s, from + 1)
    }
}

/// The words of a text from a position on: its longest runs of bytes
/// without white space, in order.
pub open spec fn words_from(s: Seq<u8>, from: int) -> Seq<Seq<u8>>
    decreases s.len() - from,
{
    if from < 0 || from >= s.len() {
        Seq::empty()
    } else if space_at(s, from) > 0 {
        words_from(s, from + space_at(s, from))
    } else {
        let end = first_space(s, from);
        if from < end <= s.len() {
            seq![s.subrange(from, end)] + words_from(s, end)
        } else {
            Seq::empty()
        }
    }
}

/// The words of a text.
pub open spec fn words(s: Seq<u8>) -> Seq<Seq<u8>> {
    words_from(s, 0)
}

/// A position up to which there is no white space, and at which there is
/// some or the text ends, is the first position of white space.
proof fn lemma_first_space(s: Seq<u8>, from: int, end: int)
    requires
        0 <= from <= end <= s.len(),
        end < s.len() ==> space_at(s, end) > 0,
        forall|k: int| from <= k < end ==> space_at(s, k) == 0,
    ensures
        first_space(s, from) == end,
    decreases end - from,
{
    if from < end {
        lemma_first_space(s, from + 1, end);
    }
}

/// Where white space begins in valid UTF-8, a character begins.
pub proof fn lemma_space_begins_at_boundary(s: Seq<u8>, i: int)
    requires
        valid_utf8(s),
        space_at(s, i) > 0,
    ensures
        is_char_boundary(s, i),
{
    is_char_boundary_iff_not_is_continuation_byte(s, i);
}

/// Where white space ends in valid UTF-8, a character ends.
pub proof fn lemma_space_ends_at_boundary(s: Seq<u8>, i: int)
    requires
        valid_utf8(s),
        space_at(s, i) > 0,
    ensures
        is_char_boundary(s, i + space_at(s, i)),
        i + space_at(s, i) <= s.len(),
{
    let w = space_at(s, i);
    lemma_space_begins_at_boundary(s, i);
    valid_utf8_split(s, i);
    let head = s.subrange(0, i);
    let tail = s.subrange(i, s.len() as int);
    assert(tail[0] == s[i]);
    if w >= 2 {
        assert(tail[1] == s[i + 1]);
    }
    if w >= 3 {
        assert(tail[2] == s[i + 2]);
    }
    assert(valid_first_scalar(tail));
    assert(length_of_first_scalar(tail) == w);
    let first = tail.subrange(0, w);
    let rest = tail.subrange(w, tail.len() as int);
    assert(valid_utf8(first)) by {
        reveal_with_fuel(valid_utf8, 2);
        assert(first[0] == tail[0]);
        if w >= 2 {
            assert(first[1] == tail[1]);
        }
        if w >= 3 {
            assert(first[2] == tail[2]);
        }
        assert(pop_first_scalar(first) =~= Seq::<u8>::empty());
    }
    valid_utf8_concat(head, first);
    assert((head + first) + rest =~= s);
    lemma_prefix_is_boundary(head + first, rest);
}

/// Number of bytes of the white-space character that begins at a
/// position.
fn space_width_at(bytes: &[u8], i: usize) -> (w: usize)
    requires
        i <= bytes@.len(),
    ensures
        w == space_at(bytes@, i as int),
{
    if i >= bytes.len() {
        return 0;
    }
    let a = bytes[i];
    if a == 32 || (9 <= a && a <= 13) {
        return 1;
    }
    let left = bytes.len() - i;
    if left >= 2 && a == 0xC2 && (bytes[i + 1] == 0x85 || bytes[i + 1] == 0xA0) {
        return 2;
    }
    if left >= 3 {
        let b = bytes[i + 1];
        let c = bytes[i + 2];
        if (a == 0xE1 && b == 0x9A && c == 0x80) || (a == 0xE2 && b == 0x80 && ((0x80 <= c && c
            <= 0x8A) || c == 0xA8 || c == 0xA9 || c == 0xAF)) || (a == 0xE2 && b == 0x81 && c
            == 0x9F) || (a == 0xE3 && b == 0x80 && c == 0x80) {
            return 3;
        }
    }
    0
}

/// Number of bytes of the white-space character that ends at a position.
fn space_width_before(bytes: &[u8], end: usize) -> (w: usize)
    requires
        end <= bytes@.len(),
    ensures
        w == space_before(bytes@, end as int),
        w > 0 ==> w <= end && space_at(bytes@, end - w) == w,
{
    if end >= 1 {
        let a = bytes[end - 1];
        if a == 32 || (9 <= a && a <= 13) {
            return 1;
        }
    }
    if end >= 2 && bytes[end - 2] == 0xC2 && (bytes[end - 1] == 0x85 || bytes[end - 1] == 0xA0) {
        return 2;
    }
    if end >= 3 {
        let a = bytes[end - 3];
        let b = bytes[end - 2];
        let c = bytes[end - 1];
        if (a == 0xE1 && b == 0x9A && c == 0x80) || (a == 0xE2 && b == 0x80 && ((0x80 <= c && c
            <= 0x8A) || c == 0xA8 || c == 0xA9 || c == 0xAF)) || (a == 0xE2 && b == 0x81 && c
            == 0x9F) || (a == 0xE3 && b == 0x80 && c == 0x80) {
            return 3;
        }
    }
    0
}

/// The length of a text without the white space at its end.
pub fn trimmed_len(bytes: &[u8]) -> (n: usize)
    ensures
        n <= bytes@.len(),
        bytes@.take(n as int) == trim_end(bytes@),
        n == bytes@.len() || space_at(bytes@, n as int) > 0,
{
    let mut n: usize = bytes.len();
    let mut done = false;
    proof {
        assert(bytes@.take(n as int) =~= bytes@);
    }
    while !done
        invariant
            n <= bytes@.len(),
            trim_end(bytes@.take(n as int)) == trim_end(bytes@),
            n == bytes@.len() || space_at(bytes@, n as int) > 0,
            done ==> space_before(bytes@, n as int) == 0,
        decreases n, if done { 0int } else { 1int },
    {
        let w = space_width_before(bytes, n);
        let ghost s = bytes@.take(n as int);
        proof {
            assert(space_before(s, n as int) == space_before(bytes@, n as int)) by {
                if n >= 1 {
                    assert(s[n - 1] == bytes@[n - 1]);
                }
                if n >= 2 {
                    assert(s[n - 2] == bytes@[n - 2]);
                }
                if n >= 3 {
                    assert(s[n - 3] == bytes@[n - 3]);
                }
            }
        }
        if w == 0 {
            done = true;
        } else {
            proof {
                assert(s.take(n - w) =~= bytes@.take(n - w));
            }
            n = n - w;
        }
    }
    proof {
        let s = bytes@.take(n as int);
        assert(space_before(s, n as int) == space_before(bytes@, n as int)) by {
            if n >= 1 {
                assert(s[n - 1] == bytes@[n - 1]);
            }
            if n >= 2 {
                assert(s[n - 2] == bytes@[n - 2]);
            }
            if n >= 3 {
                assert(s[n - 3] == bytes@[n - 3]);
            }
        }
    }
    n
}

/// A text without the white space at its end.
pub fn trimmed(text: &str) -> (out: String)
    ensures
        encode_utf8(out@) == trim_end(text.spec_bytes()),
{
    let n = trimmed_len(text.as_bytes());
    proof {
        let b = text.spec_bytes();
        encode_utf8_valid_utf8(text@);
        is_char_boundary_start_end_of_seq(b);
        if n < b.len() {
            lemma_space_begins_at_boundary(b, n as int);
        }
        assert(b.subrange(0, n as int) =~= b.take(n as int));
    }
    substr_between(text, 0, n)
}

/// The words of a text.
pub fn words_of(text: &str) -> (list: Vec<String>)
    ensures
        encodings(list@) == words(text.spec_bytes()),
{
    let bytes = text.as_bytes();
    let ghost b = text.spec_bytes();
    let mut list: Vec<String> = Vec::new();
    let mut i: usize = 0;
    proof {
        encode_utf8_valid_utf8(text@);
        is_char_boundary_start_end_of_seq(b);
        assert(encodings(list@) + words(b) =~= words(b));
    }
    while i < bytes.len()
        invariant
            i <= bytes@.len(),
            bytes@ == b,
            b == text.spec_bytes(),
            valid_utf8(b),
            is_char_boundary(b, i as int),
            is_char_boundary(b, b.len() as int),
            words(b) == encodings(list@) + words_from(b, i as int),
        decreases bytes@.len() - i,
    {
        let w = space_width_at(bytes, i);
        if w > 0 {
            proof {
                lemma_space_ends_at_boundary(b, i as int);
            }
            i = i + w;
        } else {
            let mut j: usize = i + 1;
            while j < bytes.len() && space_width_at(bytes, j) == 0
                invariant
                    i < j <= bytes@.len(),
                    bytes@ == b,
                    forall|k: int| i <= k < j ==> space_at(b, k) == 0,
                decreases bytes@.len() - j,
            {
                j += 1;
            }
            proof {
                lemma_first_space(b, i as int, j as int);
                if j < b.len() {
                    lemma_space_begins_at_boundary(b, j as int);
                }
            }
            let ghost before = encodings(list@);
            let word = substr_between(text, i, j);
            list.push(word);
            proof {
                assert(encodings(list@) =~= before + seq![b.subrange(i as int, j as int)]);
                assert(before + (seq![b.subrange(i as int, j as int)] + words_from(b, j as int))
                    =~= encodings(list@) + words_from(b, j as int));
            }
            i = j;
        }
    }
    proof {
        assert(encodings(list@) + Seq::<Seq<u8>>::empty() =~= encodings(list@));
    }
    list
}

} // verus!
