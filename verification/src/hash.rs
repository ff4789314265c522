//! The 160-bit object identifier and its hexadecimal form.
use sha1::{Digest, Sha1};
use vstd::prelude::*;
use vstd::string::*;
use vstd::utf8::*;

verus! {

/// Number of bytes in an identifier.
pub const HASH_SIZE_BYTES: usize = 20;

/// Number of characters in the hexadecimal form of an identifier.
pub const HASH_HEX_LENGTH: usize = 40;

/// Why a text or a byte string is not an identifier.
#[derive(Debug, Clone, Copy, PartialEq, Eq, Structural)]
pub enum HashError {
    /// The hexadecimal text does not have forty bytes.
    InvalidHexLength,
    /// The text has forty bytes, one of which is no hexadecimal digit.
    InvalidHexDigit,
    /// The raw form does not have twenty bytes.
    InvalidRawLength,
}

/// A content identifier: twenty raw bytes.
#[derive(Debug, Clone, PartialEq, Eq, Hash)]
pub struct GitHash(pub [u8; HASH_SIZE_BYTES]);

impl View for GitHash {
    type V = Seq<u8>;

    open spec fn view(&self) -> Seq<u8> {
        self.0@
    }
}

/// The digest that SHA-1 assigns to a byte string.
pub uninterp spec fn sha1_digest(data: Seq<u8>) -> Seq<u8>;

/// The lower-case hexadecimal digit for a value below sixteen.
pub open spec fn hex_digit(n: int) -> char {
    if n < 10 {
        (n + 48) as char
    } else {
        (n + 87) as char
    }
}

/// The lower-case hexadecimal text of a byte string: two digits per byte,
/// the high half first.
pub open spec fn hex_text(data: Seq<u8>) -> Seq<char> {
    Seq::new(
        2 * data.len(),
        |i: int|
            if i % 2 == 0 {
                hex_digit(data[i / 2] as int / 16)
            } else {
                hex_digit(data[i / 2] as int % 16)
            },
    )
}

/// Whether a byte is a hexadecimal digit, in either case.
pub open spec fn is_hex_digit(b: u8) -> bool {
    (48 <= b <= 57) || (65 <= b <= 70) || (97 <= b <= 102)
}

/// The value of a hexadecimal digit.
pub open spec fn hex_digit_value(b: u8) -> int {
    if 48 <= b <= 57 {
        b - 48
    } else if 65 <= b <= 70 {
        b - 55
    } else {
        b - 87
    }
}

/// Whether a byte string is hexadecimal text: an even number of digits.
pub open spec fn is_hex_text(text: Seq<u8>) -> bool {
    &&& text.len() % 2 == 0
    &&& forall|i: int| 0 <= i < text.len() ==> is_hex_digit(#[trigger] text[i])
}

/// The bytes that hexadecimal text stands for.
pub open spec fn hex_value(text: Seq<u8>) -> Seq<u8> {
    Seq::new(
        text.len() / 2,
        |i: int| (hex_digit_value(text[2 * i]) * 16 + hex_digit_value(text[2 * i + 1])) as u8,
    )
}

/// Calls the `sha1` crate: `Sha1::new`, `update` with the whole input, then
/// `finalize`. The twenty bytes that come back are the SHA-1 digest of the
/// input, which is a function of the input alone.
#[verifier::external_body]
fn sha1_of(data: &[u8]) -> (digest: [u8; HASH_SIZE_BYTES])
    ensures
        digest@ == sha1_digest(data@),
{
    let mut hasher = Sha1::new();
    hasher.update(data);
    hasher.finalize().into()
}

/// Calls `hex::encode`, which writes each byte as two lower-case digits taken
/// from the table `0123456789abcdef`, the high four bits first.
#[verifier::external_body]
fn hex_encode(data: &[u8]) -> (text: String)
    ensures
        text@ == hex_text(data@),
{
    hex::encode(data)
}

/// Calls `hex::decode`, which fails on an odd number of bytes and on any byte
/// outside `0-9`, `a-f`, `A-F`, and otherwise combines each pair of digits into
/// one byte, the first digit giving the high four bits.
#[verifier::external_body]
fn hex_decode(text: &[u8]) -> (bytes: Option<Vec<u8>>)
    ensures
        bytes is Some <==> is_hex_text(text@),
        bytes is Some ==> bytes.unwrap()@ == hex_value(text@),
{
    hex::decode(text).ok()
}

/// The hexadecimal text of a byte string is ASCII; read as bytes it is
/// hexadecimal text that stands for the byte string.
pub proof fn lemma_hex_text(data: Seq<u8>)
    ensures
        is_ascii_chars(hex_text(data)),
        encode_utf8(hex_text(data)).len() == 2 * data.len(),
        is_hex_text(encode_utf8(hex_text(data))),
        hex_value(encode_utf8(hex_text(data))) == data,
{
    let text = hex_text(data);
    let bytes = encode_utf8(text);
    assert forall|i: int| 0 <= i < text.len() implies '\0' <= #[trigger] text[i] <= '\u{7f}' by {
        let b = data[i / 2] as int;
        assert(0 <= b / 16 < 16 && 0 <= b % 16 < 16);
    }
    is_ascii_chars_encode_utf8(text);
    assert forall|i: int| 0 <= i < bytes.len() implies is_hex_digit(#[trigger] bytes[i]) && (if i
        % 2 == 0 {
        hex_digit_value(bytes[i]) == data[i / 2] as int / 16
    } else {
        hex_digit_value(bytes[i]) == data[i / 2] as int % 16
    }) by {
        let b = data[i / 2] as int;
        assert(0 <= b / 16 < 16 && 0 <= b % 16 < 16);
        assert(text[i] as u8 == bytes[i]);
    }
    let back = hex_value(bytes);
    assert forall|k: int| 0 <= k < data.len() implies back[k] == data[k] by {
        assert(is_hex_digit(bytes[2 * k]));
        assert(is_hex_digit(bytes[2 * k + 1]));
        assert((2 * k) / 2 == k && (2 * k + 1) / 2 == k);
        assert((2 * k) % 2 == 0 && (2 * k + 1) % 2 == 1);
    }
    assert(back =~= data);
}

/// Hexadecimal text and raw bytes are two forms of one identifier: the
/// text of twenty raw bytes has forty bytes, all of them digits, and reads
/// back as the same twenty bytes.
pub proof fn law_hex_round_trip(raw: Seq<u8>)
    requires
        raw.len() == HASH_SIZE_BYTES,
    ensures
        from_hex_result(encode_utf8(hex_text(raw))) == Ok::<Seq<u8>, HashError>(raw),
{
    lemma_hex_text(raw);
}

/// Whether a byte string is hexadecimal text in lower case.
pub open spec fn is_lower_hex_text(text: Seq<u8>) -> bool {
    &&& text.len() % 2 == 0
    &&& forall|i: int|
        0 <= i < text.len() ==> (48 <= #[trigger] text[i] <= 57) || (97 <= text[i] <= 102)
}

/// The two forms of an identifier determine each other: the hexadecimal
/// text of the bytes that a lower-case hexadecimal text stands for is that
/// text.
pub proof fn law_hex_text_of_value(text: Seq<u8>)
    requires
        is_lower_hex_text(text),
    ensures
        is_hex_text(text),
        encode_utf8(hex_text(hex_value(text))) == text,
{
    let data = hex_value(text);
    let back = hex_text(data);
    let bytes = encode_utf8(back);
    lemma_hex_text(data);
    is_ascii_chars_encode_utf8(back);
    assert forall|i: int| 0 <= i < text.len() implies bytes[i] == text[i] by {
        let k = i / 2;
        assert(is_hex_digit(text[2 * k]) && is_hex_digit(text[2 * k + 1]));
        let hi = hex_digit_value(text[2 * k]);
        let lo = hex_digit_value(text[2 * k + 1]);
        assert(0 <= hi < 16 && 0 <= lo < 16);
        assert(data[k] == (hi * 16 + lo) as u8);
        assert((hi * 16 + lo) / 16 == hi && (hi * 16 + lo) % 16 == lo);
        assert(back[i] as u8 == bytes[i]);
        if i % 2 == 0 {
            assert(i == 2 * k);
        } else {
            assert(i == 2 * k + 1);
        }
    }
    assert(bytes =~= text);
}

/// What reading an identifier from hexadecimal text gives: the raw bytes,
/// or the reason why the text is refused.
pub open spec fn from_hex_result(text: Seq<u8>) -> Result<Seq<u8>, HashError> {
    if text.len() != HASH_HEX_LENGTH {
        Err(HashError::InvalidHexLength)
    } else if !is_hex_text(text) {
        Err(HashError::InvalidHexDigit)
    } else {
        Ok(hex_value(text))
    }
}

/// The raw bytes inside a result, for comparing it with `from_hex_result`.
pub open spec fn raw_of(r: Result<GitHash, HashError>) -> Result<Seq<u8>, HashError> {
    match r {
        Ok(h) => Ok(h@),
        Err(e) => Err(e),
    }
}

/// Copies twenty bytes into an array.
fn array_of(bytes: &[u8]) -> (arr: [u8; HASH_SIZE_BYTES])
    requires
        bytes@.len() == HASH_SIZE_BYTES,
    ensures
        arr@ == bytes@,
{
    let mut arr = [0u8; HASH_SIZE_BYTES];
    let mut i: usize = 0;
    while i < HASH_SIZE_BYTES
        invariant
            i <= HASH_SIZE_BYTES,
            bytes@.len() == HASH_SIZE_BYTES,
            forall|j: int| 0 <= j < i ==> arr@[j] == bytes@[j],
        decreases HASH_SIZE_BYTES - i,
    {
        arr[i] = bytes[i];
        i += 1;
    }
    assert(arr@ =~= bytes@);
    arr
}

impl GitHash {
    /// The identifier of a byte string: its digest.
    pub fn from_bytes(bytes: &[u8]) -> (hash: Self)
        ensures
            hash@ == sha1_digest(bytes@),
    {
        GitHash(sha1_of(bytes))
    }

    /// Reads an identifier from its forty hexadecimal digits, in either
    /// case.
    pub fn from_hex(s: &str) -> (r: Result<Self, HashError>)
        ensures
            raw_of(r) == from_hex_result(s.spec_bytes()),
    {
        let text = s.as_bytes();
        if text.len() != HASH_HEX_LENGTH {
            return Err(HashError::InvalidHexLength);
        }
        match hex_decode(text) {
            Some(raw) => {
                assert(raw@.len() == HASH_SIZE_BYTES);
                Ok(GitHash(array_of(raw.as_slice())))
            },
            None => Err(HashError::InvalidHexDigit),
        }
    }

    /// The identifier with the given twenty raw bytes.
    pub fn from_raw_bytes(bytes: &[u8]) -> (hash: Self)
        requires
            bytes@.len() == HASH_SIZE_BYTES,
        ensures
            hash@ == bytes@,
    {
        GitHash(array_of(bytes))
    }

    /// The identifier whose twenty raw bytes are the bytes of a text.
    pub fn from_raw_str(s: &str) -> (r: Result<Self, HashError>)
        ensures
            s.spec_bytes().len() == HASH_SIZE_BYTES ==> r is Ok && r.unwrap()@ == s.spec_bytes(),
            s.spec_bytes().len() != HASH_SIZE_BYTES ==> r == Err::<Self, HashError>(
                HashError::InvalidRawLength,
            ),
    {
        let bytes = s.as_bytes();
        if bytes.len() != HASH_SIZE_BYTES {
            return Err(HashError::InvalidRawLength);
        }
        Ok(Self::from_raw_bytes(bytes))
    }

    /// The forty lower-case hexadecimal digits of the identifier.
    pub fn to_hex(&self) -> (text: String)
        ensures
            text@ == hex_text(self@),
            encode_utf8(text@).len() == HASH_HEX_LENGTH,
            from_hex_result(encode_utf8(text@)) == Ok::<Seq<u8>, HashError>(self@),
    {
        proof {
            lemma_hex_text(self@);
        }
        hex_encode(self.0.as_slice())
    }

    /// The twenty raw bytes.
    pub fn as_bytes(&self) -> (bytes: &[u8])
        ensures
            bytes@ == self@,
    {
        self.0.as_slice()
    }

    /// The two parts of the identifier's place in a store: the first two
    /// hexadecimal digits name the directory, the other thirty-eight the
    /// file.
    pub fn to_path_parts(&self) -> (parts: (String, String))
        ensures
            parts.0@ == hex_text(self@).subrange(0, 2),
            parts.1@ == hex_text(self@).subrange(2, 40),
    {
        let bytes = self.0.as_slice();
        let dir = hex_encode(vstd::slice::slice_subrange(bytes, 0, 1));
        let file = hex_encode(vstd::slice::slice_subrange(bytes, 1, HASH_SIZE_BYTES));
        proof {
            let whole = hex_text(self@);
            let head = hex_text(self@.subrange(0, 1));
            let tail = hex_text(self@.subrange(1, 20));
            assert(head =~= whole.subrange(0, 2));
            assert forall|i: int| 0 <= i < 38 implies tail[i] == whole[i + 2] by {
                assert((i + 2) / 2 == i / 2 + 1);
                assert((i + 2) % 2 == i % 2);
            }
            assert(tail =~= whole.subrange(2, 40));
        }
        (dir, file)
    }

    /// Whether two identifiers are the same.
    pub fn same(&self, other: &GitHash) -> (yes: bool)
        ensures
            yes == (self@ == other@),
    {
        crate::text::bytes_eq(self.0.as_slice(), other.0.as_slice())
    }

    /// A copy of the identifier.
    pub fn copy(&self) -> (hash: GitHash)
        ensures
            hash@ == self@,
    {
        GitHash(array_of(self.0.as_slice()))
    }

    /// Name of the digest algorithm.
    pub fn hash_version() -> (name: &'static str)
        ensures
            name@ == "sha1"@,
    {
        "sha1"
    }
}

} // verus!
