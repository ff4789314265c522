//! Typed objects: the kinds of object and of file, the envelope in which an
//! object is hashed and stored, and what goes to and comes from the store.
use crate::hash::{GitHash, HashError, sha1_digest};
use crate::text::{
    bytes_eq, copy_range, decimal, find, find_byte, lemma_decimal, lemma_find_unique, parse_decimal,
    parse_octal, parsed_decimal, parsed_octal, push_decimal,
};
use flate2::read::ZlibDecoder;
use flate2::write::ZlibEncoder;
use flate2::Compression;
use std::io::Read;
use std::io::Write;
use vstd::prelude::*;
use vstd::string::*;
use vstd::utf8::*;

verus! {

/// The kind of an object.
#[derive(Debug, Clone, Copy, PartialEq, Eq, Structural)]
pub enum ObjectType {
    Blob,
    Tree,
    Commit,
    /// Any other kind, with the code it was read from.
    Unknown(u8),
}

/// The mode of an entry of a tree or of the index.
#[derive(Debug, Clone, Copy, PartialEq, Eq, Structural)]
pub enum FileMode {
    /// `100644`
    Normal,
    /// `100755`
    Executable,
    /// `120000`
    Symlink,
    /// `40000`
    Directory,
}

/// Why an object cannot be read or written.
#[derive(Debug, Clone, Copy, PartialEq, Eq, Structural)]
pub enum ObjectError {
    /// The identifier is not forty hexadecimal digits.
    BadHex,
    /// The store holds nothing under the identifier.
    NotFound,
    /// The stored bytes are not a zlib stream.
    DecompressFailed,
    /// The bytes are not an envelope: no NUL, no space before it, or a size
    /// that is not the number of bytes after the NUL.
    MalformedObject,
    /// The compressor reported an error.
    CompressFailed,
}

/// The bytes `blob`.
pub open spec fn blob_name() -> Seq<u8> {
    seq![98u8, 108, 111, 98]
}

/// The bytes `tree`.
pub open spec fn tree_name() -> Seq<u8> {
    seq![116u8, 114, 101, 101]
}

/// The bytes `commit`.
pub open spec fn commit_name() -> Seq<u8> {
    seq![99u8, 111, 109, 109, 105, 116]
}

/// The bytes `unknown`.
pub open spec fn unknown_name() -> Seq<u8> {
    seq![117u8, 110, 107, 110, 111, 119, 110]
}

/// The name under which a kind of object is written.
pub open spec fn kind_name(t: ObjectType) -> Seq<u8> {
    match t {
        ObjectType::Blob => blob_name(),
        ObjectType::Tree => tree_name(),
        ObjectType::Commit => commit_name(),
        ObjectType::Unknown(_) => unknown_name(),
    }
}

/// A byte with an ASCII capital letter turned into the small one.
pub open spec fn lower_byte(b: u8) -> u8 {
    if 65 <= b <= 90 {
        (b + 32) as u8
    } else {
        b
    }
}

/// A byte string with its ASCII capital letters turned into small ones.
pub open spec fn lower(s: Seq<u8>) -> Seq<u8> {
    Seq::new(s.len(), |i: int| lower_byte(s[i]))
}

/// The kind of object that a name stands for, whatever the case of its
/// letters.
pub open spec fn type_named(name: Seq<u8>) -> ObjectType {
    if lower(name) == blob_name() {
        ObjectType::Blob
    } else if lower(name) == tree_name() {
        ObjectType::Tree
    } else if lower(name) == commit_name() {
        ObjectType::Commit
    } else {
        ObjectType::Unknown(ObjectType::UNKNOWN_FROM_STR_SENTINEL)
    }
}

/// The envelope of an object: the name of its kind, a space, the decimal
/// number of payload bytes, a NUL and the payload.
pub open spec fn envelope(t: ObjectType, payload: Seq<u8>) -> Seq<u8> {
    kind_name(t) + seq![32u8] + decimal(payload.len()) + seq![0u8] + payload
}

/// What splitting an envelope gives: the kind and the payload, where the
/// bytes hold a NUL, a space before it, and between the two the number of
/// bytes that follow the NUL.
pub open spec fn opened(bytes: Seq<u8>) -> Result<(ObjectType, Seq<u8>), ObjectError> {
    let nul = find(bytes, 0);
    let header = bytes.subrange(0, nul);
    let space = find(header, 32);
    if nul == bytes.len() || space == header.len() {
        Err(ObjectError::MalformedObject)
    } else {
        let payload = bytes.subrange(nul + 1, bytes.len() as int);
        let size = parsed_decimal(header.subrange(space + 1, header.len() as int));
        if size == Some(payload.len() as u64) && payload.len() <= u64::MAX {
            Ok((type_named(header.subrange(0, space)), payload))
        } else {
            Err(ObjectError::MalformedObject)
        }
    }
}

/// Whether two byte strings are equal but for the case of ASCII letters,
/// the second being in small letters already.
fn eq_lower(a: &[u8], small: &[u8]) -> (same: bool)
    requires
        lower(small@) == small@,
    ensures
        same == (lower(a@) == small@),
{
    if a.len() != small.len() {
        return false;
    }
    let mut i: usize = 0;
    while i < a.len()
        invariant
            i <= a@.len(),
            a@.len() == small@.len(),
            forall|j: int| 0 <= j < i ==> lower_byte(a@[j]) == small@[j],
        decreases a@.len() - i,
    {
        let b = a[i];
        let l = if 65 <= b && b <= 90 {
            b + 32
        } else {
            b
        };
        if l != small[i] {
            assert(lower(a@)[i as int] != small@[i as int]);
            return false;
        }
        i += 1;
    }
    assert(lower(a@) =~= small@);
    true
}

/// The names of the kinds are what their literals hold.
proof fn lemma_names()
    ensures
        "blob".spec_bytes() == blob_name(),
        "tree".spec_bytes() == tree_name(),
        "commit".spec_bytes() == commit_name(),
        "unknown".spec_bytes() == unknown_name(),
        lower(blob_name()) == blob_name(),
        lower(tree_name()) == tree_name(),
        lower(commit_name()) == commit_name(),
{
    reveal_strlit("blob");
    reveal_strlit("tree");
    reveal_strlit("commit");
    reveal_strlit("unknown");
    is_ascii_chars_encode_utf8("blob"@);
    is_ascii_chars_encode_utf8("tree"@);
    is_ascii_chars_encode_utf8("commit"@);
    is_ascii_chars_encode_utf8("unknown"@);
    assert("blob".spec_bytes() =~= blob_name());
    assert("tree".spec_bytes() =~= tree_name());
    assert("commit".spec_bytes() =~= commit_name());
    assert("unknown".spec_bytes() =~= unknown_name());
    assert(lower(blob_name()) =~= blob_name());
    assert(lower(tree_name()) =~= tree_name());
    assert(lower(commit_name()) =~= commit_name());
}

impl ObjectType {
    /// The code that stands for a kind whose name was not recognised.
    pub const UNKNOWN_FROM_STR_SENTINEL: u8 = 0xff;

    /// The name of the kind.
    pub fn as_str(&self) -> (name: &'static str)
        ensures
            name.spec_bytes() == kind_name(*self),
    {
        proof {
            lemma_names();
        }
        match self {
            ObjectType::Blob => "blob",
            ObjectType::Tree => "tree",
            ObjectType::Commit => "commit",
            ObjectType::Unknown(_) => "unknown",
        }
    }

    /// The kind that a name given as bytes stands for.
    pub fn from_name(name: &[u8]) -> (t: Self)
        ensures
            t == type_named(name@),
    {
        proof {
            lemma_names();
        }
        if eq_lower(name, "blob".as_bytes()) {
            ObjectType::Blob
        } else if eq_lower(name, "tree".as_bytes()) {
            ObjectType::Tree
        } else if eq_lower(name, "commit".as_bytes()) {
            ObjectType::Commit
        } else {
            ObjectType::Unknown(ObjectType::UNKNOWN_FROM_STR_SENTINEL)
        }
    }

    /// The kind that a name stands for, whatever the case of its letters.
    pub fn from_str(str: &str) -> (t: Self)
        ensures
            t == type_named(str.spec_bytes()),
    {
        Self::from_name(str.as_bytes())
    }

    /// The kind of object that an entry of the given mode points to: a
    /// tree for a directory, a blob otherwise.
    pub fn from_mode(mode: &FileMode) -> (t: Self)
        ensures
            t == (if *mode == FileMode::Directory {
                ObjectType::Tree
            } else {
                ObjectType::Blob
            }),
    {
        match mode {
            FileMode::Directory => ObjectType::Tree,
            _ => ObjectType::Blob,
        }
    }

    /// The kind that a type code of a pack stands for.
    pub fn from_code(code: u8) -> (t: Self)
        ensures
            t == type_of_code(code),
    {
        match code {
            1 => ObjectType::Commit,
            2 => ObjectType::Tree,
            3 => ObjectType::Blob,
            other => ObjectType::Unknown(other),
        }
    }

    /// Whether two kinds are the same.
    pub fn same(&self, other: &ObjectType) -> (yes: bool)
        ensures
            yes == (*self == *other),
    {
        *self == *other
    }
}

/// The kind that a type code of a pack stands for: 1 a commit, 2 a tree,
/// 3 a blob.
pub open spec fn type_of_code(code: u8) -> ObjectType {
    if code == 1 {
        ObjectType::Commit
    } else if code == 2 {
        ObjectType::Tree
    } else if code == 3 {
        ObjectType::Blob
    } else {
        ObjectType::Unknown(code)
    }
}

/// The envelope of an object.
pub fn encode_object(obj_type: ObjectType, data: &[u8]) -> (result: Vec<u8>)
    ensures
        result@ == envelope(obj_type, data@),
{
    let mut result: Vec<u8> = Vec::new();
    result.extend_from_slice(obj_type.as_str().as_bytes());
    result.push(32);
    push_decimal(&mut result, data.len() as u64);
    result.push(0);
    result.extend_from_slice(data);
    assert(result@ =~= envelope(obj_type, data@));
    result
}

/// Splits an envelope into the kind and the payload.
pub fn decode_object(bytes: &[u8]) -> (r: Result<(ObjectType, Vec<u8>), ObjectError>)
    ensures
        match r {
            Ok(pair) => opened(bytes@) == Ok::<(ObjectType, Seq<u8>), ObjectError>(
                (pair.0, pair.1@),
            ),
            Err(e) => opened(bytes@) == Err::<(ObjectType, Seq<u8>), ObjectError>(e),
        },
{
    let nul = find_byte(bytes, 0);
    if nul == bytes.len() {
        return Err(ObjectError::MalformedObject);
    }
    let header = vstd::slice::slice_subrange(bytes, 0, nul);
    let space = find_byte(header, 32);
    if space == header.len() {
        return Err(ObjectError::MalformedObject);
    }
    let size = parse_decimal(vstd::slice::slice_subrange(header, space + 1, header.len()));
    let rest = bytes.len() - nul - 1;
    match size {
        Some(n) => {
            if n != rest as u64 {
                return Err(ObjectError::MalformedObject);
            }
        },
        None => {
            return Err(ObjectError::MalformedObject);
        },
    }
    let t = ObjectType::from_name(vstd::slice::slice_subrange(header, 0, space));
    let payload = copy_range(bytes, nul + 1, bytes.len());
    Ok((t, payload))
}

/// The kind as it comes back from an envelope: itself, but that every
/// unknown kind comes back with the code `UNKNOWN_FROM_STR_SENTINEL`.
pub open spec fn canonical(t: ObjectType) -> ObjectType {
    match t {
        ObjectType::Unknown(_) => ObjectType::Unknown(ObjectType::UNKNOWN_FROM_STR_SENTINEL),
        _ => t,
    }
}

/// The name of a kind holds neither a NUL nor a space, and stands for the
/// kind.
proof fn lemma_kind_name(t: ObjectType)
    ensures
        forall|j: int| 0 <= j < kind_name(t).len() ==> kind_name(t)[j] != 0 && kind_name(t)[j] != 32,
        type_named(kind_name(t)) == canonical(t),
{
    let name = kind_name(t);
    assert(lower(name) =~= name);
    assert(blob_name()[0] != tree_name()[0]);
    assert(blob_name().len() != commit_name().len());
    assert(tree_name().len() != commit_name().len());
    assert(unknown_name().len() != blob_name().len());
    assert(unknown_name().len() != commit_name().len());
}

/// Splitting the envelope of an object gives back its kind and its
/// payload. An unknown kind comes back as unknown, with the code
/// `UNKNOWN_FROM_STR_SENTINEL`.
pub proof fn law_envelope_round_trip(t: ObjectType, payload: Seq<u8>)
    requires
        payload.len() <= u64::MAX,
    ensures
        opened(envelope(t, payload)) == Ok::<(ObjectType, Seq<u8>), ObjectError>(
            (canonical(t), payload),
        ),
{
    let name = kind_name(t);
    let digits = decimal(payload.len());
    let e = envelope(t, payload);
    let n = name.len() as int;
    let h: int = n + 1 + digits.len();
    lemma_kind_name(t);
    lemma_decimal(payload.len());
    assert forall|j: int| 0 <= j < h implies e[j] != 0 by {
        if j < n {
            assert(e[j] == name[j]);
        } else if j == n {
        } else {
            assert(e[j] == digits[j - n - 1]);
            assert(crate::text::is_digit(digits[j - n - 1]));
        }
    }
    assert(e[h] == 0);
    lemma_find_unique(e, 0, h);
    let header = e.subrange(0, h);
    assert(header =~= name + seq![32u8] + digits);
    assert forall|j: int| 0 <= j < n implies header[j] != 32 by {
        assert(header[j] == name[j]);
    }
    assert(header[n] == 32);
    lemma_find_unique(header, 32, n);
    assert(header.subrange(n + 1, header.len() as int) =~= digits);
    assert(header.subrange(0, n) =~= name);
    assert(e.subrange(h + 1, e.len() as int) =~= payload);
}

/// The number of a mode.
pub open spec fn mode_number(m: FileMode) -> u32 {
    match m {
        FileMode::Normal => 0o100644,
        FileMode::Executable => 0o100755,
        FileMode::Symlink => 0o120000,
        FileMode::Directory => 0o040000,
    }
}

/// The mode with a given number, if it is one of the four.
pub open spec fn mode_of_number(n: u32) -> Option<FileMode> {
    if n == 0o100644 {
        Some(FileMode::Normal)
    } else if n == 0o100755 {
        Some(FileMode::Executable)
    } else if n == 0o120000 {
        Some(FileMode::Symlink)
    } else if n == 0o040000 {
        Some(FileMode::Directory)
    } else {
        None
    }
}

/// The octal digits under which a mode is written in a tree: six of them,
/// but five for a directory, which has no leading zero.
pub open spec fn mode_text(m: FileMode) -> Seq<u8> {
    match m {
        FileMode::Normal => seq![49u8, 48, 48, 54, 52, 52],
        FileMode::Executable => seq![49u8, 48, 48, 55, 53, 53],
        FileMode::Symlink => seq![49u8, 50, 48, 48, 48, 48],
        FileMode::Directory => seq![52u8, 48, 48, 48, 48],
    }
}

/// The six octal digits of a mode, with a leading zero for a directory.
pub open spec fn mode_text_padded(m: FileMode) -> Seq<u8> {
    match m {
        FileMode::Directory => seq![48u8, 52, 48, 48, 48, 48],
        _ => mode_text(m),
    }
}

/// The mode that six octal digits stand for.
pub open spec fn mode_of_padded(text: Seq<u8>) -> Option<FileMode> {
    if text == mode_text_padded(FileMode::Normal) {
        Some(FileMode::Normal)
    } else if text == mode_text_padded(FileMode::Executable) {
        Some(FileMode::Executable)
    } else if text == mode_text_padded(FileMode::Symlink) {
        Some(FileMode::Symlink)
    } else if text == mode_text_padded(FileMode::Directory) {
        Some(FileMode::Directory)
    } else {
        None
    }
}

/// The mode that an octal numeral stands for.
pub open spec fn mode_of_octal(text: Seq<u8>) -> Option<FileMode> {
    match parsed_octal(text) {
        Some(n) => mode_of_number(n),
        None => None,
    }
}

/// The texts of the modes are what their literals hold.
proof fn lemma_mode_texts()
    ensures
        "100644".spec_bytes() == mode_text(FileMode::Normal),
        "100755".spec_bytes() == mode_text(FileMode::Executable),
        "120000".spec_bytes() == mode_text(FileMode::Symlink),
        "40000".spec_bytes() == mode_text(FileMode::Directory),
        "040000".spec_bytes() == mode_text_padded(FileMode::Directory),
{
    reveal_strlit("100644");
    reveal_strlit("100755");
    reveal_strlit("120000");
    reveal_strlit("40000");
    reveal_strlit("040000");
    is_ascii_chars_encode_utf8("100644"@);
    is_ascii_chars_encode_utf8("100755"@);
    is_ascii_chars_encode_utf8("120000"@);
    is_ascii_chars_encode_utf8("40000"@);
    is_ascii_chars_encode_utf8("040000"@);
    assert("100644".spec_bytes() =~= mode_text(FileMode::Normal));
    assert("100755".spec_bytes() =~= mode_text(FileMode::Executable));
    assert("120000".spec_bytes() =~= mode_text(FileMode::Symlink));
    assert("40000".spec_bytes() =~= mode_text(FileMode::Directory));
    assert("040000".spec_bytes() =~= mode_text_padded(FileMode::Directory));
}

/// The value of octal digits of which the last is split off.
proof fn lemma_octal_push(s: Seq<u8>, b: u8)
    ensures
        crate::text::octal_value(s.push(b)) == crate::text::octal_value(s) * 8 + (b - 48) as nat,
{
    assert(s.push(b).drop_last() =~= s);
}

/// The text of a mode is an octal numeral of the mode's number, and holds
/// no space.
pub proof fn lemma_mode_text(m: FileMode)
    ensures
        mode_of_octal(mode_text(m)) == Some(m),
        mode_of_number(mode_number(m)) == Some(m),
        forall|j: int| 0 <= j < mode_text(m).len() ==> mode_text(m)[j] != 32,
        valid_utf8(mode_text(m)),
{
    lemma_mode_texts();
    encode_utf8_valid_utf8("100644"@);
    encode_utf8_valid_utf8("100755"@);
    encode_utf8_valid_utf8("120000"@);
    encode_utf8_valid_utf8("40000"@);
    let t = mode_text(m);
    let e = Seq::<u8>::empty();
    assert(crate::text::octal_value(e) == 0);
    lemma_octal_push(e, t[0]);
    lemma_octal_push(e.push(t[0]), t[1]);
    lemma_octal_push(e.push(t[0]).push(t[1]), t[2]);
    lemma_octal_push(e.push(t[0]).push(t[1]).push(t[2]), t[3]);
    lemma_octal_push(e.push(t[0]).push(t[1]).push(t[2]).push(t[3]), t[4]);
    if m != FileMode::Directory {
        lemma_octal_push(e.push(t[0]).push(t[1]).push(t[2]).push(t[3]).push(t[4]), t[5]);
        assert(t =~= e.push(t[0]).push(t[1]).push(t[2]).push(t[3]).push(t[4]).push(t[5]));
    } else {
        assert(t =~= e.push(t[0]).push(t[1]).push(t[2]).push(t[3]).push(t[4]));
    }
    assert(crate::text::octal_digits(t) == t);
    assert(crate::text::all_octal(t));
}

impl FileMode {
    /// The mode that an octal numeral stands for: an optional plus sign and
    /// octal digits whose value is the number of one of the four modes.
    pub fn from_octal_str(s: &str) -> (mode: Option<Self>)
        ensures
            mode == mode_of_octal(s.spec_bytes()),
    {
        Self::from_octal(s.as_bytes())
    }

    /// The mode that an octal numeral, given as bytes, stands for.
    pub fn from_octal(text: &[u8]) -> (mode: Option<Self>)
        ensures
            mode == mode_of_octal(text@),
    {
        match parse_octal(text) {
            Some(n) => Self::from_u32(n),
            None => None,
        }
    }

    /// The mode with the given number.
    pub fn from_u32(mode: u32) -> (m: Option<Self>)
        ensures
            m == mode_of_number(mode),
    {
        if mode == 0o100644 {
            Some(FileMode::Normal)
        } else if mode == 0o100755 {
            Some(FileMode::Executable)
        } else if mode == 0o120000 {
            Some(FileMode::Symlink)
        } else if mode == 0o040000 {
            Some(FileMode::Directory)
        } else {
            None
        }
    }

    /// The number of the mode.
    pub fn to_u32(&self) -> (n: u32)
        ensures
            n == mode_number(*self),
    {
        match self {
            FileMode::Normal => 0o100644,
            FileMode::Executable => 0o100755,
            FileMode::Symlink => 0o120000,
            FileMode::Directory => 0o040000,
        }
    }

    /// The mode that exactly six octal digits stand for, a directory
    /// being `040000`.
    pub fn from_str(s: &str) -> (mode: Option<Self>)
        ensures
            mode == mode_of_padded(s.spec_bytes()),
    {
        proof {
            lemma_mode_texts();
        }
        let text = s.as_bytes();
        if bytes_eq(text, "100644".as_bytes()) {
            Some(FileMode::Normal)
        } else if bytes_eq(text, "100755".as_bytes()) {
            Some(FileMode::Executable)
        } else if bytes_eq(text, "120000".as_bytes()) {
            Some(FileMode::Symlink)
        } else if bytes_eq(text, "040000".as_bytes()) {
            Some(FileMode::Directory)
        } else {
            None
        }
    }

    /// The octal digits of the mode, without a leading zero.
    pub fn as_str(&self) -> (text: &'static str)
        ensures
            text.spec_bytes() == mode_text(*self),
    {
        proof {
            lemma_mode_texts();
        }
        match self {
            FileMode::Normal => "100644",
            FileMode::Executable => "100755",
            FileMode::Symlink => "120000",
            FileMode::Directory => "40000",
        }
    }

    /// The mode of a file as found on disk: a symbolic link, a directory,
    /// or a regular file, which is executable where one of the execute
    /// bits of its permissions is set. Anything else has no mode.
    pub fn from_file_kind(is_symlink: bool, is_dir: bool, is_file: bool, permissions: u32) -> (mode:
        Option<Self>)
        ensures
            mode == (if is_symlink {
                Some(FileMode::Symlink)
            } else if is_dir {
                Some(FileMode::Directory)
            } else if is_file {
                if permissions & 0o111 != 0 {
                    Some(FileMode::Executable)
                } else {
                    Some(FileMode::Normal)
                }
            } else {
                None
            }),
    {
        if is_symlink {
            Some(FileMode::Symlink)
        } else if is_dir {
            Some(FileMode::Directory)
        } else if is_file {
            if permissions & 0o111 != 0 {
                Some(FileMode::Executable)
            } else {
                Some(FileMode::Normal)
            }
        } else {
            None
        }
    }

    /// Whether two modes are the same.
    pub fn same(&self, other: &FileMode) -> (yes: bool)
        ensures
            yes == (*self == *other),
    {
        *self == *other
    }
}

/// What a byte string inflates to, where it is a zlib stream.
pub uninterp spec fn zlib_inflated(stream: Seq<u8>) -> Option<Seq<u8>>;

/// What the compressor makes of a byte string at its fast level: a zlib
/// stream, or nothing where it reports an error.
pub uninterp spec fn zlib_deflated(data: Seq<u8>) -> Option<Seq<u8>>;

/// The compressor's result, as a value.
pub open spec fn stream_of(stream: Option<Vec<u8>>) -> Option<Seq<u8>> {
    match stream {
        Some(bytes) => Some(bytes@),
        None => None,
    }
}

/// Calls `flate2`: `ZlibEncoder::new` over an empty vector at
/// `Compression::fast()`, `write_all` with the whole input, then `finish`.
/// What comes back depends on the input alone. Where the encoder reports
/// no error, it is a zlib stream that inflates to the input.
#[verifier::external_body]
fn zlib_compress(data: &[u8]) -> (stream: Option<Vec<u8>>)
    ensures
        stream_of(stream) == zlib_deflated(data@),
        stream is Some ==> zlib_inflated(stream.unwrap()@) == Some(data@),
{
    let mut encoder = ZlibEncoder::new(Vec::new(), Compression::fast());
    match encoder.write_all(data) {
        Ok(()) => encoder.finish().ok(),
        Err(_) => None,
    }
}

/// Calls `flate2`: `ZlibDecoder::new` over the input, then `read_to_end`.
/// The bytes read are the inflated stream; an input that is no zlib stream
/// gives an error, and here `None`.
#[verifier::external_body]
fn zlib_decompress(stream: &[u8]) -> (data: Option<Vec<u8>>)
    ensures
        data is Some <==> zlib_inflated(stream@) is Some,
        data is Some ==> data.unwrap()@ == zlib_inflated(stream@).unwrap(),
{
    let mut decoder = ZlibDecoder::new(stream);
    let mut out = Vec::new();
    match decoder.read_to_end(&mut out) {
        Ok(_) => Some(out),
        Err(_) => None,
    }
}

/// What is to be written to the store for one object.
pub struct ObjectWrite {
    /// The identifier of the object.
    pub hash: GitHash,
    /// The directory of the store that holds it: two hexadecimal digits.
    pub dir: String,
    /// The name of its file in that directory: thirty-eight digits.
    pub file: String,
    /// The content of the file: the compressed envelope.
    pub compressed: Vec<u8>,
}

/// Whether `w` is a write of the object of kind `t` with the given
/// payload: its identifier is the digest of the envelope, its place is
/// derived from the identifier, and its content is what the compressor
/// makes of the envelope, which inflates to the envelope.
pub open spec fn is_write_of(w: ObjectWrite, t: ObjectType, payload: Seq<u8>) -> bool {
    &&& w.hash@ == sha1_digest(envelope(t, payload))
    &&& w.dir@ == crate::hash::hex_text(w.hash@).subrange(0, 2)
    &&& w.file@ == crate::hash::hex_text(w.hash@).subrange(2, 40)
    &&& zlib_deflated(envelope(t, payload)) == Some(w.compressed@)
    &&& zlib_inflated(w.compressed@) == Some(envelope(t, payload))
}

/// Whether a result is what preparing the write of an object gives: the
/// write where the compressor makes a stream of the envelope, and
/// `CompressFailed` where it makes none.
pub open spec fn is_written(
    r: Result<ObjectWrite, ObjectError>,
    t: ObjectType,
    payload: Seq<u8>,
) -> bool {
    match r {
        Ok(w) => is_write_of(w, t, payload),
        Err(e) => zlib_deflated(envelope(t, payload)) is None && e == ObjectError::CompressFailed,
    }
}

/// The identifier of an object and its envelope.
pub fn hash_object(object_type: ObjectType, data: &[u8]) -> (r: (GitHash, Vec<u8>))
    ensures
        r.1@ == envelope(object_type, data@),
        r.0@ == sha1_digest(envelope(object_type, data@)),
{
    let encoded = encode_object(object_type, data);
    (GitHash::from_bytes(encoded.as_slice()), encoded)
}

/// What is to be written for an object whose identifier is `hash`, given
/// what the compressor made of its envelope: the write, or
/// `CompressFailed` where the compressor gave nothing.
pub fn object_write(hash: GitHash, compressed: Option<Vec<u8>>) -> (r: Result<
    ObjectWrite,
    ObjectError,
>)
    ensures
        match r {
            Ok(w) => compressed is Some && w.hash@ == hash@ && w.compressed@
                == compressed.unwrap()@ && w.dir@ == crate::hash::hex_text(hash@).subrange(0, 2)
                && w.file@ == crate::hash::hex_text(hash@).subrange(2, 40),
            Err(e) => compressed is None && e == ObjectError::CompressFailed,
        },
{
    match compressed {
        Some(bytes) => {
            let (dir, file) = hash.to_path_parts();
            Ok(ObjectWrite { hash, dir, file, compressed: bytes })
        },
        None => Err(ObjectError::CompressFailed),
    }
}

/// Prepares the write of an object: computes its envelope, its identifier
/// and its place in the store, and compresses the envelope. The caller
/// creates the directory and writes the file unless it exists already. It
/// succeeds exactly where the compressor makes a stream of the envelope;
/// the only error is `CompressFailed`.
pub fn write_object(object_type: ObjectType, data: &[u8]) -> (r: Result<ObjectWrite, ObjectError>)
    ensures
        is_written(r, object_type, data@),
        r is Ok <==> zlib_deflated(envelope(object_type, data@)) is Some,
        r is Ok ==> r.unwrap().compressed@ == zlib_deflated(
            envelope(object_type, data@),
        ).unwrap(),
{
    let (hash, encoded) = hash_object(object_type, data);
    let compressed = zlib_compress(encoded.as_slice());
    object_write(hash, compressed)
}

/// The content of a file, if there is one, as a value.
pub open spec fn content_of(stored: Option<&[u8]>) -> Option<Seq<u8>> {
    match stored {
        Some(s) => Some(s@),
        None => None,
    }
}

/// What reading an object gives, from the identifier asked for and the
/// content of its file in the store, if there is one.
pub open spec fn read_result(hash_text: Seq<u8>, stored: Option<Seq<u8>>) -> Result<
    (ObjectType, Seq<u8>),
    ObjectError,
> {
    if crate::hash::from_hex_result(hash_text) is Err {
        Err(ObjectError::BadHex)
    } else if stored is None {
        Err(ObjectError::NotFound)
    } else if zlib_inflated(stored.unwrap()) is None {
        Err(ObjectError::DecompressFailed)
    } else {
        opened(zlib_inflated(stored.unwrap()).unwrap())
    }
}

/// The place in the store of the object with the given identifier: its
/// directory and its file. `BadHex` where the text is no identifier.
pub fn object_path(hash_str: &str) -> (r: Result<(String, String), ObjectError>)
    ensures
        match r {
            Ok(parts) => {
                &&& crate::hash::from_hex_result(hash_str.spec_bytes()) is Ok
                &&& parts.0@ == crate::hash::hex_text(
                    crate::hash::from_hex_result(hash_str.spec_bytes()).unwrap(),
                ).subrange(0, 2)
                &&& parts.1@ == crate::hash::hex_text(
                    crate::hash::from_hex_result(hash_str.spec_bytes()).unwrap(),
                ).subrange(2, 40)
            },
            Err(e) => crate::hash::from_hex_result(hash_str.spec_bytes()) is Err && e
                == ObjectError::BadHex,
        },
{
    match GitHash::from_hex(hash_str) {
        Ok(hash) => Ok(hash.to_path_parts()),
        Err(_) => Err(ObjectError::BadHex),
    }
}

/// Reads an object: `stored` is the content of the file that the store
/// holds under the identifier, or `None` where it holds none.
pub fn read_object(hash_str: &str, stored: Option<&[u8]>) -> (r: Result<
    (ObjectType, Vec<u8>),
    ObjectError,
>)
    ensures
        match r {
            Ok(pair) => read_result(
                hash_str.spec_bytes(),
                content_of(stored),
            ) == Ok::<(ObjectType, Seq<u8>), ObjectError>((pair.0, pair.1@)),
            Err(e) => read_result(
                hash_str.spec_bytes(),
                content_of(stored),
            ) == Err::<(ObjectType, Seq<u8>), ObjectError>(e),
        },
{
    if GitHash::from_hex(hash_str).is_err() {
        return Err(ObjectError::BadHex);
    }
    let stream = match stored {
        Some(s) => s,
        None => {
            return Err(ObjectError::NotFound);
        },
    };
    match zlib_decompress(stream) {
        Some(bytes) => decode_object(bytes.as_slice()),
        None => Err(ObjectError::DecompressFailed),
    }
}

/// A store as the library sees it: for each identifier that it holds, the
/// content of the file.
pub type StoreModel = Map<Seq<u8>, Seq<u8>>;

/// The store after a write: unchanged where it holds the identifier
/// already, and with the new file otherwise.
pub open spec fn store_after(store: StoreModel, w: ObjectWrite) -> StoreModel {
    if store.contains_key(w.hash@) {
        store
    } else {
        store.insert(w.hash@, w.compressed@)
    }
}

/// What the store holds under an identifier.
pub open spec fn store_lookup(store: StoreModel, id: Seq<u8>) -> Option<Seq<u8>> {
    if store.contains_key(id) {
        Some(store[id])
    } else {
        None
    }
}

/// Reading what was written gives the object back: after the write of an
/// object to a store that did not hold its identifier, reading that
/// identifier gives the kind and the payload.
pub proof fn law_read_after_write(
    store: StoreModel,
    w: ObjectWrite,
    t: ObjectType,
    payload: Seq<u8>,
)
    requires
        is_write_of(w, t, payload),
        payload.len() <= u64::MAX,
        !store.contains_key(w.hash@),
    ensures
        read_result(
            encode_utf8(crate::hash::hex_text(w.hash@)),
            store_lookup(store_after(store, w), w.hash@),
        ) == Ok::<(ObjectType, Seq<u8>), ObjectError>((canonical(t), payload)),
{
    vstd::array::array_len_matches_n(&w.hash.0);
    crate::hash::law_hex_round_trip(w.hash@);
    law_envelope_round_trip(t, payload);
}

/// Writing is idempotent: where a first write of an object succeeds, a
/// second write of the same object succeeds too, with the same identifier
/// and the same content, and leaves the store as the first left it.
pub proof fn law_write_idempotent(
    store: StoreModel,
    first: Result<ObjectWrite, ObjectError>,
    second: Result<ObjectWrite, ObjectError>,
    t: ObjectType,
    payload: Seq<u8>,
)
    requires
        is_written(first, t, payload),
        is_written(second, t, payload),
        first is Ok,
    ensures
        second is Ok,
        second.unwrap().hash@ == first.unwrap().hash@,
        second.unwrap().compressed@ == first.unwrap().compressed@,
        store_after(store_after(store, first.unwrap()), second.unwrap()) == store_after(
            store,
            first.unwrap(),
        ),
{
}

/// A person who wrote or committed, with the time of the act.
#[derive(Clone)]
pub struct Person {
    pub name: String,
    pub email: String,
    /// Seconds since the epoch.
    pub timestamp: i64,
    /// Offset from UTC, as in `+0000`.
    pub timezone: String,
}

/// The line that names a person: the name, the address in angle
/// brackets, the time and the zone, with single spaces between them.
pub open spec fn person_line(
    name: Seq<u8>,
    email: Seq<u8>,
    timestamp: int,
    timezone: Seq<u8>,
) -> Seq<u8> {
    name + seq![32u8, 60u8] + email + seq![62u8, 32u8] + crate::text::signed_decimal(timestamp)
        + seq![32u8] + timezone
}

impl Person {
    /// The line of this person.
    pub open spec fn line(&self) -> Seq<u8> {
        person_line(
            encode_utf8(self.name@),
            encode_utf8(self.email@),
            self.timestamp as int,
            encode_utf8(self.timezone@),
        )
    }

    /// Appends the line of this person.
    pub fn write_to(&self, out: &mut Vec<u8>)
        ensures
            final(out)@ == old(out)@ + self.line(),
    {
        out.extend_from_slice(self.name.as_str().as_bytes());
        out.push(32);
        out.push(60);
        out.extend_from_slice(self.email.as_str().as_bytes());
        out.push(62);
        out.push(32);
        crate::text::push_signed_decimal(out, self.timestamp);
        out.push(32);
        out.extend_from_slice(self.timezone.as_str().as_bytes());
        assert(out@ =~= old(out)@ + self.line());
    }

    /// The line of this person: `name <email> seconds zone`.
    pub fn to_bytes(&self) -> (line: Vec<u8>)
        ensures
            line@ == self.line(),
    {
        let mut out: Vec<u8> = Vec::new();
        self.write_to(&mut out);
        out
    }
}

} // verus!
