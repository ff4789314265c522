//! The pack container: the text that precedes it in a response, its
//! header of twelve bytes, and the variable-length headers of its objects.
use crate::hash::{GitHash, sha1_digest};
use crate::object::{ObjectType, type_of_code};
use crate::pktline::{hex4, hex4_value, is_hex4};
use crate::streamer::{BufferedStreamCursor, find_pattern, first_match, TeeWriter};
use crate::text::{
    be32, be32_value, bytes_eq, lemma_be32_of_be32_value, lemma_be32_value_of_be32, read_be32,
};
use vstd::prelude::*;
use vstd::string::*;
use vstd::utf8::*;

verus! {

/// Why a byte stream is no pack.
#[derive(Debug, Clone, Copy, PartialEq, Eq, Structural)]
pub enum PackError {
    /// The stream ends inside a frame, inside the header of the pack or
    /// inside the header of an object.
    UnexpectedEof,
    /// The length of a frame is not four hexadecimal digits.
    InvalidLength,
    /// The length of a frame is one, two or three.
    LengthTooSmall,
    /// The pack does not begin with `PACK`.
    BadMagic,
    /// The version of the pack is not 2.
    UnsupportedVersion,
    /// The size of an object does not fit in 64 bits.
    SizeOverflow,
}

/// The header of an object of a pack.
#[derive(Debug)]
pub struct PackObjectHeader {
    pub object_type: ObjectType,
    /// Size of the object once inflated.
    pub size: u64,
    /// Number of bytes that the header takes.
    pub header_size: usize,
}

/// The header of an object as a mathematical value.
pub struct ObjectHeaderModel {
    /// The type code: bits 6 to 4 of the first byte.
    pub code: u8,
    pub size: int,
    pub len: int,
}

/// The size that the bytes after the first byte of a header add to the
/// size `acc` read so far, each byte giving seven bits that count `mult`
/// times, and the number of bytes up to and including the first byte
/// without the continuation bit.
pub open spec fn size_from(rest: Seq<u8>, acc: int, mult: int) -> Result<(int, int), PackError>
    decreases rest.len(),
{
    if rest.len() == 0 {
        Err(PackError::UnexpectedEof)
    } else {
        let b = rest[0];
        let next = acc + (b % 128) * mult;
        if next > u64::MAX {
            Err(PackError::SizeOverflow)
        } else if b < 128 {
            Ok((next, 1))
        } else {
            match size_from(rest.skip(1), next, mult * 128) {
                Ok((size, n)) => Ok((size, n + 1)),
                Err(e) => Err(e),
            }
        }
    }
}

/// The header of an object, given what its first byte says and what
/// reading the other bytes gave.
pub open spec fn header_with(code: u8, more: Result<(int, int), PackError>) -> Result<
    ObjectHeaderModel,
    PackError,
> {
    match more {
        Ok((size, n)) => Ok(ObjectHeaderModel { code, size, len: n + 1 }),
        Err(e) => Err(e),
    }
}

/// What reading the header of an object from the head of `rest` gives.
/// The first byte holds the continuation bit, the type code in three bits
/// and the low four bits of the size.
pub open spec fn object_header_at(rest: Seq<u8>) -> Result<ObjectHeaderModel, PackError> {
    if rest.len() == 0 {
        Err(PackError::UnexpectedEof)
    } else {
        let first = rest[0];
        let code = (first / 16 % 8) as u8;
        let low = (first % 16) as int;
        if first < 128 {
            Ok(ObjectHeaderModel { code, size: low, len: 1 })
        } else {
            header_with(code, size_from(rest.skip(1), low, 16))
        }
    }
}

/// The bytes that hold the part of a size above its low four bits: seven
/// bits per byte, the least significant first, each byte but the last
/// with the continuation bit.
pub open spec fn size_bytes(v: int) -> Seq<u8>
    decreases v,
{
    if v < 128 {
        seq![v as u8]
    } else {
        seq![(128 + v % 128) as u8] + size_bytes(v / 128)
    }
}

/// The header of an object of the given type code and size.
pub open spec fn object_header_bytes(code: u8, size: int) -> Seq<u8> {
    if size < 16 {
        seq![(code * 16 + size) as u8]
    } else {
        seq![(128 + code * 16 + size % 16) as u8] + size_bytes(size / 16)
    }
}

/// The bytes of the upper part of a size are read back as that part.
pub proof fn lemma_size_round_trip(v: int, acc: int, mult: int, tail: Seq<u8>)
    requires
        v >= 0,
        acc >= 0,
        mult >= 0,
        acc + v * mult <= u64::MAX,
    ensures
        size_from(size_bytes(v) + tail, acc, mult) == Ok::<(int, int), PackError>(
            (acc + v * mult, size_bytes(v).len() as int),
        ),
    decreases v,
{
    let bytes = size_bytes(v) + tail;
    if v < 128 {
        assert(bytes[0] == v as u8);
    } else {
        let q = v / 128;
        let r = v % 128;
        assert(bytes[0] == (128 + r) as u8);
        assert(bytes[0] % 128 == r);
        assert(r * mult + q * (mult * 128) == v * mult) by (nonlinear_arith)
            requires
                v == q * 128 + r,
        ;
        assert(q * (mult * 128) >= 0) by (nonlinear_arith)
            requires
                q >= 0,
                mult >= 0,
        ;
        assert(bytes.skip(1) =~= size_bytes(q) + tail);
        lemma_size_round_trip(q, acc + r * mult, mult * 128, tail);
    }
}

/// Object-header law: a header is read back, from the head of any bytes
/// that begin with it, as the type code and the size that it was made
/// from.
pub proof fn law_object_header_round_trip(code: u8, size: int, tail: Seq<u8>)
    requires
        code < 8,
        0 <= size <= u64::MAX,
    ensures
        object_header_at(object_header_bytes(code, size) + tail) == Ok::<
            ObjectHeaderModel,
            PackError,
        >(ObjectHeaderModel { code, size, len: object_header_bytes(code, size).len() as int }),
{
    let bytes = object_header_bytes(code, size) + tail;
    if size < 16 {
        assert(bytes[0] == (code * 16 + size) as u8);
    } else {
        let q = size / 16;
        let low = size % 16;
        assert(bytes[0] == (128 + code * 16 + low) as u8);
        assert(bytes.skip(1) =~= size_bytes(q) + tail);
        lemma_size_round_trip(q, low, 16, tail);
    }
}

/// The header of an object of the given type code and size.
pub fn encode_object_header(code: u8, size: u64) -> (bytes: Vec<u8>)
    requires
        code < 8,
    ensures
        bytes@ == object_header_bytes(code, size as int),
{
    let mut bytes: Vec<u8> = Vec::new();
    if size < 16 {
        bytes.push(code * 16 + size as u8);
        assert(bytes@ =~= object_header_bytes(code, size as int));
        return bytes;
    }
    bytes.push(128 + code * 16 + (size % 16) as u8);
    let mut v: u64 = size / 16;
    while v >= 128
        invariant
            object_header_bytes(code, size as int) == bytes@ + size_bytes(v as int),
        decreases v,
    {
        let ghost before = bytes@;
        bytes.push(128 + (v % 128) as u8);
        proof {
            assert(before + size_bytes(v as int) =~= bytes@ + size_bytes((v / 128) as int));
        }
        v = v / 128;
    }
    let ghost before = bytes@;
    bytes.push(v as u8);
    assert(before + size_bytes(v as int) =~= bytes@);
    bytes
}

/// The header inside a result, as a value whose type code is known only
/// through the kind of object that it stands for.
pub open spec fn header_matches(
    r: Result<PackObjectHeader, PackError>,
    model: Result<ObjectHeaderModel, PackError>,
) -> bool {
    match r {
        Ok(h) => model is Ok && h.object_type == type_of_code(model->Ok_0.code) && h.size
            == model->Ok_0.size && h.header_size == model->Ok_0.len,
        Err(e) => model == Err::<ObjectHeaderModel, PackError>(e),
    }
}

/// Reads the bytes of a header that follow the first, without moving the
/// cursor: the size and the number of those bytes.
fn read_size(cursor: &mut BufferedStreamCursor, low: u64) -> (r: Result<(u64, usize), PackError>)
    requires
        old(cursor).wf(),
        old(cursor).remaining().len() > 0,
        low < 16,
    ensures
        final(cursor).wf(),
        final(cursor).remaining() == old(cursor).remaining(),
        final(cursor).chunk() == old(cursor).chunk(),
        final(cursor).offset() == old(cursor).offset(),
        match r {
            Ok((size, n)) => size_from(old(cursor).remaining().skip(1), low as int, 16) == Ok::<
                (int, int),
                PackError,
            >((size as int, n as int)) && n < final(cursor).buffered(),
            Err(e) => size_from(old(cursor).remaining().skip(1), low as int, 16) == Err::<
                (int, int),
                PackError,
            >(e),
        },
{
    let ghost rest = cursor.remaining().skip(1);
    let ghost total = size_from(rest, low as int, 16);
    let _ = cursor.available();
    let mut size: u64 = low;
    let mut mult: u64 = 16;
    let mut big = false;
    let ghost mut weight: int = 16;
    let mut n: usize = 0;
    let mut done = false;
    proof {
        assert(rest.skip(0) =~= rest);
    }
    while !done
        invariant
            cursor.wf(),
            cursor.remaining() == old(cursor).remaining(),
            cursor.chunk() == old(cursor).chunk(),
            cursor.offset() == old(cursor).offset(),
            rest == old(cursor).remaining().skip(1),
            rest.len() + 1 == old(cursor).remaining().len(),
            old(cursor).remaining().len() <= usize::MAX,
            total == size_from(rest, low as int, 16),
            n <= rest.len(),
            n < cursor.buffered() || (n == 0 && !done),
            !done ==> total == (match size_from(rest.skip(n as int), size as int, weight) {
                Ok((v, k)) => Ok((v, k + n)),
                Err(e) => Err(e),
            }),
            done ==> total == Ok::<(int, int), PackError>((size as int, n as int)),
            !big ==> mult == weight,
            big ==> weight > u64::MAX,
            weight >= 16,
        decreases rest.len() - n, if done { 0int } else { 1int },
    {
        let b = match cursor.peek_at(n + 1) {
            Some(b) => b,
            None => {
                return Err(PackError::UnexpectedEof);
            },
        };
        assert(rest.skip(n as int)[0] == b);
        let chunk: u64 = (b % 128) as u64;
        if chunk != 0 {
            if big {
                assert(chunk * weight > u64::MAX) by (nonlinear_arith)
                    requires
                        chunk >= 1,
                        weight > u64::MAX,
                ;
                return Err(PackError::SizeOverflow);
            }
            let product = match chunk.checked_mul(mult) {
                Some(p) => p,
                None => {
                    return Err(PackError::SizeOverflow);
                },
            };
            size = match size.checked_add(product) {
                Some(s) => s,
                None => {
                    return Err(PackError::SizeOverflow);
                },
            };
        } else {
            assert(chunk * weight == 0) by (nonlinear_arith)
                requires
                    chunk == 0,
            ;
        }
        proof {
            assert(rest.skip(n as int).skip(1) =~= rest.skip(n + 1));
        }
        n = n + 1;
        if b < 128 {
            done = true;
        } else {
            if !big {
                match mult.checked_mul(128) {
                    Some(m) => {
                        mult = m;
                    },
                    None => {
                        big = true;
                    },
                }
            } else {
                assert(weight * 128 > u64::MAX) by (nonlinear_arith)
                    requires
                        weight > u64::MAX,
                ;
            }
            proof {
                weight = weight * 128;
            }
        }
    }
    Ok((size, n))
}

/// Reads the header of an object at the cursor, which then stands behind
/// the header. Where there is no header the cursor stays.
pub fn parse_object_header(cursor: &mut BufferedStreamCursor) -> (r: Result<
    PackObjectHeader,
    PackError,
>)
    requires
        old(cursor).wf(),
    ensures
        final(cursor).wf(),
        final(cursor).chunk() == old(cursor).chunk(),
        header_matches(r, object_header_at(old(cursor).remaining())),
        match r {
            Ok(h) => final(cursor).remaining() == old(cursor).remaining().skip(
                h.header_size as int,
            ) && 0 < h.header_size <= old(cursor).remaining().len() && final(cursor).offset()
                == old(cursor).offset() + h.header_size,
            Err(_) => final(cursor).remaining() == old(cursor).remaining() && final(cursor).offset() == old(cursor).offset(),
        },
{
    let first = match cursor.peek_at(0) {
        Some(b) => b,
        None => {
            return Err(PackError::UnexpectedEof);
        },
    };
    let object_type = ObjectType::from_code(first / 16 % 8);
    let low: u64 = (first % 16) as u64;
    if first < 128 {
        cursor.advance(1);
        return Ok(PackObjectHeader { object_type, size: low, header_size: 1 });
    }
    match read_size(cursor, low) {
        Ok((size, n)) => {
            let _ = cursor.available();
            cursor.advance(n + 1);
            Ok(PackObjectHeader { object_type, size, header_size: n + 1 })
        },
        Err(e) => Err(e),
    }
}

/// The header of a pack.
pub struct PackHeader {
    /// The four bytes `PACK`.
    pub signature: [u8; 4],
    pub version: u32,
    pub num_objects: u32,
}

/// The bytes `PACK`.
pub open spec fn pack_magic() -> Seq<u8> {
    seq![80u8, 65, 67, 75]
}

/// The twelve bytes of a header: the signature, the version and the
/// number of objects, each number in four bytes, the most significant
/// first.
pub open spec fn pack_header_bytes(h: PackHeader) -> Seq<u8> {
    h.signature@ + be32(h.version) + be32(h.num_objects)
}

/// What reading the header of a pack from the head of `rest` gives: the
/// version and the number of objects.
pub open spec fn pack_header_at(rest: Seq<u8>) -> Result<(u32, u32), PackError> {
    if rest.len() < 4 {
        Err(PackError::UnexpectedEof)
    } else if rest.subrange(0, 4) != pack_magic() {
        Err(PackError::BadMagic)
    } else if rest.len() < 12 {
        Err(PackError::UnexpectedEof)
    } else if be32_value(rest.subrange(4, 8)) != 2 {
        Err(PackError::UnsupportedVersion)
    } else {
        Ok((2u32, be32_value(rest.subrange(8, 12))))
    }
}

/// Pack-header boundary: a header that counts no objects is read; the
/// same header without its last byte is a stream that ends too early.
pub proof fn law_pack_header_boundary(tail: Seq<u8>)
    ensures
        pack_header_at(pack_magic() + be32(2) + be32(0) + tail) == Ok::<(u32, u32), PackError>(
            (2u32, 0u32),
        ),
        pack_header_at((pack_magic() + be32(2) + be32(0)).subrange(0, 11)) == Err::<
            (u32, u32),
            PackError,
        >(PackError::UnexpectedEof),
{
    let whole = pack_magic() + be32(2) + be32(0) + tail;
    lemma_be32_value_of_be32(2);
    lemma_be32_value_of_be32(0);
    assert(whole.subrange(0, 4) =~= pack_magic());
    assert(whole.subrange(4, 8) =~= be32(2));
    assert(whole.subrange(8, 12) =~= be32(0));
    let short = (pack_magic() + be32(2) + be32(0)).subrange(0, 11);
    assert(short.subrange(0, 4) =~= pack_magic());
}

/// The signature is what its literal holds.
proof fn lemma_magic()
    ensures
        "PACK".spec_bytes() == pack_magic(),
{
    reveal_strlit("PACK");
    is_ascii_chars_encode_utf8("PACK"@);
    assert("PACK".spec_bytes() =~= pack_magic());
}

impl PackHeader {
    /// Number of bytes of the header.
    pub const SIZE: usize = 12;

    /// Number of bytes of the header.
    pub fn header_len() -> (n: usize)
        ensures
            n == 12,
    {
        Self::SIZE
    }

    /// Reads the header of a pack at the cursor, which then stands behind
    /// it. Where there is no header the cursor stays.
    pub fn from_cursor(cursor: &mut BufferedStreamCursor) -> (r: Result<Self, PackError>)
        requires
            old(cursor).wf(),
        ensures
            final(cursor).wf(),
            final(cursor).chunk() == old(cursor).chunk(),
            match r {
                Ok(h) => pack_header_at(old(cursor).remaining()) == Ok::<(u32, u32), PackError>(
                    (h.version, h.num_objects),
                ) && h.signature@ == pack_magic() && final(cursor).remaining() == old(
                    cursor,
                ).remaining().skip(12) && final(cursor).offset() == old(cursor).offset() + 12,
                Err(e) => pack_header_at(old(cursor).remaining()) == Err::<(u32, u32), PackError>(e)
                    && final(cursor).remaining() == old(cursor).remaining() && final(cursor).offset() == old(cursor).offset(),
            },
    {
        let ghost rest = cursor.remaining();
        cursor.ensure_available(Self::SIZE);
        let magic = match cursor.peek(4) {
            Ok(bytes) => bytes,
            Err(_) => {
                return Err(PackError::UnexpectedEof);
            },
        };
        proof {
            lemma_magic();
            assert(rest.take(4) =~= rest.subrange(0, 4));
        }
        if !bytes_eq(magic.as_slice(), "PACK".as_bytes()) {
            return Err(PackError::BadMagic);
        }
        let all = match cursor.peek(Self::SIZE) {
            Ok(bytes) => bytes,
            Err(_) => {
                return Err(PackError::UnexpectedEof);
            },
        };
        proof {
            assert(all@.subrange(4, 8) =~= rest.subrange(4, 8));
            assert(all@.subrange(8, 12) =~= rest.subrange(8, 12));
        }
        let version = read_be32(all.as_slice(), 4);
        if version != 2 {
            return Err(PackError::UnsupportedVersion);
        }
        let num_objects = read_be32(all.as_slice(), 8);
        cursor.advance(Self::SIZE);
        let signature: [u8; 4] = [80, 65, 67, 75];
        assert(signature@ =~= pack_magic());
        Ok(PackHeader { signature, version, num_objects })
    }

    /// The twelve bytes of the header.
    pub fn to_bytes(&self) -> (buf: [u8; 12])
        ensures
            buf@ == pack_header_bytes(*self),
    {
        let v = self.version;
        let n = self.num_objects;
        let buf: [u8; 12] = [
            self.signature[0],
            self.signature[1],
            self.signature[2],
            self.signature[3],
            (v / 0x1000000) as u8,
            (v / 0x10000 % 0x100) as u8,
            (v / 0x100 % 0x100) as u8,
            (v % 0x100) as u8,
            (n / 0x1000000) as u8,
            (n / 0x10000 % 0x100) as u8,
            (n / 0x100 % 0x100) as u8,
            (n % 0x100) as u8,
        ];
        assert(buf@ =~= pack_header_bytes(*self));
        buf
    }
}

/// Reads the header of a pack and writes its twelve bytes to the sink.
pub fn parse_pack_header(cursor: &mut BufferedStreamCursor, tee: &mut TeeWriter) -> (r: Result<
    PackHeader,
    PackError,
>)
    requires
        old(cursor).wf(),
    ensures
        final(cursor).wf(),
        final(cursor).chunk() == old(cursor).chunk(),
        match r {
            Ok(h) => pack_header_at(old(cursor).remaining()) == Ok::<(u32, u32), PackError>(
                (h.version, h.num_objects),
            ) && h.signature@ == pack_magic() && final(cursor).remaining() == old(
                cursor,
            ).remaining().skip(12) && final(cursor).offset() == old(cursor).offset() + 12
                && final(tee).content() == old(tee).content() + pack_header_bytes(h),
            Err(e) => pack_header_at(old(cursor).remaining()) == Err::<(u32, u32), PackError>(e)
                && final(cursor).remaining() == old(cursor).remaining() && final(cursor).offset()
                == old(cursor).offset() && final(tee).content() == old(tee).content(),
        },
{
    let header = PackHeader::from_cursor(cursor)?;
    let bytes = header.to_bytes();
    tee.write_all(bytes.as_slice());
    Ok(header)
}

/// What precedes a pack in a response.
pub struct Prelude {
    /// The text of the frames before the pack, and of the frame that
    /// holds its beginning up to there.
    pub text: Seq<u8>,
    /// Number of bytes up to the pack, or up to where the frames stop.
    pub consumed: int,
    /// Why no pack was found, if none was.
    pub error: Option<PackError>,
}

/// What one frame adds to the prelude.
pub struct FrameStep {
    /// The text of the frame: its payload, up to `PACK` where it holds
    /// one.
    pub text: Seq<u8>,
    /// Number of bytes taken: the whole frame, or the frame up to `PACK`,
    /// or the length prefix where the frame is refused.
    pub taken: int,
    /// `None` to go on with the next frame, `Ok` where the pack is found,
    /// and the error where the frame is refused.
    pub outcome: Option<Result<(), PackError>>,
}

/// What the frame at the head of `rest` adds to the prelude. A flush
/// frame adds nothing.
pub open spec fn frame_step(rest: Seq<u8>) -> FrameStep {
    if rest.len() < 4 {
        FrameStep { text: Seq::empty(), taken: 0, outcome: Some(Err(PackError::UnexpectedEof)) }
    } else if !is_hex4(rest) {
        FrameStep { text: Seq::empty(), taken: 4, outcome: Some(Err(PackError::InvalidLength)) }
    } else if hex4_value(rest) == 0 {
        FrameStep { text: Seq::empty(), taken: 4, outcome: None }
    } else if hex4_value(rest) < 4 {
        FrameStep { text: Seq::empty(), taken: 4, outcome: Some(Err(PackError::LengthTooSmall)) }
    } else if hex4_value(rest) > rest.len() {
        FrameStep { text: Seq::empty(), taken: 4, outcome: Some(Err(PackError::UnexpectedEof)) }
    } else {
        let n = hex4_value(rest);
        let content = rest.subrange(4, n);
        let at = first_match(content, pack_magic(), 0);
        if at < content.len() {
            FrameStep { text: content.take(at), taken: 4 + at, outcome: Some(Ok(())) }
        } else {
            FrameStep { text: content, taken: n, outcome: None }
        }
    }
}

/// The prelude of a response: frame by frame up to the first frame whose
/// payload holds `PACK`, or up to the first frame that is refused.
pub open spec fn prelude_of(rest: Seq<u8>) -> Prelude
    decreases rest.len(),
{
    let step = frame_step(rest);
    match step.outcome {
        Some(Ok(())) => Prelude { text: step.text, consumed: step.taken, error: None },
        Some(Err(e)) => Prelude { text: step.text, consumed: step.taken, error: Some(e) },
        None => if 0 < step.taken <= rest.len() {
            let more = prelude_of(rest.skip(step.taken));
            Prelude {
                text: step.text + more.text,
                consumed: step.taken + more.consumed,
                error: more.error,
            }
        } else {
            Prelude { text: step.text, consumed: step.taken, error: Some(PackError::UnexpectedEof) }
        },
    }
}

/// Where `first_match` finds a pattern, the pattern stands.
proof fn lemma_first_match(hay: Seq<u8>, pattern: Seq<u8>, from: int)
    requires
        0 <= from,
        pattern.len() > 0,
    ensures
        from <= first_match(hay, pattern, from) || first_match(hay, pattern, from) == hay.len(),
        first_match(hay, pattern, from) < hay.len() ==> first_match(hay, pattern, from)
            + pattern.len() <= hay.len() && hay.subrange(
            first_match(hay, pattern, from),
            first_match(hay, pattern, from) + pattern.len(),
        ) == pattern,
    decreases hay.len() - from,
{
    if from + pattern.len() <= hay.len() && hay.subrange(from, from + pattern.len()) != pattern
        && from < hay.len() {
        lemma_first_match(hay, pattern, from + 1);
    }
}

/// The prelude ends at the pack: where a pack is found, what follows the
/// bytes of the prelude begins with `PACK`.
pub proof fn law_prelude_ends_at_pack(rest: Seq<u8>)
    requires
        prelude_of(rest).error is None,
    ensures
        0 <= prelude_of(rest).consumed,
        prelude_of(rest).consumed + 4 <= rest.len(),
        rest.subrange(prelude_of(rest).consumed, prelude_of(rest).consumed + 4) == pack_magic(),
    decreases rest.len(),
{
    let step = frame_step(rest);
    match step.outcome {
        Some(Ok(())) => {
            let n = hex4_value(rest);
            let content = rest.subrange(4, n);
            let at = first_match(content, pack_magic(), 0);
            lemma_first_match(content, pack_magic(), 0);
            assert(content.subrange(at, at + 4) =~= rest.subrange(4 + at, 4 + at + 4));
        },
        Some(Err(_)) => {},
        None => {
            if 0 < step.taken <= rest.len() {
                let tail = rest.skip(step.taken);
                law_prelude_ends_at_pack(tail);
                let c = prelude_of(tail).consumed;
                assert(tail.subrange(c, c + 4) =~= rest.subrange(step.taken + c, step.taken + c + 4));
            }
        },
    }
}

/// What was found before a pack.
pub struct Progress {
    /// The text to show.
    pub text: Vec<u8>,
    /// Whether the pack was found, or why not.
    pub result: Result<(), PackError>,
}

/// The number that the first four bytes denote, where they are
/// hexadecimal digits.
fn frame_length(head: &[u8]) -> (n: Option<usize>)
    requires
        head@.len() == 4,
    ensures
        n is Some <==> is_hex4(head@),
        n is Some ==> n.unwrap() == hex4_value(head@),
{
    let mut n: usize = 0;
    let mut i: usize = 0;
    while i < 4
        invariant
            i <= 4,
            head@.len() == 4,
            forall|j: int| 0 <= j < i ==> crate::hash::is_hex_digit(head@[j]),
            i == 0 ==> n == 0,
            i == 1 ==> n == crate::hash::hex_digit_value(head@[0]),
            i == 2 ==> n == crate::hash::hex_digit_value(head@[0]) * 16
                + crate::hash::hex_digit_value(head@[1]),
            i == 3 ==> n == crate::hash::hex_digit_value(head@[0]) * 256
                + crate::hash::hex_digit_value(head@[1]) * 16 + crate::hash::hex_digit_value(
                head@[2],
            ),
            i == 4 ==> n == hex4_value(head@),
        decreases 4 - i,
    {
        let b = head[i];
        let d: usize = if 48 <= b && b <= 57 {
            (b - 48) as usize
        } else if 65 <= b && b <= 70 {
            (b - 55) as usize
        } else if 97 <= b && b <= 102 {
            (b - 87) as usize
        } else {
            return None;
        };
        n = n * 16 + d;
        i += 1;
    }
    Some(n)
}

/// Takes one frame of the prelude: appends its text and moves the cursor.
fn take_frame(cursor: &mut BufferedStreamCursor, text: &mut Vec<u8>) -> (outcome: Option<
    Result<(), PackError>,
>)
    requires
        old(cursor).wf(),
    ensures
        final(cursor).wf(),
        final(cursor).chunk() == old(cursor).chunk(),
        outcome == frame_step(old(cursor).remaining()).outcome,
        final(text)@ == old(text)@ + frame_step(old(cursor).remaining()).text,
        0 <= frame_step(old(cursor).remaining()).taken <= old(cursor).remaining().len(),
        final(cursor).remaining() == old(cursor).remaining().skip(
            frame_step(old(cursor).remaining()).taken,
        ),
        final(cursor).offset() == old(cursor).offset() + frame_step(
            old(cursor).remaining(),
        ).taken,
        outcome is None ==> frame_step(old(cursor).remaining()).taken > 0,
{
    let ghost rest = cursor.remaining();
    let ghost here = text@;
    proof {
        assert(rest.skip(0) =~= rest);
        assert(here + Seq::<u8>::empty() =~= here);
    }
    let head = match cursor.read(4) {
        Ok(bytes) => bytes,
        Err(_) => {
            return Some(Err(PackError::UnexpectedEof));
        },
    };
    proof {
        assert(head@ =~= rest.subrange(0, 4));
        assert(is_hex4(head@) == is_hex4(rest));
        assert(hex4_value(head@) == hex4_value(rest));
    }
    let n = match frame_length(head.as_slice()) {
        Some(n) => n,
        None => {
            return Some(Err(PackError::InvalidLength));
        },
    };
    if n == 0 {
        return None;
    }
    if n < 4 {
        return Some(Err(PackError::LengthTooSmall));
    }
    let content = match cursor.peek(n - 4) {
        Ok(bytes) => bytes,
        Err(_) => {
            return Some(Err(PackError::UnexpectedEof));
        },
    };
    proof {
        lemma_magic();
        assert(content@ =~= rest.subrange(4, n as int));
    }
    let at = find_pattern(content.as_slice(), "PACK".as_bytes());
    if at < content.len() {
        text.extend_from_slice(vstd::slice::slice_subrange(content.as_slice(), 0, at));
        cursor.advance(at);
        proof {
            assert(text@ =~= here + content@.take(at as int));
            assert(rest.skip(4).skip(at as int) =~= rest.skip(4 + at));
        }
        return Some(Ok(()));
    }
    text.extend_from_slice(content.as_slice());
    cursor.advance(n - 4);
    proof {
        assert(rest.skip(4).skip(n - 4) =~= rest.skip(n as int));
    }
    None
}

/// Reads frames up to the pack, and gives back the text that precedes it.
/// The cursor then stands at `PACK`, or where the frames stopped.
pub fn print_lines_until_pack(cursor: &mut BufferedStreamCursor) -> (out: Progress)
    requires
        old(cursor).wf(),
    ensures
        final(cursor).wf(),
        final(cursor).chunk() == old(cursor).chunk(),
        out.text@ == prelude_of(old(cursor).remaining()).text,
        out.result is Ok <==> prelude_of(old(cursor).remaining()).error is None,
        out.result is Err ==> Some(out.result->Err_0) == prelude_of(old(cursor).remaining()).error,
        final(cursor).remaining() == old(cursor).remaining().skip(
            prelude_of(old(cursor).remaining()).consumed,
        ),
        final(cursor).offset() == old(cursor).offset() + prelude_of(
            old(cursor).remaining(),
        ).consumed,
{
    let ghost start = cursor.remaining();
    let ghost total = prelude_of(start);
    let ghost mut consumed: int = 0;
    let mut text: Vec<u8> = Vec::new();
    proof {
        assert(start.skip(0) =~= start);
        assert(text@ + total.text =~= total.text);
    }
    loop
        invariant
            cursor.wf(),
            cursor.chunk() == old(cursor).chunk(),
            start == old(cursor).remaining(),
            total == prelude_of(start),
            0 <= consumed <= start.len(),
            cursor.remaining() == start.skip(consumed),
            cursor.offset() == old(cursor).offset() + consumed,
            total.text == text@ + prelude_of(cursor.remaining()).text,
            total.consumed == consumed + prelude_of(cursor.remaining()).consumed,
            total.error == prelude_of(cursor.remaining()).error,
        decreases cursor.remaining().len(),
    {
        let ghost rest = cursor.remaining();
        let ghost here = text@;
        let ghost step = frame_step(rest);
        let outcome = take_frame(cursor, &mut text);
        proof {
            assert(start.skip(consumed).skip(step.taken) =~= start.skip(consumed + step.taken));
            if outcome is None {
                let more = prelude_of(rest.skip(step.taken));
                assert((here + step.text) + more.text =~= here + (step.text + more.text));
            }
            consumed = consumed + step.taken;
        }
        match outcome {
            Some(result) => {
                return Progress { text, result };
            },
            None => {},
        }
    }
}

/// The number of bytes that the first `count` object headers take, as far
/// as they can be read.
pub open spec fn headers_len(rest: Seq<u8>, count: nat) -> int
    decreases count,
{
    if count == 0 {
        0
    } else {
        match object_header_at(rest) {
            Err(_) => 0,
            Ok(h) => if 0 < h.len <= rest.len() {
                h.len + headers_len(rest.skip(h.len), (count - 1) as nat)
            } else {
                0
            },
        }
    }
}

/// What reading `count` object headers one after the other gives.
pub open spec fn headers_at(rest: Seq<u8>, count: nat) -> Result<Seq<ObjectHeaderModel>, PackError>
    decreases count,
{
    if count == 0 {
        Ok(Seq::empty())
    } else {
        match object_header_at(rest) {
            Err(e) => Err(e),
            Ok(h) => if 0 < h.len <= rest.len() {
                match headers_at(rest.skip(h.len), (count - 1) as nat) {
                    Err(e) => Err(e),
                    Ok(more) => Ok(seq![h] + more),
                }
            } else {
                Err(PackError::UnexpectedEof)
            },
        }
    }
}

/// Whether a list of headers is what a list of header values says.
pub open spec fn headers_match(list: Seq<PackObjectHeader>, models: Seq<ObjectHeaderModel>) -> bool {
    &&& list.len() == models.len()
    &&& forall|i: int|
        0 <= i < list.len() ==> (#[trigger] list[i]).object_type == type_of_code(models[i].code)
            && list[i].size == models[i].size && list[i].header_size == models[i].len
}

/// Reads the headers of the objects that the header of the pack counts,
/// one directly after the other. The cursor then stands behind the last
/// header that could be read.
pub fn persist_objects(cursor: &mut BufferedStreamCursor, pack_header: &PackHeader) -> (r: Result<
    Vec<PackObjectHeader>,
    PackError,
>)
    requires
        old(cursor).wf(),
    ensures
        final(cursor).wf(),
        final(cursor).chunk() == old(cursor).chunk(),
        final(cursor).remaining() == old(cursor).remaining().skip(
            headers_len(old(cursor).remaining(), pack_header.num_objects as nat),
        ),
        final(cursor).offset() == old(cursor).offset() + headers_len(
            old(cursor).remaining(),
            pack_header.num_objects as nat,
        ),
        0 <= headers_len(old(cursor).remaining(), pack_header.num_objects as nat) <= old(
            cursor,
        ).remaining().len(),
        match r {
            Ok(list) => headers_at(old(cursor).remaining(), pack_header.num_objects as nat) is Ok
                && headers_match(
                list@,
                headers_at(old(cursor).remaining(), pack_header.num_objects as nat)->Ok_0,
            ),
            Err(e) => headers_at(old(cursor).remaining(), pack_header.num_objects as nat) == Err::<
                Seq<ObjectHeaderModel>,
                PackError,
            >(e),
        },
{
    let ghost start = cursor.remaining();
    let count = pack_header.num_objects;
    let mut list: Vec<PackObjectHeader> = Vec::new();
    let ghost mut models: Seq<ObjectHeaderModel> = Seq::empty();
    let ghost mut consumed: int = 0;
    let mut k: u32 = 0;
    proof {
        assert(start.skip(0) =~= start);
        match headers_at(start, count as nat) {
            Ok(m) => {
                assert(models + m =~= m);
            },
            Err(_) => {},
        }
    }
    while k < count
        invariant
            k <= count,
            count == pack_header.num_objects,
            cursor.wf(),
            cursor.chunk() == old(cursor).chunk(),
            start == old(cursor).remaining(),
            0 <= consumed <= start.len(),
            cursor.remaining() == start.skip(consumed),
            cursor.offset() == old(cursor).offset() + consumed,
            headers_match(list@, models),
            headers_len(start, count as nat) == consumed + headers_len(
                cursor.remaining(),
                (count - k) as nat,
            ),
            headers_at(start, count as nat) == (match headers_at(
                cursor.remaining(),
                (count - k) as nat,
            ) {
                Ok(more) => Ok(models + more),
                Err(e) => Err(e),
            }),
        decreases count - k,
    {
        let ghost rest = cursor.remaining();
        let _ = cursor.available();
        match parse_object_header(cursor) {
            Ok(h) => {
                proof {
                    let m = object_header_at(rest)->Ok_0;
                    assert(start.skip(consumed).skip(m.len) =~= start.skip(consumed + m.len));
                    match headers_at(rest.skip(m.len), (count - k - 1) as nat) {
                        Ok(more) => {
                            assert(models + (seq![m] + more) =~= models.push(m) + more);
                        },
                        Err(_) => {},
                    }
                    models = models.push(m);
                    consumed = consumed + m.len;
                }
                list.push(h);
            },
            Err(e) => {
                proof {
                    assert(start.skip(consumed + 0) =~= start.skip(consumed));
                }
                return Err(e);
            },
        }
        k += 1;
    }
    proof {
        assert(models + Seq::<ObjectHeaderModel>::empty() =~= models);
    }
    Ok(list)
}

/// Why a response holds no pack.
#[derive(Debug, Clone, Copy, PartialEq, Eq, Structural)]
pub enum UnpackError {
    /// The status of the response is no success.
    Status(u16),
    /// The body of the response is no pack.
    Pack(PackError),
}

/// What was taken from a response.
pub struct Unpacked {
    /// The text that precedes the pack, to show.
    pub text: Vec<u8>,
    /// The bytes to keep in the pack file: the raw bytes of the pack as
    /// far as they were read.
    pub pack: Vec<u8>,
    /// The digest of those bytes.
    pub checksum: GitHash,
    /// The headers of the objects of the pack, or why they were not
    /// reached.
    pub outcome: Result<Vec<PackObjectHeader>, UnpackError>,
}

/// What a body says after its prelude: the number of objects and their
/// headers.
pub open spec fn pack_of(rest: Seq<u8>) -> Result<Seq<ObjectHeaderModel>, PackError> {
    match pack_header_at(rest) {
        Err(e) => Err(e),
        Ok((_, count)) => headers_at(rest.skip(12), count as nat),
    }
}

/// The bytes of a pack that are kept, given all that follows the prelude:
/// nothing where the header of the pack is refused; the header of the
/// pack and the headers of its objects as far as they can be read, where
/// one of them cannot; and all the bytes from `PACK` to the end where
/// every header is read.
pub open spec fn kept_pack(rest: Seq<u8>) -> Seq<u8> {
    match pack_header_at(rest) {
        Err(_) => Seq::empty(),
        Ok((_, count)) => if headers_at(rest.skip(12), count as nat) is Ok {
            rest
        } else {
            rest.take(12 + headers_len(rest.skip(12), count as nat))
        },
    }
}

/// The twelve bytes of a header that was read are the twelve bytes that
/// it was read from.
proof fn lemma_header_bytes(rest: Seq<u8>, h: PackHeader)
    requires
        pack_header_at(rest) == Ok::<(u32, u32), PackError>((h.version, h.num_objects)),
        h.signature@ == pack_magic(),
    ensures
        rest.len() >= 12,
        pack_header_bytes(h) == rest.subrange(0, 12),
{
    lemma_be32_of_be32_value(rest.subrange(4, 8));
    lemma_be32_of_be32_value(rest.subrange(8, 12));
    assert(pack_header_bytes(h) =~= rest.subrange(0, 4) + rest.subrange(4, 8) + rest.subrange(
        8,
        12,
    ));
    assert(rest.subrange(0, 4) + rest.subrange(4, 8) + rest.subrange(8, 12) =~= rest.subrange(
        0,
        12,
    ));
}

/// Takes the pack out of a response. The text before the pack is kept for
/// showing. The bytes from `PACK` on go to the pack file and to its
/// digest as they are read: the header of the pack, the headers of its
/// objects, and then all that follows up to the end of the response.
/// Reading stops at a header that cannot be read.
pub fn unpack_pkt_res(status: u16, body: Vec<u8>) -> (out: Unpacked)
    ensures
        out.checksum@ == sha1_digest(out.pack@),
        !(200 <= status <= 299) ==> out.outcome == Err::<Vec<PackObjectHeader>, UnpackError>(
            UnpackError::Status(status),
        ) && out.text@.len() == 0 && out.pack@.len() == 0,
        200 <= status <= 299 ==> ({
            let prelude = prelude_of(body@);
            let rest = body@.skip(prelude.consumed);
            &&& out.text@ == prelude.text
            &&& match prelude.error {
                Some(e) => out.outcome == Err::<Vec<PackObjectHeader>, UnpackError>(
                    UnpackError::Pack(e),
                ) && out.pack@.len() == 0,
                None => out.pack@ == kept_pack(rest) && (match out.outcome {
                    Ok(list) => pack_of(rest) is Ok && headers_match(list@, pack_of(rest)->Ok_0),
                    Err(e) => pack_of(rest) is Err && e == UnpackError::Pack(pack_of(rest)->Err_0),
                }),
            }
        }),
{
    let mut tee = TeeWriter::new();
    if !(200 <= status && status <= 299) {
        return Unpacked {
            text: Vec::new(),
            checksum: tee.digest(),
            pack: tee.into_bytes(),
            outcome: Err(UnpackError::Status(status)),
        };
    }
    let mut cursor = BufferedStreamCursor::with_chunk_size(body, 128);
    let progress = print_lines_until_pack(&mut cursor);
    match progress.result {
        Err(e) => {
            return Unpacked {
                text: progress.text,
                checksum: tee.digest(),
                pack: tee.into_bytes(),
                outcome: Err(UnpackError::Pack(e)),
            };
        },
        Ok(()) => {},
    }
    let raw = cursor.peek_rest();
    let ghost rest = raw@;
    let header = match parse_pack_header(&mut cursor, &mut tee) {
        Ok(header) => header,
        Err(e) => {
            return Unpacked {
                text: progress.text,
                checksum: tee.digest(),
                pack: tee.into_bytes(),
                outcome: Err(UnpackError::Pack(e)),
            };
        },
    };
    proof {
        lemma_header_bytes(rest, header);
        assert(tee.content() =~= rest.subrange(0, 12));
    }
    cursor.drain_consumed();
    let read = persist_objects(&mut cursor, &header);
    let used = cursor.position();
    let outcome = match read {
        Ok(list) => {
            tee.write_all(vstd::slice::slice_subrange(raw.as_slice(), 12, raw.len()));
            assert(tee.content() =~= rest);
            Ok(list)
        },
        Err(e) => {
            tee.write_all(vstd::slice::slice_subrange(raw.as_slice(), 12, 12 + used));
            assert(tee.content() =~= rest.take(12 + used));
            Err(UnpackError::Pack(e))
        },
    };
    Unpacked { text: progress.text, checksum: tee.digest(), pack: tee.into_bytes(), outcome }
}

} // verus!
