//! The line-framed transport: each frame is four hexadecimal digits that
//! give its whole length, followed by the payload. The lengths zero, one
//! and two stand for the three frames without payload.
use crate::hash::{hex_digit_value, is_hex_digit};
use crate::text::copy_range;
use vstd::prelude::*;
use vstd::string::*;

verus! {

/// Number of bytes of the length prefix of a frame.
pub const GIT_PACKET_LINE_HEADER_LEN: usize = 4;

/// The longest payload that a frame can carry.
pub const MAX_PAYLOAD_LEN: usize = 65531;

/// Why a byte stream is not a sequence of frames.
#[derive(Debug, Clone, Copy, PartialEq, Eq, Structural)]
pub enum FrameError {
    /// One of the four length bytes is no hexadecimal digit.
    InvalidLength,
    /// The length is three: more than a frame without payload has, less
    /// than the prefix of a frame with payload takes.
    LengthTooSmall,
    /// The stream ends before the frame does.
    UnexpectedEof,
    /// A payload to send is longer than a frame can carry.
    PayloadTooLong,
}

/// One frame of the stream.
#[derive(Debug, Clone, PartialEq, Eq)]
pub enum Frame {
    /// A frame with payload.
    Data(Vec<u8>),
    /// `0000`
    Flush,
    /// `0001`
    Delimiter,
    /// `0002`
    ResponseEnd,
    /// What stands where the stream stops being frames.
    ProtocolError(FrameError),
}

/// A frame as a mathematical value.
pub enum FrameView {
    Data(Seq<u8>),
    Flush,
    Delimiter,
    ResponseEnd,
    ProtocolError(FrameError),
}

impl View for Frame {
    type V = FrameView;

    open spec fn view(&self) -> FrameView {
        match self {
            Frame::Data(payload) => FrameView::Data(payload@),
            Frame::Flush => FrameView::Flush,
            Frame::Delimiter => FrameView::Delimiter,
            Frame::ResponseEnd => FrameView::ResponseEnd,
            Frame::ProtocolError(e) => FrameView::ProtocolError(*e),
        }
    }
}

/// The lower-case hexadecimal digit, as a byte, for a value below sixteen.
pub open spec fn hex_byte(d: int) -> u8 {
    if d < 10 {
        (48 + d) as u8
    } else {
        (87 + d) as u8
    }
}

/// The four lower-case hexadecimal digits of a number below 65536.
pub open spec fn hex4(n: int) -> Seq<u8> {
    seq![hex_byte(n / 4096), hex_byte(n / 256 % 16), hex_byte(n / 16 % 16), hex_byte(n % 16)]
}

/// The number that four hexadecimal digits denote.
pub open spec fn hex4_value(s: Seq<u8>) -> int {
    hex_digit_value(s[0]) * 4096 + hex_digit_value(s[1]) * 256 + hex_digit_value(s[2]) * 16
        + hex_digit_value(s[3])
}

/// Whether the first four bytes are hexadecimal digits.
pub open spec fn is_hex4(s: Seq<u8>) -> bool {
    s.len() >= 4 && is_hex_digit(s[0]) && is_hex_digit(s[1]) && is_hex_digit(s[2]) && is_hex_digit(
        s[3],
    )
}

/// The four digits of a number are digits that denote it.
pub proof fn lemma_hex4(n: int)
    requires
        0 <= n < 65536,
    ensures
        hex4(n).len() == 4,
        is_hex4(hex4(n)),
        hex4_value(hex4(n)) == n,
{
    let a = n / 4096;
    let b = n / 256 % 16;
    let c = n / 16 % 16;
    let d = n % 16;
    assert(0 <= a < 16);
    assert(n / 256 == a * 16 + b);
    assert(n / 16 == (n / 256) * 16 + c);
    assert(n == (n / 16) * 16 + d);
    assert(hex_digit_value(hex_byte(a)) == a);
    assert(hex_digit_value(hex_byte(b)) == b);
    assert(hex_digit_value(hex_byte(c)) == c);
    assert(hex_digit_value(hex_byte(d)) == d);
}

/// The bytes of a frame on the wire. A payload longer than
/// `MAX_PAYLOAD_LEN` has no frame, nor has an error.
pub open spec fn frame_bytes(f: FrameView) -> Seq<u8> {
    match f {
        FrameView::Data(payload) => hex4(payload.len() as int + 4) + payload,
        FrameView::Flush => hex4(0),
        FrameView::Delimiter => hex4(1),
        FrameView::ResponseEnd => hex4(2),
        FrameView::ProtocolError(_) => Seq::empty(),
    }
}

/// Whether a frame can be put on the wire.
pub open spec fn sendable(f: FrameView) -> bool {
    match f {
        FrameView::Data(payload) => payload.len() <= MAX_PAYLOAD_LEN,
        FrameView::ProtocolError(_) => false,
        _ => true,
    }
}

/// The bytes of a sequence of frames, one after the other.
pub open spec fn frames_bytes(frames: Seq<FrameView>) -> Seq<u8>
    decreases frames.len(),
{
    if frames.len() == 0 {
        Seq::empty()
    } else {
        frame_bytes(frames[0]) + frames_bytes(frames.drop_first())
    }
}

/// The frame at the head of a non-empty stream, and the number of bytes
/// that it takes.
pub open spec fn first_frame(bytes: Seq<u8>) -> (FrameView, int) {
    if bytes.len() < 4 {
        (FrameView::ProtocolError(FrameError::UnexpectedEof), bytes.len() as int)
    } else if !is_hex4(bytes) {
        (FrameView::ProtocolError(FrameError::InvalidLength), 4)
    } else {
        let n = hex4_value(bytes);
        if n == 0 {
            (FrameView::Flush, 4)
        } else if n == 1 {
            (FrameView::Delimiter, 4)
        } else if n == 2 {
            (FrameView::ResponseEnd, 4)
        } else if n == 3 {
            (FrameView::ProtocolError(FrameError::LengthTooSmall), 4)
        } else if n > bytes.len() {
            (FrameView::ProtocolError(FrameError::UnexpectedEof), bytes.len() as int)
        } else {
            (FrameView::Data(bytes.subrange(4, n)), n)
        }
    }
}

/// The frames of a stream: one after the other up to its end, or up to
/// and including the first error.
pub open spec fn frames_of(bytes: Seq<u8>) -> Seq<FrameView>
    decreases bytes.len(),
{
    if bytes.len() == 0 {
        Seq::empty()
    } else {
        let (f, n) = first_frame(bytes);
        if f is ProtocolError || n <= 0 || n > bytes.len() {
            seq![f]
        } else {
            seq![f] + frames_of(bytes.skip(n))
        }
    }
}

/// A sendable frame is read back from the head of any stream that begins
/// with its bytes.
pub proof fn lemma_first_frame(f: FrameView, rest: Seq<u8>)
    requires
        sendable(f),
    ensures
        first_frame(frame_bytes(f) + rest) == (f, frame_bytes(f).len() as int),
        frame_bytes(f).len() >= 4,
{
    let bytes = frame_bytes(f) + rest;
    match f {
        FrameView::Data(payload) => {
            let n: int = payload.len() as int + 4;
            lemma_hex4(n);
            assert(bytes.subrange(0, 4) =~= hex4(n));
            assert(bytes[0] == hex4(n)[0] && bytes[1] == hex4(n)[1] && bytes[2] == hex4(n)[2]
                && bytes[3] == hex4(n)[3]);
            assert(hex4_value(bytes) == n);
            assert(bytes.subrange(4, n) =~= payload);
        },
        FrameView::Flush => {
            lemma_hex4(0);
            assert(bytes[0] == hex4(0)[0] && bytes[1] == hex4(0)[1] && bytes[2] == hex4(0)[2]
                && bytes[3] == hex4(0)[3]);
        },
        FrameView::Delimiter => {
            lemma_hex4(1);
            assert(bytes[0] == hex4(1)[0] && bytes[1] == hex4(1)[1] && bytes[2] == hex4(1)[2]
                && bytes[3] == hex4(1)[3]);
        },
        FrameView::ResponseEnd => {
            lemma_hex4(2);
            assert(bytes[0] == hex4(2)[0] && bytes[1] == hex4(2)[1] && bytes[2] == hex4(2)[2]
                && bytes[3] == hex4(2)[3]);
        },
        FrameView::ProtocolError(_) => {},
    }
}

/// Framing round trip: the frames of the bytes of a sequence of sendable
/// frames are that sequence.
pub proof fn law_frames_round_trip(frames: Seq<FrameView>)
    requires
        forall|i: int| 0 <= i < frames.len() ==> sendable(#[trigger] frames[i]),
    ensures
        frames_of(frames_bytes(frames)) == frames,
    decreases frames.len(),
{
    if frames.len() == 0 {
        assert(frames_of(frames_bytes(frames)) =~= frames);
    } else {
        let f = frames[0];
        let tail = frames.drop_first();
        let rest = frames_bytes(tail);
        assert(sendable(f));
        lemma_first_frame(f, rest);
        assert forall|i: int| 0 <= i < tail.len() implies sendable(#[trigger] tail[i]) by {
            assert(tail[i] == frames[i + 1]);
        }
        law_frames_round_trip(tail);
        let bytes = frame_bytes(f) + rest;
        assert(bytes.skip(frame_bytes(f).len() as int) =~= rest);
        assert(frames_of(bytes) =~= seq![f] + frames_of(rest));
        assert(seq![f] + tail =~= frames);
    }
}

/// The value of a hexadecimal digit, where the byte is one.
fn hex_digit_of(b: u8) -> (v: Option<u16>)
    ensures
        v is Some <==> is_hex_digit(b),
        v is Some ==> v.unwrap() == hex_digit_value(b),
{
    if 48 <= b && b <= 57 {
        Some((b - 48) as u16)
    } else if 65 <= b && b <= 70 {
        Some((b - 55) as u16)
    } else if 97 <= b && b <= 102 {
        Some((b - 87) as u16)
    } else {
        None
    }
}

/// The lower-case hexadecimal digit for a value below sixteen.
fn hex_byte_of(d: usize) -> (b: u8)
    requires
        d < 16,
    ensures
        b == hex_byte(d as int),
{
    if d < 10 {
        48 + d as u8
    } else {
        87 + d as u8
    }
}

/// Appends the four hexadecimal digits of a length.
fn push_hex4(out: &mut Vec<u8>, n: usize)
    requires
        n < 65536,
    ensures
        final(out)@ == old(out)@ + hex4(n as int),
{
    out.push(hex_byte_of(n / 4096));
    out.push(hex_byte_of(n / 256 % 16));
    out.push(hex_byte_of(n / 16 % 16));
    out.push(hex_byte_of(n % 16));
    assert(out@ =~= old(out)@ + hex4(n as int));
}

/// The number that the four bytes at `at` denote, where they are
/// hexadecimal digits.
fn read_hex4(a: &[u8], at: usize) -> (n: Option<usize>)
    requires
        at + 4 <= a@.len(),
    ensures
        n is Some <==> is_hex4(a@.skip(at as int)),
        n is Some ==> n.unwrap() == hex4_value(a@.skip(at as int)),
{
    let ghost s = a@.skip(at as int);
    assert(s[0] == a@[at as int] && s[1] == a@[at + 1] && s[2] == a@[at + 2] && s[3] == a@[at
        + 3]);
    let d0 = hex_digit_of(a[at]);
    let d1 = hex_digit_of(a[at + 1]);
    let d2 = hex_digit_of(a[at + 2]);
    let d3 = hex_digit_of(a[at + 3]);
    match (d0, d1, d2, d3) {
        (Some(v0), Some(v1), Some(v2), Some(v3)) => {
            let n: usize = v0 as usize * 4096 + v1 as usize * 256 + v2 as usize * 16 + v3 as usize;
            Some(n)
        },
        _ => None,
    }
}

/// Appends the frame that carries `payload`.
pub fn push_data_frame(out: &mut Vec<u8>, payload: &[u8])
    requires
        payload@.len() <= MAX_PAYLOAD_LEN,
    ensures
        final(out)@ == old(out)@ + frame_bytes(FrameView::Data(payload@)),
{
    push_hex4(out, payload.len() + 4);
    out.extend_from_slice(payload);
    assert(out@ =~= old(out)@ + frame_bytes(FrameView::Data(payload@)));
}

/// The frame that carries a line of text, or `None` where the line is
/// longer than `MAX_PAYLOAD_LEN` bytes.
pub fn encode_pkt_line(line: &str) -> (pkt: Option<Vec<u8>>)
    ensures
        pkt is Some <==> line.spec_bytes().len() <= MAX_PAYLOAD_LEN,
        pkt is Some ==> pkt.unwrap()@ == frame_bytes(FrameView::Data(line.spec_bytes())),
{
    let payload = line.as_bytes();
    if payload.len() > MAX_PAYLOAD_LEN {
        return None;
    }
    let mut pkt: Vec<u8> = Vec::new();
    push_data_frame(&mut pkt, payload);
    Some(pkt)
}

/// The bytes of a frame, or `None` where it cannot be sent: an error, or a
/// payload longer than `MAX_PAYLOAD_LEN` bytes.
pub fn encode_frame(frame: &Frame) -> (pkt: Option<Vec<u8>>)
    ensures
        pkt is Some <==> sendable(frame@),
        pkt is Some ==> pkt.unwrap()@ == frame_bytes(frame@),
{
    let mut pkt: Vec<u8> = Vec::new();
    match frame {
        Frame::Data(payload) => {
            if payload.len() > MAX_PAYLOAD_LEN {
                return None;
            }
            push_data_frame(&mut pkt, payload.as_slice());
        },
        Frame::Flush => {
            push_hex4(&mut pkt, 0);
        },
        Frame::Delimiter => {
            push_hex4(&mut pkt, 1);
        },
        Frame::ResponseEnd => {
            push_hex4(&mut pkt, 2);
        },
        Frame::ProtocolError(_) => {
            return None;
        },
    }
    Some(pkt)
}

/// Reads the frame at a position before the end of a stream: the frame and
/// the position after it.
pub fn decode_frame(bytes: &[u8], at: usize) -> (r: (Frame, usize))
    requires
        at < bytes@.len(),
    ensures
        r.0@ == first_frame(bytes@.skip(at as int)).0,
        r.1 == at + first_frame(bytes@.skip(at as int)).1,
        at < r.1 <= bytes@.len(),
{
    let ghost rest = bytes@.skip(at as int);
    let left = bytes.len() - at;
    if left < 4 {
        return (Frame::ProtocolError(FrameError::UnexpectedEof), bytes.len());
    }
    let n = match read_hex4(bytes, at) {
        Some(n) => n,
        None => {
            return (Frame::ProtocolError(FrameError::InvalidLength), at + 4);
        },
    };
    if n == 0 {
        (Frame::Flush, at + 4)
    } else if n == 1 {
        (Frame::Delimiter, at + 4)
    } else if n == 2 {
        (Frame::ResponseEnd, at + 4)
    } else if n == 3 {
        (Frame::ProtocolError(FrameError::LengthTooSmall), at + 4)
    } else if n > left {
        (Frame::ProtocolError(FrameError::UnexpectedEof), bytes.len())
    } else {
        let payload = copy_range(bytes, at + 4, at + n);
        assert(rest.subrange(4, n as int) =~= bytes@.subrange(at + 4, at + n));
        (Frame::Data(payload), at + n)
    }
}

/// The frames of a sequence of executable frames, as values.
pub open spec fn views(frames: Seq<Frame>) -> Seq<FrameView> {
    Seq::new(frames.len(), |i: int| frames[i]@)
}

/// All frames of a stream.
pub fn read_frames(bytes: &[u8]) -> (frames: Vec<Frame>)
    ensures
        views(frames@) == frames_of(bytes@),
{
    let mut frames: Vec<Frame> = Vec::new();
    let mut at: usize = 0;
    let mut failed = false;
    proof {
        assert(bytes@.skip(0) =~= bytes@);
        assert(views(frames@) + frames_of(bytes@) =~= frames_of(bytes@));
    }
    while at < bytes.len() && !failed
        invariant
            at <= bytes@.len(),
            !failed ==> frames_of(bytes@) == views(frames@) + frames_of(bytes@.skip(at as int)),
            failed ==> frames_of(bytes@) == views(frames@),
        decreases bytes@.len() - at,
    {
        let ghost before = views(frames@);
        let ghost rest = bytes@.skip(at as int);
        let (frame, next) = decode_frame(bytes, at);
        let is_error = match frame {
            Frame::ProtocolError(_) => true,
            _ => false,
        };
        let ghost fv = frame@;
        frames.push(frame);
        proof {
            assert(views(frames@) =~= before + seq![fv]);
            if !is_error {
                assert(rest.skip(next - at) =~= bytes@.skip(next as int));
                assert(frames_of(rest) == seq![fv] + frames_of(bytes@.skip(next as int)));
            } else {
                assert(frames_of(rest) == seq![fv]);
            }
        }
        failed = is_error;
        at = next;
    }
    proof {
        if !failed {
            assert(bytes@.skip(at as int).len() == 0);
            assert(views(frames@) + Seq::<FrameView>::empty() =~= views(frames@));
        }
    }
    frames
}

/// A reader that hands out the frames of a byte stream one by one and
/// counts the bytes that it has consumed.
pub struct PacketReader {
    data: Vec<u8>,
    bytes_read: usize,
    expected_len: usize,
    failed: bool,
}

impl PacketReader {
    #[verifier::type_invariant]
    spec fn within(&self) -> bool {
        self.bytes_read <= self.data@.len()
    }

    /// The whole stream.
    pub closed spec fn stream(&self) -> Seq<u8> {
        self.data@
    }

    /// Number of bytes consumed so far.
    pub closed spec fn consumed(&self) -> int {
        self.bytes_read as int
    }

    /// Number of bytes that the stream is expected to hold.
    pub closed spec fn expected(&self) -> int {
        self.expected_len as int
    }

    /// Whether an error frame has been handed out.
    pub closed spec fn stopped(&self) -> bool {
        self.failed
    }

    /// The bytes not yet consumed.
    pub open spec fn rest(&self) -> Seq<u8> {
        self.stream().skip(self.consumed())
    }

    /// Whether no frame is left: the stream is used up, or an error was
    /// handed out.
    pub open spec fn at_end(&self) -> bool {
        self.stopped() || self.consumed() >= self.stream().len()
    }

    /// The frames that are still to come.
    pub open spec fn pending(&self) -> Seq<FrameView> {
        if self.stopped() {
            Seq::empty()
        } else {
            frames_of(self.rest())
        }
    }

    /// A reader at the start of `data`, which is expected to hold
    /// `expected_len` bytes of frames.
    pub fn new(data: Vec<u8>, expected_len: usize) -> (reader: Self)
        ensures
            reader.stream() == data@,
            reader.consumed() == 0,
            reader.expected() == expected_len,
            !reader.stopped(),
    {
        PacketReader { data, bytes_read: 0, expected_len, failed: false }
    }

    /// The next frame, or `None` at the end. After an error frame the
    /// reader is at its end.
    pub fn read_line(&mut self) -> (frame: Option<Frame>)
        ensures
            final(self).stream() == old(self).stream(),
            final(self).expected() == old(self).expected(),
            0 <= final(self).consumed() <= final(self).stream().len(),
            old(self).at_end() ==> frame is None && final(self).consumed() == old(self).consumed()
                && final(self).stopped() == old(self).stopped(),
            !old(self).at_end() ==> frame is Some && frame.unwrap()@ == first_frame(
                old(self).rest(),
            ).0 && final(self).consumed() == old(self).consumed() + first_frame(old(self).rest()).1
                && final(self).consumed() > old(self).consumed() && final(self).stopped() == (
            frame.unwrap()@ is ProtocolError),
            old(self).pending() == (match frame {
                Some(f) => seq![f@] + final(self).pending(),
                None => Seq::empty(),
            }),
    {
        proof {
            use_type_invariant(&*self);
        }
        if self.failed || self.bytes_read >= self.data.len() {
            proof {
                if !self.failed {
                    assert(self.rest().len() == 0);
                }
            }
            return None;
        }
        let ghost rest = self.rest();
        let (frame, next) = decode_frame(self.data.as_slice(), self.bytes_read);
        let is_error = match frame {
            Frame::ProtocolError(_) => true,
            _ => false,
        };
        proof {
            assert(rest.skip(next - self.bytes_read) =~= self.data@.skip(next as int));
            if !is_error {
                assert(frames_of(rest) == seq![frame@] + frames_of(self.data@.skip(next as int)));
            } else {
                assert(frames_of(rest) =~= seq![frame@] + Seq::<FrameView>::empty());
            }
        }
        self.bytes_read = next;
        self.failed = is_error;
        Some(frame)
    }

    /// Number of bytes consumed so far.
    pub fn total_bytes_read(&self) -> (n: usize)
        ensures
            n == self.consumed(),
    {
        self.bytes_read
    }

    /// Whether exactly the expected number of bytes has been consumed;
    /// `UnexpectedEof` otherwise.
    pub fn validate_consumed(&self) -> (r: Result<(), FrameError>)
        ensures
            r is Ok <==> self.consumed() == self.expected(),
            r is Err ==> r == Err::<(), FrameError>(FrameError::UnexpectedEof),
    {
        if self.bytes_read == self.expected_len {
            Ok(())
        } else {
            Err(FrameError::UnexpectedEof)
        }
    }
}

/// The bytes of a sequence of frames with one more frame are the bytes of
/// the sequence followed by the bytes of the frame.
pub proof fn lemma_frames_bytes_push(frames: Seq<FrameView>, f: FrameView)
    ensures
        frames_bytes(frames.push(f)) == frames_bytes(frames) + frame_bytes(f),
    decreases frames.len(),
{
    if frames.len() == 0 {
        assert(frames.push(f).drop_first() =~= Seq::<FrameView>::empty());
        assert(frames_bytes(Seq::<FrameView>::empty()) =~= Seq::<u8>::empty());
        assert(frames.push(f)[0] == f);
        assert(frames_bytes(frames.push(f)) =~= frames_bytes(frames) + frame_bytes(f));
    } else {
        lemma_frames_bytes_push(frames.drop_first(), f);
        assert(frames.push(f).drop_first() =~= frames.drop_first().push(f));
        assert(frames_bytes(frames.push(f)) =~= frames_bytes(frames) + frame_bytes(f));
    }
}

/// Whether every frame of a sequence can be put on the wire.
pub open spec fn all_sendable(frames: Seq<FrameView>) -> bool {
    forall|i: int| 0 <= i < frames.len() ==> sendable(#[trigger] frames[i])
}

/// The bytes of a sequence of frames, or `PayloadTooLong` where one of
/// them cannot be sent.
pub fn encode_frames(frames: &Vec<Frame>) -> (r: Result<Vec<u8>, FrameError>)
    ensures
        r is Ok <==> all_sendable(views(frames@)),
        r is Ok ==> r.unwrap()@ == frames_bytes(views(frames@)),
        r is Err ==> r == Err::<Vec<u8>, FrameError>(FrameError::PayloadTooLong),
{
    let mut out: Vec<u8> = Vec::new();
    let mut i: usize = 0;
    let ghost all = views(frames@);
    proof {
        assert(all.take(0) =~= Seq::<FrameView>::empty());
    }
    while i < frames.len()
        invariant
            i <= frames@.len(),
            all == views(frames@),
            out@ == frames_bytes(all.take(i as int)),
            forall|j: int| 0 <= j < i ==> sendable(#[trigger] all[j]),
        decreases frames@.len() - i,
    {
        proof {
            lemma_frames_bytes_push(all.take(i as int), all[i as int]);
            assert(all.take(i as int).push(all[i as int]) =~= all.take(i + 1));
        }
        match encode_frame(&frames[i]) {
            Some(bytes) => {
                out.extend_from_slice(bytes.as_slice());
            },
            None => {
                assert(!sendable(all[i as int]));
                return Err(FrameError::PayloadTooLong);
            },
        }
        i += 1;
    }
    assert(all.take(i as int) =~= all);
    Ok(out)
}

/// A reader at the start of the bytes of frames that can be sent has
/// exactly those frames to come. Each call of `read_line` then hands out
/// the first of the frames to come and leaves the others.
pub proof fn law_reader_hands_out_frames(reader: PacketReader, frames: Seq<FrameView>)
    requires
        all_sendable(frames),
        reader.stream() == frames_bytes(frames),
        reader.consumed() == 0,
        !reader.stopped(),
    ensures
        reader.pending() == frames,
{
    assert(reader.rest() =~= reader.stream());
    law_frames_round_trip(frames);
}

/// A reader that has handed out no error has frames to come exactly
/// where bytes are left; so when the last frame is handed out, every byte
/// is counted, and the next call of `read_line` gives `None`.
pub proof fn law_reader_ends_with_the_stream(reader: PacketReader)
    requires
        0 <= reader.consumed() <= reader.stream().len(),
        !reader.stopped(),
    ensures
        reader.pending().len() == 0 <==> reader.consumed() == reader.stream().len(),
        reader.pending().len() == 0 <==> reader.at_end(),
{
    let rest = reader.rest();
    if rest.len() > 0 {
        let (f, n) = first_frame(rest);
        assert(frames_of(rest)[0] == f);
    }
}

} // verus!
