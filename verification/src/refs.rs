//! The reference advertisement: the first answer of a server, which lists
//! its references and, on the first of them, its capabilities.
use crate::caps::{Capabilities, caps_of, CapsModel, parse_capabilities};
use crate::hash::HASH_HEX_LENGTH;
use crate::pktline::{Frame, FrameError, frames_of, FrameView, PacketReader};
use crate::text::{
    bytes_eq, empty_string, encodings, find, find_byte, starts_with, str_encodings,
    string_from_utf8, substr,
};
use crate::words::{trim_end, trimmed, words, words_of};
use vstd::prelude::*;
use vstd::string::*;
use vstd::utf8::*;

verus! {

/// One advertised reference.
pub struct AdvertisedRef {
    /// The identifier, as hexadecimal text.
    pub hash: String,
    /// The name of the reference.
    pub name: String,
}

/// What a server advertises.
pub struct RefAdvertisement {
    pub refs: Vec<AdvertisedRef>,
    pub capabilities: Capabilities,
    /// The identifier of the reference named `HEAD`, if it is advertised.
    pub head: Option<String>,
}

/// Why a byte stream is no reference advertisement.
#[derive(Debug, Clone, Copy, PartialEq, Eq, Structural)]
pub enum RefsError {
    /// The stream is empty.
    NoData,
    /// The first frame is not a data frame.
    ExpectedServiceLine,
    /// The first frame does not begin with `# service=`.
    MissingServiceHeader,
    /// The stream stops being frames.
    MalformedFrame(FrameError),
    /// A delimiter or a response end stands among the references.
    UnexpectedFrame,
    /// An identifier does not have the length of the digest in use.
    UnsupportedObjectFormat,
}

/// An advertisement as a mathematical value in which each text stands as
/// its bytes.
pub struct AdvModel {
    /// Identifier and name of each reference, in order.
    pub refs: Seq<(Seq<u8>, Seq<u8>)>,
    pub capabilities: CapsModel,
    /// The capability tokens, in the order in which they were read.
    pub cap_tokens: Seq<Seq<u8>>,
    pub head: Option<Seq<u8>>,
}

impl View for RefAdvertisement {
    type V = AdvModel;

    open spec fn view(&self) -> AdvModel {
        AdvModel {
            refs: Seq::new(
                self.refs@.len(),
                |i: int| (encode_utf8(self.refs@[i].hash@), encode_utf8(self.refs@[i].name@)),
            ),
            capabilities: self.capabilities@,
            cap_tokens: self.capabilities.tokens(),
            head: crate::caps::opt_encoding(self.head),
        }
    }
}

/// The advertisement that lists nothing.
pub open spec fn no_refs() -> AdvModel {
    AdvModel {
        refs: Seq::empty(),
        capabilities: crate::caps::no_caps(),
        cap_tokens: Seq::empty(),
        head: None,
    }
}

/// The text of a line: the payload without the white space at its end
/// where it is valid UTF-8, and nothing otherwise.
pub open spec fn line_text(payload: Seq<u8>) -> Seq<u8> {
    if valid_utf8(payload) {
        trim_end(payload)
    } else {
        Seq::empty()
    }
}

/// Whether a payload is the banner that names the service.
pub open spec fn is_banner(payload: Seq<u8>) -> bool {
    "# service=".spec_bytes().is_prefix_of(line_text(payload))
}

/// The parts of a reference line.
pub struct RefLine {
    pub hash: Seq<u8>,
    pub name: Seq<u8>,
    /// What follows the NUL; empty where there is none.
    pub extra: Seq<u8>,
}

/// The parts of a reference line: the identifier up to the first space,
/// the name up to the first NUL, and what follows the NUL.
pub open spec fn ref_line(line: Seq<u8>) -> RefLine {
    let nul = find(line, 0);
    let left = line.subrange(0, nul);
    let space = find(left, 32);
    RefLine {
        hash: left.subrange(0, space),
        name: if space < left.len() {
            left.subrange(space + 1, left.len() as int)
        } else {
            Seq::empty()
        },
        extra: if nul < line.len() {
            line.subrange(nul + 1, line.len() as int)
        } else {
            Seq::empty()
        },
    }
}

/// The advertisement with one more reference line taken in. The line is
/// refused where its identifier does not have forty bytes. Only the first
/// line sets the capabilities, and only if something follows its NUL.
pub open spec fn with_ref_line(acc: AdvModel, payload: Seq<u8>) -> Result<AdvModel, RefsError> {
    let parts = ref_line(line_text(payload));
    if parts.hash.len() != HASH_HEX_LENGTH {
        Err(RefsError::UnsupportedObjectFormat)
    } else {
        let first_with_caps = acc.refs.len() == 0 && parts.extra.len() > 0;
        Ok(
            AdvModel {
                refs: acc.refs.push((parts.hash, parts.name)),
                capabilities: if first_with_caps {
                    caps_of(words(parts.extra))
                } else {
                    acc.capabilities
                },
                cap_tokens: if first_with_caps {
                    words(parts.extra)
                } else {
                    acc.cap_tokens
                },
                head: if parts.name == "HEAD".spec_bytes() {
                    Some(parts.hash)
                } else {
                    acc.head
                },
            },
        )
    }
}

/// The advertisement with one more frame taken in: a data frame is a
/// reference line, a flush is passed over, and any other frame is an
/// error.
pub open spec fn with_frame(acc: AdvModel, frame: FrameView) -> Result<AdvModel, RefsError> {
    match frame {
        FrameView::Data(payload) => with_ref_line(acc, payload),
        FrameView::Flush => Ok(acc),
        FrameView::ProtocolError(e) => Err(RefsError::MalformedFrame(e)),
        _ => Err(RefsError::UnexpectedFrame),
    }
}

/// The advertisement after the frames that follow the banner, each taken
/// in as `with_frame` says, up to the first error.
pub open spec fn refs_after(frames: Seq<FrameView>, acc: AdvModel) -> Result<AdvModel, RefsError>
    decreases frames.len(),
{
    if frames.len() == 0 {
        Ok(acc)
    } else {
        match with_frame(acc, frames[0]) {
            Ok(next) => refs_after(frames.drop_first(), next),
            Err(e) => Err(e),
        }
    }
}

/// What a sequence of frames advertises: the first frame is the banner,
/// the others are read as `refs_after` says.
pub open spec fn advertised(frames: Seq<FrameView>) -> Result<AdvModel, RefsError> {
    if frames.len() == 0 {
        Err(RefsError::NoData)
    } else {
        match frames[0] {
            FrameView::Data(payload) => if is_banner(payload) {
                refs_after(frames.drop_first(), no_refs())
            } else {
                Err(RefsError::MissingServiceHeader)
            },
            FrameView::ProtocolError(e) => Err(RefsError::MalformedFrame(e)),
            _ => Err(RefsError::ExpectedServiceLine),
        }
    }
}

/// The model inside a result.
pub open spec fn model_of(r: Result<RefAdvertisement, RefsError>) -> Result<AdvModel, RefsError> {
    match r {
        Ok(adv) => Ok(adv@),
        Err(e) => Err(e),
    }
}

/// The text of a line.
fn line_of(payload: Vec<u8>) -> (line: String)
    ensures
        encode_utf8(line@) == line_text(payload@),
{
    let ghost p = payload@;
    match string_from_utf8(payload) {
        Some(text) => {
            proof {
                decode_utf8_encode_utf8(p);
            }
            trimmed(text.as_str())
        },
        None => empty_string(),
    }
}

/// The parts of a reference line, as texts.
struct RefLineText {
    hash: String,
    name: String,
    extra: String,
}

/// The parts of a reference line.
fn split_ref_line(line: &str) -> (parts: RefLineText)
    ensures
        ref_line(line.spec_bytes()) == (RefLine {
            hash: encode_utf8(parts.hash@),
            name: encode_utf8(parts.name@),
            extra: encode_utf8(parts.extra@),
        }),
{
    let bytes = line.as_bytes();
    let nul = find_byte(bytes, 0);
    let left = substr(line, 0, nul);
    let extra = if nul < bytes.len() {
        substr(line, nul + 1, bytes.len())
    } else {
        let empty = String::new();
        assert(encode_utf8(empty@) =~= Seq::<u8>::empty());
        empty
    };
    let left_bytes = left.as_str().as_bytes();
    let space = find_byte(left_bytes, 32);
    let hash = substr(left.as_str(), 0, space);
    let name = if space < left_bytes.len() {
        substr(left.as_str(), space + 1, left_bytes.len())
    } else {
        let empty = String::new();
        assert(encode_utf8(empty@) =~= Seq::<u8>::empty());
        empty
    };
    RefLineText { hash, name, extra }
}

/// The texts of a list, borrowed.
fn borrowed<'a>(list: &'a Vec<String>) -> (out: Vec<&'a str>)
    ensures
        str_encodings(out@) == encodings(list@),
{
    let mut out: Vec<&'a str> = Vec::new();
    let mut i: usize = 0;
    while i < list.len()
        invariant
            i <= list@.len(),
            out@.len() == i,
            forall|k: int| 0 <= k < i ==> out@[k]@ == list@[k]@,
        decreases list@.len() - i,
    {
        out.push(list[i].as_str());
        i += 1;
    }
    assert(str_encodings(out@) =~= encodings(list@));
    out
}

impl RefAdvertisement {
    /// Takes one more reference line in.
    fn take_line(&mut self, payload: Vec<u8>) -> (r: Result<(), RefsError>)
        ensures
            match r {
                Ok(()) => with_ref_line(old(self)@, payload@) == Ok::<AdvModel, RefsError>(
                    final(self)@,
                ),
                Err(e) => with_ref_line(old(self)@, payload@) == Err::<AdvModel, RefsError>(e),
            },
    {
        let ghost acc = self@;
        let line = line_of(payload);
        let parts = split_ref_line(line.as_str());
        if parts.hash.as_str().as_bytes().len() != HASH_HEX_LENGTH {
            return Err(RefsError::UnsupportedObjectFormat);
        }
        if self.refs.len() == 0 && parts.extra.as_str().as_bytes().len() > 0 {
            let tokens = words_of(parts.extra.as_str());
            self.capabilities = parse_capabilities(borrowed(&tokens));
        }
        if bytes_eq(parts.name.as_str().as_bytes(), "HEAD".as_bytes()) {
            self.head = Some(parts.hash.clone());
        }
        let ghost h = encode_utf8(parts.hash@);
        let ghost n = encode_utf8(parts.name@);
        self.refs.push(AdvertisedRef { hash: parts.hash, name: parts.name });
        assert(self@.refs =~= acc.refs.push((h, n)));
        Ok(())
    }
}

/// What the first frame of a stream says of the stream as an
/// advertisement: nothing yet where it is the banner, and the error
/// otherwise.
pub open spec fn banner_check(frame: Option<FrameView>) -> Result<(), RefsError> {
    match frame {
        None => Err(RefsError::NoData),
        Some(FrameView::Data(payload)) => if is_banner(payload) {
            Ok(())
        } else {
            Err(RefsError::MissingServiceHeader)
        },
        Some(FrameView::ProtocolError(e)) => Err(RefsError::MalformedFrame(e)),
        Some(_) => Err(RefsError::ExpectedServiceLine),
    }
}

/// Checks the frame that should be the banner.
fn check_banner(frame: Option<Frame>) -> (r: Result<(), RefsError>)
    ensures
        r == banner_check(
            match frame {
                Some(f) => Some(f@),
                None => None,
            },
        ),
{
    match frame {
        None => Err(RefsError::NoData),
        Some(Frame::Data(payload)) => {
            let line = line_of(payload);
            if starts_with(line.as_str().as_bytes(), "# service=".as_bytes()) {
                Ok(())
            } else {
                Err(RefsError::MissingServiceHeader)
            }
        },
        Some(Frame::ProtocolError(e)) => Err(RefsError::MalformedFrame(e)),
        Some(_) => Err(RefsError::ExpectedServiceLine),
    }
}

impl RefAdvertisement {
    /// Takes one more frame in.
    fn take_frame(&mut self, frame: Frame) -> (r: Result<(), RefsError>)
        ensures
            match r {
                Ok(()) => with_frame(old(self)@, frame@) == Ok::<AdvModel, RefsError>(final(self)@),
                Err(e) => with_frame(old(self)@, frame@) == Err::<AdvModel, RefsError>(e),
            },
    {
        match frame {
            Frame::Data(payload) => self.take_line(payload),
            Frame::Flush => Ok(()),
            Frame::ProtocolError(e) => Err(RefsError::MalformedFrame(e)),
            _ => Err(RefsError::UnexpectedFrame),
        }
    }
}

/// Reads a reference advertisement from the body of the first answer.
pub fn parse_ref_advertisement(bytes: &[u8]) -> (r: Result<RefAdvertisement, RefsError>)
    ensures
        model_of(r) == advertised(frames_of(bytes@)),
{
    let data = vstd::slice::slice_to_vec(bytes);
    let mut reader = PacketReader::new(data, bytes.len());
    let ghost all = frames_of(bytes@);
    proof {
        assert(reader.rest() =~= bytes@);
        assert(reader.pending() == all);
    }
    let first = reader.read_line();
    proof {
        if first is Some {
            assert(all.drop_first() =~= reader.pending());
            assert(all[0] == first.unwrap()@);
        }
    }
    match check_banner(first) {
        Ok(()) => {},
        Err(e) => {
            return Err(e);
        },
    }
    let mut adv = RefAdvertisement {
        refs: Vec::new(),
        capabilities: Capabilities::default(),
        head: None,
    };
    proof {
        assert(adv@.refs =~= no_refs().refs);
        assert(adv@ == no_refs());
    }
    loop
        invariant
            advertised(all) == refs_after(reader.pending(), adv@),
            all == frames_of(bytes@),
            0 <= reader.consumed() <= reader.stream().len(),
        decreases reader.stream().len() - reader.consumed(),
    {
        let ghost before = reader.pending();
        let ghost was_at_end = reader.at_end();
        let next = reader.read_line();
        match next {
            None => {
                return Ok(adv);
            },
            Some(frame) => {
                proof {
                    assert(before.drop_first() =~= reader.pending());
                    assert(before[0] == frame@);
                    assert(!was_at_end);
                }
                match adv.take_frame(frame) {
                    Ok(()) => {},
                    Err(e) => {
                        return Err(e);
                    },
                }
            },
        }
    }
}

} // verus!
