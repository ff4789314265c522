//! What the client sends: the fetch request of protocol version 2, and
//! the want line of the older protocol.
use crate::caps::Capabilities;
use crate::hash::GitHash;
use crate::pktline::{
    all_sendable, encode_frames, Frame, frame_bytes, FrameError, frames_bytes, frames_of, FrameView,
    law_frames_round_trip, MAX_PAYLOAD_LEN, push_data_frame, views,
};
use crate::text::{decimal, encodings, joined, push_decimal};
use vstd::prelude::*;
use vstd::string::*;
use vstd::utf8::*;

verus! {

/// A fetch request in the making.
pub struct UploadPackV2RequestBuilder {
    command: String,
    object_format: String,
    agent: Option<String>,
    wants: Vec<String>,
    shallows: Vec<String>,
    deepen: Option<u32>,
    include_done: bool,
    fetch_options: Vec<String>,
}

/// A fetch request as a mathematical value in which each text stands as
/// its bytes.
pub struct RequestModel {
    pub command: Seq<u8>,
    pub object_format: Seq<u8>,
    pub agent: Option<Seq<u8>>,
    pub wants: Seq<Seq<u8>>,
    pub shallows: Seq<Seq<u8>>,
    pub deepen: Option<u32>,
    pub include_done: bool,
    pub fetch_options: Seq<Seq<u8>>,
}

/// One data frame for each text of a list, each with the same bytes put
/// in front.
pub open spec fn lines_with(prefix: Seq<u8>, items: Seq<Seq<u8>>) -> Seq<FrameView> {
    Seq::new(items.len(), |i: int| FrameView::Data(prefix + items[i]))
}

/// One frame where there is a value, none otherwise.
pub open spec fn optional_line(line: Option<Seq<u8>>) -> Seq<FrameView> {
    match line {
        Some(bytes) => seq![FrameView::Data(bytes)],
        None => Seq::empty(),
    }
}

/// The frames of a request. The command section comes first: the command,
/// the object format, the agent if there is one, and the fetch options.
/// A delimiter follows. The argument section holds one `want` line for
/// each identifier wanted, one `shallow` line for each shallow one, the
/// depth if there is one, and `done` if asked for. A flush ends the
/// request.
pub open spec fn request_frames(m: RequestModel) -> Seq<FrameView> {
    seq![
        FrameView::Data("command=".spec_bytes() + m.command),
        FrameView::Data("object-format=".spec_bytes() + m.object_format),
    ] + optional_line(
        match m.agent {
            Some(agent) => Some("agent=".spec_bytes() + agent),
            None => None,
        },
    ) + lines_with(Seq::empty(), m.fetch_options) + seq![FrameView::Delimiter] + lines_with(
        "want ".spec_bytes(),
        m.wants,
    ) + lines_with("shallow ".spec_bytes(), m.shallows) + optional_line(
        match m.deepen {
            Some(depth) => Some("deepen ".spec_bytes() + decimal(depth as nat)),
            None => None,
        },
    ) + optional_line(
        if m.include_done {
            Some("done".spec_bytes())
        } else {
            None
        },
    ) + seq![FrameView::Flush]
}

/// The payload made of a literal and the bytes of a text.
fn line_of(prefix: &str, text: &[u8]) -> (line: Frame)
    ensures
        line@ == FrameView::Data(prefix.spec_bytes() + text@),
{
    let mut payload = vstd::slice::slice_to_vec(prefix.as_bytes());
    payload.extend_from_slice(text);
    assert(payload@ =~= prefix.spec_bytes() + text@);
    Frame::Data(payload)
}

/// Appends one data frame for each text of a list.
fn push_lines(frames: &mut Vec<Frame>, prefix: &str, items: &Vec<String>)
    ensures
        views(final(frames)@) == views(old(frames)@) + lines_with(
            prefix.spec_bytes(),
            encodings(items@),
        ),
{
    let ghost before = views(frames@);
    let ghost added = lines_with(prefix.spec_bytes(), encodings(items@));
    let mut i: usize = 0;
    proof {
        assert(views(frames@) =~= before + added.take(0));
    }
    while i < items.len()
        invariant
            i <= items@.len(),
            added == lines_with(prefix.spec_bytes(), encodings(items@)),
            views(frames@) == before + added.take(i as int),
        decreases items@.len() - i,
    {
        let ghost so_far = views(frames@);
        let line = line_of(prefix, items[i].as_str().as_bytes());
        let ghost v = line@;
        frames.push(line);
        proof {
            assert(views(frames@) =~= so_far.push(v));
            assert(added[i as int] == v);
            assert(before + added.take(i + 1) =~= (before + added.take(i as int)).push(v));
        }
        i += 1;
    }
    assert(added.take(i as int) =~= added);
}

impl UploadPackV2RequestBuilder {
    /// The request as a value.
    pub closed spec fn view(&self) -> RequestModel {
        RequestModel {
            command: encode_utf8(self.command@),
            object_format: encode_utf8(self.object_format@),
            agent: crate::caps::opt_encoding(self.agent),
            wants: encodings(self.wants@),
            shallows: encodings(self.shallows@),
            deepen: self.deepen,
            include_done: self.include_done,
            fetch_options: encodings(self.fetch_options@),
        }
    }

    /// A request for the command `fetch` with the object format of the
    /// digest in use, and nothing else.
    pub fn new() -> (b: Self)
        ensures
            b@ == (RequestModel {
                command: "fetch".spec_bytes(),
                object_format: "sha1".spec_bytes(),
                agent: None,
                wants: Seq::empty(),
                shallows: Seq::empty(),
                deepen: None,
                include_done: false,
                fetch_options: Seq::empty(),
            }),
    {
        let b = UploadPackV2RequestBuilder {
            command: "fetch".to_owned(),
            object_format: GitHash::hash_version().to_owned(),
            agent: None,
            wants: Vec::new(),
            shallows: Vec::new(),
            deepen: None,
            include_done: false,
            fetch_options: Vec::new(),
        };
        assert(b@.wants =~= Seq::<Seq<u8>>::empty());
        assert(b@.shallows =~= Seq::<Seq<u8>>::empty());
        assert(b@.fetch_options =~= Seq::<Seq<u8>>::empty());
        b
    }

    /// Sets the command.
    pub fn command(self, cmd: &str) -> (b: Self)
        ensures
            b@ == (RequestModel { command: cmd.spec_bytes(), ..self@ }),
    {
        let mut b = self;
        b.command = cmd.to_owned();
        b
    }

    /// Adds a fetch option.
    pub fn fetch_option(self, opt: &str) -> (b: Self)
        ensures
            b@ == (RequestModel {
                fetch_options: self@.fetch_options.push(opt.spec_bytes()),
                ..self@
            }),
    {
        let mut b = self;
        b.fetch_options.push(opt.to_owned());
        assert(b@.fetch_options =~= self@.fetch_options.push(opt.spec_bytes()));
        b
    }

    /// Sets the object format.
    pub fn object_format(self, format: &str) -> (b: Self)
        ensures
            b@ == (RequestModel { object_format: format.spec_bytes(), ..self@ }),
    {
        let mut b = self;
        b.object_format = format.to_owned();
        b
    }

    /// Sets the agent.
    pub fn agent(self, agent: &str) -> (b: Self)
        ensures
            b@ == (RequestModel { agent: Some(agent.spec_bytes()), ..self@ }),
    {
        let mut b = self;
        b.agent = Some(agent.to_owned());
        b
    }

    /// Adds an identifier that is wanted.
    pub fn want(self, hash: &str) -> (b: Self)
        ensures
            b@ == (RequestModel { wants: self@.wants.push(hash.spec_bytes()), ..self@ }),
    {
        let mut b = self;
        b.wants.push(hash.to_owned());
        assert(b@.wants =~= self@.wants.push(hash.spec_bytes()));
        b
    }

    /// Adds an identifier at which the history that the client holds is
    /// cut off.
    pub fn shallow(self, hash: &str) -> (b: Self)
        ensures
            b@ == (RequestModel { shallows: self@.shallows.push(hash.spec_bytes()), ..self@ }),
    {
        let mut b = self;
        b.shallows.push(hash.to_owned());
        assert(b@.shallows =~= self@.shallows.push(hash.spec_bytes()));
        b
    }

    /// Sets the depth at which the history asked for is cut off.
    pub fn deepen(self, depth: u32) -> (b: Self)
        ensures
            b@ == (RequestModel { deepen: Some(depth), ..self@ }),
    {
        let mut b = self;
        b.deepen = Some(depth);
        b
    }

    /// Asks for `done` at the end of the request.
    pub fn done(self) -> (b: Self)
        ensures
            b@ == (RequestModel { include_done: true, ..self@ }),
    {
        let mut b = self;
        b.include_done = true;
        b
    }

    /// The frames of the request.
    fn frames(&self) -> (frames: Vec<Frame>)
        ensures
            views(frames@) == request_frames(self@),
    {
        let mut frames: Vec<Frame> = Vec::new();
        frames.push(line_of("command=", self.command.as_str().as_bytes()));
        frames.push(line_of("object-format=", self.object_format.as_str().as_bytes()));
        let ghost head = views(frames@);
        assert(head =~= seq![
            FrameView::Data("command=".spec_bytes() + self@.command),
            FrameView::Data("object-format=".spec_bytes() + self@.object_format),
        ]);
        match &self.agent {
            Some(agent) => {
                frames.push(line_of("agent=", agent.as_str().as_bytes()));
            },
            None => {},
        }
        let ghost with_agent = views(frames@);
        assert(with_agent =~= head + optional_line(
            match self@.agent {
                Some(agent) => Some("agent=".spec_bytes() + agent),
                None => None,
            },
        ));
        proof {
            reveal_strlit("");
            assert("".spec_bytes() =~= Seq::<u8>::empty());
        }
        push_lines(&mut frames, "", &self.fetch_options);
        let ghost with_options = views(frames@);
        frames.push(Frame::Delimiter);
        let ghost with_delimiter = views(frames@);
        assert(with_delimiter =~= with_options + seq![FrameView::Delimiter]);
        push_lines(&mut frames, "want ", &self.wants);
        push_lines(&mut frames, "shallow ", &self.shallows);
        let ghost with_shallows = views(frames@);
        match self.deepen {
            Some(depth) => {
                let mut digits: Vec<u8> = Vec::new();
                push_decimal(&mut digits, depth as u64);
                assert(digits@ =~= decimal(depth as nat));
                frames.push(line_of("deepen ", digits.as_slice()));
            },
            None => {},
        }
        let ghost with_depth = views(frames@);
        assert(with_depth =~= with_shallows + optional_line(
            match self@.deepen {
                Some(depth) => Some("deepen ".spec_bytes() + decimal(depth as nat)),
                None => None,
            },
        ));
        if self.include_done {
            let nothing: Vec<u8> = Vec::new();
            frames.push(line_of("done", nothing.as_slice()));
            assert("done".spec_bytes() + nothing@ =~= "done".spec_bytes());
        }
        let ghost with_done = views(frames@);
        assert(with_done =~= with_depth + optional_line(
            if self@.include_done {
                Some("done".spec_bytes())
            } else {
                None
            },
        ));
        frames.push(Frame::Flush);
        assert(views(frames@) =~= with_done + seq![FrameView::Flush]);
        frames
    }

    /// The bytes of the request: its frames, one after the other. Where a
    /// line is longer than a frame can carry, `PayloadTooLong`.
    pub fn build(self) -> (r: Result<Vec<u8>, FrameError>)
        ensures
            r is Ok <==> all_sendable(request_frames(self@)),
            r is Ok ==> r.unwrap()@ == frames_bytes(request_frames(self@)),
            r is Err ==> r == Err::<Vec<u8>, FrameError>(FrameError::PayloadTooLong),
    {
        let frames = self.frames();
        encode_frames(&frames)
    }
}

/// A request reads back: the frames of the bytes of a request that can be
/// sent are the frames of the request.
pub proof fn law_request_reads_back(m: RequestModel)
    requires
        all_sendable(request_frames(m)),
    ensures
        frames_of(frames_bytes(request_frames(m))) == request_frames(m),
{
    law_frames_round_trip(request_frames(m));
}

/// The want line of a reference: `want`, the identifier and the
/// capabilities as they go on the wire, with single spaces between them.
pub open spec fn want_line(want_hash: Seq<u8>, caps_line: Seq<u8>) -> Seq<u8> {
    "want ".spec_bytes() + want_hash + seq![32u8] + caps_line
}

/// Appends the frame that carries a text, or appends nothing where the
/// text is longer than a frame can carry.
pub fn write_pkt_line(writer: &mut Vec<u8>, data: &str) -> (r: Result<(), FrameError>)
    ensures
        r is Ok <==> data.spec_bytes().len() <= MAX_PAYLOAD_LEN,
        r is Ok ==> final(writer)@ == old(writer)@ + frame_bytes(
            FrameView::Data(data.spec_bytes()),
        ),
        r is Err ==> final(writer)@ == old(writer)@ && r == Err::<(), FrameError>(
            FrameError::PayloadTooLong,
        ),
{
    let payload = data.as_bytes();
    if payload.len() > MAX_PAYLOAD_LEN {
        return Err(FrameError::PayloadTooLong);
    }
    push_data_frame(writer, payload);
    Ok(())
}

/// Appends the want line for an identifier with the capabilities of the
/// server, and a flush. Appends nothing where the line is longer than a
/// frame can carry.
pub fn send_want(writer: &mut Vec<u8>, want_hash: &str, caps: &Capabilities) -> (r: Result<
    (),
    FrameError,
>)
    ensures
        r is Ok <==> want_line(want_hash.spec_bytes(), joined(caps.tokens(), 32)).len()
            <= MAX_PAYLOAD_LEN,
        r is Ok ==> final(writer)@ == old(writer)@ + frame_bytes(
            FrameView::Data(want_line(want_hash.spec_bytes(), joined(caps.tokens(), 32))),
        ) + frame_bytes(FrameView::Flush),
        r is Err ==> final(writer)@ == old(writer)@ && r == Err::<(), FrameError>(
            FrameError::PayloadTooLong,
        ),
{
    let mut line = vstd::slice::slice_to_vec("want ".as_bytes());
    line.extend_from_slice(want_hash.as_bytes());
    line.push(32);
    let caps_line = caps.to_git_line();
    line.extend_from_slice(caps_line.as_str().as_bytes());
    assert(line@ =~= want_line(want_hash.spec_bytes(), joined(caps.tokens(), 32)));
    if line.len() > MAX_PAYLOAD_LEN {
        return Err(FrameError::PayloadTooLong);
    }
    push_data_frame(writer, line.as_slice());
    let ghost with_line = writer@;
    writer.push(48);
    writer.push(48);
    writer.push(48);
    writer.push(48);
    assert(writer@ =~= with_line + frame_bytes(FrameView::Flush));
    Ok(())
}

} // verus!
