//! How the client reaches a server: the addresses and requests of the
//! HTTP transport, and the choice of a transport by the scheme of the
//! address.
use crate::pktline::{all_sendable, FrameError, frames_bytes};
use crate::refs::RefAdvertisement;
use crate::request::{request_frames, RequestModel, UploadPackV2RequestBuilder};
use crate::text::{
    append_str, ascii_edge, empty_string, ends_with, lemma_ascii_edge_is_boundary, substr_between,
};
use vstd::prelude::*;
use vstd::string::*;
use vstd::utf8::*;

verus! {

/// The agent that the client names itself.
pub const GIT_AGENT: &'static str = "git/2.42.0";

/// The last part of the address of the upload-pack service.
pub const GIT_UPLOAD_PACK: &'static str = "git-upload-pack";

/// The transports that the client knows.
#[derive(Debug, Clone, Copy, PartialEq, Eq, Structural)]
pub enum Protocol {
    HTTP,
    SSH,
}

/// The schemes that an address can have.
#[derive(Debug, Clone, Copy, PartialEq, Eq, Structural)]
pub enum UrlScheme {
    File,
    Ftp,
    Ftps,
    Git,
    GitSsh,
    Http,
    Https,
    Ssh,
    Unspecified,
}

/// Why no request can be made, or why an answer is refused.
#[derive(Debug, Clone, Copy, PartialEq, Eq, Structural)]
pub enum TransportError {
    /// The address cannot be read.
    InvalidUrl,
    /// No transport serves the scheme of the address.
    UnsupportedScheme(UrlScheme),
    /// The SSH transport is not there yet.
    SshUnavailable,
    /// The advertisement names no `HEAD`.
    NoHead,
    /// A line of the request is longer than a frame can carry.
    Request(FrameError),
    /// The server answered with a status that is no success.
    Status(u16),
}

/// The method of a request.
#[derive(Debug, Clone, Copy, PartialEq, Eq, Structural)]
pub enum HttpMethod {
    Get,
    Post,
}

/// A request to send.
pub struct HttpRequest {
    pub method: HttpMethod,
    pub url: String,
    /// Name and value of each header, in order.
    pub headers: Vec<(String, String)>,
    pub body: Vec<u8>,
}

/// A byte string without the slashes at its end.
pub open spec fn trim_slashes(s: Seq<u8>) -> Seq<u8>
    decreases s.len(),
{
    if s.len() > 0 && s.last() == 47 {
        trim_slashes(s.drop_last())
    } else {
        s
    }
}

/// The address of the upload-pack service under a base address: the base
/// itself where it ends in `git-upload-pack`, and otherwise the base
/// without the slashes at its end, a slash and `git-upload-pack`.
pub open spec fn service_url(base: Seq<u8>) -> Seq<u8> {
    if GIT_UPLOAD_PACK.spec_bytes().is_suffix_of(base) {
        base
    } else {
        trim_slashes(base) + seq![47u8] + GIT_UPLOAD_PACK.spec_bytes()
    }
}

/// The address of the reference advertisement under a base address.
pub open spec fn refs_url(base: Seq<u8>) -> Seq<u8> {
    trim_slashes(base) + "/info/refs?service=git-upload-pack".spec_bytes()
}

/// A text without the slashes at its end.
fn without_trailing_slashes(url: &str) -> (out: String)
    ensures
        encode_utf8(out@) == trim_slashes(url.spec_bytes()),
{
    let bytes = url.as_bytes();
    let mut n: usize = bytes.len();
    proof {
        assert(bytes@.subrange(0, n as int) =~= bytes@);
    }
    while n > 0 && bytes[n - 1] == 47
        invariant
            n <= bytes@.len(),
            trim_slashes(bytes@.subrange(0, n as int)) == trim_slashes(bytes@),
            n < bytes@.len() ==> bytes@[n as int] == 47,
        decreases n,
    {
        proof {
            let s = bytes@.subrange(0, n as int);
            assert(s.last() == bytes@[n - 1]);
            assert(s.drop_last() =~= bytes@.subrange(0, n - 1));
        }
        n -= 1;
    }
    proof {
        let s = bytes@.subrange(0, n as int);
        if n > 0 {
            assert(s.last() == bytes@[n - 1]);
        }
        encode_utf8_valid_utf8(url@);
        assert(ascii_edge(bytes@, n as int));
        lemma_ascii_edge_is_boundary(bytes@, n as int);
        is_char_boundary_start_end_of_seq(bytes@);
    }
    substr_between(url, 0, n)
}

/// The address of the upload-pack service under a base address.
pub fn clean_url(url: &str) -> (out: String)
    ensures
        encode_utf8(out@) == service_url(url.spec_bytes()),
{
    if ends_with(url.as_bytes(), GIT_UPLOAD_PACK.as_bytes()) {
        url.to_owned()
    } else {
        let mut out = without_trailing_slashes(url);
        append_str(&mut out, "/");
        append_str(&mut out, GIT_UPLOAD_PACK);
        proof {
            reveal_strlit("/");
            is_ascii_chars_encode_utf8("/"@);
            assert("/".spec_bytes() =~= seq![47u8]);
        }
        out
    }
}

/// A header.
fn header(name: &str, value: &str) -> (h: (String, String))
    ensures
        h.0@ == name@,
        h.1@ == value@,
{
    (name.to_owned(), value.to_owned())
}

/// The request that asks a server for its reference advertisement: a GET
/// of `info/refs` for the upload-pack service, in the name of the agent.
pub fn fetch_refs(url: &str) -> (request: HttpRequest)
    ensures
        request.method == HttpMethod::Get,
        encode_utf8(request.url@) == refs_url(url.spec_bytes()),
        request.headers@.len() == 1,
        request.headers@[0].0@ == "User-Agent"@,
        request.headers@[0].1@ == GIT_AGENT@,
        request.body@.len() == 0,
{
    let mut address = without_trailing_slashes(url);
    append_str(&mut address, "/info/refs?service=git-upload-pack");
    let mut headers: Vec<(String, String)> = Vec::new();
    headers.push(header("User-Agent", GIT_AGENT));
    HttpRequest { method: HttpMethod::Get, url: address, headers, body: Vec::new() }
}

/// Whether a status is a success; the status as an error otherwise.
pub fn check_status(status: u16) -> (r: Result<(), TransportError>)
    ensures
        r is Ok <==> 200 <= status <= 299,
        r is Err ==> r == Err::<(), TransportError>(TransportError::Status(status)),
{
    if 200 <= status && status <= 299 {
        Ok(())
    } else {
        Err(TransportError::Status(status))
    }
}

/// The fetch request that the client makes for the head of a server: it
/// wants the head, to a depth of ten commits, names its agent, asks for
/// thin packs and offset deltas, and ends with `done`.
pub open spec fn head_request(head: Seq<u8>) -> RequestModel {
    RequestModel {
        command: "fetch".spec_bytes(),
        object_format: "sha1".spec_bytes(),
        agent: Some(GIT_AGENT.spec_bytes()),
        wants: seq![head],
        shallows: Seq::empty(),
        deepen: Some(10u32),
        include_done: true,
        fetch_options: seq!["thin-pack".spec_bytes(), "ofs-delta".spec_bytes()],
    }
}

/// The HTTP transport.
pub struct HttpNegotiator;

impl HttpNegotiator {
    /// The request that asks a server for the pack of its head: a POST to
    /// the upload-pack service with the fetch request as its body.
    /// `NoHead` where no head is advertised.
    pub fn negogiate(&self, base_url: &str, ref_adv: &RefAdvertisement) -> (r: Result<
        HttpRequest,
        TransportError,
    >)
        ensures
            match r {
                Ok(request) => ref_adv@.head is Some && all_sendable(
                    request_frames(head_request(ref_adv@.head.unwrap())),
                ) && is_head_post(request, base_url.spec_bytes(), ref_adv@.head.unwrap()),
                Err(e) => if ref_adv@.head is None {
                    e == TransportError::NoHead
                } else {
                    e == TransportError::Request(FrameError::PayloadTooLong) && !all_sendable(
                        request_frames(head_request(ref_adv@.head.unwrap())),
                    )
                },
            },
    {
        let head = match &ref_adv.head {
            Some(head) => head,
            None => {
                return Err(TransportError::NoHead);
            },
        };
        let builder = UploadPackV2RequestBuilder::new().want(head.as_str()).deepen(10).agent(
            GIT_AGENT,
        ).fetch_option("thin-pack").fetch_option("ofs-delta").done();
        proof {
            assert(builder@.wants =~= seq![encode_utf8(head@)]);
            assert(builder@.fetch_options =~= seq![
                "thin-pack".spec_bytes(),
                "ofs-delta".spec_bytes(),
            ]);
            assert(builder@ == head_request(ref_adv@.head.unwrap()));
        }
        let body = match builder.build() {
            Ok(body) => body,
            Err(e) => {
                return Err(TransportError::Request(e));
            },
        };
        let mut headers: Vec<(String, String)> = Vec::new();
        headers.push(header("Content-Type", "application/x-git-upload-pack-request"));
        headers.push(header("Accept", "application/x-git-upload-pack-result"));
        headers.push(header("User-Agent", GIT_AGENT));
        headers.push(header("git-protocol", "version=2"));
        Ok(HttpRequest { method: HttpMethod::Post, url: clean_url(base_url), headers, body })
    }
}

/// The transport that serves a scheme: HTTP for `http` and `https`, SSH
/// for `ssh`, and none for any other.
pub open spec fn protocol_of(scheme: UrlScheme) -> Option<Protocol> {
    match scheme {
        UrlScheme::Http => Some(Protocol::HTTP),
        UrlScheme::Https => Some(Protocol::HTTP),
        UrlScheme::Ssh => Some(Protocol::SSH),
        _ => None,
    }
}

/// The transport that serves a scheme.
pub fn detect_protoctol(scheme: UrlScheme) -> (protocol: Option<Protocol>)
    ensures
        protocol == protocol_of(scheme),
{
    match scheme {
        UrlScheme::Http => Some(Protocol::HTTP),
        UrlScheme::Https => Some(Protocol::HTTP),
        UrlScheme::Ssh => Some(Protocol::SSH),
        _ => None,
    }
}

/// The transport that serves a scheme.
pub fn get_negotiator(scheme: UrlScheme) -> (protocol: Option<Protocol>)
    ensures
        protocol == protocol_of(scheme),
{
    detect_protoctol(scheme)
}

/// Whether a request is the POST that asks the upload-pack service under
/// a base address for the pack of a head.
pub open spec fn is_head_post(request: HttpRequest, base: Seq<u8>, head: Seq<u8>) -> bool {
    &&& request.method == HttpMethod::Post
    &&& encode_utf8(request.url@) == service_url(base)
    &&& request.body@ == frames_bytes(request_frames(head_request(head)))
    &&& request.headers@.len() == 4
    &&& request.headers@[0].0@ == "Content-Type"@
    &&& request.headers@[0].1@ == "application/x-git-upload-pack-request"@
    &&& request.headers@[1].0@ == "Accept"@
    &&& request.headers@[1].1@ == "application/x-git-upload-pack-result"@
    &&& request.headers@[2].0@ == "User-Agent"@
    &&& request.headers@[2].1@ == GIT_AGENT@
    &&& request.headers@[3].0@ == "git-protocol"@
    &&& request.headers@[3].1@ == "version=2"@
}

/// Why no request is made for a head, given the scheme that was read from
/// the address, or `None` where one is made: `InvalidUrl` where no scheme
/// was read, `UnsupportedScheme` where no transport serves it,
/// `SshUnavailable` for SSH, and for HTTP `NoHead` where no head is
/// advertised and `PayloadTooLong` where the request does not fit in
/// frames.
pub open spec fn refusal(scheme: Option<UrlScheme>, head: Option<Seq<u8>>) -> Option<
    TransportError,
> {
    match scheme {
        None => Some(TransportError::InvalidUrl),
        Some(s) => match protocol_of(s) {
            None => Some(TransportError::UnsupportedScheme(s)),
            Some(Protocol::SSH) => Some(TransportError::SshUnavailable),
            Some(Protocol::HTTP) => match head {
                None => Some(TransportError::NoHead),
                Some(h) => if all_sendable(request_frames(head_request(h))) {
                    None
                } else {
                    Some(TransportError::Request(FrameError::PayloadTooLong))
                },
            },
        },
    }
}

/// Whether a result is what follows from a scheme: the refusal, or the
/// POST for the head.
pub open spec fn follows_from(
    r: Result<HttpRequest, TransportError>,
    scheme: Option<UrlScheme>,
    head: Option<Seq<u8>>,
    base: Seq<u8>,
) -> bool {
    match r {
        Ok(request) => refusal(scheme, head) is None && head is Some && is_head_post(
            request,
            base,
            head.unwrap(),
        ),
        Err(e) => refusal(scheme, head) == Some(e),
    }
}

/// The request for the pack of the head of a server, given the scheme of
/// its address, or `None` where the address has none that can be read.
pub fn negotiate_with(scheme: Option<UrlScheme>, ref_ads: &RefAdvertisement, url: &str) -> (r:
    Result<HttpRequest, TransportError>)
    ensures
        follows_from(r, scheme, ref_ads@.head, url.spec_bytes()),
{
    let scheme = match scheme {
        Some(scheme) => scheme,
        None => {
            return Err(TransportError::InvalidUrl);
        },
    };
    match get_negotiator(scheme) {
        None => Err(TransportError::UnsupportedScheme(scheme)),
        Some(Protocol::SSH) => Err(TransportError::SshUnavailable),
        Some(Protocol::HTTP) => HttpNegotiator.negogiate(url, ref_ads),
    }
}

} // verus!
