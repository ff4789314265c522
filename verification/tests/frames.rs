use git_rust::caps::parse_capabilities;
use git_rust::pktline::{
    decode_frame, encode_frame, encode_frames, encode_pkt_line, read_frames, Frame, FrameError,
    PacketReader,
};
use git_rust::refs::{parse_ref_advertisement, RefsError};
use git_rust::request::{send_want, write_pkt_line, UploadPackV2RequestBuilder};

#[test]
fn frame_parse_scenario() {
    let input = b"0032want abcdefabcdefabcdefabcdefabcdefabcdefabcd\n0000";
    let frames = read_frames(input);
    assert_eq!(
        frames,
        vec![
            Frame::Data(b"want abcdefabcdefabcdefabcdefabcdefabcdefabcd\n".to_vec()),
            Frame::Flush
        ]
    );
}

#[test]
fn short_data_frame() {
    assert_eq!(read_frames(b"0010want abcdef\n0000"), vec![
        Frame::Data(b"want abcdef\n".to_vec()),
        Frame::Flush
    ]);
}

#[test]
fn frames_round_trip() {
    let frames = vec![
        Frame::Data(b"hello".to_vec()),
        Frame::Delimiter,
        Frame::Data(Vec::new()),
        Frame::Data(vec![0u8; 65531]),
        Frame::ResponseEnd,
        Frame::Flush,
    ];
    let bytes = encode_frames(&frames).unwrap();
    assert_eq!(&bytes[..9], b"0009hello");
    assert_eq!(&bytes[9..17], b"00010004");
    assert_eq!(&bytes[17..21], b"ffff");
    assert_eq!(read_frames(&bytes), frames);
}

#[test]
fn frames_that_cannot_be_sent() {
    assert_eq!(encode_frame(&Frame::Data(vec![0u8; 65532])), None);
    assert_eq!(encode_frame(&Frame::ProtocolError(FrameError::InvalidLength)), None);
    assert_eq!(
        encode_frames(&vec![Frame::Flush, Frame::Data(vec![0u8; 70000])]),
        Err(FrameError::PayloadTooLong)
    );
    assert_eq!(encode_pkt_line(&"x".repeat(65532)), None);
    assert_eq!(encode_pkt_line("done"), Some(b"0008done".to_vec()));
}

#[test]
fn malformed_frames() {
    assert_eq!(read_frames(b""), Vec::<Frame>::new());
    assert_eq!(read_frames(b"00"), vec![Frame::ProtocolError(FrameError::UnexpectedEof)]);
    assert_eq!(read_frames(b"zzzz"), vec![Frame::ProtocolError(FrameError::InvalidLength)]);
    assert_eq!(read_frames(b"0003"), vec![Frame::ProtocolError(FrameError::LengthTooSmall)]);
    assert_eq!(
        read_frames(b"0000000aabc"),
        vec![Frame::Flush, Frame::ProtocolError(FrameError::UnexpectedEof)]
    );
    assert_eq!(
        read_frames(b"000Aabcdef0001"),
        vec![Frame::Data(b"abcdef".to_vec()), Frame::Delimiter]
    );
    assert_eq!(decode_frame(b"00000002", 4), (Frame::ResponseEnd, 8));
}

#[test]
fn reader_counts_bytes() {
    let input = b"0008abcd00000001".to_vec();
    let mut reader = PacketReader::new(input.clone(), input.len());
    assert_eq!(reader.total_bytes_read(), 0);
    assert!(reader.validate_consumed().is_err());
    assert_eq!(reader.read_line(), Some(Frame::Data(b"abcd".to_vec())));
    assert_eq!(reader.total_bytes_read(), 8);
    assert_eq!(reader.read_line(), Some(Frame::Flush));
    assert_eq!(reader.validate_consumed(), Err(FrameError::UnexpectedEof));
    assert_eq!(reader.read_line(), Some(Frame::Delimiter));
    assert_eq!(reader.total_bytes_read(), 16);
    assert_eq!(reader.validate_consumed(), Ok(()));
    assert_eq!(reader.read_line(), None);
    let mut broken = PacketReader::new(b"000xrest".to_vec(), 8);
    assert_eq!(broken.read_line(), Some(Frame::ProtocolError(FrameError::InvalidLength)));
    assert_eq!(broken.read_line(), None);
}

#[test]
fn capability_parse_scenario() {
    let caps = parse_capabilities(vec![
        "multi_ack",
        "symref=HEAD:refs/heads/main",
        "agent=git/2.42.0",
        "weird-cap",
    ]);
    assert!(caps.multi_ack);
    assert!(!caps.multi_ack_detailed);
    assert!(!caps.thin_pack);
    assert_eq!(caps.symref, Some(("HEAD".to_string(), "refs/heads/main".to_string())));
    assert_eq!(caps.agent, Some("git/2.42.0".to_string()));
    assert_eq!(caps.object_format, None);
    assert_eq!(caps.other, vec!["weird-cap".to_string()]);
    assert_eq!(
        caps.to_git_line(),
        "multi_ack symref=HEAD:refs/heads/main agent=git/2.42.0 weird-cap"
    );
}

#[test]
fn every_flag_is_recognised() {
    let tokens = vec![
        "multi_ack_detailed",
        "thin-pack",
        "side-band",
        "side-band-64k",
        "ofs-delta",
        "shallow",
        "no-progress",
        "include-tag",
        "allow-tip-sha1-in-want",
        "allow-reachable-sha1-in-want",
        "no-done",
        "object-format=sha1",
        "symref=nocolon",
        "symref=a:b:c",
        "agent=",
        "ägent=ü",
    ];
    let caps = parse_capabilities(tokens.clone());
    assert!(!caps.multi_ack);
    assert!(caps.multi_ack_detailed && caps.thin_pack && caps.side_band && caps.side_band_64k);
    assert!(caps.ofs_delta && caps.shallow && caps.no_progress && caps.include_tag);
    assert!(caps.allow_tip_sha1_in_want && caps.allow_reachable_sha1_in_want && caps.no_done);
    assert_eq!(caps.object_format, Some("sha1".to_string()));
    assert_eq!(caps.symref, Some(("a".to_string(), "b:c".to_string())));
    assert_eq!(caps.agent, Some(String::new()));
    assert_eq!(caps.other, vec!["ägent=ü".to_string()]);
    assert_eq!(caps.to_git_line(), tokens.join(" "));
    assert_eq!(parse_capabilities(Vec::new()).to_git_line(), "");
}

fn line(text: &[u8]) -> Vec<u8> {
    let mut out = format!("{:04x}", text.len() + 4).into_bytes();
    out.extend_from_slice(text);
    out
}

const ID_A: &str = "ce013625030ba8dba906f756967f9e9ca394464a";
const ID_B: &str = "1a2485251c33a70432394c93fb89330ef214bfc9";

fn advertisement() -> Vec<u8> {
    let mut body = line(b"# service=git-upload-pack\n");
    body.extend_from_slice(b"0000");
    body.extend(line(
        format!("{} HEAD\0multi_ack thin-pack symref=HEAD:refs/heads/main agent=git/x\n", ID_A)
            .as_bytes(),
    ));
    body.extend(line(format!("{} refs/heads/main\n", ID_A).as_bytes()));
    body.extend(line(format!("{} refs/tags/v1\0ofs-delta\n", ID_B).as_bytes()));
    body.extend_from_slice(b"0000");
    body
}

#[test]
fn advertisement_is_read() {
    let adv = parse_ref_advertisement(&advertisement()).unwrap();
    assert_eq!(adv.head, Some(ID_A.to_string()));
    assert_eq!(adv.refs.len(), 3);
    assert_eq!((adv.refs[0].hash.as_str(), adv.refs[0].name.as_str()), (ID_A, "HEAD"));
    assert_eq!((adv.refs[1].hash.as_str(), adv.refs[1].name.as_str()), (ID_A, "refs/heads/main"));
    assert_eq!((adv.refs[2].hash.as_str(), adv.refs[2].name.as_str()), (ID_B, "refs/tags/v1"));
    assert!(adv.capabilities.multi_ack && adv.capabilities.thin_pack);
    assert!(!adv.capabilities.ofs_delta);
    assert_eq!(
        adv.capabilities.symref,
        Some(("HEAD".to_string(), "refs/heads/main".to_string()))
    );
    assert_eq!(
        adv.capabilities.to_git_line(),
        "multi_ack thin-pack symref=HEAD:refs/heads/main agent=git/x"
    );
}

#[test]
fn advertisement_errors() {
    assert!(matches!(parse_ref_advertisement(b""), Err(RefsError::NoData)));
    assert!(matches!(parse_ref_advertisement(b"0000"), Err(RefsError::ExpectedServiceLine)));
    assert!(matches!(
        parse_ref_advertisement(&line(b"hello\n")),
        Err(RefsError::MissingServiceHeader)
    ));
    assert!(matches!(
        parse_ref_advertisement(b"00"),
        Err(RefsError::MalformedFrame(FrameError::UnexpectedEof))
    ));
    let mut body = line(b"# service=git-upload-pack\n");
    assert!(parse_ref_advertisement(&body).unwrap().refs.is_empty());
    body.extend_from_slice(b"0001");
    assert!(matches!(parse_ref_advertisement(&body), Err(RefsError::UnexpectedFrame)));
    let mut short = line(b"# service=git-upload-pack\n");
    short.extend(line(b"abc refs/heads/main\n"));
    assert!(matches!(parse_ref_advertisement(&short), Err(RefsError::UnsupportedObjectFormat)));
    let mut no_name = line(b"# service=git-upload-pack\n");
    no_name.extend(line(ID_A.as_bytes()));
    let adv = parse_ref_advertisement(&no_name).unwrap();
    assert_eq!((adv.refs[0].hash.as_str(), adv.refs[0].name.as_str()), (ID_A, ""));
    let mut not_utf8 = line(b"# service=git-upload-pack\n");
    let mut payload = format!("{} refs/heads/", ID_A).into_bytes();
    payload.push(0xff);
    not_utf8.extend(line(&payload));
    assert!(matches!(
        parse_ref_advertisement(&not_utf8),
        Err(RefsError::UnsupportedObjectFormat)
    ));
    let mut broken = line(b"# service=git-upload-pack\n");
    broken.extend_from_slice(b"00zz");
    assert!(matches!(
        parse_ref_advertisement(&broken),
        Err(RefsError::MalformedFrame(FrameError::InvalidLength))
    ));
}

#[test]
fn fetch_request_bytes() {
    let body = UploadPackV2RequestBuilder::new()
        .want(ID_A)
        .shallow(ID_B)
        .deepen(10)
        .agent("git/2.42.0")
        .fetch_option("thin-pack")
        .fetch_option("ofs-delta")
        .done()
        .build()
        .unwrap();
    let mut expected = Vec::new();
    expected.extend(line(b"command=fetch"));
    expected.extend(line(b"object-format=sha1"));
    expected.extend(line(b"agent=git/2.42.0"));
    expected.extend(line(b"thin-pack"));
    expected.extend(line(b"ofs-delta"));
    expected.extend_from_slice(b"0001");
    expected.extend(line(format!("want {}", ID_A).as_bytes()));
    expected.extend(line(format!("shallow {}", ID_B).as_bytes()));
    expected.extend(line(b"deepen 10"));
    expected.extend(line(b"done"));
    expected.extend_from_slice(b"0000");
    assert_eq!(body, expected);
    let frames = read_frames(&body);
    assert_eq!(frames.len(), 11);
    assert_eq!(frames[5], Frame::Delimiter);
    assert_eq!(frames[10], Frame::Flush);
}

#[test]
fn minimal_and_oversized_requests() {
    let body = UploadPackV2RequestBuilder::new().build().unwrap();
    assert_eq!(body, b"0011command=fetch0016object-format=sha100010000".to_vec());
    let body = UploadPackV2RequestBuilder::new()
        .command("ls-refs")
        .object_format("sha256")
        .build()
        .unwrap();
    assert_eq!(body, b"0013command=ls-refs0018object-format=sha25600010000".to_vec());
    let too_long = "x".repeat(65530);
    assert_eq!(
        UploadPackV2RequestBuilder::new().want(&too_long).build(),
        Err(FrameError::PayloadTooLong)
    );
}

#[test]
fn want_line_carries_the_capabilities() {
    let caps = parse_capabilities(vec!["multi_ack", "ofs-delta"]);
    let mut out = b"x".to_vec();
    send_want(&mut out, ID_A, &caps).unwrap();
    let mut expected = b"x".to_vec();
    expected.extend(line(format!("want {} multi_ack ofs-delta", ID_A).as_bytes()));
    expected.extend_from_slice(b"0000");
    assert_eq!(out, expected);
    let mut out = Vec::new();
    assert_eq!(write_pkt_line(&mut out, "hi"), Ok(()));
    assert_eq!(out, b"0006hi".to_vec());
    let long = "y".repeat(65532);
    assert_eq!(write_pkt_line(&mut out, &long), Err(FrameError::PayloadTooLong));
    assert_eq!(send_want(&mut out, &long, &caps), Err(FrameError::PayloadTooLong));
    assert_eq!(out, b"0006hi".to_vec());
}

#[test]
fn unicode_white_space_is_trimmed_and_parts_words() {
    let mut body = line("# service=git-upload-pack\u{2003}\r\n".as_bytes());
    body.extend(line(
        format!("{} HEAD\0multi_ack\u{3000}thin-pack\u{a0}\t agent=x\u{85}\u{2028} \u{1680}", ID_A)
            .as_bytes(),
    ));
    body.extend(line(format!("{} refs/heads/é\u{205f}\u{202f}\u{2029}\n", ID_B).as_bytes()));
    let adv = parse_ref_advertisement(&body).unwrap();
    assert_eq!(adv.refs.len(), 2);
    assert_eq!(adv.refs[0].name, "HEAD");
    assert_eq!(adv.refs[1].name, "refs/heads/é");
    assert_eq!(adv.capabilities.to_git_line(), "multi_ack thin-pack agent=x");
    assert_eq!(adv.capabilities.agent, Some("x".to_string()));
    let mut kept = line(b"# service=git-upload-pack\n");
    kept.extend(line(format!("{} refs/x\u{200b}", ID_A).as_bytes()));
    assert_eq!(parse_ref_advertisement(&kept).unwrap().refs[0].name, "refs/x\u{200b}");
}
