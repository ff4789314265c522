use git_rust::object::ObjectType;
use git_rust::pack::{
    encode_object_header, parse_object_header, parse_pack_header, persist_objects,
    print_lines_until_pack, unpack_pkt_res, PackError, PackHeader, UnpackError,
};
use git_rust::streamer::{find_pattern, BufferedStreamCursor, StreamError, TeeWriter};

fn cursor(bytes: &[u8]) -> BufferedStreamCursor {
    BufferedStreamCursor::with_chunk_size(bytes.to_vec(), 3)
}

#[test]
fn pack_header_scenario() {
    let bytes = [0x50, 0x41, 0x43, 0x4B, 0, 0, 0, 2, 0, 0, 0, 5];
    let mut c = cursor(&bytes);
    let header = PackHeader::from_cursor(&mut c).unwrap();
    assert_eq!((header.version, header.num_objects), (2, 5));
    assert_eq!(&header.signature, b"PACK");
    assert_eq!(header.to_bytes(), bytes);
    assert_eq!(PackHeader::header_len(), 12);
    assert_eq!(c.position(), 12);
}

#[test]
fn pack_header_boundaries() {
    let mut zero = cursor(b"PACK\0\0\0\x02\0\0\0\0");
    assert_eq!(PackHeader::from_cursor(&mut zero).unwrap().num_objects, 0);
    let mut short = cursor(b"PACK\0\0\0\x02\0\0\0");
    assert!(matches!(PackHeader::from_cursor(&mut short), Err(PackError::UnexpectedEof)));
    assert_eq!(short.position(), 0);
    let mut tiny = cursor(b"PAC");
    assert!(matches!(PackHeader::from_cursor(&mut tiny), Err(PackError::UnexpectedEof)));
    let mut wrong = cursor(b"KCAP\0\0\0\x02\0\0\0\0");
    assert!(matches!(PackHeader::from_cursor(&mut wrong), Err(PackError::BadMagic)));
    let mut v3 = cursor(b"PACK\0\0\0\x03\0\0\0\0");
    assert!(matches!(PackHeader::from_cursor(&mut v3), Err(PackError::UnsupportedVersion)));
    let mut tee = TeeWriter::new();
    let mut ok = cursor(b"PACK\0\0\0\x02\0\0\x01\0rest");
    let header = parse_pack_header(&mut ok, &mut tee).unwrap();
    assert_eq!(header.num_objects, 256);
    assert_eq!(tee.digest().to_hex().len(), 40);
    assert_eq!(tee.into_bytes(), b"PACK\0\0\0\x02\0\0\x01\0".to_vec());
}

#[test]
fn object_header_examples() {
    assert_eq!(encode_object_header(3, 5), vec![0x35]);
    assert_eq!(encode_object_header(1, 16), vec![0x90, 0x01]);
    assert_eq!(encode_object_header(2, 0x12345), vec![0xa5, 0xb4, 0x24]);
    let mut c = cursor(&[0xa5, 0xb4, 0x24, 0x77]);
    let header = parse_object_header(&mut c).unwrap();
    assert_eq!(header.object_type, ObjectType::Tree);
    assert_eq!(header.size, 0x12345);
    assert_eq!(header.header_size, 3);
    assert_eq!(c.take(1), Ok(vec![0x77]));
}

#[test]
fn object_header_round_trip() {
    let sizes = [0u64, 1, 15, 16, 127, 128, 2047, 2048, 1 << 32, u64::MAX - 1, u64::MAX];
    for code in 1u8..=7 {
        for &size in sizes.iter() {
            let mut bytes = encode_object_header(code, size);
            let len = bytes.len();
            bytes.extend_from_slice(b"tail");
            let mut c = cursor(&bytes);
            let header = parse_object_header(&mut c).unwrap();
            assert_eq!(header.object_type, ObjectType::from_code(code));
            assert_eq!(header.size, size);
            assert_eq!(header.header_size, len);
            assert_eq!(c.take(4), Ok(b"tail".to_vec()));
        }
    }
}

#[test]
fn object_header_errors() {
    let mut empty = cursor(b"");
    assert!(matches!(parse_object_header(&mut empty), Err(PackError::UnexpectedEof)));
    let mut cut = cursor(&[0x95, 0x80]);
    assert!(matches!(parse_object_header(&mut cut), Err(PackError::UnexpectedEof)));
    assert_eq!(cut.position(), 0);
    let mut huge = cursor(&[0x9f, 0xff, 0xff, 0xff, 0xff, 0xff, 0xff, 0xff, 0xff, 0x7f]);
    assert!(matches!(parse_object_header(&mut huge), Err(PackError::SizeOverflow)));
    let mut max = cursor(&[0x9f, 0xff, 0xff, 0xff, 0xff, 0xff, 0xff, 0xff, 0xff, 0x0f]);
    assert_eq!(parse_object_header(&mut max).unwrap().size, u64::MAX);
    let mut padded = cursor(&[0xb1, 0x80, 0x80, 0x80, 0x80, 0x80, 0x80, 0x80, 0x80, 0x80, 0x80, 0x80, 0x00]);
    let header = parse_object_header(&mut padded).unwrap();
    assert_eq!((header.size, header.header_size), (1, 13));
    assert_eq!(header.object_type, ObjectType::Blob);
}

fn line(text: &[u8]) -> Vec<u8> {
    let mut out = format!("{:04x}", text.len() + 4).into_bytes();
    out.extend_from_slice(text);
    out
}

fn response() -> Vec<u8> {
    let mut body = Vec::new();
    body.extend(line(b"packfile\n"));
    body.extend_from_slice(b"0000");
    body.extend(line(b"\x02Counting objects: 2\n"));
    let mut last = b"\x01PACK".to_vec();
    last.extend_from_slice(&[0, 0, 0, 2, 0, 0, 0, 2]);
    last.extend(encode_object_header(1, 300));
    last.extend(encode_object_header(3, 7));
    last.extend_from_slice(b"more");
    body.extend(line(&last));
    body
}

#[test]
fn prelude_ends_at_the_pack() {
    let mut c = BufferedStreamCursor::with_chunk_size(response(), 128);
    let progress = print_lines_until_pack(&mut c);
    assert_eq!(progress.result, Ok(()));
    assert_eq!(progress.text, b"packfile\n\x02Counting objects: 2\n\x01".to_vec());
    assert_eq!(c.peek(4), Ok(b"PACK".to_vec()));
    let mut tee = TeeWriter::new();
    let header = parse_pack_header(&mut c, &mut tee).unwrap();
    c.drain_consumed();
    assert_eq!(c.position(), 0);
    let objects = persist_objects(&mut c, &header).unwrap();
    assert_eq!(objects.len(), 2);
    assert_eq!((objects[0].object_type, objects[0].size), (ObjectType::Commit, 300));
    assert_eq!((objects[1].object_type, objects[1].size), (ObjectType::Blob, 7));
    assert_eq!(c.take(4), Ok(b"more".to_vec()));
}

#[test]
fn prelude_errors() {
    let mut none = cursor(b"0009hello0000");
    let progress = print_lines_until_pack(&mut none);
    assert_eq!(progress.result, Err(PackError::UnexpectedEof));
    assert_eq!(progress.text, b"hello".to_vec());
    let mut bad = cursor(b"00g0");
    assert_eq!(print_lines_until_pack(&mut bad).result, Err(PackError::InvalidLength));
    let mut small = cursor(b"0002");
    assert_eq!(print_lines_until_pack(&mut small).result, Err(PackError::LengthTooSmall));
    let mut cut = cursor(b"0010abc");
    assert_eq!(print_lines_until_pack(&mut cut).result, Err(PackError::UnexpectedEof));
}

#[test]
fn unpack_a_response() {
    let out = unpack_pkt_res(200, response());
    assert_eq!(out.text, b"packfile\n\x02Counting objects: 2\n\x01".to_vec());
    let mut pack = b"PACK\0\0\0\x02\0\0\0\x02".to_vec();
    pack.extend(encode_object_header(1, 300));
    pack.extend(encode_object_header(3, 7));
    pack.extend_from_slice(b"more");
    assert_eq!(out.pack, pack);
    assert_eq!(out.checksum, git_rust::hash::GitHash::from_bytes(&pack));
    assert_eq!(out.outcome.unwrap().len(), 2);
    let refused = unpack_pkt_res(404, response());
    assert_eq!(refused.outcome.unwrap_err(), UnpackError::Status(404));
    assert!(refused.pack.is_empty());
    let out = unpack_pkt_res(200, b"0009hello".to_vec());
    assert_eq!(out.outcome.unwrap_err(), UnpackError::Pack(PackError::UnexpectedEof));
    assert_eq!(out.text, b"hello".to_vec());
    assert!(out.pack.is_empty());
    let mut two = Vec::new();
    let mut payload = b"PACK".to_vec();
    payload.extend_from_slice(&[0, 0, 0, 2, 0, 0, 0, 2, 0x35]);
    two.extend(line(&payload));
    let out = unpack_pkt_res(200, two);
    assert_eq!(out.outcome.unwrap_err(), UnpackError::Pack(PackError::UnexpectedEof));
    assert_eq!(out.pack, payload);
    let mut three = Vec::new();
    let mut payload = b"PACK".to_vec();
    payload.extend_from_slice(&[0, 0, 0, 2, 0, 0, 0, 3, 0x35, 0x95, 0x80]);
    three.extend(line(&payload));
    let out = unpack_pkt_res(200, three);
    assert_eq!(out.outcome.unwrap_err(), UnpackError::Pack(PackError::UnexpectedEof));
    assert_eq!(out.pack, payload[..13].to_vec());
    let old = unpack_pkt_res(200, line(b"xPACK\0\0\0\x03\0\0\0\0"));
    assert_eq!(old.outcome.unwrap_err(), UnpackError::Pack(PackError::UnsupportedVersion));
    assert!(old.pack.is_empty());
    assert_eq!(old.text, b"x".to_vec());
}

#[test]
fn positions_after_parsing() {
    let mut c = BufferedStreamCursor::with_chunk_size(
        vec![0x50, 0x41, 0x43, 0x4B, 0, 0, 0, 2, 0, 0, 0, 5],
        128,
    );
    assert!(PackHeader::from_cursor(&mut c).is_ok());
    assert_eq!((c.position(), c.available()), (12, 0));
    let mut v3 = BufferedStreamCursor::with_chunk_size(b"PACK\0\0\0\x03\0\0\0\x01".to_vec(), 128);
    assert!(matches!(PackHeader::from_cursor(&mut v3), Err(PackError::UnsupportedVersion)));
    assert_eq!(v3.position(), 0);
    let mut wrong = BufferedStreamCursor::with_chunk_size(b"KCAP\0\0\0\x02\0\0\0\x01".to_vec(), 128);
    assert!(matches!(PackHeader::from_cursor(&mut wrong), Err(PackError::BadMagic)));
    assert_eq!(wrong.position(), 0);
    let mut h = BufferedStreamCursor::with_chunk_size(vec![0xB5, 0x0A], 128);
    let header = parse_object_header(&mut h).unwrap();
    assert_eq!(header.object_type, ObjectType::Blob);
    assert_eq!((header.size, header.header_size), (165, 2));
    assert_eq!(h.position(), 2);
    let mut rest = BufferedStreamCursor::with_chunk_size(b"abcdef".to_vec(), 4);
    assert_eq!(rest.read(1), Ok(b"a".to_vec()));
    assert_eq!(rest.peek_rest(), b"bcdef".to_vec());
    assert_eq!((rest.position(), rest.available()), (1, 5));
    let mut p = BufferedStreamCursor::with_chunk_size(b"0006ab0000000aPACKxy".to_vec(), 128);
    assert_eq!(print_lines_until_pack(&mut p).result, Ok(()));
    assert_eq!(p.position(), 14);
}

#[test]
fn cursor_reads_in_order() {
    let mut c = cursor(b"0123456789");
    assert_eq!(c.available(), 0);
    c.ensure_available(4);
    assert_eq!(c.available(), 6);
    assert_eq!(c.peek(2), Ok(b"01".to_vec()));
    assert_eq!(c.read(2), Ok(b"01".to_vec()));
    assert_eq!(c.position(), 2);
    assert_eq!(c.search(b"45"), Some(2));
    assert_eq!(c.search(b"67"), None);
    c.advance(2);
    c.drain_consumed();
    assert_eq!(c.position(), 0);
    assert_eq!(c.available(), 2);
    assert_eq!(c.peek_at(5), Some(b'9'));
    assert_eq!(c.peek_at(6), None);
    assert_eq!(c.take(7), Err(StreamError::UnexpectedEof));
    assert_eq!(c.take(6), Ok(b"456789".to_vec()));
    assert_eq!(c.read(1), Err(StreamError::UnexpectedEof));
    assert_eq!(c.read(0), Ok(Vec::new()));
    let mut stuck = BufferedStreamCursor::with_chunk_size(b"abc".to_vec(), 0);
    assert_eq!(stuck.read(1), Err(StreamError::UnexpectedEof));
    assert_eq!(find_pattern(b"xxPACKxxPACK", b"PACK"), 2);
    assert_eq!(find_pattern(b"xxPAC", b"PACK"), 5);
    assert_eq!(find_pattern(b"abc", b""), 0);
}
