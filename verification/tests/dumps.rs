use git_rust::caps::parse_capabilities;
use git_rust::dump::{
    describe_hash, describe_object_header, dump_bytes_as_hex, print_hex_dump, print_raw_bytes,
};
use git_rust::hash::GitHash;
use git_rust::object::ObjectType;
use git_rust::pack::PackObjectHeader;
use git_rust::refs::{AdvertisedRef, RefAdvertisement};

fn expected_dump(data: &[u8], bars: bool) -> String {
    let mut out = String::new();
    for (i, chunk) in data.chunks(16).enumerate() {
        out.push_str(&format!("{:08x}: ", i * 16));
        for byte in chunk {
            out.push_str(&format!("{:02x} ", byte));
        }
        for _ in chunk.len()..16 {
            out.push_str("   ");
        }
        out.push_str(if bars { " |" } else { " " });
        for byte in chunk {
            let c = *byte as char;
            out.push(if c.is_ascii_graphic() || c == ' ' { c } else { '.' });
        }
        out.push_str(if bars { "|\n" } else { "\n" });
    }
    out
}

#[test]
fn hex_dump_of_eighteen_bytes() {
    let data = b"hello\nhello\nhello\n";
    let text = String::from_utf8(print_hex_dump("L", data)).unwrap();
    let expected = "--- L ---\n\
        00000000: 68 65 6c 6c 6f 0a 68 65 6c 6c 6f 0a 68 65 6c 6c  hello.hello.hell\n\
        00000010: 6f 0a                                            o.\n\
        --- End of L ---\n";
    assert_eq!(text, expected);
}

#[test]
fn hex_dumps_agree_with_formatting() {
    let data: Vec<u8> = (0..=255u8).chain(0..40u8).collect();
    assert_eq!(
        String::from_utf8(print_hex_dump("all", &data)).unwrap(),
        format!("--- all ---\n{}--- End of all ---\n", expected_dump(&data, false))
    );
    assert_eq!(String::from_utf8(dump_bytes_as_hex(&data)).unwrap(), expected_dump(&data, true));
    assert_eq!(dump_bytes_as_hex(b""), Vec::<u8>::new());
    assert_eq!(
        String::from_utf8(dump_bytes_as_hex(&data[..16])).unwrap(),
        expected_dump(&data[..16], true)
    );
    assert_eq!(print_hex_dump("e", b""), b"--- e ---\n--- End of e ---\n".to_vec());
    assert_eq!(print_raw_bytes(&vec![0, 255, 16]), b"00 ff 10 \n".to_vec());
    assert_eq!(print_raw_bytes(&Vec::new()), b"\n".to_vec());
}

#[test]
fn descriptions() {
    let hash = GitHash::from_hex("ce013625030ba8dba906f756967f9e9ca394464a").unwrap();
    assert_eq!(
        String::from_utf8(describe_hash(&hash)).unwrap(),
        "GitHash { hex: ce013625030ba8dba906f756967f9e9ca394464a, bytes: [ce 01 36 25 03 0b a8 db a9 06 f7 56 96 7f 9e 9c a3 94 46 4a] }"
    );
    let header = PackObjectHeader { object_type: ObjectType::Commit, size: 300, header_size: 2 };
    assert_eq!(
        String::from_utf8(describe_object_header(&header)).unwrap(),
        "PackObjectHeader(type: commit, size: 300, header_size: 2)"
    );
}

#[test]
fn advertisement_text() {
    let adv = RefAdvertisement {
        refs: vec![AdvertisedRef { hash: "abc".to_string(), name: "HEAD".to_string() }],
        capabilities: parse_capabilities(vec!["thin-pack", "symref=a:b", "agent=x", "zzz"]),
        head: Some("abc".to_string()),
    };
    let expected = "--- RefAdvertisement ---\nHEAD: abc\n\nCapabilities:\n  multi_ack: false\n  multi_ack_detailed: false\n  thin_pack: true\n  side_band: false\n  side_band_64k: false\n  ofs_delta: false\n  shallow: false\n  no_progress: false\n  include_tag: false\n  allow_tip_sha1_in_want: false\n  allow_reachable_sha1_in_want: false\n  no_done: false\n  symref: a -> b\n  agent: x\n  other:\n    - zzz\n\nRefs:\n  HEAD -> abc\n-------------------------\n\n";
    assert_eq!(String::from_utf8(adv.print_debug()).unwrap(), expected);
    let empty =
        RefAdvertisement { refs: Vec::new(), capabilities: Default::default(), head: None };
    let text = String::from_utf8(empty.print_debug()).unwrap();
    assert!(text.starts_with("--- RefAdvertisement ---\nHEAD: <none>\n\nCapabilities:\n"));
    assert!(text.ends_with("  no_done: false\n\nRefs:\n-------------------------\n\n"));
}
