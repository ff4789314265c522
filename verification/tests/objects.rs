use git_rust::hash::{GitHash, HashError};
use git_rust::object::{
    decode_object, encode_object, hash_object, read_object, write_object, FileMode, ObjectError,
    ObjectType,
};

#[test]
fn blob_envelope_and_identifier() {
    let (hash, envelope) = hash_object(ObjectType::Blob, b"hello\n");
    assert_eq!(envelope, b"blob 6\0hello\n".to_vec());
    assert_eq!(hash.to_hex(), "ce013625030ba8dba906f756967f9e9ca394464a");
    let (dir, file) = hash.to_path_parts();
    assert_eq!(dir, "ce");
    assert_eq!(file, "013625030ba8dba906f756967f9e9ca394464a");
}

#[test]
fn hex_round_trip() {
    let raw: Vec<u8> = (0u8..20).map(|i| i.wrapping_mul(13).wrapping_add(7)).collect();
    let hash = GitHash::from_raw_bytes(&raw);
    let hex = hash.to_hex();
    assert_eq!(hex.len(), 40);
    assert_eq!(GitHash::from_hex(&hex), Ok(hash.clone()));
    assert_eq!(GitHash::from_hex(&hex.to_uppercase()), Ok(hash));
}

#[test]
fn hex_errors() {
    assert_eq!(GitHash::from_hex("abc"), Err(HashError::InvalidHexLength));
    assert_eq!(
        GitHash::from_hex("zz013625030ba8dba906f756967f9e9ca394464a"),
        Err(HashError::InvalidHexDigit)
    );
    assert_eq!(GitHash::from_raw_str("short"), Err(HashError::InvalidRawLength));
    assert_eq!(
        GitHash::from_raw_str("01234567890123456789").map(|h| h.as_bytes().to_vec()),
        Ok(b"01234567890123456789".to_vec())
    );
}

#[test]
fn envelope_round_trip() {
    for kind in [ObjectType::Blob, ObjectType::Tree, ObjectType::Commit] {
        let payload = b"some\0payload with spaces".to_vec();
        let envelope = encode_object(kind, &payload);
        assert_eq!(decode_object(&envelope), Ok((kind, payload)));
    }
    let envelope = encode_object(ObjectType::Unknown(7), b"x");
    assert_eq!(envelope, b"unknown 1\0x".to_vec());
    assert_eq!(
        decode_object(&envelope),
        Ok((ObjectType::Unknown(ObjectType::UNKNOWN_FROM_STR_SENTINEL), b"x".to_vec()))
    );
}

#[test]
fn malformed_envelopes() {
    assert_eq!(decode_object(b"blob 3"), Err(ObjectError::MalformedObject));
    assert_eq!(decode_object(b"blob\0abc"), Err(ObjectError::MalformedObject));
    assert_eq!(decode_object(b"blob 4\0abc"), Err(ObjectError::MalformedObject));
    assert_eq!(decode_object(b"blob x\0abc"), Err(ObjectError::MalformedObject));
    assert_eq!(decode_object(b"blob 3\0abc"), Ok((ObjectType::Blob, b"abc".to_vec())));
    assert_eq!(decode_object(b"BLOB 03\0abc"), Ok((ObjectType::Blob, b"abc".to_vec())));
}

#[test]
fn write_then_read() {
    let payload = b"hello\n".to_vec();
    let first = write_object(ObjectType::Blob, &payload).unwrap();
    let second = write_object(ObjectType::Blob, &payload).unwrap();
    assert_eq!(first.hash, second.hash);
    assert_eq!(first.dir, "ce");
    assert_eq!(first.file, "013625030ba8dba906f756967f9e9ca394464a");
    assert_ne!(first.compressed, b"blob 6\0hello\n".to_vec());
    let hex = first.hash.to_hex();
    assert_eq!(read_object(&hex, Some(&first.compressed)), Ok((ObjectType::Blob, payload)));
}

#[test]
fn read_errors() {
    let hex = "ce013625030ba8dba906f756967f9e9ca394464a";
    assert_eq!(read_object("nothex", None), Err(ObjectError::BadHex));
    assert_eq!(read_object(hex, None), Err(ObjectError::NotFound));
    assert_eq!(read_object(hex, Some(b"not zlib")), Err(ObjectError::DecompressFailed));
    let stored = write_object(ObjectType::Blob, b"x").unwrap().compressed;
    assert_eq!(read_object(hex, Some(&stored)), Ok((ObjectType::Blob, b"x".to_vec())));
}

#[test]
fn file_modes() {
    assert_eq!(FileMode::from_octal_str("100644"), Some(FileMode::Normal));
    assert_eq!(FileMode::from_octal_str("100755"), Some(FileMode::Executable));
    assert_eq!(FileMode::from_octal_str("120000"), Some(FileMode::Symlink));
    assert_eq!(FileMode::from_octal_str("40000"), Some(FileMode::Directory));
    assert_eq!(FileMode::from_octal_str("040000"), Some(FileMode::Directory));
    assert_eq!(FileMode::from_octal_str("+40000"), Some(FileMode::Directory));
    assert_eq!(FileMode::from_octal_str(""), None);
    assert_eq!(FileMode::from_octal_str("+"), None);
    assert_eq!(FileMode::from_octal_str("100645"), None);
    assert_eq!(FileMode::from_octal_str("10064x"), None);
    assert_eq!(FileMode::from_octal_str("77777777777777777777"), None);
    assert_eq!(FileMode::from_str("040000"), Some(FileMode::Directory));
    assert_eq!(FileMode::from_str("40000"), None);
    assert_eq!(FileMode::Directory.as_str(), "40000");
    assert_eq!(FileMode::Normal.as_str(), "100644");
    assert_eq!(FileMode::from_u32(0o100755), Some(FileMode::Executable));
    assert_eq!(FileMode::Symlink.to_u32(), 0o120000);
    assert_eq!(FileMode::from_u32(0), None);
    assert_eq!(ObjectType::from_mode(&FileMode::Directory), ObjectType::Tree);
    assert_eq!(ObjectType::from_mode(&FileMode::Symlink), ObjectType::Blob);
    assert_eq!(ObjectType::from_code(1), ObjectType::Commit);
    assert_eq!(ObjectType::from_code(2), ObjectType::Tree);
    assert_eq!(ObjectType::from_code(3), ObjectType::Blob);
    assert_eq!(ObjectType::from_code(6), ObjectType::Unknown(6));
    assert_eq!(ObjectType::from_str("Tree"), ObjectType::Tree);
    assert_eq!(ObjectType::from_str("tag"), ObjectType::Unknown(0xff));
    assert_eq!(ObjectType::Commit.as_str(), "commit");
}
