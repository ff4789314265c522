use git_rust::hash::GitHash;
use git_rust::index::{
    parse_index, read_index, stage_entry, write_index, IndexEntry, IndexError,
    IndexFormatDescriptor,
};
use git_rust::object::{write_object, FileMode, ObjectType};
use git_rust::tree::{build_tree, write_tree, Tree, TreeError};

fn id(hex: &str) -> GitHash {
    GitHash::from_hex(hex).unwrap()
}

fn entry(mode: FileMode, path: &str, hex: &str) -> IndexEntry {
    IndexEntry { mode, path: path.to_string(), hash: id(hex) }
}

const BLOB_HELLO: &str = "ce013625030ba8dba906f756967f9e9ca394464a";
const BLOB_SCRIPT: &str = "1a2485251c33a70432394c93fb89330ef214bfc9";

fn sample() -> Vec<IndexEntry> {
    vec![
        entry(FileMode::Normal, "a.txt", BLOB_HELLO),
        entry(FileMode::Executable, "b/c.sh", BLOB_SCRIPT),
    ]
}

fn same_entries(a: &[IndexEntry], b: &[IndexEntry]) -> bool {
    a.len() == b.len()
        && a.iter().zip(b.iter()).all(|(x, y)| {
            x.mode == y.mode && x.path == y.path && x.hash == y.hash
        })
}

#[test]
fn index_round_trip() {
    let entries = sample();
    let bytes = write_index(&entries).unwrap();
    let expected = "4944580000000100000002000081a40005612e747874ce013625030ba8dba906f756967f9e9ca394464a000081ed0006622f632e73681a2485251c33a70432394c93fb89330ef214bfc9";
    assert_eq!(hex::encode(&bytes), expected);
    let back = read_index(&bytes);
    assert!(same_entries(&back, &entries));
    assert_eq!(write_index(&back).unwrap(), bytes);
}

#[test]
fn empty_index_round_trip() {
    let bytes = write_index(&[]).unwrap();
    assert_eq!(bytes, b"IDX\0\0\0\x01\0\0\0\0".to_vec());
    assert_eq!(bytes.len(), IndexFormatDescriptor::HEADER_SIZE);
    assert!(read_index(&bytes).is_empty());
}

#[test]
fn index_errors() {
    let good = write_index(&sample()).unwrap();
    assert_eq!(parse_index(b"").unwrap_err(), IndexError::UnexpectedEof);
    assert_eq!(parse_index(b"IDY\0\0\0\x01\0\0\0\0").unwrap_err(), IndexError::InvalidMagic);
    assert_eq!(
        parse_index(b"IDX\0\0\0\x02\0\0\0\0").unwrap_err(),
        IndexError::UnsupportedVersion
    );
    assert_eq!(parse_index(&good[..good.len() - 1]).unwrap_err(), IndexError::UnexpectedEof);
    assert_eq!(parse_index(&good[..12]).unwrap_err(), IndexError::UnexpectedEof);
    let mut bad_mode = good.clone();
    bad_mode[14] = 0xa5;
    assert_eq!(parse_index(&bad_mode).unwrap_err(), IndexError::InvalidMode);
    let mut bad_path = good.clone();
    bad_path[17] = 0xff;
    assert_eq!(parse_index(&bad_path).unwrap_err(), IndexError::InvalidPath);
    assert!(read_index(&bad_path).is_empty());
    assert!(read_index(b"garbage").is_empty());
    let mut trailing = good.clone();
    trailing.extend_from_slice(b"ignored");
    assert!(same_entries(&read_index(&trailing), &sample()));
}

#[test]
fn index_path_too_long() {
    let long = "x".repeat(65536);
    let entries = vec![entry(FileMode::Normal, &long, BLOB_HELLO)];
    assert_eq!(write_index(&entries).unwrap_err(), IndexError::PathTooLong);
    let longest = "x".repeat(65535);
    let entries = vec![entry(FileMode::Normal, &longest, BLOB_HELLO)];
    let bytes = write_index(&entries).unwrap();
    assert!(same_entries(&read_index(&bytes), &entries));
}

#[test]
fn descriptor_reads_what_it_writes() {
    let d = IndexFormatDescriptor::v1();
    let mut out = Vec::new();
    d.write_header(&mut out, 7);
    let (header, next) = d.read_header(&out, 0).unwrap();
    assert_eq!((header.version, header.entry_count, next), (1, 7, 11));
    let e = entry(FileMode::Symlink, "päth/ü", BLOB_HELLO);
    d.write_entry(&mut out, &e).unwrap();
    let (back, end) = d.read_entry(&out, next).unwrap();
    assert_eq!(end, out.len());
    assert!(same_entries(&[back], &[e]));
}

#[test]
fn staging_replaces_or_appends() {
    let mut entries = sample();
    stage_entry(&mut entries, entry(FileMode::Executable, "a.txt", BLOB_SCRIPT));
    assert_eq!(entries.len(), 2);
    assert_eq!(entries[0].mode, FileMode::Executable);
    assert_eq!(entries[0].hash, id(BLOB_SCRIPT));
    stage_entry(&mut entries, entry(FileMode::Normal, "z", BLOB_HELLO));
    assert_eq!(entries.len(), 3);
    assert_eq!(entries[2].path, "z");
}

#[test]
fn empty_tree_has_the_known_identifier() {
    let built = write_tree(&[]);
    assert_eq!(built.hash.to_hex(), "4b825dc642cb6eb9a060e54bf8d69288fbee4904");
    assert_eq!(built.trees, vec![Vec::<u8>::new()]);
    let written = write_object(ObjectType::Tree, &built.trees[0]).unwrap();
    assert_eq!(written.hash, built.hash);
}

#[test]
fn nested_tree_identifiers() {
    let built = write_tree(&sample());
    assert_eq!(built.hash.to_hex(), "666bba394cdc912879cc38e9b397348b5abebb22");
    assert_eq!(built.trees.len(), 2);
    let sub = write_object(ObjectType::Tree, &built.trees[0]).unwrap();
    assert_eq!(sub.hash.to_hex(), "2dd2e9da4dcb0191f8f9627445fa2d330a3162c6");
    let mut expected_root = b"100644 a.txt\0".to_vec();
    expected_root.extend_from_slice(id(BLOB_HELLO).as_bytes());
    expected_root.extend_from_slice(b"40000 b\0");
    expected_root.extend_from_slice(sub.hash.as_bytes());
    assert_eq!(built.trees[1], expected_root);
}

#[test]
fn building_twice_gives_the_same_identifier() {
    let first = write_tree(&sample());
    let second = write_tree(&sample());
    assert_eq!(first.hash, second.hash);
    assert_eq!(first.trees, second.trees);
}

#[test]
fn directories_sort_as_if_they_ended_in_a_slash() {
    let entries = vec![
        entry(FileMode::Normal, "a/x", BLOB_HELLO),
        entry(FileMode::Normal, "a.b", BLOB_HELLO),
    ];
    let built = write_tree(&entries);
    assert_eq!(built.hash.to_hex(), "ae079d5d2fecf69af67f09002152cd6cbbbd6ef8");
    let root = Tree::parse(built.trees.last().unwrap()).unwrap();
    let names: Vec<&str> = root.entries.iter().map(|e| e.name.as_str()).collect();
    assert_eq!(names, vec!["a.b", "a"]);
}

#[test]
fn build_under_a_prefix() {
    let built = build_tree(&sample(), "b/");
    assert_eq!(built.hash.to_hex(), "2dd2e9da4dcb0191f8f9627445fa2d330a3162c6");
    assert_eq!(built.trees.len(), 1);
}

#[test]
fn tree_parse_and_print() {
    let built = write_tree(&sample());
    let root = Tree::parse(&built.trees[1]).unwrap();
    assert_eq!(root.entries.len(), 2);
    assert_eq!(root.entries[0].mode, FileMode::Normal);
    assert_eq!(root.entries[0].object_type, ObjectType::Blob);
    assert_eq!(root.entries[0].name, "a.txt");
    assert_eq!(root.entries[0].hash, id(BLOB_HELLO));
    assert_eq!(root.entries[1].mode, FileMode::Directory);
    assert_eq!(root.entries[1].object_type, ObjectType::Tree);
    assert_eq!(root.entries[1].name, "b");
    assert_eq!(root.to_bytes(), built.trees[1]);
}

#[test]
fn tree_parse_errors() {
    assert!(Tree::parse(b"").unwrap().entries.is_empty());
    assert!(matches!(Tree::parse(b"100644"), Err(TreeError::MissingSpace)));
    assert!(matches!(Tree::parse(b"\xff\xfe a\0"), Err(TreeError::InvalidModeText)));
    assert!(matches!(Tree::parse(b"100645 a\0"), Err(TreeError::UnknownMode)));
    assert!(matches!(Tree::parse(b"100644 a"), Err(TreeError::MissingNull)));
    assert!(matches!(Tree::parse(b"100644 \xff\0"), Err(TreeError::InvalidName)));
    assert!(matches!(Tree::parse(b"100644 a\0short"), Err(TreeError::UnexpectedEof)));
}

#[test]
fn load_tree_checks_the_kind() {
    let built = write_tree(&sample());
    let stored = write_object(ObjectType::Tree, &built.trees[1]).unwrap();
    let hex = built.hash.to_hex();
    let tree = Tree::load_tree_from_hash(&hex, Some(&stored.compressed)).unwrap();
    assert_eq!(tree.entries.len(), 2);
    let blob = write_object(ObjectType::Blob, b"hello\n").unwrap();
    assert!(matches!(
        Tree::load_tree_from_hash(BLOB_HELLO, Some(&blob.compressed)),
        Err(TreeError::NotATree)
    ));
    assert!(matches!(
        Tree::load_tree_from_hash(&hex, None),
        Err(TreeError::Object(git_rust::object::ObjectError::NotFound))
    ));
}

#[test]
fn walk_gives_paths_and_descents() {
    let built = write_tree(&sample());
    let root = Tree::parse(&built.trees[1]).unwrap();
    let flat = root.walk_tree("", false);
    assert_eq!(flat.len(), 2);
    assert_eq!((flat[0].index, flat[0].path.as_str(), flat[0].descend), (0, "a.txt", false));
    assert_eq!((flat[1].index, flat[1].path.as_str(), flat[1].descend), (1, "b", false));
    let deep = root.walk_tree("top", true);
    assert_eq!((deep[0].path.as_str(), deep[0].descend), ("top/a.txt", false));
    assert_eq!((deep[1].path.as_str(), deep[1].descend), ("top/b", true));
}

#[test]
fn other_layouts_are_refused_where_they_do_not_fit() {
    let v1 = IndexFormatDescriptor::v1();
    let e = entry(FileMode::Normal, "abcd", BLOB_HELLO);
    let mut bytes = Vec::new();
    v1.write_entry(&mut bytes, &e).unwrap();
    let wide = IndexFormatDescriptor { hash_size: 32, ..v1 };
    assert_eq!(wide.read_entry(&bytes, 0).err(), Some(IndexError::InvalidHashSize));
    let mut out = Vec::new();
    assert_eq!(wide.write_entry(&mut out, &e), Err(IndexError::InvalidHashSize));
    assert!(out.is_empty());
    let narrow = IndexFormatDescriptor { max_path_len: 3, ..v1 };
    assert_eq!(narrow.read_entry(&bytes, 0).err(), Some(IndexError::PathTooLong));
    assert_eq!(narrow.write_entry(&mut out, &e), Err(IndexError::PathTooLong));
    let other = IndexFormatDescriptor { magic: b"XY", version: 9, ..v1 };
    let mut header = Vec::new();
    other.write_header(&mut header, 258);
    assert_eq!(header, b"XY\0\0\0\x09\0\0\x01\x02".to_vec());
    let (read, next) = other.read_header(&header, 0).unwrap();
    assert_eq!((read.version, read.entry_count, next), (9, 258, 10));
    assert_eq!(v1.read_header(&header, 0).err(), Some(IndexError::InvalidMagic));
    assert_eq!(v1.read_header(b"ID", 0).err(), Some(IndexError::UnexpectedEof));
}

#[test]
fn names_in_a_tree_are_strictly_ascending() {
    let entries = vec![
        entry(FileMode::Normal, "src/z.rs", BLOB_HELLO),
        entry(FileMode::Normal, "src.txt", BLOB_HELLO),
        entry(FileMode::Normal, "src/a/b.rs", BLOB_SCRIPT),
        entry(FileMode::Executable, "run", BLOB_SCRIPT),
        entry(FileMode::Normal, "src-old", BLOB_HELLO),
        entry(FileMode::Normal, "src/a.rs", BLOB_HELLO),
    ];
    let built = write_tree(&entries);
    assert_eq!(built.trees.len(), 3);
    for payload in &built.trees {
        let tree = Tree::parse(payload).unwrap();
        let keys: Vec<Vec<u8>> = tree
            .entries
            .iter()
            .map(|e| {
                let mut key = e.name.clone().into_bytes();
                if e.mode == FileMode::Directory {
                    key.push(b'/');
                }
                key
            })
            .collect();
        assert!(keys.windows(2).all(|w| w[0] < w[1]));
    }
    let root = Tree::parse(built.trees.last().unwrap()).unwrap();
    let names: Vec<&str> = root.entries.iter().map(|e| e.name.as_str()).collect();
    assert_eq!(names, vec!["run", "src-old", "src.txt", "src"]);
}
