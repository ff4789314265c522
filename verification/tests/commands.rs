use git_rust::clone::{
    clone_action, clone_step, validate_target_dir_empty_or_missing, CloneAction, CloneEvent,
    CloneState, EventName, TargetError,
};
use git_rust::commands::{
    add_targets, cat_file_print, dispatch, generate_temp_filename, normalize_git_path, person_at,
    stage_files, temp_filename, write_object_from_path, AddError, AddTargets,
    CatFileOutput, Command, PathError, WorkFile,
};
use git_rust::commit::{parse_commit, parse_commit_message, parse_hash, process_commit, CommitArgsError};
use git_rust::hash::{GitHash, HashError};
use git_rust::ls_tree::{parse_command, run, CommandParseError, LsTreeError, TreeEntryPrinter};
use git_rust::object::{decode_object, read_object, write_object, ObjectError, ObjectType};
use git_rust::refs::{AdvertisedRef, RefAdvertisement};
use git_rust::transport::{
    check_status, clean_url, detect_protoctol, fetch_refs, get_negotiator,
    negotiate_with, HttpMethod, HttpNegotiator, Protocol, TransportError, UrlScheme,
};

fn strings(args: &[&str]) -> Vec<String> {
    args.iter().map(|s| s.to_string()).collect()
}

const TREE: &str = "666bba394cdc912879cc38e9b397348b5abebb22";
const PARENT: &str = "ce013625030ba8dba906f756967f9e9ca394464a";

#[test]
fn commit_bytes_and_identifier() {
    let author = person_at("A U Thor", "a@example.com", 1700000000);
    let commit =
        parse_commit(&strings(&[TREE, "-p", PARENT, "-m", "msg"]), author).unwrap();
    let expected = format!(
        "tree {}\nparent {}\nauthor A U Thor <a@example.com> 1700000000 +0000\ncommitter A U Thor <a@example.com> 1700000000 +0000\n\nmsg\n",
        TREE, PARENT
    );
    assert_eq!(commit.to_bytes(), expected.clone().into_bytes());
    let written = process_commit(&commit).unwrap();
    assert_eq!(written.hash.to_hex(), "41b6c9b3a725ac83816306edd8663703df2ec29a");
    let hex = written.hash.to_hex();
    assert_eq!(
        read_object(&hex, Some(&written.compressed)),
        Ok((ObjectType::Commit, expected.into_bytes()))
    );
}

#[test]
fn commit_without_parent_and_negative_time() {
    let author = person_at("N", "n@x", -5);
    let commit = parse_commit(&strings(&[TREE, "-m", "two", "words\n"]), author).unwrap();
    assert!(commit.parent_tree.is_none());
    assert_eq!(commit.message, "two words\n");
    let text = String::from_utf8(commit.to_bytes()).unwrap();
    assert!(text.contains("author N <n@x> -5 +0000\n"));
    assert!(text.ends_with("\n\ntwo words\n"));
}

#[test]
fn commit_argument_errors() {
    let who = || person_at("N", "n@x", 0);
    assert_eq!(parse_commit(&[], who()).err(), Some(CommitArgsError::Usage));
    assert_eq!(
        parse_commit(&strings(&["short", "-m", "x"]), who()).err(),
        Some(CommitArgsError::InvalidHash(HashError::InvalidHexLength))
    );
    assert_eq!(parse_commit(&strings(&[TREE]), who()).err(), Some(CommitArgsError::MissingMessage));
    assert_eq!(
        parse_commit(&strings(&[TREE, "-m", "x", "-p"]), who()).err(),
        None
    );
    assert_eq!(
        parse_commit(&strings(&[TREE, "-p"]), who()).err(),
        Some(CommitArgsError::MissingHash)
    );
    assert_eq!(
        parse_commit(&strings(&[TREE, "-p", "zz013625030ba8dba906f756967f9e9ca394464a"]), who())
            .err(),
        Some(CommitArgsError::InvalidHash(HashError::InvalidHexDigit))
    );
    let skipped = parse_commit(&strings(&[TREE, "-m", "a", "-p", PARENT]), who()).unwrap();
    assert!(skipped.parent_tree.is_none());
    assert_eq!(skipped.message, "a\n");
    let ignored = parse_commit(&strings(&[TREE, "extra", "-m"]), who()).unwrap();
    assert_eq!(ignored.message, "\n");
    assert_eq!(parse_hash(&strings(&[PARENT]), 0), GitHash::from_hex(PARENT).map_err(|_| CommitArgsError::Usage));
    assert_eq!(parse_commit_message(&strings(&["a", "b", "-x", "c"]), 0), ("a b\n".to_string(), 2));
}

#[test]
fn ls_tree_arguments() {
    let cmd = parse_command(&strings(&["--name-only", TREE])).unwrap();
    assert_eq!(cmd.tree_ish(), TREE);
    assert_eq!(cmd.base_path(), "");
    assert!(!cmd.recursive());
    let missing = parse_command(&strings(&["--name-only"])).err().unwrap();
    assert!(matches!(&missing, CommandParseError::MissingArgument(_)));
    assert_eq!(missing.message(), "Missing argument: tree-ish (e.g. a hash or HEAD)");
    let unknown = parse_command(&strings(&[TREE, "-r"])).err().unwrap();
    assert_eq!(unknown.message(), "Unknown flag: -r");
    let twice = parse_command(&strings(&["a", "b"])).err().unwrap();
    assert_eq!(twice.message(), "Invalid argument: Multiple tree-ish values: 'a' and 'b'");
}

#[test]
fn ls_tree_listing() {
    let blob = GitHash::from_hex(PARENT).unwrap();
    let mut payload = b"100644 a.txt\0".to_vec();
    payload.extend_from_slice(blob.as_bytes());
    payload.extend_from_slice(b"40000 dir\0");
    payload.extend_from_slice(blob.as_bytes());
    let stored = write_object(ObjectType::Tree, &payload).unwrap();
    let hex = stored.hash.to_hex();
    let full = run(&strings(&[&hex]), Some(&stored.compressed)).unwrap();
    let expected = format!("100644 blob {}\ta.txt\n40000 tree {}\tdir\n", PARENT, PARENT);
    assert_eq!(String::from_utf8(full).unwrap(), expected);
    let names = run(&strings(&["--name-only", &hex]), Some(&stored.compressed)).unwrap();
    assert_eq!(names, b"a.txt\ndir\n".to_vec());
    assert!(matches!(run(&strings(&[&hex]), None), Err(LsTreeError::Tree(_))));
    assert!(matches!(run(&strings(&[]), None), Err(LsTreeError::Args(_))));
    let cmd = parse_command(&strings(&["--name-only", &hex])).unwrap();
    let tree = git_rust::tree::Tree::parse(&payload).unwrap();
    assert_eq!(cmd.printer().print(&tree.entries[0], "p/a.txt"), b"p/a.txt\n".to_vec());
}

#[test]
fn command_dispatch() {
    assert_eq!(dispatch(&strings(&[])), Command::Missing);
    assert_eq!(dispatch(&strings(&["init"])), Command::Init);
    assert_eq!(dispatch(&strings(&["cat-file", "-p", "x"])), Command::CatFile(2));
    assert_eq!(dispatch(&strings(&["cat-file", "-t", "x"])), Command::Unsupported);
    assert_eq!(dispatch(&strings(&["hash-object", "-w", "f"])), Command::HashObject(2));
    assert_eq!(dispatch(&strings(&["hash-object", "f"])), Command::Unsupported);
    assert_eq!(dispatch(&strings(&["ls-tree", "x"])), Command::LsTree);
    assert_eq!(dispatch(&strings(&["add"])), Command::Add);
    assert_eq!(dispatch(&strings(&["write-tree"])), Command::WriteTree);
    assert_eq!(dispatch(&strings(&["push"])), Command::Unknown);
}

#[test]
fn cat_file_and_hash_object() {
    let written = write_object_from_path(ObjectType::Blob, Some(b"hello\n")).unwrap();
    assert_eq!(written.hash.to_hex(), PARENT);
    assert_eq!(
        write_object_from_path(ObjectType::Blob, None).err(),
        Some(ObjectError::NotFound)
    );
    match cat_file_print(PARENT, Some(&written.compressed)) {
        Ok(CatFileOutput::Content(content)) => assert_eq!(content, b"hello\n".to_vec()),
        _ => panic!("a blob is shown"),
    }
    let tree = write_object(ObjectType::Tree, b"").unwrap();
    match cat_file_print(&tree.hash.to_hex(), Some(&tree.compressed)) {
        Ok(CatFileOutput::UnsupportedType(kind)) => assert_eq!(kind, ObjectType::Tree),
        _ => panic!("a tree is not shown"),
    }
    assert!(matches!(cat_file_print("x", None), Err(ObjectError::BadHex)));
    assert_eq!(decode_object(b"blob 0\0"), Ok((ObjectType::Blob, Vec::new())));
}

#[test]
fn paths_and_names() {
    let root = strings(&["/", "home", "repo"]);
    let file = strings(&["/", "home", "repo", "src", "main.rs"]);
    assert_eq!(normalize_git_path(&file, &root), Ok("src/main.rs".to_string()));
    assert_eq!(normalize_git_path(&root, &root), Ok(String::new()));
    assert_eq!(
        normalize_git_path(&strings(&["/", "home", "other", "x"]), &root),
        Err(PathError::OutsideRepository)
    );
    assert_eq!(
        normalize_git_path(&strings(&["/", "home"]), &root),
        Err(PathError::OutsideRepository)
    );
    assert_eq!(temp_filename(Some("pack-"), "abc"), "pack-abc.temp");
    assert_eq!(temp_filename(None, "abc"), "abc.temp");
    let name = generate_temp_filename(Some("p"));
    assert_eq!(name.len(), 1 + 12 + 5);
    assert!(name.starts_with('p') && name.ends_with(".temp"));
    assert!(name[1..13].chars().all(|c| c.is_ascii_alphanumeric()));
    assert_ne!(generate_temp_filename(None), generate_temp_filename(None));
    let who = person_at("N", "n@x", 7);
    assert_eq!((who.name.as_str(), who.email.as_str(), who.timestamp), ("N", "n@x", 7));
    assert_eq!(who.timezone, "+0000");
    assert_eq!(EventName::CtrlC.as_str(), "ctrlc");
}

fn advertisement(head: Option<&str>) -> RefAdvertisement {
    RefAdvertisement {
        refs: vec![AdvertisedRef { hash: PARENT.to_string(), name: "HEAD".to_string() }],
        capabilities: Default::default(),
        head: head.map(|h| h.to_string()),
    }
}

#[test]
fn addresses() {
    assert_eq!(clean_url("https://h/r.git"), "https://h/r.git/git-upload-pack");
    assert_eq!(clean_url("https://h/r.git///"), "https://h/r.git/git-upload-pack");
    assert_eq!(clean_url("https://h/r/git-upload-pack"), "https://h/r/git-upload-pack");
    assert_eq!(clean_url(""), "/git-upload-pack");
    let request = fetch_refs("https://h/r.git/");
    assert_eq!(request.method, HttpMethod::Get);
    assert_eq!(request.url, "https://h/r.git/info/refs?service=git-upload-pack");
    assert_eq!(request.headers, vec![("User-Agent".to_string(), "git/2.42.0".to_string())]);
    assert!(request.body.is_empty());
    assert_eq!(check_status(200), Ok(()));
    assert_eq!(check_status(299), Ok(()));
    assert_eq!(check_status(199), Err(TransportError::Status(199)));
    assert_eq!(check_status(404), Err(TransportError::Status(404)));
}

#[test]
fn negotiation() {
    let adv = advertisement(Some(PARENT));
    let request = HttpNegotiator.negogiate("https://h/r.git", &adv).unwrap();
    assert_eq!(request.method, HttpMethod::Post);
    assert_eq!(request.url, "https://h/r.git/git-upload-pack");
    let names: Vec<&str> = request.headers.iter().map(|h| h.0.as_str()).collect();
    assert_eq!(names, vec!["Content-Type", "Accept", "User-Agent", "git-protocol"]);
    assert_eq!(request.headers[0].1, "application/x-git-upload-pack-request");
    assert_eq!(request.headers[1].1, "application/x-git-upload-pack-result");
    assert_eq!(request.headers[3].1, "version=2");
    let body = String::from_utf8(request.body.clone()).unwrap();
    assert_eq!(
        body,
        format!(
            "0011command=fetch0016object-format=sha10014agent=git/2.42.0000dthin-pack000dofs-delta00010031want {}000ddeepen 100008done0000",
            PARENT
        )
    );
    assert_eq!(
        HttpNegotiator.negogiate("https://h/r.git", &advertisement(None)).err(),
        Some(TransportError::NoHead)
    );
    let long_head = "f".repeat(65530);
    assert_eq!(
        HttpNegotiator.negogiate("https://h/r.git", &advertisement(Some(&long_head))).err(),
        Some(TransportError::Request(git_rust::pktline::FrameError::PayloadTooLong))
    );
    let https = negotiate_with(Some(UrlScheme::Https), &adv, "https://h/r.git").unwrap();
    assert_eq!(https.body, request.body);
    assert_eq!(https.url, "https://h/r.git/git-upload-pack");
    assert_eq!(
        negotiate_with(Some(UrlScheme::Http), &advertisement(None), "http://h/r").err(),
        Some(TransportError::NoHead)
    );
    assert_eq!(
        negotiate_with(Some(UrlScheme::Ssh), &adv, "ssh://git@h/r.git").err(),
        Some(TransportError::SshUnavailable)
    );
    assert_eq!(
        negotiate_with(Some(UrlScheme::Ftp), &adv, "ftp://h/r.git").err(),
        Some(TransportError::UnsupportedScheme(UrlScheme::Ftp))
    );
    assert_eq!(negotiate_with(None, &adv, "x").err(), Some(TransportError::InvalidUrl));
    assert_eq!(detect_protoctol(UrlScheme::Https), Some(Protocol::HTTP));
    assert_eq!(get_negotiator(UrlScheme::Ssh), Some(Protocol::SSH));
    assert_eq!(get_negotiator(UrlScheme::File), None);
}

#[test]
fn clone_steps() {
    let mut state = CloneState::Init;
    let mut actions = vec![clone_action(state)];
    while state != CloneState::Done {
        let (next, action) = clone_step(state, CloneEvent::StepDone);
        state = next;
        actions.push(action);
    }
    assert_eq!(actions.len(), 9);
    assert_eq!(actions[0], CloneAction::ValidateTarget);
    assert_eq!(actions[8], CloneAction::Finish);
    assert_eq!(
        clone_step(CloneState::Init, CloneEvent::StepFailed),
        (CloneState::Failed, CloneAction::Fail)
    );
    assert_eq!(
        clone_step(CloneState::TargetValidated, CloneEvent::Interrupted),
        (CloneState::Failed, CloneAction::RemoveTargetAndExit)
    );
    assert_eq!(
        clone_step(CloneState::PackStreaming, CloneEvent::StepFailed),
        (CloneState::Failed, CloneAction::RemoveTargetAndFail)
    );
    assert_eq!(
        clone_step(CloneState::Init, CloneEvent::Interrupted),
        (CloneState::Init, CloneAction::ValidateTarget)
    );
    assert_eq!(
        clone_step(CloneState::Done, CloneEvent::StepFailed),
        (CloneState::Done, CloneAction::Finish)
    );
    assert_eq!(validate_target_dir_empty_or_missing(false, false, false), Ok(()));
    assert_eq!(validate_target_dir_empty_or_missing(true, true, true), Ok(()));
    assert_eq!(
        validate_target_dir_empty_or_missing(true, false, true),
        Err(TargetError::NotADirectory)
    );
    assert_eq!(
        validate_target_dir_empty_or_missing(true, true, false),
        Err(TargetError::NotEmpty)
    );
}

fn work_file(given: &[&str], full: &[&str], contents: &[u8]) -> WorkFile {
    WorkFile {
        given: strings(given),
        full: strings(full),
        is_file: true,
        link_is_symlink: false,
        link_is_dir: false,
        link_is_file: true,
        permissions: 0o644,
        contents: contents.to_vec(),
    }
}

#[test]
fn staging_files() {
    let root = strings(&["/", "repo"]);
    let mut script = work_file(&["run.sh"], &["/", "repo", "run.sh"], b"#!/bin/sh\n");
    script.permissions = 0o755;
    let mut missing = work_file(&["gone"], &["/", "repo", "gone"], b"");
    missing.is_file = false;
    let files = vec![
        work_file(&["a.txt"], &["/", "repo", "a.txt"], b"old"),
        work_file(&[".git", "config"], &["/", "repo", ".git", "config"], b"x"),
        missing,
        script,
        work_file(&["sub", "..", "a.txt"], &["/", "repo", "a.txt"], b"hello\n"),
    ];
    let mut entries = Vec::new();
    assert_eq!(stage_files(&mut entries, &root, &files), Ok(vec![0, 3, 4]));
    assert_eq!(entries.len(), 2);
    assert_eq!(entries[0].path, "a.txt");
    assert_eq!(entries[0].hash.to_hex(), PARENT);
    assert_eq!(entries[0].mode, git_rust::object::FileMode::Normal);
    assert_eq!(entries[1].path, "run.sh");
    assert_eq!(entries[1].mode, git_rust::object::FileMode::Executable);
    assert_eq!(entries[1].hash.to_hex(), "1a2485251c33a70432394c93fb89330ef214bfc9");
    let outside = vec![
        work_file(&["b"], &["/", "repo", "b"], b"b"),
        work_file(&["x"], &["/", "elsewhere", "x"], b"x"),
        work_file(&["c"], &["/", "repo", "c"], b"c"),
    ];
    assert_eq!(stage_files(&mut entries, &root, &outside), Err(AddError::OutsideRepository));
    assert_eq!(entries.len(), 3);
    let mut odd = work_file(&["fifo"], &["/", "repo", "fifo"], b"");
    odd.link_is_file = false;
    assert_eq!(stage_files(&mut entries, &root, &[odd]), Err(AddError::UnsupportedFileType));
    assert_eq!(add_targets(&strings(&[])), AddTargets::Everything);
    assert_eq!(add_targets(&strings(&["."])), AddTargets::Everything);
    assert_eq!(add_targets(&strings(&[".", "x"])), AddTargets::Named);
    assert_eq!(add_targets(&strings(&["x"])), AddTargets::Named);
}
