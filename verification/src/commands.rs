//! The commands of the program as far as they decide and compute: which
//! command the arguments name, what each one shows, and the names and
//! paths that they work with.
use crate::object::{
    content_of, is_written, ObjectError, ObjectType, ObjectWrite, Person, read_object, read_result,
    write_object,
};
use crate::hash::sha1_digest;
use crate::index::{entry_models, stage_entry, staged, EntryModel, IndexEntry};
use crate::object::{envelope, hash_object, FileMode};
use crate::text::{append_str, bytes_eq, empty_string, encodings, joined};
use rand::distr::Alphanumeric;
use rand::Rng;
use vstd::prelude::*;
use vstd::string::*;
use vstd::utf8::*;

verus! {

/// The directory of a repository.
pub const GIT_DIR: &'static str = ".git";

/// The directory of the object store.
pub const GIT_OBJECTS_DIR: &'static str = ".git/objects";

/// The directory of the references.
pub const GIT_REF_DIR: &'static str = ".git/refs";

/// The file that names the current branch.
pub const GIT_HEAD_PATH: &'static str = ".git/HEAD";

/// The file of the staging index.
pub const INDEX_PATH: &'static str = ".git/index";

/// What a fresh repository holds in `HEAD`.
pub const INITIAL_HEAD: &'static str = "ref: refs/heads/main\n";

/// What the arguments of the program ask for.
#[derive(Debug, Clone, Copy, PartialEq, Eq, Structural)]
pub enum Command {
    Init,
    /// `cat-file -p <id>`: the position of the identifier.
    CatFile(usize),
    /// `hash-object -w <path>`: the position of the path.
    HashObject(usize),
    /// `ls-tree`, with the arguments from position 1 on.
    LsTree,
    /// `add`, with the arguments from position 1 on.
    Add,
    WriteTree,
    /// `cat-file` or `hash-object` with other arguments than the one form
    /// that is served.
    Unsupported,
    /// A command that the program does not know.
    Unknown,
    /// No command at all.
    Missing,
}

/// The command that arguments name.
pub open spec fn command_named(args: Seq<Seq<u8>>) -> Command {
    if args.len() == 0 {
        Command::Missing
    } else if args[0] == "init".spec_bytes() {
        Command::Init
    } else if args[0] == "cat-file".spec_bytes() {
        if args.len() == 3 && args[1] == "-p".spec_bytes() {
            Command::CatFile(2)
        } else {
            Command::Unsupported
        }
    } else if args[0] == "hash-object".spec_bytes() {
        if args.len() == 3 && args[1] == "-w".spec_bytes() {
            Command::HashObject(2)
        } else {
            Command::Unsupported
        }
    } else if args[0] == "ls-tree".spec_bytes() {
        Command::LsTree
    } else if args[0] == "add".spec_bytes() {
        Command::Add
    } else if args[0] == "write-tree".spec_bytes() {
        Command::WriteTree
    } else {
        Command::Unknown
    }
}

/// The command that the arguments of the program name.
pub fn dispatch(args: &[String]) -> (command: Command)
    ensures
        command == command_named(encodings(args@)),
{
    if args.len() == 0 {
        return Command::Missing;
    }
    let ghost all = encodings(args@);
    assert(all[0] == encode_utf8(args@[0]@));
    let name = args[0].as_str().as_bytes();
    if bytes_eq(name, "init".as_bytes()) {
        Command::Init
    } else if bytes_eq(name, "cat-file".as_bytes()) {
        if args.len() == 3 && bytes_eq(args[1].as_str().as_bytes(), "-p".as_bytes()) {
            assert(all[1] == encode_utf8(args@[1]@));
            Command::CatFile(2)
        } else {
            assert(args@.len() == 3 ==> all[1] == encode_utf8(args@[1]@));
            Command::Unsupported
        }
    } else if bytes_eq(name, "hash-object".as_bytes()) {
        if args.len() == 3 && bytes_eq(args[1].as_str().as_bytes(), "-w".as_bytes()) {
            assert(all[1] == encode_utf8(args@[1]@));
            Command::HashObject(2)
        } else {
            assert(args@.len() == 3 ==> all[1] == encode_utf8(args@[1]@));
            Command::Unsupported
        }
    } else if bytes_eq(name, "ls-tree".as_bytes()) {
        Command::LsTree
    } else if bytes_eq(name, "add".as_bytes()) {
        Command::Add
    } else if bytes_eq(name, "write-tree".as_bytes()) {
        Command::WriteTree
    } else {
        Command::Unknown
    }
}

/// What `cat-file -p` shows.
pub enum CatFileOutput {
    /// The content of a blob, to show as it is.
    Content(Vec<u8>),
    /// The kind of an object that is not shown.
    UnsupportedType(ObjectType),
}

/// What `cat-file -p` shows of the object with the given identifier:
/// `stored` is the content of the file that the store holds under the
/// identifier, or `None` where it holds none.
pub fn cat_file_print(hash: &str, stored: Option<&[u8]>) -> (r: Result<CatFileOutput, ObjectError>)
    ensures
        match r {
            Ok(CatFileOutput::Content(content)) => read_result(
                hash.spec_bytes(),
                content_of(stored),
            ) == Ok::<(ObjectType, Seq<u8>), ObjectError>((ObjectType::Blob, content@)),
            Ok(CatFileOutput::UnsupportedType(kind)) => kind != ObjectType::Blob && read_result(
                hash.spec_bytes(),
                content_of(stored),
            ) is Ok && read_result(
                hash.spec_bytes(),
                content_of(stored),
            )->Ok_0.0 == kind,
            Err(e) => read_result(
                hash.spec_bytes(),
                content_of(stored),
            ) == Err::<(ObjectType, Seq<u8>), ObjectError>(e),
        },
{
    let (kind, content) = read_object(hash, stored)?;
    if kind.same(&ObjectType::Blob) {
        Ok(CatFileOutput::Content(content))
    } else {
        Ok(CatFileOutput::UnsupportedType(kind))
    }
}

/// Prepares the write of the object whose payload is the content of a
/// file: `contents` is what was read from the file, or `None` where it
/// could not be read, which gives `NotFound`.
pub fn write_object_from_path(object_type: ObjectType, contents: Option<&[u8]>) -> (r: Result<
    ObjectWrite,
    ObjectError,
>)
    ensures
        match contents {
            Some(data) => is_written(r, object_type, data@),
            None => r is Err && r->Err_0 == ObjectError::NotFound,
        },
{
    match contents {
        Some(data) => write_object(object_type, data),
        None => Err(ObjectError::NotFound),
    }
}

/// Why a path cannot be staged.
#[derive(Debug, Clone, Copy, PartialEq, Eq, Structural)]
pub enum PathError {
    /// The path does not lie under the root of the repository.
    OutsideRepository,
}

/// Whether the first list begins the second, part by part.
pub open spec fn begins(root: Seq<Seq<u8>>, full: Seq<Seq<u8>>) -> bool {
    root.len() <= full.len() && forall|i: int| 0 <= i < root.len() ==> root[i] == full[i]
}

/// The path of a file from the root of its repository, with forward
/// slashes between its parts. Both paths are given by their parts, in
/// canonical form. `OutsideRepository` where the file does not lie under
/// the root.
pub fn normalize_git_path(full_path: &[String], repo_root: &[String]) -> (r: Result<
    String,
    PathError,
>)
    ensures
        r is Ok <==> begins(encodings(repo_root@), encodings(full_path@)),
        r is Ok ==> encode_utf8(r.unwrap()@) == joined(
            encodings(full_path@).skip(repo_root@.len() as int),
            47,
        ),
        r is Err ==> r == Err::<String, PathError>(PathError::OutsideRepository),
{
    let ghost root = encodings(repo_root@);
    let ghost full = encodings(full_path@);
    if repo_root.len() > full_path.len() {
        return Err(PathError::OutsideRepository);
    }
    let mut i: usize = 0;
    while i < repo_root.len()
        invariant
            i <= repo_root@.len() <= full_path@.len(),
            root == encodings(repo_root@),
            full == encodings(full_path@),
            forall|k: int| 0 <= k < i ==> root[k] == full[k],
        decreases repo_root@.len() - i,
    {
        if !bytes_eq(repo_root[i].as_str().as_bytes(), full_path[i].as_str().as_bytes()) {
            assert(root[i as int] != full[i as int]);
            return Err(PathError::OutsideRepository);
        }
        i += 1;
    }
    let ghost rest = full.skip(repo_root@.len() as int);
    let mut out = empty_string();
    let mut k: usize = repo_root.len();
    proof {
        assert(rest.take(0) =~= Seq::<Seq<u8>>::empty());
    }
    while k < full_path.len()
        invariant
            repo_root@.len() <= k <= full_path@.len(),
            full == encodings(full_path@),
            rest == full.skip(repo_root@.len() as int),
            encode_utf8(out@) == joined(rest.take(k - repo_root@.len()), 47),
        decreases full_path@.len() - k,
    {
        let ghost done = rest.take(k - repo_root@.len());
        let ghost next = rest.take(k + 1 - repo_root@.len());
        proof {
            assert(next.drop_last() =~= done);
            assert(next.last() == encode_utf8(full_path@[k as int]@));
        }
        if k > repo_root.len() {
            append_str(&mut out, "/");
            proof {
                reveal_strlit("/");
                is_ascii_chars_encode_utf8("/"@);
                assert("/".spec_bytes() =~= seq![47u8]);
            }
        }
        append_str(&mut out, full_path[k].as_str());
        proof {
            if k == repo_root@.len() {
                assert(done =~= Seq::<Seq<u8>>::empty());
                assert(encode_utf8(out@) =~= next[0]);
            }
        }
        k += 1;
    }
    assert(rest.take(k - repo_root@.len()) =~= rest);
    Ok(out)
}

/// Calls the crate `rand`: so many samples of `Alphanumeric` from the
/// generator of the thread, collected into a text. Each sample is an
/// ASCII letter or digit; which ones is left to chance.
#[verifier::external_body]
fn random_name(count: usize) -> (name: String)
    ensures
        name@.len() == count,
        forall|i: int| 0 <= i < count ==> is_alphanumeric(#[trigger] name@[i]),
{
    rand::rng().sample_iter(&Alphanumeric).take(count).map(char::from).collect()
}

/// Number of random letters and digits in the name of a temporary file.
pub const TEMP_NAME_LEN: usize = 12;

/// Whether a character is an ASCII letter or digit.
pub open spec fn is_alphanumeric(c: char) -> bool {
    ('0' <= c <= '9') || ('a' <= c <= 'z') || ('A' <= c <= 'Z')
}

/// The name of a temporary file made of a prefix and a random part.
pub fn temp_filename(prefix: Option<&str>, random: &str) -> (name: String)
    ensures
        encode_utf8(name@) == (match prefix {
            Some(p) => p.spec_bytes(),
            None => Seq::empty(),
        }) + random.spec_bytes() + ".temp".spec_bytes(),
{
    let mut name = empty_string();
    match prefix {
        Some(p) => {
            append_str(&mut name, p);
        },
        None => {},
    }
    append_str(&mut name, random);
    append_str(&mut name, ".temp");
    assert(encode_utf8(name@) =~= (match prefix {
        Some(p) => p.spec_bytes(),
        None => Seq::empty(),
    }) + random.spec_bytes() + ".temp".spec_bytes());
    name
}

/// A fresh name for a temporary file: the prefix, twelve random letters
/// and digits, and `.temp`.
pub fn generate_temp_filename(prefix: Option<&str>) -> (name: String)
    ensures
        exists|random: Seq<char>|
            #![trigger encode_utf8(random)]
            random.len() == 12 && (forall|i: int|
                0 <= i < 12 ==> is_alphanumeric(#[trigger] random[i])) && encode_utf8(name@) == (
            match prefix {
                Some(p) => p.spec_bytes(),
                None => Seq::empty(),
            }) + encode_utf8(random) + ".temp".spec_bytes(),
{
    let random = random_name(TEMP_NAME_LEN);
    let name = temp_filename(prefix, random.as_str());
    assert(encode_utf8(name@) == (match prefix {
        Some(p) => p.spec_bytes(),
        None => Seq::empty(),
    }) + encode_utf8(random@) + ".temp".spec_bytes());
    name
}

/// A person with the given name and address who acts at the given time,
/// in UTC.
pub fn person_at(name: &str, email: &str, timestamp: i64) -> (p: Person)
    ensures
        p.name@ == name@,
        p.email@ == email@,
        p.timestamp == timestamp,
        p.timezone@ == "+0000"@,
{
    Person {
        name: name.to_owned(),
        email: email.to_owned(),
        timestamp,
        timezone: "+0000".to_owned(),
    }
}

/// What is known of a file that is to be staged.
pub struct WorkFile {
    /// The parts of the path as it was given.
    pub given: Vec<String>,
    /// The parts of the path in canonical form.
    pub full: Vec<String>,
    /// Whether the path leads to a regular file, links followed.
    pub is_file: bool,
    /// Whether the path itself is a symbolic link.
    pub link_is_symlink: bool,
    /// Whether the path itself is a directory.
    pub link_is_dir: bool,
    /// Whether the path itself is a regular file.
    pub link_is_file: bool,
    /// The permission bits of the path itself.
    pub permissions: u32,
    /// The content of the file.
    pub contents: Vec<u8>,
}

/// Why files cannot be staged.
#[derive(Debug, Clone, Copy, PartialEq, Eq, Structural)]
pub enum AddError {
    /// A file is neither a regular file, nor a directory, nor a link.
    UnsupportedFileType,
    /// A file does not lie under the root of the repository.
    OutsideRepository,
}

/// How far staging has come.
pub struct Staging {
    /// The entries of the index.
    pub index: Seq<EntryModel>,
    /// The positions of the files that were staged, in order.
    pub staged: Seq<int>,
    /// Why staging stopped, where it did.
    pub error: Option<AddError>,
}

/// Whether a path as given lies in the directory of the repository: its
/// first part is `.git`.
pub open spec fn in_git_dir(given: Seq<Seq<u8>>) -> bool {
    given.len() > 0 && given[0] == GIT_DIR.spec_bytes()
}

/// The mode of a file of which this is known.
pub open spec fn mode_of_file(f: WorkFile) -> Option<FileMode> {
    if f.link_is_symlink {
        Some(FileMode::Symlink)
    } else if f.link_is_dir {
        Some(FileMode::Directory)
    } else if f.link_is_file {
        if f.permissions & 0o111 != 0 {
            Some(FileMode::Executable)
        } else {
            Some(FileMode::Normal)
        }
    } else {
        None
    }
}

/// Staging after one more file. A file in the directory of the
/// repository, and a path that leads to no regular file, is passed over.
/// Any other file is staged under its path from the root, with its mode
/// and the identifier of the blob that holds its content. Staging stops
/// at a file that has no mode or does not lie under the root.
pub open spec fn with_file(
    state: Staging,
    root: Seq<Seq<u8>>,
    f: WorkFile,
    position: int,
) -> Staging {
    if state.error is Some || in_git_dir(encodings(f.given@)) || !f.is_file {
        state
    } else if mode_of_file(f) is None {
        Staging { error: Some(AddError::UnsupportedFileType), ..state }
    } else if !begins(root, encodings(f.full@)) {
        Staging { error: Some(AddError::OutsideRepository), ..state }
    } else {
        Staging {
            index: staged(
                state.index,
                EntryModel {
                    mode: mode_of_file(f).unwrap(),
                    path: joined(encodings(f.full@).skip(root.len() as int), 47),
                    hash: sha1_digest(envelope(ObjectType::Blob, f.contents@)),
                },
            ),
            staged: state.staged.push(position),
            error: None,
        }
    }
}

/// Staging after the first `n` files.
pub open spec fn after_files(
    index: Seq<EntryModel>,
    root: Seq<Seq<u8>>,
    files: Seq<WorkFile>,
    n: nat,
) -> Staging
    decreases n,
{
    if n == 0 || n > files.len() {
        Staging { index, staged: Seq::empty(), error: None }
    } else {
        with_file(after_files(index, root, files, (n - 1) as nat), root, files[n - 1], n - 1)
    }
}

/// The positions of a list, as numbers.
pub open spec fn positions(list: Seq<usize>) -> Seq<int> {
    Seq::new(list.len(), |i: int| list[i] as int)
}

/// Stages files: each regular file outside the directory of the
/// repository takes the place of the entry with its path, or joins the
/// entries. Gives back the positions of the files that were staged, whose
/// contents the caller writes to the store as blobs. Staging stops at the
/// first file that cannot be staged; the entries then hold what was
/// staged before it.
pub fn stage_files(entries: &mut Vec<IndexEntry>, repo_root: &[String], files: &[WorkFile]) -> (r:
    Result<Vec<usize>, AddError>)
    ensures
        ({
            let end = after_files(
                entry_models(old(entries)@),
                encodings(repo_root@),
                files@,
                files@.len(),
            );
            &&& entry_models(final(entries)@) == end.index
            &&& match r {
                Ok(list) => end.error is None && positions(list@) == end.staged,
                Err(e) => end.error == Some(e),
            }
        }),
{
    let ghost start = entry_models(entries@);
    let ghost root = encodings(repo_root@);
    let mut list: Vec<usize> = Vec::new();
    let mut i: usize = 0;
    proof {
        assert(positions(list@) =~= Seq::<int>::empty());
    }
    while i < files.len()
        invariant
            i <= files@.len(),
            root == encodings(repo_root@),
            start == entry_models(old(entries)@),
            after_files(start, root, files@, i as nat) == (Staging {
                index: entry_models(entries@),
                staged: positions(list@),
                error: None,
            }),
        decreases files@.len() - i,
    {
        let f = &files[i];
        let ghost before = after_files(start, root, files@, i as nat);
        let ghost given = encodings(f.given@);
        let skip = !f.is_file || (f.given.len() > 0 && bytes_eq(
            f.given[0].as_str().as_bytes(),
            GIT_DIR.as_bytes(),
        ));
        proof {
            if f.given@.len() > 0 {
                assert(given[0] == encode_utf8(f.given@[0]@));
            }
        }
        if !skip {
            let mode = match FileMode::from_file_kind(
                f.link_is_symlink,
                f.link_is_dir,
                f.link_is_file,
                f.permissions,
            ) {
                Some(mode) => mode,
                None => {
                    proof {
                        lemma_staging_stops(start, root, files@, (i + 1) as nat, files@.len());
                    }
                    return Err(AddError::UnsupportedFileType);
                },
            };
            let path = match normalize_git_path(f.full.as_slice(), repo_root) {
                Ok(path) => path,
                Err(_) => {
                    proof {
                        lemma_staging_stops(start, root, files@, (i + 1) as nat, files@.len());
                    }
                    return Err(AddError::OutsideRepository);
                },
            };
            let (hash, _) = hash_object(ObjectType::Blob, f.contents.as_slice());
            stage_entry(entries, IndexEntry { mode, path, hash });
            let ghost so_far = positions(list@);
            list.push(i);
            assert(positions(list@) =~= so_far.push(i as int));
        }
        i += 1;
    }
    Ok(list)
}

/// Once staging has stopped, more files change nothing.
proof fn lemma_staging_stops(
    index: Seq<EntryModel>,
    root: Seq<Seq<u8>>,
    files: Seq<WorkFile>,
    n: nat,
    m: nat,
)
    requires
        n <= m <= files.len(),
        after_files(index, root, files, n).error is Some,
    ensures
        after_files(index, root, files, m) == after_files(index, root, files, n),
    decreases m - n,
{
    if n < m {
        lemma_staging_stops(index, root, files, n, (m - 1) as nat);
    }
}

/// Which files `add` stages.
#[derive(Debug, Clone, Copy, PartialEq, Eq, Structural)]
pub enum AddTargets {
    /// Every file below the current directory.
    Everything,
    /// The files that the arguments name.
    Named,
}

/// Which files `add` stages: every file where there is no argument or the
/// one argument `.`, and the files named otherwise.
pub fn add_targets(args: &[String]) -> (targets: AddTargets)
    ensures
        targets == (if args@.len() == 0 || (args@.len() == 1 && encode_utf8(args@[0]@)
            == ".".spec_bytes()) {
            AddTargets::Everything
        } else {
            AddTargets::Named
        }),
{
    if args.len() == 0 || (args.len() == 1 && bytes_eq(
        args[0].as_str().as_bytes(),
        ".".as_bytes(),
    )) {
        AddTargets::Everything
    } else {
        AddTargets::Named
    }
}

} // verus!
