//! Commit objects: their bytes, and how the arguments of `commit-tree`
//! are read into one.
use crate::hash::{from_hex_result, GitHash, HashError, hex_text};
use crate::object::{
    is_written, ObjectError, ObjectType, ObjectWrite, Person, person_line, write_object,
};
use crate::text::{bytes_eq, ends_with, join_with_space, joined, str_encodings};
use vstd::prelude::*;
use vstd::string::*;
use vstd::utf8::*;

verus! {

/// A commit.
pub struct Commit {
    /// The tree that the commit records.
    pub tree: GitHash,
    /// The commit that this one follows, if it follows one.
    pub parent_tree: Option<GitHash>,
    pub message: String,
    pub committer: Person,
    pub author: Person,
}

/// A commit as a mathematical value in which each text stands as its
/// bytes.
pub struct CommitModel {
    pub tree: Seq<u8>,
    pub parent: Option<Seq<u8>>,
    /// The line of the author.
    pub author: Seq<u8>,
    /// The line of the committer.
    pub committer: Seq<u8>,
    pub message: Seq<u8>,
}

/// The forty hexadecimal digits of an identifier, as bytes.
pub open spec fn hex_bytes(raw: Seq<u8>) -> Seq<u8> {
    encode_utf8(hex_text(raw))
}

/// The payload of a commit: a line for the tree, a line for the parent if
/// there is one, a line for the author and one for the committer, an
/// empty line and the message.
pub open spec fn commit_bytes(c: CommitModel) -> Seq<u8> {
    "tree ".spec_bytes() + hex_bytes(c.tree) + seq![10u8] + (match c.parent {
        Some(parent) => "parent ".spec_bytes() + hex_bytes(parent) + seq![10u8],
        None => Seq::empty(),
    }) + "author ".spec_bytes() + c.author + seq![10u8] + "committer ".spec_bytes() + c.committer
        + seq![10u8, 10u8] + c.message
}

impl View for Commit {
    type V = CommitModel;

    open spec fn view(&self) -> CommitModel {
        CommitModel {
            tree: self.tree@,
            parent: match self.parent_tree {
                Some(parent) => Some(parent@),
                None => None,
            },
            author: self.author.line(),
            committer: self.committer.line(),
            message: encode_utf8(self.message@),
        }
    }
}

impl Commit {
    /// The payload of the commit.
    pub fn to_bytes(&self) -> (content: Vec<u8>)
        ensures
            content@ == commit_bytes(self@),
    {
        let mut content = vstd::slice::slice_to_vec("tree ".as_bytes());
        content.extend_from_slice(self.tree.to_hex().as_str().as_bytes());
        content.push(10);
        match &self.parent_tree {
            Some(parent) => {
                content.extend_from_slice("parent ".as_bytes());
                content.extend_from_slice(parent.to_hex().as_str().as_bytes());
                content.push(10);
            },
            None => {},
        }
        content.extend_from_slice("author ".as_bytes());
        self.author.write_to(&mut content);
        content.push(10);
        content.extend_from_slice("committer ".as_bytes());
        self.committer.write_to(&mut content);
        content.push(10);
        content.push(10);
        content.extend_from_slice(self.message.as_str().as_bytes());
        assert(content@ =~= commit_bytes(self@));
        content
    }
}

/// Prepares the write of a commit to the store: the write of the object
/// of kind commit whose payload is the bytes of the commit.
pub fn process_commit(commit: &Commit) -> (r: Result<ObjectWrite, ObjectError>)
    ensures
        is_written(r, ObjectType::Commit, commit_bytes(commit@)),
{
    let content = commit.to_bytes();
    write_object(ObjectType::Commit, content.as_slice())
}

/// Why arguments are no commit.
#[derive(Debug, Clone, Copy, PartialEq, Eq, Structural)]
pub enum CommitArgsError {
    /// There are no arguments.
    Usage,
    /// No value follows where an identifier is expected.
    MissingHash,
    /// A value is no identifier.
    InvalidHash(HashError),
    /// No `-m` is among the arguments.
    MissingMessage,
}

/// What arguments say of a commit besides its tree.
pub struct CommitArgs {
    pub parent: Option<Seq<u8>>,
    pub message: Option<Seq<u8>>,
}

/// Whether an argument begins with a dash.
pub open spec fn is_flag(arg: Seq<u8>) -> bool {
    arg.len() > 0 && arg[0] == 45
}

/// Position of the first argument at or after `from` that begins with a
/// dash, or the number of arguments.
pub open spec fn next_flag(args: Seq<Seq<u8>>, from: int) -> int
    decreases args.len() - from,
{
    if from < 0 || from >= args.len() {
        args.len() as int
    } else if is_flag(args[from]) {
        from
    } else {
        next_flag(args, from + 1)
    }
}

/// A message made of words: the words with single spaces between them,
/// and a line feed at the end unless they end with one.
pub open spec fn message_of(words: Seq<Seq<u8>>) -> Seq<u8> {
    let text = joined(words, 32);
    if text.len() > 0 && text.last() == 10 {
        text
    } else {
        text.push(10)
    }
}

/// The identifier at a position of the arguments: `MissingHash` where the
/// arguments end before it, and `InvalidHash` where the argument is no
/// identifier.
pub open spec fn hash_at(args: Seq<Seq<u8>>, i: int) -> Result<Seq<u8>, CommitArgsError> {
    if i < 0 || i >= args.len() {
        Err(CommitArgsError::MissingHash)
    } else {
        match from_hex_result(args[i]) {
            Ok(raw) => Ok(raw),
            Err(e) => Err(CommitArgsError::InvalidHash(e)),
        }
    }
}

/// What the arguments from position `i` on say, given what those before
/// said. `-p` takes the next argument as the identifier of the parent.
/// `-m` takes the arguments up to the next one that begins with a dash as
/// the words of the message, and passes over that next one. Any other
/// argument is passed over.
pub open spec fn read_flags(args: Seq<Seq<u8>>, i: int, said: CommitArgs) -> Result<
    CommitArgs,
    CommitArgsError,
>
    decreases args.len() - i,
{
    if i < 0 || i >= args.len() {
        Ok(said)
    } else if args[i] == "-p".spec_bytes() {
        match hash_at(args, i + 1) {
            Err(e) => Err(e),
            Ok(raw) => read_flags(args, i + 2, CommitArgs { parent: Some(raw), message: said.message }),
        }
    } else if args[i] == "-m".spec_bytes() {
        let end = next_flag(args, i + 1);
        let with_message = CommitArgs {
            parent: said.parent,
            message: Some(message_of(args.subrange(i + 1, end))),
        };
        if i + 1 <= end < args.len() {
            read_flags(args, end + 1, with_message)
        } else {
            Ok(with_message)
        }
    } else {
        read_flags(args, i + 1, said)
    }
}

/// The commit that arguments stand for, as far as they decide it: the
/// tree, the parent and the message.
pub open spec fn commit_of_args(args: Seq<Seq<u8>>) -> Result<
    (Seq<u8>, Option<Seq<u8>>, Seq<u8>),
    CommitArgsError,
> {
    if args.len() == 0 {
        Err(CommitArgsError::Usage)
    } else {
        match hash_at(args, 0) {
            Err(e) => Err(e),
            Ok(tree) => match read_flags(args, 1, CommitArgs { parent: None, message: None }) {
                Err(e) => Err(e),
                Ok(said) => match said.message {
                    None => Err(CommitArgsError::MissingMessage),
                    Some(message) => Ok((tree, said.parent, message)),
                },
            },
        }
    }
}

/// `next_flag` is the least position from `from` on that holds a flag.
proof fn lemma_next_flag(args: Seq<Seq<u8>>, from: int, end: int)
    requires
        0 <= from <= end <= args.len(),
        end < args.len() ==> is_flag(args[end]),
        forall|j: int| from <= j < end ==> !is_flag(args[j]),
    ensures
        next_flag(args, from) == end,
    decreases end - from,
{
    if from < end {
        lemma_next_flag(args, from + 1, end);
    }
}

/// The raw bytes inside a result.
pub open spec fn raw_hash(r: Result<GitHash, CommitArgsError>) -> Result<Seq<u8>, CommitArgsError> {
    match r {
        Ok(hash) => Ok(hash@),
        Err(e) => Err(e),
    }
}

/// Reads the identifier at position `i`.
pub fn parse_hash(args: &[String], i: usize) -> (r: Result<GitHash, CommitArgsError>)
    ensures
        raw_hash(r) == hash_at(arg_bytes(args@), i as int),
{
    if i >= args.len() {
        return Err(CommitArgsError::MissingHash);
    }
    assert(arg_bytes(args@)[i as int] == encode_utf8(args@[i as int]@));
    match GitHash::from_hex(args[i].as_str()) {
        Ok(hash) => Ok(hash),
        Err(e) => Err(CommitArgsError::InvalidHash(e)),
    }
}

/// The encodings of a list of arguments.
pub open spec fn arg_bytes(args: Seq<String>) -> Seq<Seq<u8>> {
    crate::text::encodings(args)
}

/// Reads the words of a message from position `from` on: the message and
/// the position of the argument that ends it.
pub fn parse_commit_message(args: &[String], from: usize) -> (r: (String, usize))
    requires
        from <= args@.len(),
    ensures
        r.1 == next_flag(arg_bytes(args@), from as int),
        from <= r.1 <= args@.len(),
        encode_utf8(r.0@) == message_of(arg_bytes(args@).subrange(from as int, r.1 as int)),
{
    let ghost all = arg_bytes(args@);
    let mut parts: Vec<String> = Vec::new();
    let mut i: usize = from;
    let mut found = false;
    proof {
        assert(crate::text::encodings(parts@) =~= all.subrange(from as int, i as int));
    }
    while i < args.len() && !found
        invariant
            from <= i <= args@.len(),
            all == arg_bytes(args@),
            crate::text::encodings(parts@) == all.subrange(from as int, i as int),
            forall|j: int| from <= j < i ==> !is_flag(all[j]),
            found ==> i < args@.len() && is_flag(all[i as int]),
        decreases
                (if found {
                    0int
                } else {
                    args@.len() - i + 1
                }),
    {
        let bytes = args[i].as_str().as_bytes();
        if bytes.len() > 0 && bytes[0] == 45 {
            found = true;
        } else {
            let ghost before = crate::text::encodings(parts@);
            parts.push(args[i].clone());
            assert(crate::text::encodings(parts@) =~= before.push(all[i as int]));
            assert(all.subrange(from as int, i + 1) =~= all.subrange(from as int, i as int).push(
                all[i as int],
            ));
            i += 1;
        }
    }
    proof {
        lemma_next_flag(all, from as int, i as int);
    }
    let mut msg = join_with_space(&parts);
    let text = msg.as_str().as_bytes();
    let ends = text.len() > 0 && text[text.len() - 1] == 10;
    if !ends {
        let ghost before = msg@;
        msg.append("\n");
        proof {
            reveal_strlit("\n");
            is_ascii_chars_encode_utf8("\n"@);
            assert(encode_utf8("\n"@) =~= seq![10u8]);
            crate::text::lemma_encode_concat(before, "\n"@);
            assert(encode_utf8(before) + seq![10u8] =~= encode_utf8(before).push(10));
        }
    }
    (msg, i)
}

/// A copy of a person.
fn copy_person(p: &Person) -> (q: Person)
    ensures
        q.line() == p.line(),
{
    Person {
        name: p.name.clone(),
        email: p.email.clone(),
        timestamp: p.timestamp,
        timezone: p.timezone.clone(),
    }
}

/// The parts inside a result, for comparing it with `commit_of_args`.
pub open spec fn commit_parts(r: Result<Commit, CommitArgsError>) -> Result<
    (Seq<u8>, Option<Seq<u8>>, Seq<u8>),
    CommitArgsError,
> {
    match r {
        Ok(c) => Ok((c@.tree, c@.parent, c@.message)),
        Err(e) => Err(e),
    }
}

/// The options that the flags name, as values.
struct Flags {
    parent: Option<GitHash>,
    message: Option<String>,
}

impl Flags {
    spec fn said(&self) -> CommitArgs {
        CommitArgs {
            parent: match self.parent {
                Some(p) => Some(p@),
                None => None,
            },
            message: crate::caps::opt_encoding(self.message),
        }
    }
}

/// Reads the flags from position 1 on.
fn parse_flags(args: &[String]) -> (r: Result<Flags, CommitArgsError>)
    requires
        args@.len() > 0,
    ensures
        match r {
            Ok(flags) => read_flags(
                arg_bytes(args@),
                1,
                CommitArgs { parent: None, message: None },
            ) == Ok::<CommitArgs, CommitArgsError>(flags.said()),
            Err(e) => read_flags(arg_bytes(args@), 1, CommitArgs { parent: None, message: None })
                == Err::<CommitArgs, CommitArgsError>(e),
        },
{
    let ghost all = arg_bytes(args@);
    let ghost total = read_flags(all, 1, CommitArgs { parent: None, message: None });
    let mut flags = Flags { parent: None, message: None };
    let mut i: usize = 1;
    while i < args.len()
        invariant
            1 <= i,
            all == arg_bytes(args@),
            total == read_flags(all, 1, CommitArgs { parent: None, message: None }),
            total == read_flags(all, i as int, flags.said()),
        decreases args@.len() - i,
    {
        let arg = args[i].as_str().as_bytes();
        assert(arg@ == all[i as int]);
        if bytes_eq(arg, "-p".as_bytes()) {
            let hash = match parse_hash(args, i + 1) {
                Ok(hash) => hash,
                Err(e) => {
                    return Err(e);
                },
            };
            flags.parent = Some(hash);
            i = i + 2;
        } else if bytes_eq(arg, "-m".as_bytes()) {
            let (message, end) = parse_commit_message(args, i + 1);
            flags.message = Some(message);
            if end >= args.len() {
                i = args.len();
            } else {
                i = end + 1;
            }
        } else {
            i += 1;
        }
    }
    Ok(flags)
}

/// Reads the arguments of `commit-tree`: the tree, then `-p` with a
/// parent and `-m` with the words of a message, in any order. The person
/// given is both author and committer.
pub fn parse_commit(args: &[String], author: Person) -> (r: Result<Commit, CommitArgsError>)
    ensures
        commit_parts(r) == commit_of_args(arg_bytes(args@)),
        r is Ok ==> r.unwrap()@.author == author.line() && r.unwrap()@.committer == author.line(),
{
    if args.len() == 0 {
        return Err(CommitArgsError::Usage);
    }
    let tree = match parse_hash(args, 0) {
        Ok(hash) => hash,
        Err(e) => {
            return Err(e);
        },
    };
    let flags = match parse_flags(args) {
        Ok(flags) => flags,
        Err(e) => {
            return Err(e);
        },
    };
    let message = match flags.message {
        Some(message) => message,
        None => {
            return Err(CommitArgsError::MissingMessage);
        },
    };
    let committer = copy_person(&author);
    Ok(Commit { tree, parent_tree: flags.parent, message, committer, author })
}

} // verus!
