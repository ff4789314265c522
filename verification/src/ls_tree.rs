//! Listing a tree: how the arguments of `ls-tree` are read, and how the
//! entries of a tree are shown.
use crate::hash::hex_text;
use crate::object::{content_of, kind_name, mode_text, ObjectType};
use crate::text::{append_str, bytes_eq, empty_string, encodings};
use crate::tree::{full_path, kind_of_mode, loaded_tree, Tree, TreeEntry, TreeError, TreeItem};
use vstd::prelude::*;
use vstd::string::*;
use vstd::utf8::*;

verus! {

/// How an entry of a tree is shown.
pub trait TreeEntryPrinter {
    /// The line that shows an entry under a path, as a value.
    spec fn line(&self, entry: TreeItem, kind: ObjectType, path: Seq<u8>) -> Seq<u8>;

    /// The line that shows an entry under a path, with the line feed that
    /// ends it.
    fn print(&self, entry: &TreeEntry, path: &str) -> (out: Vec<u8>)
        ensures
            out@ == self.line(entry@, entry.object_type, path.spec_bytes()),
    ;
}

/// Shows the path only.
pub struct NameOnlyPrinter;

/// Shows the mode, the kind, the identifier and the path.
pub struct DefaultPrinter;

impl TreeEntryPrinter for NameOnlyPrinter {
    open spec fn line(&self, entry: TreeItem, kind: ObjectType, path: Seq<u8>) -> Seq<u8> {
        path.push(10)
    }

    fn print(&self, _entry: &TreeEntry, path: &str) -> (out: Vec<u8>) {
        let mut out = vstd::slice::slice_to_vec(path.as_bytes());
        out.push(10);
        out
    }
}

impl TreeEntryPrinter for DefaultPrinter {
    open spec fn line(&self, entry: TreeItem, kind: ObjectType, path: Seq<u8>) -> Seq<u8> {
        mode_text(entry.mode) + seq![32u8] + kind_name(kind) + seq![32u8] + encode_utf8(
            hex_text(entry.hash),
        ) + seq![9u8] + path + seq![10u8]
    }

    fn print(&self, entry: &TreeEntry, path: &str) -> (out: Vec<u8>) {
        let mut out = vstd::slice::slice_to_vec(entry.mode.as_str().as_bytes());
        out.push(32);
        out.extend_from_slice(entry.object_type.as_str().as_bytes());
        out.push(32);
        out.extend_from_slice(entry.hash.to_hex().as_str().as_bytes());
        out.push(9);
        out.extend_from_slice(path.as_bytes());
        out.push(10);
        assert(out@ =~= self.line(entry@, entry.object_type, path.spec_bytes()));
        out
    }
}

/// The printer that a command asks for.
#[derive(Debug, Clone, Copy, PartialEq, Eq, Structural)]
pub enum PrinterKind {
    NameOnly,
    Default,
}

impl TreeEntryPrinter for PrinterKind {
    open spec fn line(&self, entry: TreeItem, kind: ObjectType, path: Seq<u8>) -> Seq<u8> {
        match self {
            PrinterKind::NameOnly => NameOnlyPrinter.line(entry, kind, path),
            PrinterKind::Default => DefaultPrinter.line(entry, kind, path),
        }
    }

    fn print(&self, entry: &TreeEntry, path: &str) -> (out: Vec<u8>) {
        match self {
            PrinterKind::NameOnly => NameOnlyPrinter.print(entry, path),
            PrinterKind::Default => DefaultPrinter.print(entry, path),
        }
    }
}

/// What `ls-tree` is asked to do.
pub struct LsTreeCommand {
    tree_ish: String,
    base_path: String,
    printer: PrinterKind,
    recursive: bool,
}

/// Why arguments are no command.
#[derive(Debug)]
pub enum CommandParseError {
    MissingArgument(String),
    UnknownFlag(String),
    InvalidArgument(String),
}

/// An error as a mathematical value in which each text stands as its
/// bytes.
pub enum CommandErrorModel {
    MissingArgument(Seq<u8>),
    UnknownFlag(Seq<u8>),
    InvalidArgument(Seq<u8>),
}

impl View for CommandParseError {
    type V = CommandErrorModel;

    open spec fn view(&self) -> CommandErrorModel {
        match self {
            CommandParseError::MissingArgument(s) => CommandErrorModel::MissingArgument(
                encode_utf8(s@),
            ),
            CommandParseError::UnknownFlag(s) => CommandErrorModel::UnknownFlag(encode_utf8(s@)),
            CommandParseError::InvalidArgument(s) => CommandErrorModel::InvalidArgument(
                encode_utf8(s@),
            ),
        }
    }
}

/// The text that tells of an error.
pub open spec fn error_text(e: CommandErrorModel) -> Seq<u8> {
    match e {
        CommandErrorModel::MissingArgument(s) => "Missing argument: ".spec_bytes() + s,
        CommandErrorModel::UnknownFlag(s) => "Unknown flag: ".spec_bytes() + s,
        CommandErrorModel::InvalidArgument(s) => "Invalid argument: ".spec_bytes() + s,
    }
}

impl CommandParseError {
    /// The text that tells of the error.
    pub fn message(&self) -> (text: String)
        ensures
            encode_utf8(text@) == error_text(self@),
    {
        let mut text = empty_string();
        match self {
            CommandParseError::MissingArgument(s) => {
                append_str(&mut text, "Missing argument: ");
                append_str(&mut text, s.as_str());
            },
            CommandParseError::UnknownFlag(s) => {
                append_str(&mut text, "Unknown flag: ");
                append_str(&mut text, s.as_str());
            },
            CommandParseError::InvalidArgument(s) => {
                append_str(&mut text, "Invalid argument: ");
                append_str(&mut text, s.as_str());
            },
        }
        assert(encode_utf8(text@) =~= error_text(self@));
        text
    }
}

/// A command as a mathematical value.
pub struct CommandModel {
    pub tree_ish: Seq<u8>,
    pub base_path: Seq<u8>,
    pub name_only: bool,
    pub recursive: bool,
}

/// What is known after some of the arguments.
pub struct Seen {
    pub tree_ish: Option<Seq<u8>>,
    pub name_only: bool,
}

/// The text that tells of a second tree.
pub open spec fn second_tree_text(first: Seq<u8>, second: Seq<u8>) -> Seq<u8> {
    "Multiple tree-ish values: '".spec_bytes() + first + "' and '".spec_bytes() + second
        + "'".spec_bytes()
}

/// What is known after one more argument: `--name-only` asks for the
/// paths alone, any other argument that begins with a dash is an unknown
/// flag, and any other argument names the tree, of which there can be
/// one only.
pub open spec fn with_arg(seen: Seen, arg: Seq<u8>) -> Result<Seen, CommandErrorModel> {
    if arg == "--name-only".spec_bytes() {
        Ok(Seen { tree_ish: seen.tree_ish, name_only: true })
    } else if crate::commit::is_flag(arg) {
        Err(CommandErrorModel::UnknownFlag(arg))
    } else {
        match seen.tree_ish {
            Some(first) => Err(CommandErrorModel::InvalidArgument(second_tree_text(first, arg))),
            None => Ok(Seen { tree_ish: Some(arg), name_only: seen.name_only }),
        }
    }
}

/// What is known after the first `n` arguments.
pub open spec fn after_args(args: Seq<Seq<u8>>, n: nat) -> Result<Seen, CommandErrorModel>
    decreases n,
{
    if n == 0 || n > args.len() {
        Ok(Seen { tree_ish: None, name_only: false })
    } else {
        match after_args(args, (n - 1) as nat) {
            Ok(seen) => with_arg(seen, args[n - 1]),
            Err(e) => Err(e),
        }
    }
}

/// The command that arguments stand for. It lists the tree named, from
/// the root, without going into the trees below it.
pub open spec fn command_of(args: Seq<Seq<u8>>) -> Result<CommandModel, CommandErrorModel> {
    match after_args(args, args.len()) {
        Err(e) => Err(e),
        Ok(seen) => match seen.tree_ish {
            None => Err(
                CommandErrorModel::MissingArgument("tree-ish (e.g. a hash or HEAD)".spec_bytes()),
            ),
            Some(tree_ish) => Ok(
                CommandModel {
                    tree_ish,
                    base_path: Seq::empty(),
                    name_only: seen.name_only,
                    recursive: false,
                },
            ),
        },
    }
}

impl LsTreeCommand {
    /// The command as a value.
    pub closed spec fn view(&self) -> CommandModel {
        CommandModel {
            tree_ish: encode_utf8(self.tree_ish@),
            base_path: encode_utf8(self.base_path@),
            name_only: self.printer is NameOnly,
            recursive: self.recursive,
        }
    }

    /// The name of the tree to list.
    pub fn tree_ish(&self) -> (s: &str)
        ensures
            s.spec_bytes() == self@.tree_ish,
    {
        self.tree_ish.as_str()
    }

    /// The path under which the entries are shown.
    pub fn base_path(&self) -> (s: &str)
        ensures
            s.spec_bytes() == self@.base_path,
    {
        self.base_path.as_str()
    }

    /// The printer that shows the entries.
    pub fn printer(&self) -> (p: &PrinterKind)
        ensures
            (*p is NameOnly) == self@.name_only,
            forall|entry: TreeItem, kind: ObjectType, path: Seq<u8>|
                #[trigger] p.line(entry, kind, path) == shown(self@.name_only, entry, kind, path),
    {
        &self.printer
    }

    /// Whether the listing goes into the trees below.
    pub fn recursive(&self) -> (yes: bool)
        ensures
            yes == self@.recursive,
    {
        self.recursive
    }
}

/// The line that shows an entry: the path alone, or the mode, the kind,
/// the identifier and the path.
pub open spec fn shown(name_only: bool, entry: TreeItem, kind: ObjectType, path: Seq<u8>) -> Seq<u8> {
    if name_only {
        NameOnlyPrinter.line(entry, kind, path)
    } else {
        DefaultPrinter.line(entry, kind, path)
    }
}

/// What is known after some of the arguments, as texts.
struct SeenText {
    tree_ish: Option<String>,
    name_only: bool,
}

impl SeenText {
    spec fn seen(&self) -> Seen {
        Seen { tree_ish: crate::caps::opt_encoding(self.tree_ish), name_only: self.name_only }
    }

    /// Takes one more argument in.
    fn take(self, arg: &String) -> (r: Result<SeenText, CommandParseError>)
        ensures
            match r {
                Ok(next) => with_arg(self.seen(), encode_utf8(arg@)) == Ok::<
                    Seen,
                    CommandErrorModel,
                >(next.seen()),
                Err(e) => with_arg(self.seen(), encode_utf8(arg@)) == Err::<
                    Seen,
                    CommandErrorModel,
                >(e@),
            },
    {
        let bytes = arg.as_str().as_bytes();
        if bytes_eq(bytes, "--name-only".as_bytes()) {
            return Ok(SeenText { tree_ish: self.tree_ish, name_only: true });
        }
        if bytes.len() > 0 && bytes[0] == 45 {
            return Err(CommandParseError::UnknownFlag(arg.clone()));
        }
        match self.tree_ish {
            Some(first) => {
                let mut text = empty_string();
                append_str(&mut text, "Multiple tree-ish values: '");
                append_str(&mut text, first.as_str());
                append_str(&mut text, "' and '");
                append_str(&mut text, arg.as_str());
                append_str(&mut text, "'");
                assert(encode_utf8(text@) =~= second_tree_text(
                    encode_utf8(first@),
                    encode_utf8(arg@),
                ));
                Err(CommandParseError::InvalidArgument(text))
            },
            None => Ok(SeenText { tree_ish: Some(arg.clone()), name_only: self.name_only }),
        }
    }
}

/// Reads the arguments of `ls-tree`.
pub fn parse_command(args: &[String]) -> (r: Result<LsTreeCommand, CommandParseError>)
    ensures
        match r {
            Ok(cmd) => command_of(encodings(args@)) == Ok::<CommandModel, CommandErrorModel>(cmd@),
            Err(e) => command_of(encodings(args@)) == Err::<CommandModel, CommandErrorModel>(e@),
        },
{
    let ghost all = encodings(args@);
    let mut seen = SeenText { tree_ish: None, name_only: false };
    let mut i: usize = 0;
    while i < args.len()
        invariant
            i <= args@.len(),
            all == encodings(args@),
            after_args(all, i as nat) == Ok::<Seen, CommandErrorModel>(seen.seen()),
        decreases args@.len() - i,
    {
        assert(all[i as int] == encode_utf8(args@[i as int]@));
        match seen.take(&args[i]) {
            Ok(next) => {
                seen = next;
            },
            Err(e) => {
                proof {
                    lemma_args_error(all, (i + 1) as nat, all.len());
                }
                return Err(e);
            },
        }
        i += 1;
    }
    match seen.tree_ish {
        None => {
            let text = "tree-ish (e.g. a hash or HEAD)".to_owned();
            Err(CommandParseError::MissingArgument(text))
        },
        Some(tree_ish) => {
            let printer = if seen.name_only {
                PrinterKind::NameOnly
            } else {
                PrinterKind::Default
            };
            Ok(LsTreeCommand { tree_ish, base_path: empty_string(), printer, recursive: false })
        },
    }
}

/// An error among the first arguments is the error of all arguments.
proof fn lemma_args_error(args: Seq<Seq<u8>>, n: nat, m: nat)
    requires
        n <= m <= args.len(),
        after_args(args, n) is Err,
    ensures
        after_args(args, m) == after_args(args, n),
    decreases m - n,
{
    if n < m {
        lemma_args_error(args, n, (m - 1) as nat);
    }
}

/// Why a tree cannot be listed.
#[derive(Debug)]
pub enum LsTreeError {
    /// The arguments are no command.
    Args(CommandParseError),
    /// The tree cannot be loaded.
    Tree(TreeError),
}

/// An error as a mathematical value.
pub enum LsTreeErrorModel {
    Args(CommandErrorModel),
    Tree(TreeError),
}

impl View for LsTreeError {
    type V = LsTreeErrorModel;

    open spec fn view(&self) -> LsTreeErrorModel {
        match self {
            LsTreeError::Args(e) => LsTreeErrorModel::Args(e@),
            LsTreeError::Tree(e) => LsTreeErrorModel::Tree(*e),
        }
    }
}

/// The lines that show the first `n` entries of a tree under a path.
pub open spec fn listing(items: Seq<TreeItem>, name_only: bool, base: Seq<u8>, n: nat) -> Seq<u8>
    decreases n,
{
    if n == 0 || n > items.len() {
        Seq::empty()
    } else {
        listing(items, name_only, base, (n - 1) as nat) + shown(
            name_only,
            items[n - 1],
            kind_of_mode(items[n - 1].mode),
            full_path(base, items[n - 1].name),
        )
    }
}

/// What `ls-tree` shows, from its arguments and the content of the file
/// that the store holds under the tree named, if there is one.
pub open spec fn ls_tree_output(args: Seq<Seq<u8>>, stored: Option<Seq<u8>>) -> Result<
    Seq<u8>,
    LsTreeErrorModel,
> {
    match command_of(args) {
        Err(e) => Err(LsTreeErrorModel::Args(e)),
        Ok(cmd) => match loaded_tree(cmd.tree_ish, stored) {
            Err(e) => Err(LsTreeErrorModel::Tree(e)),
            Ok(items) => Ok(listing(items, cmd.name_only, cmd.base_path, items.len())),
        },
    }
}

/// Lists a tree: reads the arguments, loads the tree from `stored`, the
/// content of the file that the store holds under the identifier named,
/// and gives back the lines to show.
pub fn run(args: &[String], stored: Option<&[u8]>) -> (r: Result<Vec<u8>, LsTreeError>)
    ensures
        match r {
            Ok(out) => ls_tree_output(
                encodings(args@),
                content_of(stored),
            ) == Ok::<Seq<u8>, LsTreeErrorModel>(out@),
            Err(e) => ls_tree_output(
                encodings(args@),
                content_of(stored),
            ) == Err::<Seq<u8>, LsTreeErrorModel>(e@),
        },
{
    let cmd = match parse_command(args) {
        Ok(cmd) => cmd,
        Err(e) => {
            return Err(LsTreeError::Args(e));
        },
    };
    let tree = match Tree::load_tree_from_hash(cmd.tree_ish(), stored) {
        Ok(tree) => tree,
        Err(e) => {
            return Err(LsTreeError::Tree(e));
        },
    };
    let steps = tree.walk_tree(cmd.base_path(), cmd.recursive());
    let mut out: Vec<u8> = Vec::new();
    let mut i: usize = 0;
    let ghost items = tree@;
    let ghost name_only = cmd@.name_only;
    let ghost base = cmd@.base_path;
    while i < steps.len()
        invariant
            i <= steps@.len(),
            steps@.len() == tree.entries@.len(),
            items == tree@,
            tree.well_formed(),
            name_only == cmd@.name_only,
            base == cmd@.base_path,
            forall|k: int|
                0 <= k < steps@.len() ==> (#[trigger] steps@[k]).index == k && encode_utf8(
                    steps@[k].path@,
                ) == full_path(base, tree@[k].name),
            out@ == listing(items, name_only, base, i as nat),
        decreases steps@.len() - i,
    {
        let step = &steps[i];
        let entry = &tree.entries[step.index];
        assert(entry.well_formed());
        let line = cmd.printer().print(entry, step.path.as_str());
        out.extend_from_slice(line.as_slice());
        i += 1;
    }
    Ok(out)
}

} // verus!
