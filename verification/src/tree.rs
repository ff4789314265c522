//! Tree objects: the entries of one directory, their order, their bytes,
//! and how the trees of a whole index are built.
use crate::hash::{GitHash, HASH_SIZE_BYTES, sha1_digest};
use crate::index::{distinct_paths, entry_models, EntryModel, IndexEntry};
use crate::object::{
    content_of, envelope, FileMode, hash_object, lemma_mode_text, mode_of_octal, mode_text,
    ObjectError, ObjectType, read_object, read_result,
};
use crate::text::{
    append_str, ascii_edge, bytes_le, copy_range, empty_string, find, find_byte,
    lemma_ascii_edge_is_boundary, lemma_find, lemma_find_unique, lemma_lex_total,
    lemma_lex_transitive, lemma_prefix_is_boundary, lex_le, starts_with, string_from_utf8,
    substr_between,
};
use vstd::prelude::*;
use vstd::string::*;
use vstd::utf8::*;

verus! {

/// One entry of a tree.
pub struct TreeEntry {
    pub mode: FileMode,
    /// The kind of object that the entry points to, which follows from
    /// the mode.
    pub object_type: ObjectType,
    pub hash: GitHash,
    pub name: String,
}

/// The entries of one directory.
pub struct Tree {
    pub entries: Vec<TreeEntry>,
}

/// An entry of a tree as a mathematical value in which the name stands as
/// its bytes.
pub struct TreeItem {
    pub mode: FileMode,
    pub name: Seq<u8>,
    pub hash: Seq<u8>,
}

/// The kind of object that an entry of a given mode points to.
pub open spec fn kind_of_mode(mode: FileMode) -> ObjectType {
    if mode == FileMode::Directory {
        ObjectType::Tree
    } else {
        ObjectType::Blob
    }
}

impl View for TreeEntry {
    type V = TreeItem;

    open spec fn view(&self) -> TreeItem {
        TreeItem { mode: self.mode, name: encode_utf8(self.name@), hash: self.hash@ }
    }
}

impl TreeEntry {
    /// Whether the kind of object is the one that follows from the mode.
    pub open spec fn well_formed(&self) -> bool {
        self.object_type == kind_of_mode(self.mode)
    }
}

/// The entries of a list, as values.
pub open spec fn items_of(entries: Seq<TreeEntry>) -> Seq<TreeItem> {
    Seq::new(entries.len(), |i: int| entries[i]@)
}

impl View for Tree {
    type V = Seq<TreeItem>;

    open spec fn view(&self) -> Seq<TreeItem> {
        items_of(self.entries@)
    }
}

impl Tree {
    /// Whether every entry is well formed.
    pub open spec fn well_formed(&self) -> bool {
        forall|i: int| 0 <= i < self.entries@.len() ==> (#[trigger] self.entries@[i]).well_formed()
    }
}

/// The name by which an entry is ordered: its name, followed by a slash
/// where the entry is a directory.
pub open spec fn sort_key(item: TreeItem) -> Seq<u8> {
    if item.mode == FileMode::Directory {
        item.name.push(47)
    } else {
        item.name
    }
}

/// Whether the entries stand in the canonical order: each before or equal
/// to every later one when their sort keys are compared byte by byte.
pub open spec fn ordered(items: Seq<TreeItem>) -> bool {
    forall|i: int, j: int|
        0 <= i < j < items.len() ==> lex_le(sort_key(#[trigger] items[i]), sort_key(#[trigger] items[j]))
}

/// A sorted list with one more entry: it goes behind the last entry that
/// does not come after it.
pub open spec fn inserted(items: Seq<TreeItem>, item: TreeItem) -> Seq<TreeItem>
    decreases items.len(),
{
    if items.len() == 0 {
        seq![item]
    } else if lex_le(sort_key(items.last()), sort_key(item)) {
        items.push(item)
    } else {
        inserted(items.drop_last(), item).push(items.last())
    }
}

/// The entries in the canonical order; entries with equal sort keys keep
/// the order in which they were given.
pub open spec fn sorted(items: Seq<TreeItem>) -> Seq<TreeItem>
    decreases items.len(),
{
    if items.len() == 0 {
        Seq::empty()
    } else {
        inserted(sorted(items.drop_last()), items.last())
    }
}

/// Inserting keeps the entries and adds the new one.
pub proof fn lemma_inserted_holds(items: Seq<TreeItem>, item: TreeItem)
    ensures
        inserted(items, item).to_multiset() == items.to_multiset().insert(item),
        inserted(items, item).len() == items.len() + 1,
    decreases items.len(),
{
    broadcast use vstd::seq_lib::group_to_multiset_ensures;

    if items.len() == 0 {
        assert(items =~= Seq::<TreeItem>::empty());
        assert(seq![item] =~= Seq::<TreeItem>::empty().push(item));
    } else if lex_le(sort_key(items.last()), sort_key(item)) {
    } else {
        lemma_inserted_holds(items.drop_last(), item);
        assert(items =~= items.drop_last().push(items.last()));
        assert(inserted(items, item).to_multiset() =~= items.to_multiset().insert(item));
    }
}

/// Every entry of a list with one inserted is that one or stood in the
/// list.
proof fn lemma_inserted_members(items: Seq<TreeItem>, item: TreeItem, k: int)
    requires
        0 <= k < inserted(items, item).len(),
    ensures
        inserted(items, item)[k] == item || exists|j: int|
            0 <= j < items.len() && items[j] == inserted(items, item)[k],
    decreases items.len(),
{
    lemma_inserted_holds(items, item);
    if items.len() == 0 {
    } else if lex_le(sort_key(items.last()), sort_key(item)) {
        if k < items.len() {
            assert(items[k] == inserted(items, item)[k]);
        }
    } else {
        let init = items.drop_last();
        lemma_inserted_holds(init, item);
        if k < inserted(init, item).len() {
            lemma_inserted_members(init, item, k);
            if inserted(init, item)[k] != item {
                let j = choose|j: int| 0 <= j < init.len() && init[j] == inserted(init, item)[k];
                assert(items[j] == inserted(items, item)[k]);
            }
        } else {
            assert(items[items.len() - 1] == inserted(items, item)[k]);
        }
    }
}

/// Inserting into an ordered list gives an ordered list.
pub proof fn lemma_inserted_ordered(items: Seq<TreeItem>, item: TreeItem)
    requires
        ordered(items),
    ensures
        ordered(inserted(items, item)),
    decreases items.len(),
{
    let out = inserted(items, item);
    lemma_inserted_holds(items, item);
    if items.len() == 0 {
    } else if lex_le(sort_key(items.last()), sort_key(item)) {
        assert forall|i: int, j: int| 0 <= i < j < out.len() implies lex_le(
            sort_key(#[trigger] out[i]),
            sort_key(#[trigger] out[j]),
        ) by {
            if j < items.len() {
                assert(out[i] == items[i] && out[j] == items[j]);
            } else {
                assert(out[i] == items[i]);
                if i < items.len() - 1 {
                    assert(lex_le(sort_key(items[i]), sort_key(items[items.len() - 1])));
                    lemma_lex_transitive(
                        sort_key(items[i]),
                        sort_key(items.last()),
                        sort_key(item),
                    );
                }
            }
        }
    } else {
        let init = items.drop_last();
        let last = items.last();
        assert(ordered(init)) by {
            assert forall|i: int, j: int| 0 <= i < j < init.len() implies lex_le(
                sort_key(#[trigger] init[i]),
                sort_key(#[trigger] init[j]),
            ) by {
                assert(init[i] == items[i] && init[j] == items[j]);
            }
        }
        lemma_inserted_ordered(init, item);
        let mid = inserted(init, item);
        lemma_inserted_holds(init, item);
        lemma_lex_total(sort_key(last), sort_key(item));
        assert forall|i: int, j: int| 0 <= i < j < out.len() implies lex_le(
            sort_key(#[trigger] out[i]),
            sort_key(#[trigger] out[j]),
        ) by {
            if j < mid.len() {
                assert(out[i] == mid[i] && out[j] == mid[j]);
            } else {
                assert(out[j] == last);
                assert(out[i] == mid[i]);
                lemma_inserted_members(init, item, i);
                if mid[i] != item {
                    let k = choose|k: int| 0 <= k < init.len() && init[k] == mid[i];
                    assert(items[k] == init[k]);
                    assert(lex_le(sort_key(items[k]), sort_key(items[items.len() - 1])));
                }
            }
        }
    }
}

/// Tree-ordering law: the sorted entries stand in the canonical order,
/// and they are the entries given, each as often as it was given.
pub proof fn law_sorted_is_ordered(items: Seq<TreeItem>)
    ensures
        ordered(sorted(items)),
        sorted(items).to_multiset() == items.to_multiset(),
        sorted(items).len() == items.len(),
    decreases items.len(),
{
    broadcast use vstd::seq_lib::group_to_multiset_ensures;

    if items.len() == 0 {
        assert(items =~= Seq::<TreeItem>::empty());
    } else {
        law_sorted_is_ordered(items.drop_last());
        lemma_inserted_ordered(sorted(items.drop_last()), items.last());
        lemma_inserted_holds(sorted(items.drop_last()), items.last());
        assert(items =~= items.drop_last().push(items.last()));
    }
}

/// The place of a new entry in a sorted list is behind the last entry that
/// does not come after it.
proof fn lemma_inserted_at(items: Seq<TreeItem>, item: TreeItem, p: int)
    requires
        0 <= p <= items.len(),
        p > 0 ==> lex_le(sort_key(items[p - 1]), sort_key(item)),
        forall|j: int| p <= j < items.len() ==> !lex_le(sort_key(items[j]), sort_key(item)),
    ensures
        inserted(items, item) == items.insert(p, item),
    decreases items.len(),
{
    if items.len() == 0 {
        assert(items.insert(p, item) =~= seq![item]);
    } else if p == items.len() {
        assert(items.insert(p, item) =~= items.push(item));
    } else {
        let init = items.drop_last();
        assert(!lex_le(sort_key(items[items.len() - 1]), sort_key(item)));
        assert forall|j: int| p <= j < init.len() implies !lex_le(
            sort_key(init[j]),
            sort_key(item),
        ) by {
            assert(init[j] == items[j]);
        }
        if p > 0 {
            assert(init[p - 1] == items[p - 1]);
        }
        lemma_inserted_at(init, item, p);
        assert(init.insert(p, item).push(items.last()) =~= items.insert(p, item));
    }
}

/// The sort key of an entry.
fn key_of(entry: &TreeEntry) -> (key: Vec<u8>)
    ensures
        key@ == sort_key(entry@),
{
    let mut key = vstd::slice::slice_to_vec(entry.name.as_str().as_bytes());
    if entry.mode.same(&FileMode::Directory) {
        key.push(47);
    }
    key
}

/// Puts an entry into a sorted list at its place.
fn insert_entry(list: &mut Vec<TreeEntry>, entry: TreeEntry)
    ensures
        items_of(final(list)@) == inserted(items_of(old(list)@), entry@),
        final(list)@.len() == old(list)@.len() + 1,
        forall|i: int|
            0 <= i < final(list)@.len() ==> (#[trigger] final(list)@[i] == entry || exists|j: int|
                0 <= j < old(list)@.len() && old(list)@[j] == final(list)@[i]),
{
    let key = key_of(&entry);
    let ghost items = items_of(list@);
    let mut p: usize = list.len();
    let mut found = false;
    while p > 0 && !found
        invariant
            p <= list@.len(),
            list@ == old(list)@,
            items == items_of(list@),
            key@ == sort_key(entry@),
            forall|j: int| p <= j < items.len() ==> !lex_le(sort_key(items[j]), sort_key(entry@)),
            found ==> p > 0 && lex_le(sort_key(items[p - 1]), sort_key(entry@)),
        decreases
                (if found {
                    0int
                } else {
                    p as int + 1
                }),
    {
        let other = key_of(&list[p - 1]);
        if bytes_le(other.as_slice(), key.as_slice()) {
            found = true;
        } else {
            p -= 1;
        }
    }
    proof {
        lemma_inserted_at(items, entry@, p as int);
    }
    let ghost e = entry;
    list.insert(p, entry);
    assert(items_of(list@) =~= items.insert(p as int, e@));
    assert forall|i: int| 0 <= i < list@.len() implies (#[trigger] list@[i] == e || exists|j: int|
        0 <= j < old(list)@.len() && old(list)@[j] == list@[i]) by {
        if i < p {
            assert(old(list)@[i] == list@[i]);
        } else if i > p {
            assert(old(list)@[i - 1] == list@[i]);
        }
    }
}

/// The bytes of one entry: the octal digits of the mode, a space, the
/// name, a NUL and the raw identifier.
pub open spec fn item_bytes(item: TreeItem) -> Seq<u8> {
    mode_text(item.mode) + seq![32u8] + item.name + seq![0u8] + item.hash
}

/// The payload of a tree: the bytes of its entries, one after the other.
pub open spec fn tree_bytes(items: Seq<TreeItem>) -> Seq<u8>
    decreases items.len(),
{
    if items.len() == 0 {
        Seq::empty()
    } else {
        tree_bytes(items.drop_last()) + item_bytes(items.last())
    }
}

impl Tree {
    /// The payload of the tree, with the entries in the order in which
    /// they stand.
    pub fn to_bytes(&self) -> (content: Vec<u8>)
        ensures
            content@ == tree_bytes(self@),
    {
        let mut content: Vec<u8> = Vec::new();
        let mut i: usize = 0;
        proof {
            assert(self@.take(0) =~= Seq::<TreeItem>::empty());
        }
        while i < self.entries.len()
            invariant
                i <= self.entries@.len(),
                content@ == tree_bytes(self@.take(i as int)),
            decreases self.entries@.len() - i,
        {
            let entry = &self.entries[i];
            proof {
                assert(self@.take(i + 1).drop_last() =~= self@.take(i as int));
                assert(self@.take(i + 1).last() == entry@);
            }
            let ghost before = content@;
            content.extend_from_slice(entry.mode.as_str().as_bytes());
            content.push(32);
            content.extend_from_slice(entry.name.as_str().as_bytes());
            content.push(0);
            content.extend_from_slice(entry.hash.as_bytes());
            assert(content@ =~= before + item_bytes(entry@));
            i += 1;
        }
        assert(self@.take(i as int) =~= self@);
        content
    }
}

/// Why bytes are no tree, or why no tree can be loaded.
#[derive(Debug, Clone, Copy, PartialEq, Eq, Structural)]
pub enum TreeError {
    /// The object cannot be read.
    Object(ObjectError),
    /// The object is not a tree.
    NotATree,
    /// No space ends the mode of an entry.
    MissingSpace,
    /// The mode of an entry is not valid UTF-8.
    InvalidModeText,
    /// The mode of an entry is no octal numeral of one of the four modes.
    UnknownMode,
    /// No NUL ends the name of an entry.
    MissingNull,
    /// The name of an entry is not valid UTF-8.
    InvalidName,
    /// Fewer than twenty bytes follow the name of an entry.
    UnexpectedEof,
}

/// What reading an entry from the head of `rest` gives: the entry and the
/// number of bytes taken.
pub open spec fn item_at(rest: Seq<u8>) -> Result<(TreeItem, int), TreeError> {
    let space = find(rest, 32);
    let mode_part = rest.subrange(0, space);
    if space == rest.len() {
        Err(TreeError::MissingSpace)
    } else if !valid_utf8(mode_part) {
        Err(TreeError::InvalidModeText)
    } else if mode_of_octal(mode_part) is None {
        Err(TreeError::UnknownMode)
    } else {
        let after = rest.skip(space + 1);
        let nul = find(after, 0);
        if nul == after.len() {
            Err(TreeError::MissingNull)
        } else if !valid_utf8(after.subrange(0, nul)) {
            Err(TreeError::InvalidName)
        } else if after.len() - nul - 1 < HASH_SIZE_BYTES {
            Err(TreeError::UnexpectedEof)
        } else {
            Ok(
                (
                    TreeItem {
                        mode: mode_of_octal(mode_part).unwrap(),
                        name: after.subrange(0, nul),
                        hash: after.subrange(nul + 1, nul + 21),
                    },
                    space + nul + 22,
                ),
            )
        }
    }
}

/// What reading the payload of a tree gives: its entries, in the order in
/// which they stand.
pub open spec fn parsed_tree(bytes: Seq<u8>) -> Result<Seq<TreeItem>, TreeError>
    decreases bytes.len(),
{
    if bytes.len() == 0 {
        Ok(Seq::empty())
    } else {
        match item_at(bytes) {
            Err(e) => Err(e),
            Ok((item, n)) => if 0 < n <= bytes.len() {
                match parsed_tree(bytes.skip(n)) {
                    Err(e) => Err(e),
                    Ok(more) => Ok(seq![item] + more),
                }
            } else {
                Err(TreeError::UnexpectedEof)
            },
        }
    }
}

/// A result of reading further entries, with the entries read before put
/// in front.
pub open spec fn items_after(done: Seq<TreeItem>, more: Result<Seq<TreeItem>, TreeError>) -> Result<
    Seq<TreeItem>,
    TreeError,
> {
    match more {
        Ok(list) => Ok(done + list),
        Err(e) => Err(e),
    }
}

/// Reading a non-empty payload is reading one entry and then the rest.
proof fn lemma_parse_step(done: Seq<TreeItem>, rest: Seq<u8>)
    requires
        rest.len() > 0,
    ensures
        items_after(done, parsed_tree(rest)) == (match item_at(rest) {
            Err(e) => Err(e),
            Ok((item, n)) => if 0 < n <= rest.len() {
                items_after(done.push(item), parsed_tree(rest.skip(n)))
            } else {
                Err(TreeError::UnexpectedEof)
            },
        }),
{
    match item_at(rest) {
        Err(e) => {},
        Ok((item, n)) => {
            if 0 < n <= rest.len() {
                match parsed_tree(rest.skip(n)) {
                    Err(e) => {},
                    Ok(more) => {
                        assert(done + (seq![item] + more) =~= done.push(item) + more);
                    },
                }
            }
        },
    }
}

/// Reads the entry that begins at `at`: the entry and the position after
/// it.
fn read_item(bytes: &[u8], at: usize) -> (r: Result<(TreeEntry, usize), TreeError>)
    requires
        at <= bytes@.len(),
    ensures
        match r {
            Ok((entry, next)) => item_at(bytes@.skip(at as int)) == Ok::<(TreeItem, int), TreeError>(
                (entry@, next - at),
            ) && at < next <= bytes@.len() && entry.well_formed(),
            Err(e) => item_at(bytes@.skip(at as int)) == Err::<(TreeItem, int), TreeError>(e),
        },
{
    let rest = vstd::slice::slice_subrange(bytes, at, bytes.len());
    assert(rest@ =~= bytes@.skip(at as int));
    let space = find_byte(rest, 32);
    if space == rest.len() {
        return Err(TreeError::MissingSpace);
    }
    let mode_part = vstd::slice::slice_subrange(rest, 0, space);
    if string_from_utf8(vstd::slice::slice_to_vec(mode_part)).is_none() {
        return Err(TreeError::InvalidModeText);
    }
    let mode = match FileMode::from_octal(mode_part) {
        Some(mode) => mode,
        None => {
            return Err(TreeError::UnknownMode);
        },
    };
    let after = vstd::slice::slice_subrange(rest, space + 1, rest.len());
    assert(after@ =~= rest@.skip(space + 1));
    let nul = find_byte(after, 0);
    if nul == after.len() {
        return Err(TreeError::MissingNull);
    }
    let name = match string_from_utf8(copy_range(after, 0, nul)) {
        Some(name) => name,
        None => {
            return Err(TreeError::InvalidName);
        },
    };
    proof {
        decode_utf8_encode_utf8(after@.subrange(0, nul as int));
    }
    if after.len() - nul - 1 < HASH_SIZE_BYTES {
        return Err(TreeError::UnexpectedEof);
    }
    let hash = GitHash::from_raw_bytes(
        vstd::slice::slice_subrange(after, nul + 1, nul + 1 + HASH_SIZE_BYTES),
    );
    let object_type = ObjectType::from_mode(&mode);
    Ok((TreeEntry { mode, object_type, hash, name }, at + space + nul + 22))
}

/// The entries inside a result, as values.
pub open spec fn tree_items_of(r: Result<Tree, TreeError>) -> Result<Seq<TreeItem>, TreeError> {
    match r {
        Ok(tree) => Ok(tree@),
        Err(e) => Err(e),
    }
}

/// What loading a tree gives, from the identifier asked for and the
/// content of its file in the store, if there is one.
pub open spec fn loaded_tree(hash_text: Seq<u8>, stored: Option<Seq<u8>>) -> Result<
    Seq<TreeItem>,
    TreeError,
> {
    match read_result(hash_text, stored) {
        Err(e) => Err(TreeError::Object(e)),
        Ok((kind, content)) => if kind != ObjectType::Tree {
            Err(TreeError::NotATree)
        } else {
            parsed_tree(content)
        },
    }
}

impl Tree {
    /// Reads the payload of a tree.
    pub fn parse(content: &[u8]) -> (r: Result<Tree, TreeError>)
        ensures
            tree_items_of(r) == parsed_tree(content@),
            r is Ok ==> r.unwrap().well_formed(),
    {
        let mut entries: Vec<TreeEntry> = Vec::new();
        let mut at: usize = 0;
        let ghost total = parsed_tree(content@);
        proof {
            assert(content@.skip(0) =~= content@);
            assert(items_of(entries@) =~= Seq::<TreeItem>::empty());
            match total {
                Ok(list) => {
                    assert(Seq::<TreeItem>::empty() + list =~= list);
                },
                Err(_) => {},
            }
        }
        while at < content.len()
            invariant
                at <= content@.len(),
                total == parsed_tree(content@),
                total == items_after(items_of(entries@), parsed_tree(content@.skip(at as int))),
                forall|i: int| 0 <= i < entries@.len() ==> (#[trigger] entries@[i]).well_formed(),
            decreases content@.len() - at,
        {
            let ghost done = items_of(entries@);
            proof {
                lemma_parse_step(done, content@.skip(at as int));
            }
            match read_item(content, at) {
                Ok((entry, next)) => {
                    proof {
                        assert(content@.skip(at as int).skip(next - at) =~= content@.skip(
                            next as int,
                        ));
                    }
                    let ghost item = entry@;
                    entries.push(entry);
                    assert(items_of(entries@) =~= done.push(item));
                    at = next;
                },
                Err(e) => {
                    return Err(e);
                },
            }
        }
        proof {
            assert(items_of(entries@) + Seq::<TreeItem>::empty() =~= items_of(entries@));
        }
        Ok(Tree { entries })
    }

    /// Loads the tree with the given identifier: `stored` is the content
    /// of the file that the store holds under the identifier, or `None`
    /// where it holds none.
    pub fn load_tree_from_hash(hash: &str, stored: Option<&[u8]>) -> (r: Result<Tree, TreeError>)
        ensures
            tree_items_of(r) == loaded_tree(
                hash.spec_bytes(),
                content_of(stored),
            ),
            r is Ok ==> r.unwrap().well_formed(),
    {
        match read_object(hash, stored) {
            Err(e) => Err(TreeError::Object(e)),
            Ok((kind, content)) => {
                if !kind.same(&ObjectType::Tree) {
                    Err(TreeError::NotATree)
                } else {
                    Self::parse(content.as_slice())
                }
            },
        }
    }
}

/// What scanning the entries of an index gives for one directory: the
/// entries of its tree in the order in which they are met, and the
/// payloads of the trees below it.
pub struct Scan {
    pub items: Seq<TreeItem>,
    pub trees: Seq<Seq<u8>>,
}

/// The length of the longest path of a list.
pub open spec fn longest_path(entries: Seq<EntryModel>) -> int
    decreases entries.len(),
{
    if entries.len() == 0 {
        0
    } else if longest_path(entries.drop_last()) >= entries.last().path.len() {
        longest_path(entries.drop_last())
    } else {
        entries.last().path.len() as int
    }
}

/// No path is longer than the longest.
pub proof fn lemma_longest_path(entries: Seq<EntryModel>, i: int)
    requires
        0 <= i < entries.len(),
    ensures
        entries[i].path.len() <= longest_path(entries),
    decreases entries.len(),
{
    if i < entries.len() - 1 {
        lemma_longest_path(entries.drop_last(), i);
    }
}

/// What follows the prefix in a path that begins with it.
pub open spec fn below(prefix: Seq<u8>, path: Seq<u8>) -> Seq<u8> {
    path.skip(prefix.len() as int)
}

/// Whether a path names a file directly in the directory of the prefix:
/// it begins with the prefix and no slash follows.
pub open spec fn is_file_in(prefix: Seq<u8>, path: Seq<u8>) -> bool {
    prefix.is_prefix_of(path) && find(below(prefix, path), 47) == below(prefix, path).len()
}

/// Whether a path leads into a directory below that of the prefix: it
/// begins with the prefix and a slash follows.
pub open spec fn is_dir_in(prefix: Seq<u8>, path: Seq<u8>) -> bool {
    prefix.is_prefix_of(path) && find(below(prefix, path), 47) < below(prefix, path).len()
}

/// The name of the directory below the prefix into which a path leads:
/// what stands between the prefix and the first slash after it.
pub open spec fn dir_name(prefix: Seq<u8>, path: Seq<u8>) -> Seq<u8> {
    below(prefix, path).take(find(below(prefix, path), 47))
}

/// The prefix of that directory: the path up to and including the first
/// slash after the prefix.
pub open spec fn dir_prefix(prefix: Seq<u8>, path: Seq<u8>) -> Seq<u8> {
    path.take(prefix.len() + find(below(prefix, path), 47) + 1)
}

/// Whether one of the first `n` paths begins with `p`.
pub open spec fn seen(entries: Seq<EntryModel>, n: int, p: Seq<u8>) -> bool {
    exists|j: int| 0 <= j < n && j < entries.len() && p.is_prefix_of(#[trigger] entries[j].path)
}

/// The scan of the first `n` entries for the directory of the prefix. A
/// file in the directory gives an entry with its mode, the rest of its
/// path and its identifier. The first path that leads into a directory
/// below gives an entry for that directory, whose identifier is that of
/// the tree built from all entries under the longer prefix. Every other
/// entry gives nothing.
pub open spec fn scan(entries: Seq<EntryModel>, prefix: Seq<u8>, n: nat) -> Scan
    decreases longest_path(entries) - prefix.len(), n,
{
    if n == 0 || n > entries.len() {
        Scan { items: Seq::empty(), trees: Seq::empty() }
    } else {
        let before = scan(entries, prefix, (n - 1) as nat);
        let e = entries[n - 1];
        if is_file_in(prefix, e.path) {
            Scan {
                items: before.items.push(
                    TreeItem { mode: e.mode, name: below(prefix, e.path), hash: e.hash },
                ),
                trees: before.trees,
            }
        } else if is_dir_in(prefix, e.path) && !seen(entries, n - 1, dir_prefix(prefix, e.path)) {
            let child = dir_prefix(prefix, e.path);
            proof {
                lemma_longest_path(entries, n - 1);
                lemma_find(below(prefix, e.path), 47);
            }
            let sub = scan(entries, child, entries.len());
            let payload = tree_bytes(sorted(sub.items));
            Scan {
                items: before.items.push(
                    TreeItem {
                        mode: FileMode::Directory,
                        name: dir_name(prefix, e.path),
                        hash: sha1_digest(envelope(ObjectType::Tree, payload)),
                    },
                ),
                trees: before.trees + sub.trees.push(payload),
            }
        } else {
            before
        }
    }
}

/// The payload of the tree of the directory of the prefix: the entries
/// that the scan of all entries gives, in the canonical order.
pub open spec fn tree_payload(entries: Seq<EntryModel>, prefix: Seq<u8>) -> Seq<u8> {
    tree_bytes(sorted(scan(entries, prefix, entries.len()).items))
}

/// The identifier of that tree: the digest of its envelope.
pub open spec fn tree_id(entries: Seq<EntryModel>, prefix: Seq<u8>) -> Seq<u8> {
    sha1_digest(envelope(ObjectType::Tree, tree_payload(entries, prefix)))
}

/// The payloads of that tree and of all trees below it, each tree after
/// the trees below it.
pub open spec fn all_trees(entries: Seq<EntryModel>, prefix: Seq<u8>) -> Seq<Seq<u8>> {
    scan(entries, prefix, entries.len()).trees.push(tree_payload(entries, prefix))
}

/// The trees of an index as built: the identifier of the root and the
/// payloads of all trees.
pub struct TreeBuild {
    /// The identifier of the tree of the directory asked for.
    pub hash: GitHash,
    /// The payloads of the trees to write, each after the trees below it;
    /// the last is that of the directory asked for.
    pub trees: Vec<Vec<u8>>,
}

/// The payloads of a list, as values.
pub open spec fn payloads(trees: Seq<Vec<u8>>) -> Seq<Seq<u8>> {
    Seq::new(trees.len(), |i: int| trees[i]@)
}

/// Whether one of the first `n` paths begins with `p`.
fn seen_before(entries: &[IndexEntry], n: usize, p: &[u8]) -> (yes: bool)
    requires
        n <= entries@.len(),
    ensures
        yes == seen(entry_models(entries@), n as int, p@),
{
    let ghost models = entry_models(entries@);
    let mut j: usize = 0;
    while j < n
        invariant
            j <= n <= entries@.len(),
            models == entry_models(entries@),
            forall|k: int| 0 <= k < j ==> !p@.is_prefix_of(#[trigger] models[k].path),
        decreases n - j,
    {
        if starts_with(entries[j].path.as_str().as_bytes(), p) {
            assert(p@.is_prefix_of(models[j as int].path));
            return true;
        }
        j += 1;
    }
    false
}

/// The entry of a file directly in the directory of the prefix.
fn file_entry(entry: &IndexEntry, prefix: &str) -> (item: TreeEntry)
    requires
        is_file_in(prefix.spec_bytes(), entry@.path),
    ensures
        item@ == (TreeItem {
            mode: entry@.mode,
            name: below(prefix.spec_bytes(), entry@.path),
            hash: entry@.hash,
        }),
        item.well_formed(),
{
    let path = entry.path.as_str();
    let ghost p = prefix.spec_bytes();
    let ghost all = entry@.path;
    proof {
        encode_utf8_valid_utf8(prefix@);
        encode_utf8_valid_utf8(entry.path@);
        assert(all =~= p + below(p, all));
        lemma_prefix_is_boundary(p, below(p, all));
        is_char_boundary_start_end_of_seq(all);
    }
    let name = substr_between(path, prefix.as_bytes().len(), path.as_bytes().len());
    assert(all.subrange(p.len() as int, all.len() as int) =~= below(p, all));
    TreeEntry {
        mode: entry.mode,
        object_type: ObjectType::from_mode(&entry.mode),
        hash: entry.hash.copy(),
        name,
    }
}

/// The name and the prefix of the directory below the prefix into which
/// the path of an entry leads.
fn dir_parts(entry: &IndexEntry, prefix: &str) -> (parts: (String, String))
    requires
        is_dir_in(prefix.spec_bytes(), entry@.path),
    ensures
        encode_utf8(parts.0@) == dir_name(prefix.spec_bytes(), entry@.path),
        encode_utf8(parts.1@) == dir_prefix(prefix.spec_bytes(), entry@.path),
        encode_utf8(parts.1@).len() > prefix.spec_bytes().len(),
        encode_utf8(parts.1@).len() <= entry@.path.len(),
{
    let path = entry.path.as_str();
    let bytes = path.as_bytes();
    let from = prefix.as_bytes().len();
    let ghost p = prefix.spec_bytes();
    let ghost all = entry@.path;
    let rest = vstd::slice::slice_subrange(bytes, from, bytes.len());
    assert(rest@ =~= below(p, all));
    let slash = find_byte(rest, 47);
    proof {
        encode_utf8_valid_utf8(prefix@);
        encode_utf8_valid_utf8(entry.path@);
        assert(all =~= p + below(p, all));
        lemma_prefix_is_boundary(p, below(p, all));
        is_char_boundary_start_end_of_seq(all);
        assert(all[from + slash] == rest@[slash as int]);
        assert(ascii_edge(all, from + slash));
        assert(ascii_edge(all, from + slash + 1));
        lemma_ascii_edge_is_boundary(all, from + slash);
        lemma_ascii_edge_is_boundary(all, from + slash + 1);
    }
    let name = substr_between(path, from, from + slash);
    let child = substr_between(path, 0, from + slash + 1);
    proof {
        assert(all.subrange(from as int, from + slash) =~= dir_name(p, all));
        assert(all.subrange(0, from + slash + 1) =~= dir_prefix(p, all));
    }
    (name, child)
}

/// Builds the tree of the directory of a prefix from the entries of an
/// index, and the trees of all directories below it. Entries whose path
/// does not begin with the prefix are passed over. The caller writes each
/// payload to the store as a tree object.
pub fn build_tree(entries: &[IndexEntry], prefix: &str) -> (built: TreeBuild)
    ensures
        built.hash@ == tree_id(entry_models(entries@), prefix.spec_bytes()),
        payloads(built.trees@) == all_trees(entry_models(entries@), prefix.spec_bytes()),
    decreases longest_path(entry_models(entries@)) - prefix.spec_bytes().len(),
{
    let ghost models = entry_models(entries@);
    let ghost p = prefix.spec_bytes();
    let mut list: Vec<TreeEntry> = Vec::new();
    let mut trees: Vec<Vec<u8>> = Vec::new();
    let mut i: usize = 0;
    proof {
        assert(items_of(list@) =~= sorted(scan(models, p, 0).items));
        assert(payloads(trees@) =~= scan(models, p, 0).trees);
    }
    while i < entries.len()
        invariant
            i <= entries@.len(),
            models == entry_models(entries@),
            p == prefix.spec_bytes(),
            items_of(list@) == sorted(scan(models, p, i as nat).items),
            payloads(trees@) == scan(models, p, i as nat).trees,
        decreases entries@.len() - i,
    {
        let entry = &entries[i];
        let ghost before = scan(models, p, i as nat);
        let ghost e = models[i as int];
        assert(e == entry@);
        let path_bytes = entry.path.as_str().as_bytes();
        if starts_with(path_bytes, prefix.as_bytes()) {
            let from = prefix.as_bytes().len();
            let rest = vstd::slice::slice_subrange(path_bytes, from, path_bytes.len());
            assert(rest@ =~= below(p, e.path));
            let slash = find_byte(rest, 47);
            if slash == rest.len() {
                let item = file_entry(entry, prefix);
                proof {
                    assert(before.items.push(item@).drop_last() =~= before.items);
                }
                insert_entry(&mut list, item);
            } else {
                let (name, child) = dir_parts(entry, prefix);
                if !seen_before(entries, i, child.as_str().as_bytes()) {
                    proof {
                        lemma_longest_path(models, i as int);
                    }
                    let sub = build_tree(entries, child.as_str());
                    let item = TreeEntry {
                        mode: FileMode::Directory,
                        object_type: ObjectType::Tree,
                        hash: sub.hash,
                        name,
                    };
                    proof {
                        assert(before.items.push(item@).drop_last() =~= before.items);
                    }
                    insert_entry(&mut list, item);
                    let ghost old_trees = payloads(trees@);
                    let mut sub_trees = sub.trees;
                    let ghost added = payloads(sub_trees@);
                    trees.append(&mut sub_trees);
                    assert(payloads(trees@) =~= old_trees + added);
                }
            }
        }
        i += 1;
    }
    let tree = Tree { entries: list };
    let payload = tree.to_bytes();
    let (hash, _) = hash_object(ObjectType::Tree, payload.as_slice());
    let ghost scanned = payloads(trees@);
    let ghost content = payload@;
    trees.push(payload);
    assert(payloads(trees@) =~= scanned.push(content));
    TreeBuild { hash, trees }
}

/// The trees of a whole index: `build_tree` from the root.
pub fn write_tree(entries: &[IndexEntry]) -> (built: TreeBuild)
    ensures
        built.hash@ == tree_id(entry_models(entries@), Seq::<u8>::empty()),
        payloads(built.trees@) == all_trees(entry_models(entries@), Seq::<u8>::empty()),
{
    proof {
        reveal_strlit("");
        assert(encode_utf8(""@) =~= Seq::<u8>::empty());
    }
    build_tree(entries, "")
}

/// Tree-builder determinism: two builds from the same entries and the
/// same prefix give the same identifier and the same trees.
pub proof fn law_build_is_deterministic(
    entries: Seq<EntryModel>,
    prefix: Seq<u8>,
    first: TreeBuild,
    second: TreeBuild,
)
    requires
        first.hash@ == tree_id(entries, prefix),
        payloads(first.trees@) == all_trees(entries, prefix),
        second.hash@ == tree_id(entries, prefix),
        payloads(second.trees@) == all_trees(entries, prefix),
    ensures
        first.hash@ == second.hash@,
        payloads(first.trees@) == payloads(second.trees@),
{
}

/// The entries of every tree that is built stand in the canonical order.
pub proof fn law_built_tree_is_ordered(entries: Seq<EntryModel>, prefix: Seq<u8>)
    ensures
        ordered(sorted(scan(entries, prefix, entries.len()).items)),
        tree_payload(entries, prefix) == tree_bytes(
            sorted(scan(entries, prefix, entries.len()).items),
        ),
{
    law_sorted_is_ordered(scan(entries, prefix, entries.len()).items);
}

/// One step of a walk over a tree.
pub struct WalkItem {
    /// Position of the entry in the tree.
    pub index: usize,
    /// The path of the entry from the root of the walk.
    pub path: String,
    /// Whether the walk goes on into the tree that the entry points to,
    /// directly after this entry.
    pub descend: bool,
}

/// The path of an entry below a parent: the name alone where the parent
/// is empty, and otherwise the parent, a slash and the name.
pub open spec fn full_path(parent: Seq<u8>, name: Seq<u8>) -> Seq<u8> {
    if parent.len() == 0 {
        name
    } else {
        parent + seq![47u8] + name
    }
}

impl Tree {
    /// The entries of the tree in their order, each with its path below
    /// the parent and with whether the walk descends into it: it does
    /// where the walk is recursive and the entry points to a tree. The
    /// caller shows each entry and, where the walk descends, loads the
    /// tree of the entry and walks it under the path of the entry before
    /// it goes on.
    pub fn walk_tree(&self, parent_path: &str, recursive: bool) -> (steps: Vec<WalkItem>)
        ensures
            steps@.len() == self.entries@.len(),
            forall|i: int|
                0 <= i < steps@.len() ==> (#[trigger] steps@[i]).index == i && encode_utf8(
                    steps@[i].path@,
                ) == full_path(parent_path.spec_bytes(), self@[i].name) && steps@[i].descend == (
                recursive && self.entries@[i].object_type == ObjectType::Tree),
    {
        let mut steps: Vec<WalkItem> = Vec::new();
        let mut i: usize = 0;
        while i < self.entries.len()
            invariant
                i <= self.entries@.len(),
                steps@.len() == i,
                forall|k: int|
                    0 <= k < i ==> (#[trigger] steps@[k]).index == k && encode_utf8(
                        steps@[k].path@,
                    ) == full_path(parent_path.spec_bytes(), self@[k].name) && steps@[k].descend
                        == (recursive && self.entries@[k].object_type == ObjectType::Tree),
            decreases self.entries@.len() - i,
        {
            let entry = &self.entries[i];
            let mut path = empty_string();
            if parent_path.as_bytes().len() > 0 {
                append_str(&mut path, parent_path);
                append_str(&mut path, "/");
                proof {
                    reveal_strlit("/");
                    is_ascii_chars_encode_utf8("/"@);
                    assert("/".spec_bytes() =~= seq![47u8]);
                }
            }
            append_str(&mut path, entry.name.as_str());
            assert(encode_utf8(path@) =~= full_path(parent_path.spec_bytes(), self@[i as int].name));
            let descend = recursive && entry.object_type.same(&ObjectType::Tree);
            steps.push(WalkItem { index: i, path, descend });
            i += 1;
        }
        steps
    }
}

/// Whether an entry can stand in a tree: its name is valid UTF-8 without
/// a NUL, and its identifier has twenty bytes.
pub open spec fn storable(item: TreeItem) -> bool {
    &&& valid_utf8(item.name)
    &&& forall|j: int| 0 <= j < item.name.len() ==> item.name[j] != 0
    &&& item.hash.len() == HASH_SIZE_BYTES
}

/// The bytes of an entry are read back as the entry, from the head of any
/// bytes that begin with them.
pub proof fn lemma_item_round_trip(item: TreeItem, tail: Seq<u8>)
    requires
        storable(item),
    ensures
        item_at(item_bytes(item) + tail) == Ok::<(TreeItem, int), TreeError>(
            (item, item_bytes(item).len() as int),
        ),
        item_bytes(item).len() > 0,
{
    let mode = mode_text(item.mode);
    let m = mode.len() as int;
    let n = item.name.len() as int;
    let rest = item_bytes(item) + tail;
    lemma_mode_text(item.mode);
    assert forall|j: int| 0 <= j < m implies rest[j] != 32 by {
        assert(rest[j] == mode[j]);
    }
    assert(rest[m] == 32);
    lemma_find_unique(rest, 32, m);
    assert(rest.subrange(0, m) =~= mode);
    let after = rest.skip(m + 1);
    assert(after =~= item.name + seq![0u8] + item.hash + tail);
    assert forall|j: int| 0 <= j < n implies after[j] != 0 by {
        assert(after[j] == item.name[j]);
    }
    assert(after[n] == 0);
    lemma_find_unique(after, 0, n);
    assert(after.subrange(0, n) =~= item.name);
    assert(after.subrange(n + 1, n + 21) =~= item.hash);
}

/// The payload of a non-empty list is the bytes of its first entry
/// followed by the payload of the others.
proof fn lemma_tree_bytes_front(items: Seq<TreeItem>)
    requires
        items.len() > 0,
    ensures
        tree_bytes(items) == item_bytes(items[0]) + tree_bytes(items.drop_first()),
    decreases items.len(),
{
    if items.len() == 1 {
        assert(items.drop_last() =~= Seq::<TreeItem>::empty());
        assert(items.drop_first() =~= Seq::<TreeItem>::empty());
        assert(tree_bytes(items) =~= item_bytes(items[0]) + tree_bytes(items.drop_first()));
    } else {
        let init = items.drop_last();
        lemma_tree_bytes_front(init);
        assert(init.drop_first() =~= items.drop_first().drop_last());
        assert(items.drop_first().last() == items.last());
        assert(init[0] == items[0]);
        assert(tree_bytes(items) =~= item_bytes(items[0]) + tree_bytes(items.drop_first()));
    }
}

/// Tree round trip: the payload of a list of entries is read back as that
/// list.
pub proof fn law_tree_round_trip(items: Seq<TreeItem>)
    requires
        forall|i: int| 0 <= i < items.len() ==> storable(#[trigger] items[i]),
    ensures
        parsed_tree(tree_bytes(items)) == Ok::<Seq<TreeItem>, TreeError>(items),
    decreases items.len(),
{
    if items.len() == 0 {
        assert(items =~= Seq::<TreeItem>::empty());
    } else {
        let first = items[0];
        let others = items.drop_first();
        let rest = tree_bytes(others);
        assert(storable(first));
        lemma_tree_bytes_front(items);
        lemma_item_round_trip(first, rest);
        assert forall|i: int| 0 <= i < others.len() implies storable(#[trigger] others[i]) by {
            assert(others[i] == items[i + 1]);
        }
        law_tree_round_trip(others);
        assert((item_bytes(first) + rest).skip(item_bytes(first).len() as int) =~= rest);
        assert(seq![first] + others =~= items);
    }
}

/// Whether no path of a list is a directory on the way to another: no
/// path, followed by a slash, begins another.
pub open spec fn no_path_is_a_directory(entries: Seq<EntryModel>) -> bool {
    forall|i: int, j: int|
        0 <= i < entries.len() && 0 <= j < entries.len() ==> !(#[trigger] entries[i]).path.push(
            47,
        ).is_prefix_of((#[trigger] entries[j]).path)
}

/// Whether an entry of a tree is the one that the scan makes from the
/// entry of the index at a position: the entry of a file in the
/// directory, or the entry of a directory below it whose first path this
/// is.
pub open spec fn made_from(
    entries: Seq<EntryModel>,
    prefix: Seq<u8>,
    item: TreeItem,
    j: int,
) -> bool {
    let p = entries[j].path;
    ||| (is_file_in(prefix, p) && item.name == below(prefix, p) && item.mode == entries[j].mode)
    ||| (is_dir_in(prefix, p) && item.name == dir_name(prefix, p) && item.mode
        == FileMode::Directory && !seen(entries, j, dir_prefix(prefix, p)))
}

/// Whether no two entries have the same sort key.
pub open spec fn keys_differ(items: Seq<TreeItem>) -> bool {
    forall|i: int, j: int|
        0 <= i < j < items.len() ==> sort_key(#[trigger] items[i]) != sort_key(#[trigger] items[j])
}

/// Whether the entries stand in strictly ascending order of their sort
/// keys.
pub open spec fn strictly_ordered(items: Seq<TreeItem>) -> bool {
    ordered(items) && keys_differ(items)
}

/// Every entry that the scan gives is made from one of the entries of
/// the index that were scanned.
proof fn lemma_item_source(entries: Seq<EntryModel>, prefix: Seq<u8>, n: nat, k: int)
    requires
        n <= entries.len(),
        0 <= k < scan(entries, prefix, n).items.len(),
    ensures
        exists|j: int| 0 <= j < n && made_from(entries, prefix, scan(entries, prefix, n).items[k], j),
    decreases n,
{
    if n > 0 {
        let before = scan(entries, prefix, (n - 1) as nat);
        let now = scan(entries, prefix, n);
        if k < before.items.len() {
            lemma_item_source(entries, prefix, (n - 1) as nat, k);
            let j = choose|j: int|
                0 <= j < n - 1 && made_from(entries, prefix, before.items[k], j);
            assert(now.items[k] == before.items[k]);
            assert(made_from(entries, prefix, now.items[k], j));
        } else {
            assert(made_from(entries, prefix, now.items[k], n - 1));
        }
    }
}

/// Entries made from two entries of the index have different sort keys.
proof fn lemma_sources_differ(
    entries: Seq<EntryModel>,
    prefix: Seq<u8>,
    a: TreeItem,
    i: int,
    b: TreeItem,
    j: int,
)
    requires
        distinct_paths(entries),
        no_path_is_a_directory(entries),
        0 <= i < j < entries.len(),
        made_from(entries, prefix, a, i),
        made_from(entries, prefix, b, j),
    ensures
        sort_key(a) != sort_key(b),
{
    let pi = entries[i].path;
    let pj = entries[j].path;
    let ri = below(prefix, pi);
    let rj = below(prefix, pj);
    let fi = find(ri, 47);
    let fj = find(rj, 47);
    let n = prefix.len() as int;
    assert(pi =~= prefix + ri);
    assert(pj =~= prefix + rj);
    lemma_find(ri, 47);
    lemma_find(rj, 47);
    assert(pi != pj);
    assert(!pi.push(47).is_prefix_of(pj));
    assert(!pj.push(47).is_prefix_of(pi));
    if sort_key(a) == sort_key(b) {
        let ka = sort_key(a);
        assert(a.name =~= ka.subrange(0, a.name.len() as int));
        assert(b.name =~= ka.subrange(0, b.name.len() as int));
        if is_file_in(prefix, pi) && is_file_in(prefix, pj) {
            // two files: the names differ, and neither holds a slash
            assert(a.name == ri && b.name == rj);
            if a.name.len() == b.name.len() {
                assert(ri =~= rj);
            } else if a.name.len() < b.name.len() {
                assert(ka[b.name.len() - 1] == 47);
                assert(b.name[b.name.len() - 1] == 47);
            } else {
                assert(ka[a.name.len() - 1] == 47);
                assert(a.name[a.name.len() - 1] == 47);
            }
        } else if is_file_in(prefix, pi) {
            // a file and a directory
            assert(a.name == ri && b.name == rj.take(fj));
            assert(ka == b.name.push(47));
            if a.mode == FileMode::Directory {
                assert(ri =~= rj.take(fj));
                assert(pi.push(47) =~= pj.subrange(0, pi.len() as int + 1));
            } else {
                assert(ri[fj] == 47);
            }
        } else if is_file_in(prefix, pj) {
            assert(b.name == rj && a.name == ri.take(fi));
            assert(ka == a.name.push(47));
            if b.mode == FileMode::Directory {
                assert(rj =~= ri.take(fi));
                assert(pj.push(47) =~= pi.subrange(0, pj.len() as int + 1));
            } else {
                assert(rj[fi] == 47);
            }
        } else {
            // two directories: the second would have been seen
            assert(a.name == ri.take(fi) && b.name == rj.take(fj));
            assert(fi == fj);
            let child = dir_prefix(prefix, pj);
            assert forall|k: int| 0 <= k < n + fj + 1 implies pi[k] == pj[k] by {
                if k < n {
                    assert(pi[k] == prefix[k] && pj[k] == prefix[k]);
                } else if k < n + fj {
                    assert(pi[k] == ri[k - n] && pj[k] == rj[k - n]);
                    assert(ri[k - n] == a.name[k - n]);
                    assert(rj[k - n] == b.name[k - n]);
                } else {
                    assert(pi[k] == ri[fi] && pj[k] == rj[fj]);
                }
            }
            assert(child =~= pi.subrange(0, n + fj + 1));
            assert(child.is_prefix_of(entries[i].path));
            assert(seen(entries, j, child));
        }
    }
}

/// The entries that the scan gives have different sort keys, where the
/// paths of the index are distinct and none is a directory on the way to
/// another.
proof fn lemma_scan_keys_differ(entries: Seq<EntryModel>, prefix: Seq<u8>, n: nat)
    requires
        distinct_paths(entries),
        no_path_is_a_directory(entries),
        n <= entries.len(),
    ensures
        keys_differ(scan(entries, prefix, n).items),
    decreases n,
{
    if n > 0 {
        let before = scan(entries, prefix, (n - 1) as nat).items;
        let now = scan(entries, prefix, n).items;
        lemma_scan_keys_differ(entries, prefix, (n - 1) as nat);
        assert forall|k1: int, k2: int| 0 <= k1 < k2 < now.len() implies sort_key(
            #[trigger] now[k1],
        ) != sort_key(#[trigger] now[k2]) by {
            if k2 < before.len() {
                assert(now[k1] == before[k1] && now[k2] == before[k2]);
            } else {
                assert(now[k1] == before[k1]);
                lemma_item_source(entries, prefix, (n - 1) as nat, k1);
                let j = choose|j: int|
                    0 <= j < n - 1 && made_from(entries, prefix, before[k1], j);
                assert(made_from(entries, prefix, now[k2], n - 1));
                lemma_sources_differ(entries, prefix, now[k1], j, now[k2], n - 1);
            }
        }
    }
}

/// Inserting puts the new entry at some place and leaves the others in
/// their order.
proof fn lemma_inserted_somewhere(items: Seq<TreeItem>, item: TreeItem)
    ensures
        exists|p: int| 0 <= p <= items.len() && inserted(items, item) == items.insert(p, item),
    decreases items.len(),
{
    if items.len() == 0 {
        assert(inserted(items, item) =~= items.insert(0, item));
    } else if lex_le(sort_key(items.last()), sort_key(item)) {
        assert(inserted(items, item) =~= items.insert(items.len() as int, item));
    } else {
        let init = items.drop_last();
        lemma_inserted_somewhere(init, item);
        let p = choose|p: int| 0 <= p <= init.len() && inserted(init, item) == init.insert(p, item);
        assert(inserted(items, item) =~= items.insert(p, item));
    }
}

/// Every entry of the sorted list is an entry of the list.
proof fn lemma_sorted_members(items: Seq<TreeItem>, k: int)
    requires
        0 <= k < sorted(items).len(),
    ensures
        exists|j: int| 0 <= j < items.len() && items[j] == sorted(items)[k],
    decreases items.len(),
{
    if items.len() > 0 {
        let init = items.drop_last();
        lemma_inserted_members(sorted(init), items.last(), k);
        if sorted(items)[k] == items.last() {
            assert(items[items.len() - 1] == sorted(items)[k]);
        } else {
            let m = choose|m: int|
                0 <= m < sorted(init).len() && sorted(init)[m] == sorted(items)[k];
            lemma_sorted_members(init, m);
            let j = choose|j: int| 0 <= j < init.len() && init[j] == sorted(init)[m];
            assert(items[j] == sorted(items)[k]);
        }
    }
}

/// Sorting entries with different sort keys gives entries with different
/// sort keys.
proof fn lemma_sorted_keys_differ(items: Seq<TreeItem>)
    requires
        keys_differ(items),
    ensures
        keys_differ(sorted(items)),
    decreases items.len(),
{
    if items.len() > 0 {
        let init = items.drop_last();
        let last = items.last();
        assert(keys_differ(init)) by {
            assert forall|i: int, j: int| 0 <= i < j < init.len() implies sort_key(
                #[trigger] init[i],
            ) != sort_key(#[trigger] init[j]) by {
                assert(init[i] == items[i] && init[j] == items[j]);
            }
        }
        lemma_sorted_keys_differ(init);
        let base = sorted(init);
        lemma_inserted_somewhere(base, last);
        let p = choose|p: int| 0 <= p <= base.len() && inserted(base, last) == base.insert(p, last);
        let out = sorted(items);
        assert(out == base.insert(p, last));
        assert forall|m: int| 0 <= m < base.len() implies sort_key(base[m]) != sort_key(last) by {
            lemma_sorted_members(init, m);
            let j = choose|j: int| 0 <= j < init.len() && init[j] == base[m];
            assert(items[j] == init[j]);
            assert(sort_key(items[j]) != sort_key(items[items.len() - 1]));
        }
        assert forall|i: int, j: int| 0 <= i < j < out.len() implies sort_key(#[trigger] out[i])
            != sort_key(#[trigger] out[j]) by {
            let bi = if i < p {
                i
            } else {
                i - 1
            };
            let bj = if j < p {
                j
            } else {
                j - 1
            };
            if i == p {
                assert(out[i] == last && out[j] == base[bj]);
            } else if j == p {
                assert(out[j] == last && out[i] == base[bi]);
            } else {
                assert(out[i] == base[bi] && out[j] == base[bj]);
                assert(bi < bj);
            }
        }
    }
}

/// Strict tree order: where the paths of the index are distinct and none
/// is a directory on the way to another, the entries of every tree that
/// is built stand in strictly ascending order of their sort keys, so that
/// no name occurs twice in a tree.
pub proof fn law_built_tree_is_strictly_ordered(entries: Seq<EntryModel>, prefix: Seq<u8>)
    requires
        distinct_paths(entries),
        no_path_is_a_directory(entries),
    ensures
        strictly_ordered(sorted(scan(entries, prefix, entries.len()).items)),
{
    let items = scan(entries, prefix, entries.len()).items;
    lemma_scan_keys_differ(entries, prefix, entries.len());
    lemma_sorted_keys_differ(items);
    law_sorted_is_ordered(items);
}

} // verus!
