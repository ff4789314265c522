//! The staging index: a header and a flat list of entries, each of which
//! gives a mode, a path and the identifier of a blob.
use crate::hash::{GitHash, HASH_SIZE_BYTES};
use crate::object::{FileMode, mode_number, mode_of_number};
use crate::text::{
    be16, be16_value, be32, be32_value, bytes_eq, copy_range, lemma_be16, lemma_be32_value_of_be32,
    push_be16, push_be32, read_be16, read_be32, string_from_utf8,
};
use vstd::prelude::*;
use vstd::string::*;
use vstd::utf8::*;

verus! {

/// One staged file.
#[derive(Debug, Clone)]
pub struct IndexEntry {
    pub mode: FileMode,
    /// Path from the root of the repository, with forward slashes.
    pub path: String,
    /// Identifier of the blob that holds the content.
    pub hash: GitHash,
}

/// An entry as a mathematical value in which the path stands as its
/// bytes.
pub struct EntryModel {
    pub mode: FileMode,
    pub path: Seq<u8>,
    pub hash: Seq<u8>,
}

impl View for IndexEntry {
    type V = EntryModel;

    open spec fn view(&self) -> EntryModel {
        EntryModel { mode: self.mode, path: encode_utf8(self.path@), hash: self.hash@ }
    }
}

/// The entries of a list, as values.
pub open spec fn entry_models(entries: Seq<IndexEntry>) -> Seq<EntryModel> {
    Seq::new(entries.len(), |i: int| entries[i]@)
}

/// The layout of an index file.
#[derive(Debug, Clone, Copy)]
pub struct IndexFormatDescriptor {
    /// The bytes with which the file begins.
    pub magic: &'static [u8],
    pub version: u32,
    /// Bytes taken by the mode of an entry.
    pub mode_size: usize,
    /// Bytes taken by the length of a path.
    pub path_len_size: usize,
    /// Bytes taken by an identifier.
    pub hash_size: usize,
    /// The longest path, in bytes, that an entry may hold.
    pub max_path_len: usize,
}

/// A layout as a mathematical value.
pub struct Layout {
    pub magic: Seq<u8>,
    pub version: u32,
    pub hash_size: nat,
    pub max_path_len: nat,
}

impl View for IndexFormatDescriptor {
    type V = Layout;

    open spec fn view(&self) -> Layout {
        Layout {
            magic: self.magic@,
            version: self.version,
            hash_size: self.hash_size as nat,
            max_path_len: self.max_path_len as nat,
        }
    }
}

/// The first version of the layout: the magic `IDX`, version 1,
/// twenty-byte identifiers and paths of up to 65535 bytes.
pub open spec fn layout_v1() -> Layout {
    Layout {
        magic: "IDX".spec_bytes(),
        version: 1,
        hash_size: HASH_SIZE_BYTES as nat,
        max_path_len: u16::MAX as nat,
    }
}

/// The header of an index file as read.
#[derive(Debug)]
pub struct IndexHeader {
    pub version: u32,
    pub entry_count: u32,
}

/// Why bytes are no index file, or why entries cannot be written as one.
#[derive(Debug, Clone, Copy, PartialEq, Eq, Structural)]
pub enum IndexError {
    /// The bytes end inside the header or inside an entry.
    UnexpectedEof,
    /// The file does not begin with the magic bytes.
    InvalidMagic,
    /// The version is not that of the layout.
    UnsupportedVersion,
    /// The mode of an entry is none of the four file modes.
    InvalidMode,
    /// The path of an entry is longer than the layout allows.
    PathTooLong,
    /// The path of an entry is not valid UTF-8.
    InvalidPath,
    /// The layout gives identifiers a size other than twenty bytes.
    InvalidHashSize,
    /// There are more entries than a 32-bit count can tell.
    TooManyEntries,
}

/// Whether a layout is one that this library reads and writes: paths no
/// longer than a 16-bit length can tell.
pub open spec fn usable(d: Layout) -> bool {
    d.max_path_len <= u16::MAX
}

/// The bytes of a header.
pub open spec fn header_bytes(d: Layout, entry_count: u32) -> Seq<u8> {
    d.magic + be32(d.version) + be32(entry_count)
}

/// The bytes of an entry: the mode in four bytes, the length of the path
/// in two, the path, and the raw identifier.
pub open spec fn entry_bytes(e: EntryModel) -> Seq<u8> {
    be32(mode_number(e.mode)) + be16(e.path.len() as u16) + e.path + e.hash
}

/// The bytes of a list of entries, one after the other.
pub open spec fn entries_bytes(entries: Seq<EntryModel>) -> Seq<u8>
    decreases entries.len(),
{
    if entries.len() == 0 {
        Seq::empty()
    } else {
        entries_bytes(entries.drop_last()) + entry_bytes(entries.last())
    }
}

/// The bytes of an index file.
pub open spec fn index_bytes(d: Layout, entries: Seq<EntryModel>) -> Seq<u8> {
    header_bytes(d, entries.len() as u32) + entries_bytes(entries)
}

/// Whether an entry can be written under a layout.
pub open spec fn writable(d: Layout, e: EntryModel) -> bool {
    e.path.len() <= d.max_path_len && d.hash_size == e.hash.len()
}

/// What reading a header from the head of `rest` gives: the entry count
/// and the number of bytes taken.
pub open spec fn header_at(d: Layout, rest: Seq<u8>) -> Result<(u32, int), IndexError> {
    let m = d.magic.len() as int;
    if rest.len() < m {
        Err(IndexError::UnexpectedEof)
    } else if rest.subrange(0, m) != d.magic {
        Err(IndexError::InvalidMagic)
    } else if rest.len() < m + 4 {
        Err(IndexError::UnexpectedEof)
    } else if be32_value(rest.subrange(m, m + 4)) != d.version {
        Err(IndexError::UnsupportedVersion)
    } else if rest.len() < m + 8 {
        Err(IndexError::UnexpectedEof)
    } else {
        Ok((be32_value(rest.subrange(m + 4, m + 8)), m + 8))
    }
}

/// What reading an entry from the head of `rest` gives: the entry and the
/// number of bytes taken. The checks come in the order of the fields.
pub open spec fn entry_at(d: Layout, rest: Seq<u8>) -> Result<
    (EntryModel, int),
    IndexError,
> {
    if rest.len() < 4 {
        Err(IndexError::UnexpectedEof)
    } else if mode_of_number(be32_value(rest.subrange(0, 4))) is None {
        Err(IndexError::InvalidMode)
    } else if rest.len() < 6 {
        Err(IndexError::UnexpectedEof)
    } else {
        let n = be16_value(rest.subrange(4, 6)) as int;
        if n > d.max_path_len {
            Err(IndexError::PathTooLong)
        } else if rest.len() < 6 + n {
            Err(IndexError::UnexpectedEof)
        } else if !valid_utf8(rest.subrange(6, 6 + n)) {
            Err(IndexError::InvalidPath)
        } else if d.hash_size != HASH_SIZE_BYTES {
            Err(IndexError::InvalidHashSize)
        } else if rest.len() < 6 + n + 20 {
            Err(IndexError::UnexpectedEof)
        } else {
            Ok(
                (
                    EntryModel {
                        mode: mode_of_number(be32_value(rest.subrange(0, 4))).unwrap(),
                        path: rest.subrange(6, 6 + n),
                        hash: rest.subrange(6 + n, 6 + n + 20),
                    },
                    6 + n + 20,
                ),
            )
        }
    }
}

/// What reading `count` entries from the head of `rest` gives.
pub open spec fn entries_at(d: Layout, rest: Seq<u8>, count: nat) -> Result<
    Seq<EntryModel>,
    IndexError,
>
    decreases count,
{
    if count == 0 {
        Ok(Seq::empty())
    } else {
        match entry_at(d, rest) {
            Err(e) => Err(e),
            Ok((entry, n)) => match entries_at(d, rest.skip(n), (count - 1) as nat) {
                Err(e) => Err(e),
                Ok(more) => Ok(seq![entry] + more),
            },
        }
    }
}

/// What reading an index file gives: the entries that the header counts.
/// Bytes after the last of them are not looked at.
pub open spec fn parsed_index(d: Layout, bytes: Seq<u8>) -> Result<
    Seq<EntryModel>,
    IndexError,
> {
    match header_at(d, bytes) {
        Err(e) => Err(e),
        Ok((count, n)) => entries_at(d, bytes.skip(n), count as nat),
    }
}

/// A written entry is read back from the head of any bytes that begin
/// with it.
pub proof fn lemma_entry_round_trip(d: Layout, e: EntryModel, tail: Seq<u8>)
    requires
        usable(d),
        writable(d, e),
        d.hash_size == HASH_SIZE_BYTES,
        valid_utf8(e.path),
    ensures
        entry_at(d, entry_bytes(e) + tail) == Ok::<(EntryModel, int), IndexError>(
            (e, entry_bytes(e).len() as int),
        ),
        entry_bytes(e).len() == 6 + e.path.len() + 20,
{
    let rest = entry_bytes(e) + tail;
    let n = e.path.len() as int;
    lemma_be32_value_of_be32(mode_number(e.mode));
    lemma_be16(n as u16, be16(n as u16));
    assert(rest.subrange(0, 4) =~= be32(mode_number(e.mode)));
    assert(rest.subrange(4, 6) =~= be16(n as u16));
    assert(rest.subrange(6, 6 + n) =~= e.path);
    assert(rest.subrange(6 + n, 6 + n + 20) =~= e.hash);
    crate::object::lemma_mode_text(e.mode);
}

/// Written entries are read back from the head of any bytes that begin
/// with them.
pub proof fn lemma_entries_round_trip(
    d: Layout,
    entries: Seq<EntryModel>,
    tail: Seq<u8>,
)
    requires
        usable(d),
        d.hash_size == HASH_SIZE_BYTES,
        forall|i: int| 0 <= i < entries.len() ==> writable(d, #[trigger] entries[i]) && valid_utf8(
            entries[i].path,
        ),
    ensures
        entries_at(d, entries_bytes(entries) + tail, entries.len()) == Ok::<
            Seq<EntryModel>,
            IndexError,
        >(entries),
    decreases entries.len(),
{
    if entries.len() == 0 {
        assert(entries =~= Seq::<EntryModel>::empty());
    } else {
        let first = entries[0];
        let others = entries.drop_first();
        assert(writable(d, first) && valid_utf8(first.path));
        lemma_entries_bytes_front(entries);
        let rest = entries_bytes(others) + tail;
        assert(entries_bytes(entries) + tail =~= entry_bytes(first) + rest);
        lemma_entry_round_trip(d, first, rest);
        assert((entry_bytes(first) + rest).skip(entry_bytes(first).len() as int) =~= rest);
        assert forall|i: int| 0 <= i < others.len() implies writable(d, #[trigger] others[i])
            && valid_utf8(others[i].path) by {
            assert(others[i] == entries[i + 1]);
        }
        lemma_entries_round_trip(d, others, tail);
        assert(seq![first] + others =~= entries);
    }
}

/// The bytes of a non-empty list are the bytes of its first entry followed
/// by those of the others.
pub proof fn lemma_entries_bytes_front(entries: Seq<EntryModel>)
    requires
        entries.len() > 0,
    ensures
        entries_bytes(entries) == entry_bytes(entries[0]) + entries_bytes(entries.drop_first()),
    decreases entries.len(),
{
    if entries.len() == 1 {
        assert(entries.drop_last() =~= Seq::<EntryModel>::empty());
        assert(entries.drop_first() =~= Seq::<EntryModel>::empty());
        assert(entries_bytes(entries) =~= entry_bytes(entries[0]) + entries_bytes(
            entries.drop_first(),
        ));
    } else {
        let init = entries.drop_last();
        lemma_entries_bytes_front(init);
        assert(init.drop_first() =~= entries.drop_first().drop_last());
        assert(entries.drop_first().last() == entries.last());
        assert(init[0] == entries[0]);
        assert(entries_bytes(entries) =~= entry_bytes(entries[0]) + entries_bytes(
            entries.drop_first(),
        ));
    }
}

/// Index round trip: reading what was written gives the entries back, for
/// every list that can be written.
pub proof fn law_index_round_trip(d: Layout, entries: Seq<EntryModel>)
    requires
        usable(d),
        d.hash_size == HASH_SIZE_BYTES,
        entries.len() <= u32::MAX,
        forall|i: int| 0 <= i < entries.len() ==> writable(d, #[trigger] entries[i]) && valid_utf8(
            entries[i].path,
        ),
    ensures
        parsed_index(d, index_bytes(d, entries)) == Ok::<Seq<EntryModel>, IndexError>(entries),
{
    let bytes = index_bytes(d, entries);
    let m = d.magic.len() as int;
    let count = entries.len() as u32;
    lemma_be32_value_of_be32(d.version);
    lemma_be32_value_of_be32(count);
    assert(bytes.subrange(0, m) =~= d.magic);
    assert(bytes.subrange(m, m + 4) =~= be32(d.version));
    assert(bytes.subrange(m + 4, m + 8) =~= be32(count));
    assert(bytes.skip(m + 8) =~= entries_bytes(entries) + Seq::<u8>::empty());
    lemma_entries_round_trip(d, entries, Seq::<u8>::empty());
}

impl IndexFormatDescriptor {
    /// Number of bytes of the header of the first version of the layout.
    pub const HEADER_SIZE: usize = 11;

    /// The first version of the layout: the magic `IDX`, version 1,
    /// twenty-byte identifiers and paths of up to 65535 bytes.
    pub fn v1() -> (d: Self)
        ensures
            d@ == layout_v1(),
            d.mode_size == 4,
            d.path_len_size == 2,
    {
        IndexFormatDescriptor {
            magic: "IDX".as_bytes(),
            version: 1,
            mode_size: 4,
            path_len_size: 2,
            hash_size: HASH_SIZE_BYTES,
            max_path_len: 65535,
        }
    }

    /// Reads the header that begins at `at`: the header and the position
    /// after it.
    pub fn read_header(&self, bytes: &[u8], at: usize) -> (r: Result<(IndexHeader, usize), IndexError>)
        requires
            at <= bytes@.len(),
        ensures
            match r {
                Ok((header, next)) => header_at(self@, bytes@.skip(at as int)) == Ok::<
                    (u32, int),
                    IndexError,
                >((header.entry_count, next - at)) && header.version == self.version && at <= next
                    <= bytes@.len(),
                Err(e) => header_at(self@, bytes@.skip(at as int)) == Err::<(u32, int), IndexError>(
                    e,
                ),
            },
    {
        let ghost rest = bytes@.skip(at as int);
        let left = bytes.len() - at;
        let m = self.magic.len();
        if left < m {
            return Err(IndexError::UnexpectedEof);
        }
        assert(rest.subrange(0, m as int) =~= bytes@.subrange(at as int, at + m));
        if !bytes_eq(vstd::slice::slice_subrange(bytes, at, at + m), self.magic) {
            return Err(IndexError::InvalidMagic);
        }
        if left - m < 4 {
            return Err(IndexError::UnexpectedEof);
        }
        assert(rest.subrange(m as int, m + 4) =~= bytes@.subrange(at + m, at + m + 4));
        let version = read_be32(bytes, at + m);
        if version != self.version {
            return Err(IndexError::UnsupportedVersion);
        }
        if left - m < 8 {
            return Err(IndexError::UnexpectedEof);
        }
        assert(rest.subrange(m + 4, m + 8) =~= bytes@.subrange(at + m + 4, at + m + 8));
        let entry_count = read_be32(bytes, at + m + 4);
        Ok((IndexHeader { version, entry_count }, at + m + 8))
    }

    /// Appends a header.
    pub fn write_header(&self, out: &mut Vec<u8>, entry_count: u32)
        ensures
            final(out)@ == old(out)@ + header_bytes(self@, entry_count),
    {
        out.extend_from_slice(self.magic);
        push_be32(out, self.version);
        push_be32(out, entry_count);
        assert(out@ =~= old(out)@ + header_bytes(self@, entry_count));
    }

    /// Reads the entry that begins at `at`: the entry and the position
    /// after it.
    pub fn read_entry(&self, bytes: &[u8], at: usize) -> (r: Result<(IndexEntry, usize), IndexError>)
        requires
            at <= bytes@.len(),
        ensures
            match r {
                Ok((entry, next)) => entry_at(self@, bytes@.skip(at as int)) == Ok::<
                    (EntryModel, int),
                    IndexError,
                >((entry@, next - at)) && at <= next <= bytes@.len(),
                Err(e) => entry_at(self@, bytes@.skip(at as int)) == Err::<
                    (EntryModel, int),
                    IndexError,
                >(e),
            },
    {
        let ghost rest = bytes@.skip(at as int);
        let left = bytes.len() - at;
        if left < 4 {
            return Err(IndexError::UnexpectedEof);
        }
        assert(rest.subrange(0, 4) =~= bytes@.subrange(at as int, at + 4));
        let mode = match FileMode::from_u32(read_be32(bytes, at)) {
            Some(mode) => mode,
            None => {
                return Err(IndexError::InvalidMode);
            },
        };
        if left < 6 {
            return Err(IndexError::UnexpectedEof);
        }
        assert(rest.subrange(4, 6) =~= bytes@.subrange(at + 4, at + 6));
        let n = read_be16(bytes, at + 4) as usize;
        if n > self.max_path_len {
            return Err(IndexError::PathTooLong);
        }
        if left - 6 < n {
            return Err(IndexError::UnexpectedEof);
        }
        assert(rest.subrange(6, 6 + n) =~= bytes@.subrange(at + 6, at + 6 + n));
        let path = match string_from_utf8(copy_range(bytes, at + 6, at + 6 + n)) {
            Some(path) => path,
            None => {
                return Err(IndexError::InvalidPath);
            },
        };
        proof {
            decode_utf8_encode_utf8(rest.subrange(6, 6 + n));
        }
        if self.hash_size != HASH_SIZE_BYTES {
            return Err(IndexError::InvalidHashSize);
        }
        if left - 6 - n < HASH_SIZE_BYTES {
            return Err(IndexError::UnexpectedEof);
        }
        assert(rest.subrange(6 + n, 6 + n + 20) =~= bytes@.subrange(at + 6 + n, at + 6 + n + 20));
        let hash = GitHash::from_raw_bytes(
            vstd::slice::slice_subrange(bytes, at + 6 + n, at + 6 + n + HASH_SIZE_BYTES),
        );
        Ok((IndexEntry { mode, path, hash }, at + 6 + n + HASH_SIZE_BYTES))
    }

    /// Appends an entry, or appends nothing and says why the entry cannot
    /// be written.
    pub fn write_entry(&self, out: &mut Vec<u8>, entry: &IndexEntry) -> (r: Result<(), IndexError>)
        requires
            usable(self@),
        ensures
            r is Ok <==> writable(self@, entry@),
            r is Ok ==> final(out)@ == old(out)@ + entry_bytes(entry@),
            r is Err ==> final(out)@ == old(out)@ && r == Err::<(), IndexError>(
                if entry@.path.len() > self.max_path_len {
                    IndexError::PathTooLong
                } else {
                    IndexError::InvalidHashSize
                },
            ),
    {
        let path_bytes = entry.path.as_str().as_bytes();
        if path_bytes.len() > self.max_path_len {
            return Err(IndexError::PathTooLong);
        }
        let hash_bytes = entry.hash.as_bytes();
        if hash_bytes.len() != self.hash_size {
            return Err(IndexError::InvalidHashSize);
        }
        push_be32(out, entry.mode.to_u32());
        push_be16(out, path_bytes.len() as u16);
        out.extend_from_slice(path_bytes);
        out.extend_from_slice(hash_bytes);
        assert(out@ =~= old(out)@ + entry_bytes(entry@));
        Ok(())
    }
}

/// A result of reading further entries, with the entries read before put
/// in front.
pub open spec fn after(done: Seq<EntryModel>, more: Result<Seq<EntryModel>, IndexError>) -> Result<
    Seq<EntryModel>,
    IndexError,
> {
    match more {
        Ok(list) => Ok(done + list),
        Err(e) => Err(e),
    }
}

/// Reading `count` entries is reading one and then the others.
proof fn lemma_entries_step(
    d: Layout,
    done: Seq<EntryModel>,
    rest: Seq<u8>,
    count: nat,
)
    requires
        count > 0,
    ensures
        after(done, entries_at(d, rest, count)) == (match entry_at(d, rest) {
            Err(e) => Err(e),
            Ok((entry, n)) => after(done.push(entry), entries_at(d, rest.skip(n), (count - 1) as nat)),
        }),
{
    match entry_at(d, rest) {
        Err(e) => {},
        Ok((entry, n)) => {
            match entries_at(d, rest.skip(n), (count - 1) as nat) {
                Err(e) => {},
                Ok(more) => {
                    assert(done + (seq![entry] + more) =~= done.push(entry) + more);
                },
            }
        },
    }
}

/// The entries inside a result, as values.
pub open spec fn models_of(r: Result<Vec<IndexEntry>, IndexError>) -> Result<
    Seq<EntryModel>,
    IndexError,
> {
    match r {
        Ok(list) => Ok(entry_models(list@)),
        Err(e) => Err(e),
    }
}

/// Reads an index file of the first version of the layout, or says why
/// the bytes are none.
pub fn parse_index(bytes: &[u8]) -> (r: Result<Vec<IndexEntry>, IndexError>)
    ensures
        models_of(r) == parsed_index(layout_v1(), bytes@),
{
    let d = IndexFormatDescriptor::v1();
    let (header, start) = match d.read_header(bytes, 0) {
        Ok(pair) => pair,
        Err(e) => {
            assert(bytes@.skip(0) =~= bytes@);
            return Err(e);
        },
    };
    assert(bytes@.skip(0) =~= bytes@);
    let mut entries: Vec<IndexEntry> = Vec::new();
    let mut at: usize = start;
    let mut k: u32 = 0;
    let ghost total = parsed_index(d@, bytes@);
    proof {
        assert(entry_models(entries@) =~= Seq::<EntryModel>::empty());
        let r = entries_at(d@, bytes@.skip(at as int), header.entry_count as nat);
        match r {
            Ok(list) => {
                assert(Seq::<EntryModel>::empty() + list =~= list);
            },
            Err(_) => {},
        }
    }
    while k < header.entry_count
        invariant
            k <= header.entry_count,
            at <= bytes@.len(),
            d@ == layout_v1(),
            total == parsed_index(layout_v1(), bytes@),
            total == after(
                entry_models(entries@),
                entries_at(d@, bytes@.skip(at as int), (header.entry_count - k) as nat),
            ),
        decreases header.entry_count - k,
    {
        let ghost done = entry_models(entries@);
        proof {
            lemma_entries_step(d@, done, bytes@.skip(at as int), (header.entry_count - k) as nat);
        }
        match d.read_entry(bytes, at) {
            Ok((entry, next)) => {
                proof {
                    assert(bytes@.skip(at as int).skip(next - at) =~= bytes@.skip(next as int));
                }
                let ghost model = entry@;
                entries.push(entry);
                assert(entry_models(entries@) =~= done.push(model));
                at = next;
            },
            Err(e) => {
                return Err(e);
            },
        }
        k += 1;
    }
    proof {
        assert(entry_models(entries@) + Seq::<EntryModel>::empty() =~= entry_models(entries@));
    }
    Ok(entries)
}

/// The entries of an index file, or no entries where the bytes are no
/// index file.
pub fn read_index(bytes: &[u8]) -> (entries: Vec<IndexEntry>)
    ensures
        entry_models(entries@) == (match parsed_index(layout_v1(), bytes@) {
            Ok(list) => list,
            Err(_) => Seq::empty(),
        }),
{
    match parse_index(bytes) {
        Ok(entries) => entries,
        Err(_) => {
            let entries: Vec<IndexEntry> = Vec::new();
            assert(entry_models(entries@) =~= Seq::<EntryModel>::empty());
            entries
        },
    }
}

/// Whether every entry of a list can be written under a layout.
pub open spec fn all_writable(d: Layout, entries: Seq<EntryModel>) -> bool {
    forall|i: int| 0 <= i < entries.len() ==> writable(d, #[trigger] entries[i])
}

/// The bytes of an index file that holds the entries in the order given,
/// or why they cannot be written: too many of them, or a path too long.
/// The caller replaces the whole file by these bytes.
pub fn write_index(entries: &[IndexEntry]) -> (r: Result<Vec<u8>, IndexError>)
    ensures
        r is Ok <==> entries@.len() <= u32::MAX && all_writable(
            layout_v1(),
            entry_models(entries@),
        ),
        r is Ok ==> r.unwrap()@ == index_bytes(layout_v1(), entry_models(entries@)),
        r is Err ==> r == Err::<Vec<u8>, IndexError>(
            if entries@.len() > u32::MAX {
                IndexError::TooManyEntries
            } else {
                IndexError::PathTooLong
            },
        ),
{
    let d = IndexFormatDescriptor::v1();
    if entries.len() > 0xffff_ffff {
        return Err(IndexError::TooManyEntries);
    }
    let ghost models = entry_models(entries@);
    let mut out: Vec<u8> = Vec::new();
    d.write_header(&mut out, entries.len() as u32);
    let mut i: usize = 0;
    proof {
        assert(models.take(0) =~= Seq::<EntryModel>::empty());
        assert(out@ =~= header_bytes(d@, entries@.len() as u32) + entries_bytes(models.take(0)));
    }
    while i < entries.len()
        invariant
            i <= entries@.len(),
            models == entry_models(entries@),
            entries@.len() <= u32::MAX,
            d@ == layout_v1(),
            out@ == header_bytes(d@, entries@.len() as u32) + entries_bytes(models.take(i as int)),
            forall|j: int| 0 <= j < i ==> writable(d@, #[trigger] models[j]),
        decreases entries@.len() - i,
    {
        proof {
            assert(models.take(i + 1).drop_last() =~= models.take(i as int));
            assert(models.take(i + 1).last() == models[i as int]);
            assert(models[i as int] == entries@[i as int]@);
            assert(entries@[i as int].hash@.len() == HASH_SIZE_BYTES);
        }
        match d.write_entry(&mut out, &entries[i]) {
            Ok(()) => {},
            Err(e) => {
                assert(!writable(d@, models[i as int]));
                return Err(e);
            },
        }
        i += 1;
    }
    assert(models.take(i as int) =~= models);
    Ok(out)
}

/// Position of the first entry with the given path, or the length of the
/// list where there is none.
pub open spec fn path_position(entries: Seq<EntryModel>, path: Seq<u8>) -> int
    decreases entries.len(),
{
    if entries.len() == 0 {
        0
    } else if entries[0].path == path {
        0
    } else {
        1 + path_position(entries.drop_first(), path)
    }
}

/// A list with an entry staged: it takes the place of the first entry
/// with its path, or comes last where no entry has its path.
pub open spec fn staged(entries: Seq<EntryModel>, e: EntryModel) -> Seq<EntryModel> {
    let i = path_position(entries, e.path);
    if 0 <= i < entries.len() {
        entries.update(i, e)
    } else {
        entries.push(e)
    }
}

/// `path_position` is the least position whose entry has the path, if any
/// has.
proof fn lemma_path_position(entries: Seq<EntryModel>, path: Seq<u8>, i: int)
    requires
        0 <= i <= entries.len(),
        i < entries.len() ==> entries[i].path == path,
        forall|j: int| 0 <= j < i ==> entries[j].path != path,
    ensures
        path_position(entries, path) == i,
    decreases entries.len(),
{
    if entries.len() != 0 && i > 0 {
        assert(entries[0].path != path);
        let t = entries.drop_first();
        assert forall|j: int| 0 <= j < i - 1 implies t[j].path != path by {
            assert(t[j] == entries[j + 1]);
        }
        lemma_path_position(t, path, i - 1);
    }
}

/// Stages an entry: replaces the first entry with its path, or appends
/// it.
pub fn stage_entry(entries: &mut Vec<IndexEntry>, entry: IndexEntry)
    ensures
        entry_models(final(entries)@) == staged(entry_models(old(entries)@), entry@),
{
    let ghost models = entry_models(entries@);
    let ghost e = entry@;
    let mut i: usize = 0;
    while i < entries.len()
        invariant
            i <= entries@.len(),
            entries@ == old(entries)@,
            models == entry_models(entries@),
            e == entry@,
            forall|j: int| 0 <= j < i ==> entry_models(entries@)[j].path != e.path,
        decreases entries@.len() - i,
    {
        if bytes_eq(entries[i].path.as_str().as_bytes(), entry.path.as_str().as_bytes()) {
            proof {
                lemma_path_position(models, e.path, i as int);
            }
            entries[i] = entry;
            assert(entry_models(entries@) =~= models.update(i as int, e));
            return ;
        }
        i += 1;
    }
    proof {
        lemma_path_position(models, e.path, i as int);
    }
    entries.push(entry);
    assert(entry_models(entries@) =~= models.push(e));
}

/// Whether no two entries of a list have the same path.
pub open spec fn distinct_paths(entries: Seq<EntryModel>) -> bool {
    forall|i: int, j: int|
        0 <= i < j < entries.len() ==> (#[trigger] entries[i]).path != (#[trigger] entries[j]).path
}

/// `path_position` lies within the list or at its end; before it no entry
/// has the path, and at it the entry has the path.
pub proof fn lemma_path_position_is_first(entries: Seq<EntryModel>, path: Seq<u8>)
    ensures
        0 <= path_position(entries, path) <= entries.len(),
        path_position(entries, path) < entries.len() ==> entries[path_position(
            entries,
            path,
        )].path == path,
        forall|j: int| 0 <= j < path_position(entries, path) ==> entries[j].path != path,
    decreases entries.len(),
{
    if entries.len() != 0 && entries[0].path != path {
        let t = entries.drop_first();
        lemma_path_position_is_first(t, path);
        assert forall|j: int| 0 <= j < path_position(entries, path) implies entries[j].path
            != path by {
            if j > 0 {
                assert(entries[j] == t[j - 1]);
            }
        }
    }
}

/// Staging keeps paths distinct: a list in which no path occurs twice is
/// such a list after an entry is staged, and it then holds the entry.
pub proof fn law_staging_keeps_paths_distinct(entries: Seq<EntryModel>, e: EntryModel)
    requires
        distinct_paths(entries),
    ensures
        distinct_paths(staged(entries, e)),
        exists|k: int| 0 <= k < staged(entries, e).len() && staged(entries, e)[k] == e,
{
    lemma_path_position_is_first(entries, e.path);
    let at = path_position(entries, e.path);
    let out = staged(entries, e);
    assert(out[at] == e);
    assert forall|i: int, j: int| 0 <= i < j < out.len() implies (#[trigger] out[i]).path != (
    #[trigger] out[j]).path by {
        if at < entries.len() {
            if i != at && j != at {
                assert(out[i] == entries[i] && out[j] == entries[j]);
            } else if i == at {
                assert(out[j] == entries[j]);
                assert(entries[i].path != entries[j].path);
            } else {
                assert(out[i] == entries[i]);
                assert(entries[i].path != entries[j].path);
            }
        } else {
            if j < entries.len() {
                assert(out[i] == entries[i] && out[j] == entries[j]);
            } else {
                assert(out[i] == entries[i]);
            }
        }
    }
}

} // verus!
