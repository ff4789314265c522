//! A cursor over a byte source that buffers it chunk by chunk, and a sink
//! that keeps what is written to it together with its digest.
use crate::hash::{GitHash, sha1_digest};
use crate::text::{bytes_eq, copy_range};
use vstd::prelude::*;

verus! {

/// Why the cursor cannot hand out what was asked for.
#[derive(Debug, Clone, Copy, PartialEq, Eq, Structural)]
pub enum StreamError {
    /// The source ends before the bytes asked for.
    UnexpectedEof,
}

/// A window over a source of bytes. Bytes are taken from the source in
/// chunks of a fixed size, only when they are asked for, and are handed
/// out in the order of the source.
pub struct BufferedStreamCursor {
    reader: Vec<u8>,
    taken: usize,
    dropped: usize,
    buffer: Vec<u8>,
    cursor: usize,
    eof: bool,
    chunk_size: usize,
}

/// Position of the first occurrence of `pattern` in `hay` at or after
/// `from`, or the length of `hay` where there is none.
pub open spec fn first_match(hay: Seq<u8>, pattern: Seq<u8>, from: int) -> int
    decreases hay.len() - from,
{
    if from < 0 || from + pattern.len() > hay.len() {
        hay.len() as int
    } else if hay.subrange(from, from + pattern.len()) == pattern || from >= hay.len() {
        from
    } else {
        first_match(hay, pattern, from + 1)
    }
}

/// Position of the first occurrence of a pattern in a byte string, or the
/// length of the string.
pub fn find_pattern(hay: &[u8], pattern: &[u8]) -> (at: usize)
    ensures
        at == first_match(hay@, pattern@, 0),
        at <= hay@.len(),
        at < hay@.len() ==> at + pattern@.len() <= hay@.len() && hay@.subrange(
            at as int,
            at + pattern@.len(),
        ) == pattern@,
{
    if pattern.len() > hay.len() {
        return hay.len();
    }
    if pattern.len() == 0 {
        assert(hay@.subrange(0, 0) =~= pattern@);
        return 0;
    }
    let last = hay.len() - pattern.len();
    let mut i: usize = 0;
    while i <= last
        invariant
            i <= last + 1,
            last + pattern@.len() == hay@.len(),
            pattern@.len() > 0,
            hay@.len() <= usize::MAX,
            first_match(hay@, pattern@, 0) == first_match(hay@, pattern@, i as int),
        decreases last + 1 - i,
    {
        if bytes_eq(vstd::slice::slice_subrange(hay, i, i + pattern.len()), pattern) {
            if i == hay.len() {
                assert(pattern@.len() == 0);
            }
            return i;
        }
        i += 1;
    }
    hay.len()
}

/// How many bytes are buffered after chunks have been read until `n` are
/// buffered or the source is used up: `have` bytes are buffered at first,
/// `all` bytes remain in the source and the buffer together, and each
/// chunk adds `chunk` bytes, the last one what is left.
pub open spec fn filled(have: nat, n: nat, chunk: nat, all: nat) -> nat
    decreases all - have,
{
    if have >= n || chunk == 0 || have >= all {
        have
    } else if have + chunk >= all {
        all
    } else {
        filled(have + chunk, n, chunk, all)
    }
}

impl BufferedStreamCursor {
    /// Whether the buffer holds what it should: a part of the source that
    /// reaches from the bytes dropped to the bytes taken so far.
    pub closed spec fn wf(&self) -> bool {
        &&& self.cursor <= self.buffer@.len()
        &&& self.dropped + self.buffer@.len() == self.taken
        &&& self.taken <= self.reader@.len()
        &&& self.buffer@ == self.reader@.subrange(self.dropped as int, self.taken as int)
        &&& self.chunk_size == 0 ==> self.taken == 0
        &&& self.eof ==> self.taken == self.reader@.len() || self.chunk_size == 0
    }

    /// Size of the chunks in which the source is read.
    pub closed spec fn chunk(&self) -> nat {
        self.chunk_size as nat
    }

    /// The bytes that the cursor has yet to hand out: the rest of the
    /// source. A cursor with chunks of size zero reads nothing and hands
    /// out nothing.
    pub closed spec fn remaining(&self) -> Seq<u8> {
        if self.chunk_size == 0 {
            Seq::empty()
        } else {
            self.reader@.skip(self.dropped + self.cursor)
        }
    }

    /// How many of the remaining bytes are in the buffer.
    pub closed spec fn buffered(&self) -> nat {
        (self.buffer@.len() - self.cursor) as nat
    }

    /// Number of bytes handed out since the buffer was last drained.
    pub closed spec fn offset(&self) -> nat {
        self.cursor as nat
    }

    /// A cursor at the start of a source.
    pub fn with_chunk_size(reader: Vec<u8>, chunk_size: usize) -> (cursor: Self)
        ensures
            cursor.wf(),
            cursor.chunk() == chunk_size,
            cursor.remaining() == (if chunk_size == 0 {
                Seq::<u8>::empty()
            } else {
                reader@
            }),
            cursor.buffered() == 0,
            cursor.offset() == 0,
    {
        let cursor = BufferedStreamCursor {
            reader,
            taken: 0,
            dropped: 0,
            buffer: Vec::new(),
            cursor: 0,
            eof: false,
            chunk_size,
        };
        assert(cursor.buffer@ =~= cursor.reader@.subrange(0, 0));
        assert(cursor.reader@.skip(0) =~= cursor.reader@);
        cursor
    }

    /// Reads chunks from the source until `n` bytes are buffered or the
    /// source is used up.
    pub fn ensure_available(&mut self, n: usize)
        requires
            old(self).wf(),
        ensures
            final(self).wf(),
            final(self).remaining() == old(self).remaining(),
            final(self).chunk() == old(self).chunk(),
            final(self).offset() == old(self).offset(),
            final(self).buffered() >= old(self).buffered(),
            final(self).buffered() <= final(self).remaining().len(),
            final(self).buffered() >= n || final(self).buffered() == final(self).remaining().len(),
            final(self).buffered() == filled(
                old(self).buffered(),
                n as nat,
                old(self).chunk(),
                old(self).remaining().len(),
            ),
    {
        let ghost all = self.remaining().len();
        let ghost goal = filled(self.buffered(), n as nat, self.chunk(), all);
        while self.buffer.len() - self.cursor < n && !self.eof
            invariant
                self.wf(),
                all == self.remaining().len(),
                goal == filled(self.buffered(), n as nat, self.chunk(), all),
                self.remaining() == old(self).remaining(),
                self.chunk() == old(self).chunk(),
                self.offset() == old(self).offset(),
                self.buffered() >= old(self).buffered(),
            decreases self.reader@.len() - self.taken, if self.eof { 0int } else { 1int },
        {
            let left = self.reader.len() - self.taken;
            let n_read = if left < self.chunk_size {
                left
            } else {
                self.chunk_size
            };
            if n_read == 0 {
                self.eof = true;
            } else {
                let ghost before = self.buffer@;
                let chunk = vstd::slice::slice_subrange(
                    self.reader.as_slice(),
                    self.taken,
                    self.taken + n_read,
                );
                self.buffer.extend_from_slice(chunk);
                self.taken = self.taken + n_read;
                assert(self.buffer@ =~= self.reader@.subrange(
                    self.dropped as int,
                    self.taken as int,
                ));
            }
        }
    }

    /// Number of buffered bytes that have not been handed out.
    pub fn available(&self) -> (n: usize)
        requires
            self.wf(),
        ensures
            n == self.buffered(),
            n <= self.remaining().len(),
            self.remaining().len() <= usize::MAX,
    {
        let _ = self.reader.len();
        self.buffer.len() - self.cursor
    }

    /// The next `n` bytes, which are then behind the cursor.
    pub fn read(&mut self, n: usize) -> (r: Result<Vec<u8>, StreamError>)
        requires
            old(self).wf(),
        ensures
            final(self).wf(),
            final(self).chunk() == old(self).chunk(),
            match r {
                Ok(bytes) => n <= old(self).remaining().len() && bytes@ == old(
                    self,
                ).remaining().take(n as int) && final(self).remaining() == old(
                    self,
                ).remaining().skip(n as int) && final(self).offset() == old(self).offset() + n,
                Err(e) => n > old(self).remaining().len() && final(self).remaining() == old(
                    self,
                ).remaining() && final(self).offset() == old(self).offset(),
            },
            final(self).buffered() <= final(self).remaining().len(),
    {
        let r = self.peek(n);
        if r.is_ok() {
            self.advance(n);
        }
        r
    }

    /// Position, counted from the cursor, of the first occurrence of a
    /// non-empty pattern among the buffered bytes.
    pub fn search(&self, pattern: &[u8]) -> (at: Option<usize>)
        requires
            self.wf(),
            pattern@.len() > 0,
        ensures
            ({
                let hay = self.remaining().take(self.buffered() as int);
                let first = first_match(hay, pattern@, 0);
                at == (if first < hay.len() {
                    Some(first as usize)
                } else {
                    None
                })
            }),
    {
        let hay = vstd::slice::slice_subrange(self.buffer.as_slice(), self.cursor, self.buffer.len());
        assert(hay@ =~= self.remaining().take(self.buffered() as int));
        let at = find_pattern(hay, pattern);
        if at < hay.len() {
            Some(at)
        } else {
            None
        }
    }

    /// Moves the cursor over `n` buffered bytes.
    pub fn advance(&mut self, n: usize)
        requires
            old(self).wf(),
            n <= old(self).buffered(),
        ensures
            final(self).wf(),
            final(self).remaining() == old(self).remaining().skip(n as int),
            final(self).buffered() == old(self).buffered() - n,
            final(self).offset() == old(self).offset() + n,
            final(self).chunk() == old(self).chunk(),
    {
        let ghost before = self.remaining();
        self.cursor = self.cursor + n;
        assert(self.remaining() =~= before.skip(n as int));
    }

    /// Number of bytes handed out since the buffer was last drained.
    pub fn position(&self) -> (at: usize)
        ensures
            at == self.offset(),
    {
        self.cursor
    }

    /// The next `n` bytes, which are then behind the cursor.
    pub fn take(&mut self, n: usize) -> (r: Result<Vec<u8>, StreamError>)
        requires
            old(self).wf(),
        ensures
            final(self).wf(),
            final(self).chunk() == old(self).chunk(),
            match r {
                Ok(bytes) => n <= old(self).remaining().len() && bytes@ == old(
                    self,
                ).remaining().take(n as int) && final(self).remaining() == old(
                    self,
                ).remaining().skip(n as int) && final(self).offset() == old(self).offset() + n,
                Err(e) => n > old(self).remaining().len() && final(self).remaining() == old(
                    self,
                ).remaining() && final(self).offset() == old(self).offset(),
            },
    {
        self.read(n)
    }

    /// The next `n` bytes, which stay before the cursor.
    pub fn peek(&mut self, n: usize) -> (r: Result<Vec<u8>, StreamError>)
        requires
            old(self).wf(),
        ensures
            final(self).wf(),
            final(self).remaining() == old(self).remaining(),
            final(self).chunk() == old(self).chunk(),
            final(self).offset() == old(self).offset(),
            final(self).buffered() >= old(self).buffered(),
            final(self).buffered() <= final(self).remaining().len(),
            match r {
                Ok(bytes) => n <= final(self).buffered() && bytes@ == old(self).remaining().take(
                    n as int,
                ),
                Err(e) => n > old(self).remaining().len(),
            },
    {
        self.ensure_available(n);
        if self.buffer.len() - self.cursor < n {
            return Err(StreamError::UnexpectedEof);
        }
        let bytes = copy_range(self.buffer.as_slice(), self.cursor, self.cursor + n);
        assert(bytes@ =~= self.remaining().take(n as int));
        Ok(bytes)
    }

    /// The byte that stands `i` bytes after the cursor, which stays where
    /// it is; `None` where the source ends before that byte.
    pub fn peek_at(&mut self, i: usize) -> (b: Option<u8>)
        requires
            old(self).wf(),
        ensures
            final(self).wf(),
            final(self).remaining() == old(self).remaining(),
            final(self).chunk() == old(self).chunk(),
            final(self).offset() == old(self).offset(),
            final(self).buffered() >= old(self).buffered(),
            final(self).buffered() <= final(self).remaining().len(),
            b == (if i < old(self).remaining().len() {
                Some(old(self).remaining()[i as int])
            } else {
                None
            }),
            b is Some ==> i < final(self).buffered(),
    {
        if i == usize::MAX {
            let _ = self.reader.len();
            return None;
        }
        self.ensure_available(i + 1);
        if self.buffer.len() - self.cursor <= i {
            return None;
        }
        Some(self.buffer[self.cursor + i])
    }

    /// All the bytes that are yet to come, which stay before the cursor.
    pub fn peek_rest(&mut self) -> (bytes: Vec<u8>)
        requires
            old(self).wf(),
        ensures
            final(self).wf(),
            final(self).remaining() == old(self).remaining(),
            final(self).chunk() == old(self).chunk(),
            final(self).offset() == old(self).offset(),
            final(self).buffered() == final(self).remaining().len(),
            bytes@ == old(self).remaining(),
    {
        self.ensure_available(usize::MAX);
        let n = self.available();
        match self.peek(n) {
            Ok(bytes) => {
                assert(bytes@ =~= self.remaining());
                bytes
            },
            Err(_) => Vec::new(),
        }
    }

    /// Drops from the buffer the bytes that are behind the cursor.
    pub fn drain_consumed(&mut self)
        requires
            old(self).wf(),
        ensures
            final(self).wf(),
            final(self).remaining() == old(self).remaining(),
            final(self).buffered() == old(self).buffered(),
            final(self).chunk() == old(self).chunk(),
            final(self).offset() == 0,
    {
        if self.cursor > 0 {
            let ghost before = self.remaining();
            let kept = copy_range(self.buffer.as_slice(), self.cursor, self.buffer.len());
            self.dropped = self.dropped + self.cursor;
            self.buffer = kept;
            self.cursor = 0;
            assert(self.buffer@ =~= self.reader@.subrange(self.dropped as int, self.taken as int));
            assert(self.remaining() =~= before);
        }
    }
}

/// A sink that keeps what is written to it, for a file and for a digest
/// of the whole.
pub struct TeeWriter {
    written: Vec<u8>,
}

impl TeeWriter {
    /// What has been written so far.
    pub closed spec fn content(&self) -> Seq<u8> {
        self.written@
    }

    /// An empty sink.
    pub fn new() -> (tee: Self)
        ensures
            tee.content() == Seq::<u8>::empty(),
    {
        TeeWriter { written: Vec::new() }
    }

    /// Writes all of `buf`.
    pub fn write_all(&mut self, buf: &[u8])
        ensures
            final(self).content() == old(self).content() + buf@,
    {
        self.written.extend_from_slice(buf);
    }

    /// The digest of all that has been written.
    pub fn digest(&self) -> (hash: GitHash)
        ensures
            hash@ == sha1_digest(self.content()),
    {
        GitHash::from_bytes(self.written.as_slice())
    }

    /// All that has been written.
    pub fn into_bytes(self) -> (bytes: Vec<u8>)
        ensures
            bytes@ == self.content(),
    {
        self.written
    }
}

} // verus!
