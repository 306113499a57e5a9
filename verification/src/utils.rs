//! Byte streams in memory, and handles on them that keep track of their own
//! position.

use vstd::prelude::*;
use crate::error::KvsError;

verus! {

/// Where a seek goes: to an offset from the start of the stream, from its
/// end, or from the current offset.
#[derive(Debug, Clone, Copy, PartialEq, Eq)]
pub enum SeekFrom {
    Start(u64),
    End(i64),
    Current(i64),
}

/// A stream of bytes that can be read, written and sought in: the bytes and
/// the offset at which the next read or write takes place.
pub struct Stream {
    pub data: Vec<u8>,
    pub offset: u64,
}

/// How many bytes a read of `want` bytes at offset `pos` transfers from a
/// stream of `len` bytes.
pub open spec fn readable(len: nat, pos: nat, want: nat) -> nat {
    if pos >= len {
        0
    } else if want <= len - pos {
        want
    } else {
        (len - pos) as nat
    }
}

/// The offset that a seek leads to in a stream of `len` bytes that stands at
/// `offset`: none where it would lie before the start of the stream or past
/// the range of offsets.
pub open spec fn seek_target(len: nat, offset: u64, pos: SeekFrom) -> Option<u64> {
    let target: int = match pos {
        SeekFrom::Start(n) => n as int,
        SeekFrom::End(d) => len + d,
        SeekFrom::Current(d) => offset + d,
    };
    if 0 <= target <= u64::MAX {
        Some(target as u64)
    } else {
        None
    }
}

/// The bytes of a stream after `buf` was written at `offset`: the bytes of
/// `buf` from `offset` on, the old bytes around them, and zeros in a gap
/// between the old end and `offset`.
pub open spec fn overwritten(data: Seq<u8>, offset: nat, buf: Seq<u8>) -> Seq<u8> {
    Seq::new(
        if data.len() > offset + buf.len() {
            data.len()
        } else {
            offset + buf.len()
        },
        |i: int|
            if offset <= i < offset + buf.len() {
                buf[i - offset]
            } else if i < data.len() {
                data[i]
            } else {
                0u8
            },
    )
}

impl Stream {
    /// The stream of the bytes `data` at the offset `offset`.
    pub fn new(data: Vec<u8>, offset: u64) -> (s: Self)
        ensures
            s.data@ == data@,
            s.offset == offset,
    {
        Stream { data, offset }
    }

    /// Copies bytes from the current offset into the front of `buf`, as many
    /// as the stream still has and `buf` can take, and moves the offset
    /// behind them. The rest of `buf` keeps what it held.
    pub fn read(&mut self, buf: &mut [u8]) -> (n: usize)
        ensures
            n == readable(old(self).data@.len(), old(self).offset as nat, old(buf)@.len()),
            final(self).data@ == old(self).data@,
            final(self).offset == old(self).offset + n,
            final(buf)@.len() == old(buf)@.len(),
            forall|i: int| 0 <= i < n ==> final(buf)@[i] == old(self).data@[old(self).offset + i],
            forall|i: int| n <= i < old(buf)@.len() ==> final(buf)@[i] == old(buf)@[i],
    {
        let len = self.data.len();
        if self.offset >= len as u64 {
            return 0;
        }
        let start: usize = self.offset as usize;
        let left: usize = len - start;
        let n: usize = if buf.len() <= left { buf.len() } else { left };
        let mut i: usize = 0;
        while i < n
            invariant
                i <= n,
                n <= buf@.len(),
                start + n <= len,
                len == self.data@.len(),
                buf@.len() == old(buf)@.len(),
                self.data@ == old(self).data@,
                self.offset == old(self).offset,
                forall|j: int| 0 <= j < i ==> buf@[j] == self.data@[start + j],
                forall|j: int| i <= j < buf@.len() ==> buf@[j] == old(buf)@[j],
            decreases n - i,
        {
            buf[i] = self.data[start + i];
            i = i + 1;
        }
        self.offset = self.offset + n as u64;
        n
    }

    /// Writes all of `buf` at the current offset, over the bytes that are
    /// there and past the end, after zeros where the offset lies past the
    /// end, and moves the offset behind it. Fails with `Io`, writing nothing,
    /// where the stream would outgrow what memory can address.
    pub fn write(&mut self, buf: &[u8]) -> (r: Result<usize, KvsError>)
        ensures
            old(self).offset + buf@.len() <= usize::MAX ==> r == Ok::<usize, KvsError>(
                buf@.len() as usize,
            ) && final(self).data@ == overwritten(old(self).data@, old(self).offset as nat, buf@)
                && final(self).offset == old(self).offset + buf@.len(),
            old(self).offset + buf@.len() > usize::MAX ==> r == Err::<usize, KvsError>(KvsError::Io)
                && *final(self) == *old(self),
    {
        let n = buf.len();
        if self.offset > (usize::MAX - n) as u64 {
            return Err(KvsError::Io);
        }
        let start: usize = self.offset as usize;
        while self.data.len() < start
            invariant
                self.offset == old(self).offset,
                self.data@.len() >= old(self).data@.len(),
                self.data@.len() <= start || self.data@.len() == old(self).data@.len(),
                forall|j: int|
                    0 <= j < self.data@.len() ==> self.data@[j] == (if j < old(self).data@.len() {
                        old(self).data@[j]
                    } else {
                        0u8
                    }),
            decreases start - self.data@.len(),
        {
            self.data.push(0u8);
        }
        let mut i: usize = 0;
        while i < n
            invariant
                i <= n,
                n == buf@.len(),
                start + n <= usize::MAX,
                start == old(self).offset,
                self.offset == old(self).offset,
                self.data@.len() >= start,
                self.data@.len() == (if old(self).data@.len() > start + i {
                    old(self).data@.len()
                } else {
                    (start + i) as nat
                }),
                forall|j: int|
                    0 <= j < self.data@.len() ==> self.data@[j] == (if start <= j < start + i {
                        buf@[j - start]
                    } else if j < old(self).data@.len() {
                        old(self).data@[j]
                    } else {
                        0u8
                    }),
            decreases n - i,
        {
            if start + i < self.data.len() {
                self.data.set(start + i, buf[i]);
            } else {
                self.data.push(buf[i]);
            }
            i = i + 1;
        }
        self.offset = self.offset + n as u64;
        assert(self.data@ =~= overwritten(old(self).data@, old(self).offset as nat, buf@));
        Ok(n)
    }

    /// Moves the offset where `pos` says, be it past the end, and returns
    /// it. Fails with `Io`, the offset unmoved, where that lies before the
    /// start of the stream or past the range of offsets.
    pub fn seek(&mut self, pos: SeekFrom) -> (r: Result<u64, KvsError>)
        ensures
            final(self).data == old(self).data,
            match seek_target(old(self).data@.len(), old(self).offset, pos) {
                Some(target) => r == Ok::<u64, KvsError>(target) && final(self).offset == target,
                None => r == Err::<u64, KvsError>(KvsError::Io) && final(self).offset == old(
                    self,
                ).offset,
            },
    {
        let target: i128 = match pos {
            SeekFrom::Start(n) => n as i128,
            SeekFrom::End(d) => self.data.len() as i128 + d as i128,
            SeekFrom::Current(d) => self.offset as i128 + d as i128,
        };
        if target < 0 || target > u64::MAX as i128 {
            return Err(KvsError::Io);
        }
        self.offset = target as u64;
        Ok(self.offset)
    }
}

/// A read handle on a stream, with the position of the next read.
pub struct BufReaderWithPos {
    pub reader: Stream,
    pub pos: u64,
}

impl View for BufReaderWithPos {
    type V = Seq<u8>;

    /// The bytes of the stream.
    open spec fn view(&self) -> Seq<u8> {
        self.reader.data@
    }
}

impl BufReaderWithPos {
    /// A read handle on `inner`, at the offset at which `inner` stands.
    pub fn new(inner: Stream) -> (r: Self)
        ensures
            r.reader == inner,
            r.pos == inner.offset,
    {
        let mut inner = inner;
        let pos = match inner.seek(SeekFrom::Current(0)) {
            Ok(pos) => pos,
            Err(_) => inner.offset,
        };
        BufReaderWithPos { reader: inner, pos }
    }

    /// Reads from the stream into the front of `buf` and advances the
    /// position by the count of bytes read, which it returns. Fails with
    /// `Io`, reading nothing, where the position would leave the range of
    /// offsets.
    pub fn read(&mut self, buf: &mut [u8]) -> (r: Result<usize, KvsError>)
        ensures
            final(buf)@.len() == old(buf)@.len(),
            final(self)@ == old(self)@,
            ({
                let n = readable(old(self)@.len(), old(self).reader.offset as nat, old(buf)@.len());
                if old(self).pos + n <= u64::MAX {
                    &&& r == Ok::<usize, KvsError>(n as usize)
                    &&& final(self).pos == old(self).pos + n
                    &&& final(self).reader.offset == old(self).reader.offset + n
                    &&& forall|i: int|
                        0 <= i < n ==> final(buf)@[i] == old(self)@[old(self).reader.offset + i]
                    &&& forall|i: int| n <= i < old(buf)@.len() ==> final(buf)@[i] == old(buf)@[i]
                } else {
                    &&& r == Err::<usize, KvsError>(KvsError::Io)
                    &&& *final(self) == *old(self)
                    &&& final(buf)@ == old(buf)@
                }
            }),
    {
        let len = self.reader.data.len();
        let left: usize = if self.reader.offset >= len as u64 {
            0
        } else {
            len - self.reader.offset as usize
        };
        let n: usize = if buf.len() <= left { buf.len() } else { left };
        if n as u64 > u64::MAX - self.pos {
            return Err(KvsError::Io);
        }
        let len = self.reader.read(buf);
        self.pos = self.pos + len as u64;
        Ok(len)
    }

    /// Seeks in the stream and takes its new offset as the position, which
    /// it returns. Where the stream refuses the seek, it fails with `Io` and
    /// nothing moves.
    pub fn seek(&mut self, pos: SeekFrom) -> (r: Result<u64, KvsError>)
        ensures
            final(self)@ == old(self)@,
            match seek_target(old(self)@.len(), old(self).reader.offset, pos) {
                Some(target) => r == Ok::<u64, KvsError>(target) && final(self).pos == target
                    && final(self).reader.offset == target,
                None => r == Err::<u64, KvsError>(KvsError::Io) && final(self).pos == old(self).pos
                    && final(self).reader.offset == old(self).reader.offset,
            },
    {
        match self.reader.seek(pos) {
            Ok(at) => {
                self.pos = at;
                Ok(at)
            },
            Err(e) => Err(e),
        }
    }
}

/// A write handle on a stream that collects bytes until they are flushed,
/// with the position that the next byte written will have.
pub struct BufWriterWithPos {
    pub writer: Stream,
    pub buffer: Vec<u8>,
    pub pos: u64,
}

impl BufWriterWithPos {
    /// A write handle on `inner` with nothing buffered, at the offset at
    /// which `inner` stands.
    pub fn new(inner: Stream) -> (w: Self)
        ensures
            w.writer == inner,
            w.buffer@ == Seq::<u8>::empty(),
            w.pos == inner.offset,
    {
        let mut inner = inner;
        let pos = match inner.seek(SeekFrom::Current(0)) {
            Ok(pos) => pos,
            Err(_) => inner.offset,
        };
        BufWriterWithPos { writer: inner, buffer: Vec::new(), pos }
    }

    /// Takes all of `buf` into the buffer and advances the position by its
    /// length. Fails with `Io`, taking nothing, where the position would
    /// leave the range of offsets.
    pub fn write(&mut self, buf: &[u8]) -> (r: Result<usize, KvsError>)
        ensures
            final(self).writer == old(self).writer,
            old(self).pos + buf@.len() <= u64::MAX ==> r == Ok::<usize, KvsError>(buf@.len() as usize)
                && final(self).buffer@ == old(self).buffer@ + buf@ && final(self).pos == old(
                self,
            ).pos + buf@.len(),
            old(self).pos + buf@.len() > u64::MAX ==> r == Err::<usize, KvsError>(KvsError::Io)
                && *final(self) == *old(self),
    {
        let len = buf.len();
        if len as u64 > u64::MAX - self.pos {
            return Err(KvsError::Io);
        }
        self.buffer.extend_from_slice(buf);
        self.pos = self.pos + len as u64;
        Ok(len)
    }

    /// Writes the buffered bytes to the stream, in the order in which they
    /// were written, and leaves the buffer empty. The position stays. Where
    /// the stream refuses them, it fails with `Io` and nothing changes.
    pub fn flush(&mut self) -> (r: Result<(), KvsError>)
        ensures
            final(self).pos == old(self).pos,
            old(self).writer.offset + old(self).buffer@.len() <= usize::MAX ==> r == Ok::<
                (),
                KvsError,
            >(()) && final(self).buffer@ == Seq::<u8>::empty() && final(self).writer.data@
                == overwritten(
                old(self).writer.data@,
                old(self).writer.offset as nat,
                old(self).buffer@,
            ) && final(self).writer.offset == old(self).writer.offset + old(self).buffer@.len(),
            old(self).writer.offset + old(self).buffer@.len() > usize::MAX ==> r == Err::<
                (),
                KvsError,
            >(KvsError::Io) && *final(self) == *old(self),
    {
        match self.writer.write(self.buffer.as_slice()) {
            Ok(_) => {
                self.buffer.clear();
                Ok(())
            },
            Err(e) => Err(e),
        }
    }

    /// Flushes the buffered bytes, then seeks in the stream and takes its
    /// new offset as the position, which it returns. Fails with `Io`, nothing
    /// changed, where the flush fails; and with `Io`, the bytes flushed and
    /// the position unmoved, where the stream refuses the seek.
    pub fn seek(&mut self, pos: SeekFrom) -> (r: Result<u64, KvsError>)
        ensures
            old(self).writer.offset + old(self).buffer@.len() > usize::MAX ==> r == Err::<
                u64,
                KvsError,
            >(KvsError::Io) && *final(self) == *old(self),
            old(self).writer.offset + old(self).buffer@.len() <= usize::MAX ==> {
                let data = overwritten(
                    old(self).writer.data@,
                    old(self).writer.offset as nat,
                    old(self).buffer@,
                );
                let offset = (old(self).writer.offset + old(self).buffer@.len()) as u64;
                &&& final(self).buffer@ == Seq::<u8>::empty()
                &&& final(self).writer.data@ == data
                &&& match seek_target(data.len(), offset, pos) {
                    Some(target) => r == Ok::<u64, KvsError>(target) && final(self).pos == target
                        && final(self).writer.offset == target,
                    None => r == Err::<u64, KvsError>(KvsError::Io) && final(self).pos == old(
                        self,
                    ).pos && final(self).writer.offset == offset,
                }
            },
    {
        match self.flush() {
            Ok(_) => {},
            Err(e) => {
                return Err(e);
            },
        }
        match self.writer.seek(pos) {
            Ok(at) => {
                self.pos = at;
                Ok(at)
            },
            Err(e) => Err(e),
        }
    }
}

} // verus!
