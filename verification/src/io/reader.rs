//! A buffered reader that knows its position and skips without reading.
use vstd::prelude::*;
use crate::bytes::{be_value, copy_range, lemma_be_value_bound, uint_be};
use crate::error::{ErrorView, IoError, PgsError};
use crate::text::{text_from_utf8, utf8_error};
use vstd::utf8::{decode_utf8, valid_utf8};

verus! {

/// A sequence of bytes of fixed size that can be read at any position.
pub trait Source {
    /// The bytes. An implementation that says nothing about them has some.
    open spec fn bytes(&self) -> Seq<u8> {
        arbitrary()
    }

    /// The number of bytes.
    fn size(&self) -> (n: u64)
        ensures
            n == self.bytes().len(),
    ;

    /// The `len` bytes at `pos`.
    fn read_at(&self, pos: u64, len: u64) -> (r: Vec<u8>)
        requires
            pos + len <= self.bytes().len(),
        ensures
            r@ == self.bytes().subrange(pos as int, pos + len),
    ;
}

/// Bytes that are held in memory.
pub struct MemorySource {
    data: Vec<u8>,
}

impl MemorySource {
    /// A source of the given bytes.
    pub fn new(data: Vec<u8>) -> (r: Self)
        ensures
            r.bytes() == data@,
    {
        MemorySource { data }
    }
}

impl Source for MemorySource {
    closed spec fn bytes(&self) -> Seq<u8> {
        self.data@
    }

    fn size(&self) -> (n: u64) {
        self.data.len() as u64
    }

    fn read_at(&self, pos: u64, len: u64) -> (r: Vec<u8>) {
        let n: usize = self.data.len();
        assert(pos + len <= n);
        copy_range(self.data.as_slice(), pos as usize, pos as usize + len as usize)
    }
}

/// The bytes that were taken from a source in one go.
struct Window {
    start: u64,
    data: Vec<u8>,
}

/// A buffered reader over a source.
///
/// It tracks its absolute position, serves what is buffered from the buffer,
/// skips without reading and counts the bytes that it has handed out.
pub struct SeekBufReader<R: Source> {
    inner: R,
    window: Window,
    capacity: u64,
    pos: u64,
    bytes_read: u64,
}

/// The buffer size of a reader.
const DEFAULT_BUF_SIZE: usize = 65536;

/// The end of `n` more bytes on a counter that stops at its maximum.
pub open spec fn counted(before: u64, n: int) -> u64 {
    if before + n <= u64::MAX {
        (before + n) as u64
    } else {
        u64::MAX
    }
}

impl<R: Source> SeekBufReader<R> {
    /// The buffer holds what the source holds there.
    #[verifier::type_invariant]
    spec fn inv(self) -> bool {
        &&& self.window.start + self.window.data@.len() <= self.inner.bytes().len()
        &&& self.window.data@ == self.inner.bytes().subrange(
            self.window.start as int,
            self.window.start + self.window.data@.len(),
        )
    }

    /// The bytes of the source.
    pub closed spec fn bytes(&self) -> Seq<u8> {
        self.inner.bytes()
    }

    /// The position of the next byte.
    pub closed spec fn at(&self) -> u64 {
        self.pos
    }

    /// The number of bytes handed out.
    pub closed spec fn consumed(&self) -> u64 {
        self.bytes_read
    }

    /// A reader at the start of a source.
    pub fn new(inner: R) -> (r: Self)
        ensures
            r.bytes() == inner.bytes(),
            r.at() == 0,
            r.consumed() == 0,
    {
        SeekBufReader::with_capacity(DEFAULT_BUF_SIZE, inner)
    }

    /// A reader at the start of a source, with a buffer of the given size.
    pub fn with_capacity(capacity: usize, inner: R) -> (r: Self)
        ensures
            r.bytes() == inner.bytes(),
            r.at() == 0,
            r.consumed() == 0,
    {
        let window = Window { start: 0, data: Vec::new() };
        assert(window.data@ =~= inner.bytes().subrange(0, 0));
        SeekBufReader { inner, window, capacity: capacity as u64, pos: 0, bytes_read: 0 }
    }

    /// Starts over at the start of the source, with a buffer of the given size
    /// and nothing counted as read.
    pub fn restart(&mut self, capacity: usize)
        ensures
            final(self).bytes() == old(self).bytes(),
            final(self).at() == 0,
            final(self).consumed() == 0,
    {
        proof {
            use_type_invariant(&*self);
        }
        self.capacity = capacity as u64;
        self.pos = 0;
        self.bytes_read = 0;
    }

    /// Counts the bytes that are read from `n` on.
    pub fn recount(&mut self, n: u64)
        ensures
            final(self).bytes() == old(self).bytes(),
            final(self).at() == old(self).at(),
            final(self).consumed() == n,
    {
        proof {
            use_type_invariant(&*self);
        }
        self.bytes_read = n;
    }

    /// The position of the next byte.
    pub fn position(&self) -> (r: u64)
        ensures
            r == self.at(),
    {
        self.pos
    }

    /// The number of bytes handed out.
    pub fn bytes_read(&self) -> (r: u64)
        ensures
            r == self.consumed(),
    {
        self.bytes_read
    }

    /// The size of the source.
    pub fn file_size(&mut self) -> (r: Result<u64, PgsError>)
        ensures
            r == Ok::<u64, PgsError>(old(self).bytes().len() as u64),
            old(self).bytes().len() <= u64::MAX,
            *final(self) == *old(self),
    {
        Ok(self.inner.size())
    }

    /// Moves forward by `n` bytes without reading them.
    ///
    /// Fails if there is no such position.
    pub fn skip(&mut self, n: u64) -> (r: Result<(), PgsError>)
        ensures
            final(self).bytes() == old(self).bytes(),
            final(self).consumed() == old(self).consumed(),
            r is Ok <==> old(self).at() + n <= u64::MAX,
            r is Ok ==> final(self).at() == old(self).at() + n,
            r matches Err(e) ==> e@ == ErrorView::Io(IoError::InvalidPosition) && final(self).at()
                == old(self).at(),
    {
        proof {
            use_type_invariant(&*self);
        }
        if n > u64::MAX - self.pos {
            return Err(PgsError::Io(IoError::InvalidPosition));
        }
        self.pos = self.pos + n;
        Ok(())
    }

    /// Moves to a position.
    pub fn seek_to(&mut self, pos: u64) -> (r: Result<(), PgsError>)
        ensures
            r is Ok,
            final(self).bytes() == old(self).bytes(),
            final(self).consumed() == old(self).consumed(),
            final(self).at() == pos,
    {
        proof {
            use_type_invariant(&*self);
        }
        self.pos = pos;
        Ok(())
    }

    /// Takes `len` bytes from the buffer or the source.
    fn take(&mut self, len: u64) -> (r: Vec<u8>)
        requires
            old(self).at() + len <= old(self).bytes().len(),
        ensures
            final(self).bytes() == old(self).bytes(),
            final(self).at() == old(self).at() + len,
            final(self).consumed() == counted(old(self).consumed(), len as int),
            r@ == old(self).bytes().subrange(old(self).at() as int, old(self).at() + len),
    {
        proof {
            use_type_invariant(&*self);
        }
        let size: u64 = self.inner.size();
        let start: u64 = self.pos;
        let buffered_end: u64 = self.window.start + self.window.data.len() as u64;
        if len < self.capacity && !(self.window.start <= start && start + len <= buffered_end) {
            let fill: u64 = if size - start <= self.capacity { size - start } else { self.capacity };
            let data = self.inner.read_at(start, fill);
            self.window = Window { start, data };
        }
        let end: u64 = self.window.start + self.window.data.len() as u64;
        let r = if self.window.start <= start && start + len <= end {
            let from: usize = (start - self.window.start) as usize;
            let to: usize = (start + len - self.window.start) as usize;
            let r = copy_range(self.window.data.as_slice(), from, to);
            assert(r@ =~= self.inner.bytes().subrange(start as int, start + len));
            r
        } else {
            self.inner.read_at(start, len)
        };
        self.pos = start + len;
        self.bytes_read = self.bytes_read.saturating_add(len);
        r
    }
}

impl<R: Source> SeekBufReader<R> {
    /// Whether `n` more bytes are there.
    pub open spec fn has(&self, n: int) -> bool {
        self.at() + n <= self.bytes().len()
    }

    /// The next `n` bytes.
    pub open spec fn upcoming(&self, n: int) -> Seq<u8> {
        self.bytes().subrange(self.at() as int, self.at() + n)
    }

    /// Whether a read of `n` bytes has taken `self` to `after`.
    pub open spec fn advanced(&self, after: &Self, n: int) -> bool {
        &&& after.bytes() == self.bytes()
        &&& after.at() == self.at() + n
        &&& after.consumed() == counted(self.consumed(), n)
    }

    /// Reads exactly `len` bytes.
    pub fn read_bytes(&mut self, len: u64) -> (r: Result<Vec<u8>, PgsError>)
        ensures
            r is Ok <==> old(self).has(len as int),
            r matches Ok(v) ==> v@ == old(self).upcoming(len as int) && old(self).advanced(
                final(self),
                len as int,
            ),
            r matches Err(e) ==> e@ == ErrorView::Io(IoError::UnexpectedEof) && old(self).advanced(
                final(self),
                0,
            ),
    {
        let size: u64 = self.inner.size();
        if self.pos > size || len > size - self.pos {
            return Err(PgsError::Io(IoError::UnexpectedEof));
        }
        Ok(self.take(len))
    }

    /// Fills the buffer.
    pub fn read_exact(&mut self, buf: &mut [u8]) -> (r: Result<(), PgsError>)
        ensures
            final(buf)@.len() == old(buf)@.len(),
            r is Ok <==> old(self).has(old(buf)@.len() as int),
            r is Ok ==> final(buf)@ == old(self).upcoming(old(buf)@.len() as int) && old(
                self,
            ).advanced(final(self), old(buf)@.len() as int),
            r matches Err(e) ==> e@ == ErrorView::Io(IoError::UnexpectedEof) && old(self).advanced(
                final(self),
                0,
            ),
    {
        let data = match self.read_bytes(buf.len() as u64) {
            Ok(data) => data,
            Err(e) => {
                return Err(e);
            },
        };
        copy_into(buf, data.as_slice());
        Ok(())
    }

    /// Fills the buffer, or reports that the source has ended.
    ///
    /// Returns `Ok(true)` if the buffer was filled and `Ok(false)` if no byte
    /// was left. A source that ends in between is an error; what was left has
    /// then been read.
    pub fn try_read_exact(&mut self, buf: &mut [u8]) -> (r: Result<bool, PgsError>)
        ensures
            final(buf)@.len() == old(buf)@.len(),
            r matches Ok(b) ==> (b <==> old(buf)@.len() == 0 || old(self).has(
                old(buf)@.len() as int,
            )),
            r == Ok::<bool, PgsError>(true) ==> old(self).advanced(
                final(self),
                old(buf)@.len() as int,
            ),
            r == Ok::<bool, PgsError>(true) && old(buf)@.len() > 0 ==> final(buf)@ == old(
                self,
            ).upcoming(old(buf)@.len() as int),
            r == Ok::<bool, PgsError>(false) ==> old(self).advanced(final(self), 0),
            r is Err <==> old(buf)@.len() > 0 && old(self).at() < old(self).bytes().len() && !old(
                self,
            ).has(old(buf)@.len() as int),
            r matches Err(e) ==> e@ == ErrorView::Io(IoError::PartialRead) && old(self).advanced(
                final(self),
                old(self).bytes().len() - old(self).at(),
            ),
    {
        if buf.len() == 0 {
            return Ok(true);
        }
        let size: u64 = self.inner.size();
        if self.pos >= size {
            return Ok(false);
        }
        let left: u64 = size - self.pos;
        if (buf.len() as u64) > left {
            self.take(left);
            return Err(PgsError::Io(IoError::PartialRead));
        }
        let data = self.take(buf.len() as u64);
        copy_into(buf, data.as_slice());
        Ok(true)
    }

    /// Reads a number of `n` bytes, the most significant first.
    ///
    /// A number of no bytes is 0; one of more than eight bytes is refused.
    pub fn read_uint_be(&mut self, n: u64) -> (r: Result<u64, PgsError>)
        ensures
            r is Ok <==> n <= 8 && old(self).has(n as int),
            r matches Ok(v) ==> v == be_value(old(self).upcoming(n as int)) && old(self).advanced(
                final(self),
                n as int,
            ),
            r matches Err(e) ==> e@ == ErrorView::Io(
                if n > 8 {
                    IoError::IntegerTooLong
                } else {
                    IoError::UnexpectedEof
                },
            ) && old(self).advanced(final(self), 0),
    {
        if n > 8 {
            return Err(PgsError::Io(IoError::IntegerTooLong));
        }
        match self.read_bytes(n) {
            Ok(data) => Ok(uint_be(data.as_slice())),
            Err(e) => Err(e),
        }
    }

    /// Reads a number of two bytes.
    pub fn read_u16_be(&mut self) -> (r: Result<u16, PgsError>)
        ensures
            r is Ok <==> old(self).has(2),
            r matches Ok(v) ==> v == be_value(old(self).upcoming(2)) && old(self).advanced(
                final(self),
                2,
            ),
            r matches Err(e) ==> e@ == ErrorView::Io(IoError::UnexpectedEof) && old(self).advanced(
                final(self),
                0,
            ),
    {
        match self.read_uint_be(2) {
            Ok(v) => {
                proof {
                    lemma_be_value_bound(old(self).upcoming(2));
                }
                Ok(v as u16)
            },
            Err(e) => Err(e),
        }
    }

    /// Reads a number of four bytes.
    pub fn read_u32_be(&mut self) -> (r: Result<u32, PgsError>)
        ensures
            r is Ok <==> old(self).has(4),
            r matches Ok(v) ==> v == be_value(old(self).upcoming(4)) && old(self).advanced(
                final(self),
                4,
            ),
            r matches Err(e) ==> e@ == ErrorView::Io(IoError::UnexpectedEof) && old(self).advanced(
                final(self),
                0,
            ),
    {
        match self.read_uint_be(4) {
            Ok(v) => {
                proof {
                    lemma_be_value_bound(old(self).upcoming(4));
                }
                Ok(v as u32)
            },
            Err(e) => Err(e),
        }
    }

    /// Reads a number of eight bytes.
    pub fn read_u64_be(&mut self) -> (r: Result<u64, PgsError>)
        ensures
            r is Ok <==> old(self).has(8),
            r matches Ok(v) ==> v == be_value(old(self).upcoming(8)) && old(self).advanced(
                final(self),
                8,
            ),
            r matches Err(e) ==> e@ == ErrorView::Io(IoError::UnexpectedEof) && old(self).advanced(
                final(self),
                0,
            ),
    {
        self.read_uint_be(8)
    }

    /// Reads a text of `len` bytes.
    pub fn read_string(&mut self, len: u64) -> (r: Result<String, PgsError>)
        ensures
            r is Ok <==> old(self).has(len as int) && valid_utf8(old(self).upcoming(len as int)),
            r matches Ok(s) ==> s@ == decode_utf8(old(self).upcoming(len as int)) && old(
                self,
            ).advanced(final(self), len as int),
            r matches Err(e) ==> if old(self).has(len as int) {
                e@ == ErrorView::Io(utf8_error(old(self).upcoming(len as int))) && old(
                    self,
                ).advanced(
                    final(self),
                    len as int,
                )
            } else {
                e@ == ErrorView::Io(IoError::UnexpectedEof) && old(self).advanced(final(self), 0)
            },
    {
        match self.read_bytes(len) {
            Ok(data) => match text_from_utf8(data) {
                Ok(s) => Ok(s),
                Err((valid_up_to, error_len)) => Err(
                    PgsError::Io(IoError::InvalidUtf8 { valid_up_to, error_len }),
                ),
            },
            Err(e) => Err(e),
        }
    }

    /// Reads `n` bytes and drops them, without skipping.
    ///
    /// If the source ends before that, what was left has been read.
    pub fn drain(&mut self, n: u64) -> (r: Result<(), PgsError>)
        ensures
            r is Ok <==> n == 0 || old(self).has(n as int),
            r is Ok ==> old(self).advanced(final(self), n as int),
            r matches Err(e) ==> e@ == ErrorView::Io(IoError::DrainEof) && old(self).advanced(
                final(self),
                if old(self).at() < old(self).bytes().len() {
                    old(self).bytes().len() - old(self).at()
                } else {
                    0
                },
            ),
    {
        let size: u64 = self.inner.size();
        let mut remaining: u64 = n;
        while remaining > 0
            invariant
                self.bytes() == old(self).bytes(),
                size == self.bytes().len(),
                remaining <= n,
                old(self).advanced(self, n - remaining),
                remaining < n ==> self.at() <= size,
            decreases remaining,
        {
            if self.pos >= size {
                return Err(PgsError::Io(IoError::DrainEof));
            }
            let left: u64 = size - self.pos;
            let chunk: u64 = if remaining <= left { remaining } else { left };
            let step: u64 = if chunk <= DEFAULT_BUF_SIZE as u64 {
                chunk
            } else {
                DEFAULT_BUF_SIZE as u64
            };
            self.take(step);
            remaining = remaining - step;
        }
        Ok(())
    }
}

/// Overwrites a buffer with data of the same length.
fn copy_into(buf: &mut [u8], data: &[u8])
    requires
        old(buf)@.len() == data@.len(),
    ensures
        final(buf)@ == data@,
{
    let mut i: usize = 0;
    while i < data.len()
        invariant
            i <= data@.len(),
            buf@.len() == data@.len(),
            buf@.take(i as int) == data@.take(i as int),
        decreases data@.len() - i,
    {
        buf[i] = data[i];
        i += 1;
        assert(buf@.take(i as int) =~= data@.take(i as int));
    }
    assert(buf@ =~= data@) by {
        assert(buf@.take(i as int) =~= buf@);
        assert(data@.take(i as int) =~= data@);
    }
}

} // verus!
