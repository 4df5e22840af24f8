use vstd::prelude::*;

verus! {

/// A readable, seekable byte source: a file, or anything else that holds
/// bytes at offsets. Its contents may grow while it is used (another
/// process appending to a file), but bytes already there never change.
pub trait ByteSource<E>: Sized {
    /// The bytes the source holds now. An impl outside verified code (a file)
    /// keeps this default, and is trusted to meet the methods' contracts over
    /// the bytes it really holds.
    closed spec fn bytes(&self) -> Seq<u8> {
        Seq::empty()
    }

    /// The offset the next read starts at; a default as for `bytes`.
    closed spec fn pos(&self) -> nat {
        0
    }

    /// Whether the source's bytes stay as they are, whatever is done with
    /// it. A source that does not say so may grow.
    closed spec fn is_stable(&self) -> bool {
        false
    }

    /// Whether every call on the source succeeds. A source that does not say
    /// so may fail on any call.
    closed spec fn infallible(&self) -> bool {
        false
    }

    /// Moves the cursor to the end and returns the source's length.
    fn seek_end(&mut self) -> (r: Result<u64, E>)
        ensures
            old(self).bytes().is_prefix_of(final(self).bytes()),
            old(self).is_stable() ==> final(self).is_stable() && final(self).bytes() == old(
                self,
            ).bytes(),
            old(self).infallible() ==> final(self).infallible() && r is Ok,
            r matches Ok(n) ==> n == final(self).bytes().len() && final(self).pos() == n,
    ;

    /// Moves the cursor to `offset`, which lies within the source.
    fn seek_to(&mut self, offset: u64) -> (r: Result<(), E>)
        requires
            offset <= old(self).bytes().len(),
        ensures
            old(self).bytes().is_prefix_of(final(self).bytes()),
            old(self).is_stable() ==> final(self).is_stable() && final(self).bytes() == old(
                self,
            ).bytes(),
            old(self).infallible() ==> final(self).infallible() && r is Ok,
            r is Ok ==> final(self).pos() == offset,
    ;

    /// Reads exactly `len` bytes into `buf`, replacing what it held. The
    /// bytes asked for lie within the source.
    fn read_exact(&mut self, buf: &mut Vec<u8>, len: usize) -> (r: Result<(), E>)
        requires
            old(self).pos() + len <= old(self).bytes().len(),
        ensures
            old(self).bytes().is_prefix_of(final(self).bytes()),
            old(self).is_stable() ==> final(self).is_stable() && final(self).bytes() == old(
                self,
            ).bytes(),
            old(self).infallible() ==> final(self).infallible() && r is Ok,
            r is Ok ==> {
                &&& old(self).pos() + len <= final(self).bytes().len()
                &&& final(self).pos() == old(self).pos() + len
                &&& final(buf)@ == final(self).bytes().subrange(
                    old(self).pos() as int,
                    old(self).pos() + len,
                )
            },
    ;

    /// Reads what is there after the cursor, at most `max` bytes, into `buf`,
    /// replacing what it held. Reading nothing is no failure, but something
    /// is read when there is something after the cursor and room for it.
    fn read_some(&mut self, buf: &mut Vec<u8>, max: usize) -> (r: Result<usize, E>)
        ensures
            old(self).bytes().is_prefix_of(final(self).bytes()),
            old(self).is_stable() ==> final(self).is_stable() && final(self).bytes() == old(
                self,
            ).bytes(),
            old(self).infallible() ==> final(self).infallible() && r is Ok,
            r matches Ok(n) ==> {
                &&& n <= max
                &&& old(self).pos() < old(self).bytes().len() && max > 0 ==> n > 0
                &&& final(self).pos() == old(self).pos() + n
                &&& final(buf)@.len() == n
                &&& n > 0 ==> old(self).pos() + n <= final(self).bytes().len()
                    && final(buf)@ == final(self).bytes().subrange(
                    old(self).pos() as int,
                    old(self).pos() + n,
                )
            },
    ;
}

/// A byte destination that is only ever appended to.
pub trait ByteSink<E>: Sized {
    /// Everything written so far. An impl outside verified code keeps this
    /// default, and is trusted to meet `write_all`'s contract over what it
    /// really received.
    closed spec fn written(&self) -> Seq<u8> {
        Seq::empty()
    }

    /// Whether every write succeeds. A sink that does not say so may fail.
    closed spec fn infallible(&self) -> bool {
        false
    }

    /// Appends all of `data`. On failure a prefix of `data` may have been
    /// written.
    fn write_all(&mut self, data: &Vec<u8>) -> (r: Result<(), E>)
        ensures
            old(self).infallible() ==> final(self).infallible() && r is Ok,
            r is Ok ==> final(self).written() == old(self).written() + data@,
            old(self).written().is_prefix_of(final(self).written()),
            final(self).written().is_prefix_of(old(self).written() + data@),
    ;
}

/// Why a read from a `MemCursor` failed.
#[derive(Debug, Clone, Copy, PartialEq, Eq, Structural)]
pub enum CursorError {
    /// Fewer bytes follow the cursor than were asked for.
    UnexpectedEof,
}

/// Bytes held in memory with a read cursor, which may stand past the end.
pub struct MemCursor {
    data: Vec<u8>,
    position: u64,
}

impl MemCursor {
    pub closed spec fn data_view(&self) -> Seq<u8> {
        self.data@
    }

    pub closed spec fn position_view(&self) -> nat {
        self.position as nat
    }

    /// A cursor at offset 0 over `data`.
    pub fn new(data: Vec<u8>) -> (r: MemCursor)
        ensures
            r.data_view() == data@,
            r.position_view() == 0,
    {
        MemCursor { data, position: 0 }
    }

    /// The offset the next read starts at.
    pub fn position(&self) -> (r: u64)
        ensures
            r == self.position_view(),
    {
        self.position
    }

    /// The bytes held.
    pub fn get_ref(&self) -> (r: &Vec<u8>)
        ensures
            r@ == self.data_view(),
    {
        &self.data
    }

    /// Appends `more` to the held bytes, leaving the cursor where it is.
    pub fn append(&mut self, more: &Vec<u8>)
        ensures
            final(self).data_view() == old(self).data_view() + more@,
            final(self).position_view() == old(self).position_view(),
    {
        self.data.extend_from_slice(more.as_slice());
    }
}

impl ByteSource<CursorError> for MemCursor {
    open spec fn bytes(&self) -> Seq<u8> {
        self.data_view()
    }

    open spec fn pos(&self) -> nat {
        self.position_view()
    }

    open spec fn is_stable(&self) -> bool {
        true
    }

    open spec fn infallible(&self) -> bool {
        true
    }

    fn seek_end(&mut self) -> (r: Result<u64, CursorError>)
        ensures
            r == Ok::<u64, CursorError>(old(self).bytes().len() as u64),
    {
        self.position = self.data.len() as u64;
        Ok(self.position)
    }

    fn seek_to(&mut self, offset: u64) -> (r: Result<(), CursorError>)
        ensures
            r is Ok,
    {
        self.position = offset;
        Ok(())
    }

    fn read_exact(&mut self, buf: &mut Vec<u8>, len: usize) -> (r: Result<(), CursorError>)
        ensures
            final(self).bytes() == old(self).bytes(),
    {
        let size = self.data.len();
        if self.position > size as u64 || len > size - self.position as usize {
            return Err(CursorError::UnexpectedEof);
        }
        let start = self.position as usize;
        buf.clear();
        let mut i: usize = 0;
        while i < len
            invariant
                start + len <= size,
                size == self.data@.len(),
                self.data@ == old(self).data@,
                i <= len,
                buf@ == self.data@.subrange(start as int, start + i),
            decreases len - i,
        {
            buf.push(self.data[start + i]);
            i = i + 1;
            assert(buf@ =~= self.data@.subrange(start as int, start + i));
        }
        self.position = (start + len) as u64;
        Ok(())
    }

    fn read_some(&mut self, buf: &mut Vec<u8>, max: usize) -> (r: Result<usize, CursorError>)
        ensures
            final(self).bytes() == old(self).bytes(),
            r == Ok::<usize, CursorError>(
                if old(self).pos() >= old(self).bytes().len() {
                    0
                } else if max < old(self).bytes().len() - old(self).pos() {
                    max
                } else {
                    (old(self).bytes().len() - old(self).pos()) as usize
                },
            ),
    {
        let size = self.data.len();
        buf.clear();
        if self.position >= size as u64 {
            return Ok(0);
        }
        let start = self.position as usize;
        let n: usize = if max < size - start { max } else { size - start };
        let mut i: usize = 0;
        while i < n
            invariant
                start + n <= size,
                size == self.data@.len(),
                self.data@ == old(self).data@,
                i <= n,
                buf@ == self.data@.subrange(start as int, start + i),
            decreases n - i,
        {
            buf.push(self.data[start + i]);
            i = i + 1;
            assert(buf@ =~= self.data@.subrange(start as int, start + i));
        }
        self.position = (start + n) as u64;
        Ok(n)
    }
}

/// A vector in memory as a sink, beside `MemCursor`; writing to it never fails.
impl ByteSink<CursorError> for Vec<u8> {
    open spec fn written(&self) -> Seq<u8> {
        self@
    }

    open spec fn infallible(&self) -> bool {
        true
    }

    fn write_all(&mut self, data: &Vec<u8>) -> (r: Result<(), CursorError>)
        ensures
            r is Ok,
    {
        self.extend_from_slice(data.as_slice());
        Ok(())
    }
}

} // verus!
