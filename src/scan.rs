use vstd::prelude::*;

use crate::lines::{nth_from_end, opt_nat, rfind_spec};
use crate::stream::ByteSource;

verus! {

/// Size of the window used to read and copy bytes.
pub const BUFFER_SIZE: usize = 1024;

/// A cursor that hands out the bytes of a source one by one from the end
/// towards the start, reading them in windows of at most `BUFFER_SIZE`.
///
/// `inner_offset` is where the current window starts in the source, and
/// the window's first `buffer_offset` bytes are those not yet handed out.
pub struct RevReader {
    inner_offset: u64,
    buffer: Vec<u8>,
    buffer_offset: u64,
    size: u64,
    contents: Ghost<Seq<u8>>,
}

impl RevReader {
    /// The source's bytes as they were when the reader was made.
    pub closed spec fn contents(&self) -> Seq<u8> {
        self.contents@
    }

    /// The offset of the next byte that is not handed out yet, plus one.
    pub closed spec fn offset_view(&self) -> nat {
        (self.inner_offset + self.buffer_offset) as nat
    }

    pub closed spec fn wf(&self) -> bool {
        &&& self.size as nat == self.contents@.len()
        &&& self.buffer_offset <= self.buffer@.len()
        &&& self.buffer_offset <= BUFFER_SIZE
        &&& self.inner_offset + self.buffer_offset <= self.size
        &&& forall|i: int|
            0 <= i < self.buffer_offset ==> #[trigger] self.buffer@[i]
                == self.contents@[self.inner_offset + i]
    }

    /// A reader positioned at the end of `input`, which it leaves at its end.
    pub fn new<E, R: ByteSource<E>>(input: &mut R) -> (r: Result<RevReader, E>)
        ensures
            old(input).bytes().is_prefix_of(final(input).bytes()),
            old(input).is_stable() ==> final(input).is_stable() && final(input).bytes() == old(
                input,
            ).bytes(),
            old(input).infallible() ==> final(input).infallible() && r is Ok,
            r matches Ok(rr) ==> {
                &&& rr.wf()
                &&& rr.contents() == final(input).bytes()
                &&& rr.offset_view() == rr.contents().len()
            },
    {
        let size = match input.seek_end() {
            Ok(n) => n,
            Err(e) => return Err(e),
        };
        Ok(
            RevReader {
                inner_offset: size,
                buffer: Vec::with_capacity(BUFFER_SIZE),
                buffer_offset: 0,
                size,
                contents: Ghost(input.bytes()),
            },
        )
    }

    /// The length of the source when the reader was made.
    pub fn size(&self) -> (r: u64)
        requires
            self.wf(),
        ensures
            r == self.contents().len(),
    {
        self.size
    }

    /// Hands out the byte before the cursor, or `None` once the start of
    /// the source is reached.
    pub fn read_byte<E, R: ByteSource<E>>(&mut self, input: &mut R) -> (r: Result<Option<u8>, E>)
        requires
            old(self).wf(),
            old(self).contents().is_prefix_of(old(input).bytes()),
        ensures
            old(input).bytes().is_prefix_of(final(input).bytes()),
            old(input).is_stable() ==> final(input).is_stable() && final(input).bytes() == old(
                input,
            ).bytes(),
            old(input).infallible() ==> final(input).infallible() && r is Ok,
            final(self).contents() == old(self).contents(),
            old(self).offset_view() == 0 ==> r matches Ok(None),
            r matches Ok(x) ==> {
                &&& final(self).wf()
                &&& final(self).offset_view() <= final(self).contents().len()
                &&& old(self).offset_view() == 0 ==> x is None && final(self).offset_view() == 0
                &&& old(self).offset_view() > 0 ==> x == Some(
                    old(self).contents()[old(self).offset_view() - 1],
                ) && final(self).offset_view() == old(self).offset_view() - 1
            },
    {
        if self.buffer_offset == 0 {
            if self.inner_offset == 0 {
                return Ok(None);
            }
            let window: u64 = if (BUFFER_SIZE as u64) < self.inner_offset {
                BUFFER_SIZE as u64
            } else {
                self.inner_offset
            };
            let start: u64 = self.inner_offset - window;
            match input.seek_to(start) {
                Ok(()) => {},
                Err(e) => return Err(e),
            }
            let ghost mid = input.bytes();
            match input.read_exact(&mut self.buffer, window as usize) {
                Ok(()) => {},
                Err(e) => return Err(e),
            }
            proof {
                let s0 = self.contents@;
                let b = input.bytes();
                assert forall|i: int| 0 <= i < window implies #[trigger] self.buffer@[i]
                    == s0[start + i] by {
                    assert(s0.is_prefix_of(mid));
                    assert(mid.is_prefix_of(b));
                    assert(s0[start + i] == mid[start + i]);
                    assert(mid[start + i] == b[start + i]);
                }
            }
            self.inner_offset = start;
            self.buffer_offset = window;
        }
        self.buffer_offset = self.buffer_offset - 1;
        let c = self.buffer[self.buffer_offset as usize];
        assert(c == self.contents@[self.inner_offset + self.buffer_offset]);
        Ok(Some(c))
    }

    /// The cursor never stands past the end of the source.
    pub proof fn lemma_offset_in_source(&self)
        requires
            self.wf(),
        ensures
            self.offset_view() <= self.contents().len(),
    {
    }

    /// The offset of the byte last handed out, or the source's length
    /// before the first one.
    pub fn offset(&self) -> (r: u64)
        requires
            self.wf(),
        ensures
            r == self.offset_view(),
    {
        self.inner_offset + self.buffer_offset
    }
}

/// Searches `input` backwards for the `count`-th occurrence of `byte`; with
/// `ignore_last` its last byte is not counted. Returns where that occurrence
/// stands (`None` when there are fewer, and for a `count` of zero) and the
/// length of `input`, which is left positioned somewhere before its end.
pub fn rfind_count<E, R: ByteSource<E>>(input: &mut R, byte: u8, count: u64, ignore_last: bool) -> (r:
    Result<(Option<u64>, u64), E>)
    ensures
        old(input).bytes().is_prefix_of(final(input).bytes()),
        old(input).is_stable() ==> final(input).is_stable() && final(input).bytes() == old(
            input,
        ).bytes(),
        old(input).infallible() ==> final(input).infallible() && r is Ok,
        r matches Ok((k, size)) ==> {
            &&& old(input).is_stable() ==> size == old(input).bytes().len() && opt_nat(k)
                == rfind_spec(old(input).bytes(), byte, count as nat, ignore_last)
            &&& old(input).bytes().len() <= size <= final(input).bytes().len()
            &&& opt_nat(k) == rfind_spec(
                final(input).bytes().take(size as int),
                byte,
                count as nat,
                ignore_last,
            )
        },
{
    let mut reader = match RevReader::new(input) {
        Ok(rr) => rr,
        Err(e) => return Err(e),
    };
    let input_size = reader.size();
    let ghost s0 = reader.contents();
    assert(input.bytes().take(input_size as int) =~= s0);
    if count == 0 {
        return Ok((None, input_size));
    }
    if ignore_last {
        match reader.read_byte(input) {
            Ok(None) => return Ok((None, input_size)),
            Ok(Some(_)) => {},
            Err(e) => return Err(e),
        }
        assert(s0.take(reader.offset_view() as int) =~= s0.drop_last());
    } else {
        assert(s0.take(reader.offset_view() as int) =~= s0);
    }
    let mut counter: u64 = 0;
    loop
        invariant
            reader.wf(),
            reader.contents() == s0,
            s0.len() == input_size,
            s0.is_prefix_of(input.bytes()),
            old(input).bytes().is_prefix_of(input.bytes()),
            old(input).is_stable() ==> input.is_stable() && input.bytes() == old(input).bytes(),
            old(input).infallible() ==> input.infallible(),
            old(input).bytes().len() <= input_size,
            counter < count,
            rfind_spec(s0, byte, count as nat, ignore_last) == nth_from_end(
                s0.take(reader.offset_view() as int),
                byte,
                (count - counter) as nat,
            ),
        decreases reader.offset_view(),
    {
        let ghost t = s0.take(reader.offset_view() as int);
        let ghost before = input.bytes();
        let ghost m = (count - counter) as nat;
        match reader.read_byte(input) {
            Ok(None) => {
                proof {
                    assert(t.len() == 0);
                    assert(nth_from_end(t, byte, m) is None);
                    assert(input.bytes().take(input_size as int) =~= s0);
                }
                return Ok((None, input_size));
            },
            Ok(Some(c)) => {
                assert(t.drop_last() =~= s0.take(reader.offset_view() as int));
                assert(t.len() == reader.offset_view() + 1);
                assert(t.last() == c);
                if c == byte {
                    counter = counter + 1;
                    if counter == count {
                        assert(nth_from_end(t, byte, m) == Some(reader.offset_view()));
                    }
                }
            },
            Err(e) => return Err(e),
        }
        assert(before.is_prefix_of(input.bytes()));
        assert(s0.is_prefix_of(input.bytes())) by {
            assert(s0.is_prefix_of(before));
        }
        if counter == count {
            proof {
                assert(input.bytes().take(input_size as int) =~= s0);
            }
            return Ok((Some(reader.offset()), input_size));
        }
    }
}

} // verus!
