use vstd::prelude::*;

use crate::lines::lemma_prefix_trans;
use crate::scan::BUFFER_SIZE;
use crate::stream::{ByteSink, ByteSource};

verus! {

/// Copies the bytes of `input` in `[offset, end)` to `output`, in windows of
/// at most `BUFFER_SIZE`, and leaves `input` positioned at `end`. On failure
/// what was written is a prefix of that range.
pub fn print_file<E, R: ByteSource<E>, W: ByteSink<E>>(
    input: &mut R,
    output: &mut W,
    offset: u64,
    end: u64,
) -> (r: Result<(), E>)
    requires
        offset <= end <= old(input).bytes().len(),
    ensures
        old(input).bytes().is_prefix_of(final(input).bytes()),
        old(input).is_stable() ==> final(input).is_stable() && final(input).bytes() == old(
            input,
        ).bytes(),
        old(input).infallible() && old(output).infallible() ==> final(input).infallible()
            && final(output).infallible() && r is Ok,
        old(output).written().is_prefix_of(final(output).written()),
        final(output).written().is_prefix_of(
            old(output).written() + old(input).bytes().subrange(offset as int, end as int),
        ),
        r is Ok ==> {
            &&& final(output).written() == old(output).written() + old(input).bytes().subrange(
                offset as int,
                end as int,
            )
            &&& final(input).pos() == end
        },
{
    let ghost s0 = input.bytes();
    let ghost out0 = output.written();
    let ghost range = s0.subrange(offset as int, end as int);
    let mut buffer: Vec<u8> = Vec::with_capacity(BUFFER_SIZE);
    match input.seek_to(offset) {
        Ok(()) => {},
        Err(e) => return Err(e),
    }
    let mut current_offset: u64 = offset;
    assert(out0 =~= out0 + range.take(0));
    while current_offset < end
        invariant
            offset <= current_offset <= end,
            end <= s0.len(),
            s0 == old(input).bytes(),
            out0 == old(output).written(),
            range == s0.subrange(offset as int, end as int),
            input.pos() == current_offset,
            s0.is_prefix_of(input.bytes()),
            old(input).is_stable() ==> input.is_stable() && input.bytes() == s0,
            old(input).infallible() ==> input.infallible(),
            old(output).infallible() ==> output.infallible(),
            out0.is_prefix_of(output.written()),
            output.written() == out0 + range.take(current_offset - offset),
        decreases end - current_offset,
    {
        let buf_size: usize = if end - current_offset < BUFFER_SIZE as u64 {
            (end - current_offset) as usize
        } else {
            BUFFER_SIZE
        };
        let ghost before = input.bytes();
        let ghost written = output.written();
        match input.read_exact(&mut buffer, buf_size) {
            Ok(()) => {},
            Err(e) => {
                proof {
                    lemma_prefix_trans(s0, before, input.bytes());
                    assert(range.take(current_offset - offset).is_prefix_of(range));
                }
                return Err(e);
            },
        }
        proof {
            let b = input.bytes();
            assert(buffer@ =~= range.subrange(current_offset - offset, current_offset - offset + buf_size)) by {
                assert forall|i: int| 0 <= i < buf_size implies #[trigger] buffer@[i]
                    == range[current_offset - offset + i] by {
                    assert(s0.is_prefix_of(before));
                    assert(before.is_prefix_of(b));
                    assert(buffer@[i] == b[current_offset + i]);
                    assert(s0[current_offset + i] == before[current_offset + i]);
                }
            }
            assert(range.take(current_offset - offset) + buffer@ =~= range.take(
                current_offset - offset + buf_size,
            ));
            lemma_prefix_trans(s0, before, b);
        }
        match output.write_all(&buffer) {
            Ok(()) => {},
            Err(e) => {
                proof {
                    let done = range.take(current_offset - offset + buf_size);
                    assert(out0 + done =~= written + buffer@);
                    assert(done.is_prefix_of(range));
                    assert((out0 + done).is_prefix_of(out0 + range));
                    lemma_prefix_trans(output.written(), written + buffer@, out0 + range);
                    lemma_prefix_trans(out0, written, output.written());
                }
                return Err(e);
            },
        }
        assert(out0 + range.take(current_offset - offset + buf_size) =~= written + buffer@);
        current_offset = current_offset + buf_size as u64;
    }
    assert(range.take(end - offset) =~= range);
    Ok(())
}

/// One round of following a growing source: reads what is there after the
/// cursor, at most `BUFFER_SIZE` bytes, through `buffer`, and appends it to
/// `output`. Returns how many bytes were forwarded; zero means nothing new
/// arrived yet.
pub fn follow_step<E, R: ByteSource<E>, W: ByteSink<E>>(
    input: &mut R,
    output: &mut W,
    buffer: &mut Vec<u8>,
) -> (r: Result<usize, E>)
    requires
        old(input).pos() <= old(input).bytes().len(),
    ensures
        old(input).bytes().is_prefix_of(final(input).bytes()),
        old(input).is_stable() ==> final(input).is_stable() && final(input).bytes() == old(
            input,
        ).bytes(),
        old(input).infallible() && old(output).infallible() ==> final(input).infallible()
            && final(output).infallible() && r is Ok,
        old(output).written().is_prefix_of(final(output).written()),
        r matches Ok(n) ==> {
            &&& n <= BUFFER_SIZE
            &&& old(input).pos() < old(input).bytes().len() ==> n > 0
            &&& final(input).pos() == old(input).pos() + n
            &&& final(input).pos() <= final(input).bytes().len()
            &&& final(output).written() == old(output).written() + final(input).bytes().subrange(
                old(input).pos() as int,
                old(input).pos() + n,
            )
        },
{
    let ghost p = input.pos();
    let ghost s0 = input.bytes();
    let buf_size = match input.read_some(buffer, BUFFER_SIZE) {
        Ok(n) => n,
        Err(e) => return Err(e),
    };
    if buf_size > 0 {
        match output.write_all(buffer) {
            Ok(()) => {},
            Err(e) => return Err(e),
        }
    } else {
        assert(s0.is_prefix_of(input.bytes()));
        assert(input.bytes().subrange(p as int, p as int) =~= buffer@);
    }
    Ok(buf_size)
}

/// Following forwards each appended byte once, in order: when one round
/// forwards the bytes from `p0` to `p1` of the source as it then was, and a
/// later round those from `p1` to `p2` of the source grown since, the output
/// has gained exactly the bytes from `p0` to `p2`.
pub proof fn lemma_follow_appends(
    b1: Seq<u8>,
    b2: Seq<u8>,
    p0: nat,
    p1: nat,
    p2: nat,
    out0: Seq<u8>,
    out1: Seq<u8>,
    out2: Seq<u8>,
)
    requires
        b1.is_prefix_of(b2),
        p0 <= p1 <= b1.len(),
        p1 <= p2 <= b2.len(),
        out1 == out0 + b1.subrange(p0 as int, p1 as int),
        out2 == out1 + b2.subrange(p1 as int, p2 as int),
    ensures
        out2 == out0 + b2.subrange(p0 as int, p2 as int),
{
    assert(b1.subrange(p0 as int, p1 as int) =~= b2.subrange(p0 as int, p1 as int));
    assert(out2 =~= out0 + b2.subrange(p0 as int, p2 as int));
}

} // verus!
