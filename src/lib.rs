//! Printing the last lines of a seekable byte source, and following it as
//! it grows.
use vstd::prelude::*;

pub mod copy;
pub mod lines;
pub mod scan;
pub mod stream;

pub use copy::{follow_step, print_file};
pub use scan::{rfind_count, RevReader, BUFFER_SIZE};
pub use stream::{ByteSink, ByteSource, CursorError, MemCursor};

use lines::{last_lines, lemma_nth_from_end, NEWLINE};

verus! {

/// Writes the last `lines` lines of `input` to `output`, a newline that ends
/// `input` not counting as the start of another line; all of `input` when
/// it has fewer lines, nothing when `lines` is zero. `input` is left at the
/// end of what was copied, its length when the call began reading it.
///
/// What is written is a function of the source's bytes and `lines` alone,
/// wherever its cursor stood: on a stable source, running `tail` again
/// writes the same bytes again. On failure what was written is a prefix of
/// what would have been.
pub fn tail<E, R: ByteSource<E>, W: ByteSink<E>>(input: &mut R, output: &mut W, lines: u64) -> (r:
    Result<(), E>)
    ensures
        old(input).bytes().is_prefix_of(final(input).bytes()),
        old(output).written().is_prefix_of(final(output).written()),
        old(input).is_stable() ==> final(input).is_stable() && final(input).bytes() == old(
            input,
        ).bytes(),
        old(input).infallible() && old(output).infallible() ==> final(input).infallible()
            && final(output).infallible() && r is Ok,
        r is Ok && old(input).is_stable() ==> final(output).written() == old(output).written()
            + last_lines(old(input).bytes(), lines as nat),
        r is Err ==> exists|p: nat|
            old(input).bytes().len() <= p <= final(input).bytes().len()
                && #[trigger] final(output).written().is_prefix_of(
                old(output).written() + last_lines(final(input).bytes().take(p as int), lines as nat),
            ),
        r is Ok ==> {
            &&& old(input).bytes().len() <= final(input).pos() <= final(input).bytes().len()
            &&& final(output).written() == old(output).written() + last_lines(
                final(input).bytes().take(final(input).pos() as int),
                lines as nat,
            )
        },
{
    let (found, end_offset) = match rfind_count(input, NEWLINE, lines, true) {
        Ok(pair) => pair,
        Err(e) => {
            proof {
                let p = old(input).bytes().len();
                let whole = old(output).written() + last_lines(input.bytes().take(p as int), lines as nat);
                assert(output.written() =~= whole.take(output.written().len() as int));
                assert(output.written().is_prefix_of(whole));
            }
            return Err(e);
        },
    };
    let ghost s = input.bytes().take(end_offset as int);
    let start_offset: u64 = if lines == 0 {
        end_offset
    } else {
        match found {
            None => 0,
            Some(n) => {
                proof {
                    lemma_nth_from_end(s.drop_last(), NEWLINE, lines as nat);
                }
                n + 1
            },
        }
    };
    assert(start_offset == lines::tail_start(s, lines as nat));
    let ghost mid = input.bytes();
    let r = print_file(input, output, start_offset, end_offset);
    proof {
        lines::lemma_prefix_trans(mid.take(end_offset as int), mid, input.bytes());
        assert(input.bytes().take(end_offset as int) =~= s);
        assert(mid.subrange(start_offset as int, end_offset as int) =~= last_lines(s, lines as nat));
        if old(input).is_stable() {
            assert(s =~= old(input).bytes());
        }
        if r is Err {
            let p = end_offset as nat;
            assert(output.written().is_prefix_of(
                old(output).written() + last_lines(input.bytes().take(p as int), lines as nat),
            ));
        }
    }
    r
}

} // verus!
