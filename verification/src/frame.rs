//! The frame reader's core: scanning a byte source for delimiter-terminated
//! records. A frame is the bytes up to and including the first delimiter,
//! or whatever remains when the source ends first; an empty frame signals
//! end of input.

use vstd::prelude::*;

use vstd::slice::slice_subrange;

verus! {

/// The first position of `delim` in `chunk`, if any.
pub fn find_delim(chunk: &[u8], delim: u8) -> (r: Option<usize>)
    ensures
        match r {
            Some(i) => i < chunk@.len() && chunk@[i as int] == delim && forall|j: int|
                0 <= j < i ==> chunk@[j] != delim,
            None => forall|j: int| 0 <= j < chunk@.len() ==> chunk@[j] != delim,
        },
{
    let n = chunk.len();
    let mut i: usize = 0;
    while i < n
        invariant
            0 <= i <= n,
            n == chunk@.len(),
            forall|j: int| 0 <= j < i ==> chunk@[j] != delim,
        decreases n - i,
    {
        if chunk[i] == delim {
            return Some(i);
        }
        i = i + 1;
    }
    None
}

/// Appends to `buf` the next frame of `src` starting at `pos`: every byte
/// up to and including the first delimiter, or all remaining bytes if no
/// delimiter follows. Returns how many bytes were consumed; zero means end
/// of input. Each call with bytes remaining makes progress.
pub fn read_until(src: &[u8], pos: usize, delim: u8, buf: &mut Vec<u8>) -> (read: usize)
    requires
        pos <= src@.len(),
    ensures
        pos + read <= src@.len(),
        final(buf)@ == old(buf)@ + src@.subrange(pos as int, pos + read),
        read == 0 <==> pos == src@.len(),
        forall|j: int| pos <= j < pos + read - 1 ==> src@[j] != delim,
        pos + read < src@.len() ==> src@[pos + read - 1] == delim,
{
    let rest = slice_subrange(src, pos, src.len());
    match find_delim(rest, delim) {
        Some(i) => {
            let taken = slice_subrange(rest, 0, i + 1);
            append_slice(buf, taken);
            proof {
                assert(rest@.subrange(0, i + 1) =~= src@.subrange(pos as int, pos + (i + 1)));
                assert(src@[pos + i] == delim);
                assert forall|j: int| pos <= j < pos + i implies src@[j] != delim by {
                    assert(rest@[j - pos] != delim);
                }
            }
            i + 1
        },
        None => {
            append_slice(buf, rest);
            proof {
                assert(rest@.subrange(0, rest@.len() as int) =~= rest@);
                assert(rest@ =~= src@.subrange(pos as int, pos + rest@.len()));
                assert forall|j: int| pos <= j < src@.len() implies src@[j] != delim by {
                    assert(rest@[j - pos] != delim);
                }
            }
            src.len() - pos
        },
    }
}

/// Appends a slice's bytes to `buf`.
fn append_slice(buf: &mut Vec<u8>, src: &[u8])
    ensures
        final(buf)@ == old(buf)@ + src@,
{
    let n = src.len();
    let mut i: usize = 0;
    while i < n
        invariant
            0 <= i <= n,
            n == src@.len(),
            buf@ == old(buf)@ + src@.subrange(0, i as int),
        decreases n - i,
    {
        buf.push(src[i]);
        proof {
            assert(buf@ =~= old(buf)@ + src@.subrange(0, i + 1));
        }
        i = i + 1;
    }
    proof {
        assert(buf@ =~= old(buf)@ + src@);
    }
}

} // verus!
