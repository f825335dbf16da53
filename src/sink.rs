//! Writing bytes into a caller's buffer at a given position.
use vstd::prelude::*;

verus! {

/// `buf` after writing `bytes` from index `start` on: bytes already there are
/// overwritten and the buffer grows where the write runs past its end.
pub open spec fn placed(buf: Seq<u8>, start: int, bytes: Seq<u8>) -> Seq<u8> {
    if start + bytes.len() <= buf.len() {
        buf.subrange(0, start) + bytes + buf.subrange(start + bytes.len(), buf.len() as int)
    } else {
        buf.subrange(0, start) + bytes
    }
}

/// Writes `byte` at `position`, appending it when `position` is the length
/// of the buffer.
pub fn write_to_vec(out: &mut Vec<u8>, position: usize, byte: u8)
    requires
        position <= old(out)@.len(),
    ensures
        final(out)@ == placed(old(out)@, position as int, seq![byte]),
{
    if position == out.len() {
        out.push(byte);
        assert(final(out)@ =~= placed(old(out)@, position as int, seq![byte]));
    } else {
        out.set(position, byte);
        assert(final(out)@ =~= placed(old(out)@, position as int, seq![byte]));
    }
}

/// Writes all of `bytes` into `out` from index `start` on.
pub fn write_bytes_at(out: &mut Vec<u8>, start: usize, bytes: &Vec<u8>)
    requires
        start <= old(out)@.len(),
    ensures
        final(out)@ == placed(old(out)@, start as int, bytes@),
{
    let mut i: usize = 0;
    while i < bytes.len()
        invariant
            i <= bytes@.len(),
            start <= old(out)@.len(),
            out@ == placed(old(out)@, start as int, bytes@.subrange(0, i as int)),
        decreases bytes@.len() - i,
    {
        let len = out.len();
        assert(start + i <= len);
        write_to_vec(out, start + i, bytes[i]);
        assert(out@ =~= placed(old(out)@, start as int, bytes@.subrange(0, i + 1)));
        i = i + 1;
    }
    assert(bytes@.subrange(0, i as int) =~= bytes@);
}

} // verus!
