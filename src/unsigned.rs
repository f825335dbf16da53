//! Unsigned LEB128.
use vstd::prelude::*;
use crate::frame::{fold_payloads, scan_frame};
use crate::model::{
    lemma_frame_len_bounds, lemma_unsigned_encoding_len, unsigned_decoding, unsigned_encoding,
    DecodeError,
};
use crate::sink::{placed, write_bytes_at};

verus! {

/// Appends the unsigned LEB128 encoding of `value` to `out` and returns the
/// number of bytes written.
pub fn write_unsigned_leb128_to(value: u128, out: &mut Vec<u8>) -> (written: usize)
    ensures
        final(out)@ == old(out)@ + unsigned_encoding(value as nat),
        written == unsigned_encoding(value as nat).len(),
        written <= 19,
{
    let ghost original = value as nat;
    let mut value = value;
    let mut position: usize = 0;
    proof {
        lemma_unsigned_encoding_len(original);
    }
    loop
        invariant_except_break
            out@ + unsigned_encoding(value as nat) == old(out)@ + unsigned_encoding(original),
            position + unsigned_encoding(value as nat).len() == unsigned_encoding(original).len(),
            unsigned_encoding(original).len() <= 19,
        ensures
            out@ == old(out)@ + unsigned_encoding(original),
            position == unsigned_encoding(original).len(),
            position <= 19,
        decreases value,
    {
        let ghost v = value;
        assert(value & 0x7f == value % 128) by (bit_vector);
        assert(value >> 7u32 == value / 128) by (bit_vector);
        let mut byte = (value & 0x7f) as u8;
        value = value >> 7u32;
        if value != 0 {
            assert(byte < 128 ==> byte | 0x80 == byte + 128) by (bit_vector);
            byte = byte | 0x80;
        }
        out.push(byte);
        position = position + 1;
        if value == 0 {
            assert(out@ =~= old(out)@ + unsigned_encoding(original));
            break;
        }
        assert(out@ + unsigned_encoding(value as nat) =~= old(out)@ + unsigned_encoding(original));
    }
    position
}

/// Writes the unsigned LEB128 encoding of `value` into `out` from index
/// `start_position` on, overwriting what is there and growing the buffer as
/// needed; returns the number of bytes written.
pub fn write_unsigned_leb128(out: &mut Vec<u8>, start_position: usize, value: u128) -> (written: usize)
    requires
        start_position <= old(out)@.len(),
    ensures
        final(out)@ == placed(old(out)@, start_position as int, unsigned_encoding(value as nat)),
        written == unsigned_encoding(value as nat).len(),
{
    let mut bytes: Vec<u8> = Vec::new();
    let written = write_unsigned_leb128_to(value, &mut bytes);
    assert(bytes@ =~= unsigned_encoding(value as nat));
    write_bytes_at(out, start_position, &bytes);
    written
}

/// Decodes the unsigned LEB128 value that starts at `start_position`,
/// returning it with the number of bytes read. Bits above the 128th are
/// dropped; a value whose last byte lies past the end of `data` is
/// `DecodeError::Truncated`.
pub fn read_unsigned_leb128(data: &[u8], start_position: usize) -> (r: Result<(u128, usize), DecodeError>)
    ensures
        r == unsigned_decoding(data@, start_position as int),
{
    match scan_frame(data, start_position) {
        None => Err(DecodeError::Truncated),
        Some(n) => {
            let len = data.len();
            proof {
                lemma_frame_len_bounds(data@, start_position as int);
            }
            assert(start_position + n <= len);
            let value = fold_payloads(data, start_position, start_position + n, 0);
            Ok((value, n))
        },
    }
}

} // verus!
