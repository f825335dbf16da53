//! Signed (two's-complement) LEB128.
use vstd::prelude::*;
use crate::frame::{fold_payloads, scan_frame};
use crate::model::{
    lemma_fold_groups_mod, lemma_frame_len_bounds, lemma_signed_encoding_len, modulus, payload,
    sign_extended, signed_decoding, signed_encoding, signed_group_is_last, DecodeError,
};
use crate::sink::{placed, write_bytes_at};

verus! {

/// Appends the signed LEB128 encoding of `value` to `out` and returns the
/// number of bytes written.
pub fn write_signed_leb128_to(value: i128, out: &mut Vec<u8>) -> (written: usize)
    ensures
        final(out)@ == old(out)@ + signed_encoding(value as int),
        written == signed_encoding(value as int).len(),
        written <= 19,
{
    let ghost original = value as int;
    let mut value = value;
    let mut position: usize = 0;
    proof {
        lemma_signed_encoding_len(original);
    }
    loop
        invariant_except_break
            out@ + signed_encoding(value as int) == old(out)@ + signed_encoding(original),
            position + signed_encoding(value as int).len() == signed_encoding(original).len(),
            signed_encoding(original).len() <= 19,
        ensures
            out@ == old(out)@ + signed_encoding(original),
            position == signed_encoding(original).len(),
            position <= 19,
        decreases (if value >= 0 { value as int } else { -value }),
    {
        let ghost v = value as int;
        assert(value & 0x7f == value % 128) by (bit_vector);
        assert(value >> 7u32 == value / 128) by (bit_vector);
        let mut byte = (value & 0x7f) as u8;
        value = value >> 7u32;
        assert(byte < 128 ==> ((byte & 0x40 == 0) <==> byte < 64)) by (bit_vector);
        let more = !((value == 0 && byte & 0x40 == 0) || (value == -1 && byte & 0x40 != 0));
        assert(more == !signed_group_is_last(v));
        if more {
            assert(byte < 128 ==> byte | 0x80 == byte + 128) by (bit_vector);
            byte = byte | 0x80;
        }
        out.push(byte);
        position = position + 1;
        if !more {
            assert(out@ =~= old(out)@ + signed_encoding(original));
            break;
        }
        assert(out@ + signed_encoding(value as int) =~= old(out)@ + signed_encoding(original));
    }
    position
}

/// Writes the signed LEB128 encoding of `value` into `out` from index
/// `start_position` on, overwriting what is there and growing the buffer as
/// needed; returns the number of bytes written.
pub fn write_signed_leb128(out: &mut Vec<u8>, start_position: usize, value: i128) -> (written: usize)
    requires
        start_position <= old(out)@.len(),
    ensures
        final(out)@ == placed(old(out)@, start_position as int, signed_encoding(value as int)),
        written == signed_encoding(value as int).len(),
{
    let mut bytes: Vec<u8> = Vec::new();
    let written = write_signed_leb128_to(value, &mut bytes);
    assert(bytes@ =~= signed_encoding(value as int));
    write_bytes_at(out, start_position, &bytes);
    written
}

/// Decodes the signed LEB128 value that starts at `start_position`,
/// returning it with the number of bytes read. Bit 6 of the last byte is the
/// sign; bits above the 128th are dropped; a value whose last byte lies past
/// the end of `data` is `DecodeError::Truncated`.
pub fn read_signed_leb128(data: &[u8], start_position: usize) -> (r: Result<(i128, usize), DecodeError>)
    ensures
        r == signed_decoding(data@, start_position as int),
{
    match scan_frame(data, start_position) {
        None => Err(DecodeError::Truncated),
        Some(n) => {
            let len = data.len();
            proof {
                lemma_frame_len_bounds(data@, start_position as int);
            }
            assert(start_position + n <= len);
            let last = data[start_position + n - 1];
            assert(last & 0x7f == last % 128) by (bit_vector);
            assert((last & 0x40 == 0) <==> last % 128 < 64) by (bit_vector);
            let low = (last & 0x7f) as u128;
            // The top group as a 128-bit two's-complement number.
            let top: u128 = if last & 0x40 != 0 {
                low + (u128::MAX - 127)
            } else {
                low
            };
            let ghost frame = data@.subrange(start_position as int, start_position + n);
            proof {
                assert(payload(last) == low);
                assert(top as int % modulus() == sign_extended(last) % modulus()) by {
                    vstd::arithmetic::div_mod::lemma_small_mod(top as nat, modulus() as nat);
                    if last & 0x40 != 0 {
                        vstd::arithmetic::div_mod::lemma_mod_add_multiples_vanish(
                            sign_extended(last),
                            modulus(),
                        );
                    } else {
                        vstd::arithmetic::div_mod::lemma_small_mod(low as nat, modulus() as nat);
                    }
                }
                assert(frame.drop_last() =~= data@.subrange(
                    start_position as int,
                    start_position + n - 1,
                ));
                assert(frame.last() == last);
                lemma_fold_groups_mod(frame.drop_last(), top as int, sign_extended(last));
            }
            let acc = fold_payloads(data, start_position, start_position + n - 1, top);
            let value: i128 = if acc <= i128::MAX as u128 {
                acc as i128
            } else {
                (acc - 0x8000_0000_0000_0000_0000_0000_0000_0000u128) as i128 + i128::MIN
            };
            Ok((value, n))
        },
    }
}

} // verus!
