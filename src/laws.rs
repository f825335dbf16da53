//! What holds of the encoders and decoders together.
use vstd::prelude::*;
use vstd::arithmetic::power::pow;
use crate::model::{
    continues, fold_groups, frame_len, lemma_signed_encoding_len, lemma_signed_encoding_len_below,
    lemma_unsigned_encoding_len, lemma_unsigned_encoding_len_below, modulus, payload,
    signed_decoding, signed_encoding, signed_group_is_last, signed_value, unsigned_decoding,
    unsigned_encoding, unsigned_value, wrap_i128, DecodeError,
};

verus! {

/// A complete encoded value: every byte but the last has the continuation
/// flag, and the last has not.
pub open spec fn is_frame(f: Seq<u8>) -> bool {
    &&& f.len() >= 1
    &&& forall|j: int| 0 <= j < f.len() - 1 ==> continues(#[trigger] f[j])
    &&& !continues(f.last())
}

/// A frame that stands at index `i` of `s` is what the decoder finds there.
proof fn lemma_frame_len_of(s: Seq<u8>, i: int, f: Seq<u8>)
    requires
        is_frame(f),
        0 <= i,
        i + f.len() <= s.len(),
        s.subrange(i, i + f.len()) == f,
    ensures
        frame_len(s, i) == Some(f.len()),
    decreases f.len(),
{
    assert(s[i] == f[0]);
    if f.len() > 1 {
        let rest = f.drop_first();
        assert(s.subrange(i + 1, i + 1 + rest.len()) =~= rest);
        assert(continues(f[0]));
        lemma_frame_len_of(s, i + 1, rest);
    }
}

proof fn lemma_unsigned_encoding_is_frame(v: nat)
    ensures
        is_frame(unsigned_encoding(v)),
        unsigned_value(unsigned_encoding(v)) == v,
    decreases v,
{
    let e = unsigned_encoding(v);
    if v >= 128 {
        let rest = unsigned_encoding(v / 128);
        lemma_unsigned_encoding_is_frame(v / 128);
        assert(e.drop_first() =~= rest);
        assert forall|j: int| 0 <= j < e.len() - 1 implies continues(#[trigger] e[j]) by {
            if j > 0 {
                assert(e[j] == rest[j - 1]);
            }
        }
        assert(e.last() == rest.last());
        assert(payload(e[0]) == v % 128);
        assert(unsigned_value(e) == v % 128 + 128 * unsigned_value(rest));
        vstd::arithmetic::div_mod::lemma_fundamental_div_mod(v as int, 128);
    } else {
        assert(e.drop_first().len() == 0);
        assert(fold_groups(e.drop_first(), 0) == 0);
        assert(payload(e[0]) == v);
    }
}

proof fn lemma_signed_encoding_is_frame(v: int)
    ensures
        is_frame(signed_encoding(v)),
        signed_value(signed_encoding(v)) == v,
    decreases (if v >= 0 { v } else { -v }),
{
    let e = signed_encoding(v);
    if !signed_group_is_last(v) {
        let rest = signed_encoding(v / 128);
        lemma_signed_encoding_is_frame(v / 128);
        assert(e.drop_first() =~= rest);
        assert forall|j: int| 0 <= j < e.len() - 1 implies continues(#[trigger] e[j]) by {
            if j > 0 {
                assert(e[j] == rest[j - 1]);
            }
        }
        assert(e.last() == rest.last());
        assert(e.drop_last().drop_first() =~= rest.drop_last());
        assert(payload(e.drop_last()[0]) == v % 128);
    } else {
        assert(e.drop_last().len() == 0);
    }
}

/// Decoding, at its start, the unsigned encoding of any value placed between
/// any bytes gives back the value and the number of bytes the encoding holds.
pub proof fn lemma_unsigned_round_trip(value: u128, before: Seq<u8>, after: Seq<u8>)
    ensures
        unsigned_decoding(before + unsigned_encoding(value as nat) + after, before.len() as int)
            == Ok::<(u128, usize), DecodeError>(
            (value, unsigned_encoding(value as nat).len() as usize),
        ),
{
    let e = unsigned_encoding(value as nat);
    let s = before + e + after;
    let i = before.len() as int;
    lemma_unsigned_encoding_is_frame(value as nat);
    assert(s.subrange(i, i + e.len()) =~= e);
    lemma_frame_len_of(s, i, e);
    vstd::arithmetic::div_mod::lemma_small_mod(value as nat, modulus() as nat);
}

/// Decoding, at its start, the signed encoding of any value placed between
/// any bytes gives back the value and the number of bytes the encoding holds.
pub proof fn lemma_signed_round_trip(value: i128, before: Seq<u8>, after: Seq<u8>)
    ensures
        signed_decoding(before + signed_encoding(value as int) + after, before.len() as int)
            == Ok::<(i128, usize), DecodeError>(
            (value, signed_encoding(value as int).len() as usize),
        ),
{
    let e = signed_encoding(value as int);
    let s = before + e + after;
    let i = before.len() as int;
    lemma_signed_encoding_is_frame(value as int);
    assert(s.subrange(i, i + e.len()) =~= e);
    lemma_frame_len_of(s, i, e);
    if value >= 0 {
        vstd::arithmetic::div_mod::lemma_small_mod(value as nat, modulus() as nat);
    } else {
        vstd::arithmetic::div_mod::lemma_mod_add_multiples_vanish(value as int, modulus());
        vstd::arithmetic::div_mod::lemma_small_mod((value + modulus()) as nat, modulus() as nat);
    }
    assert(wrap_i128(value as int) == value);
}

proof fn lemma_unsigned_short_encoding_bounds(v: nat, k: nat)
    requires
        k >= 1,
        unsigned_encoding(v).len() <= k,
    ensures
        v < pow(128, k),
    decreases v,
{
    reveal(pow);
    vstd::arithmetic::power::lemma_pow_positive(128, (k - 1) as nat);
    if v >= 128 {
        assert(unsigned_encoding(v / 128).len() >= 1) by {
            reveal_with_fuel(unsigned_encoding, 1);
        }
        lemma_unsigned_short_encoding_bounds(v / 128, (k - 1) as nat);
        let below = pow(128, (k - 1) as nat);
        assert(v < 128 * below) by (nonlinear_arith)
            requires v / 128 < below;
    } else {
        assert(v < 128 * pow(128, (k - 1) as nat)) by (nonlinear_arith)
            requires v < 128, pow(128, (k - 1) as nat) >= 1;
    }
}

proof fn lemma_signed_short_encoding_bounds(v: int, k: nat)
    requires
        k >= 1,
        signed_encoding(v).len() <= k,
    ensures
        -64 * pow(128, (k - 1) as nat) <= v < 64 * pow(128, (k - 1) as nat),
    decreases k,
{
    reveal(pow);
    vstd::arithmetic::power::lemma_pow_positive(128, (k - 1) as nat);
    let bound = pow(128, (k - 1) as nat);
    if signed_group_is_last(v) {
        assert(-64 <= v < 64);
        assert(-64 * bound <= v < 64 * bound) by (nonlinear_arith)
            requires -64 <= v < 64, bound >= 1;
    } else {
        lemma_signed_encoding_len_nonempty(v / 128);
        lemma_signed_short_encoding_bounds(v / 128, (k - 1) as nat);
        let below = pow(128, (k - 2) as nat);
        assert(bound == 128 * below);
        assert(-64 * bound <= v < 64 * bound) by (nonlinear_arith)
            requires -64 * below <= v / 128 < 64 * below, bound == 128 * below;
    }
}

proof fn lemma_signed_encoding_len_nonempty(v: int)
    ensures
        signed_encoding(v).len() >= 1,
{
    reveal_with_fuel(signed_encoding, 1);
}

/// The unsigned encoding is as short as can be: it fits in k bytes exactly
/// when the value is below 128^k, so no 128-bit value takes more than 19
/// bytes and zero is the single byte 0x00.
pub proof fn lemma_unsigned_encoding_minimal(value: u128, k: nat)
    requires
        k >= 1,
    ensures
        unsigned_encoding(value as nat).len() <= k <==> value < pow(128, k),
        1 <= unsigned_encoding(value as nat).len() <= 19,
        unsigned_encoding(0) == seq![0x00u8],
{
    lemma_unsigned_encoding_len(value as nat);
    if value < pow(128, k) {
        lemma_unsigned_encoding_len_below(value as nat, k);
    }
    if unsigned_encoding(value as nat).len() <= k {
        lemma_unsigned_short_encoding_bounds(value as nat, k);
    }
    assert(unsigned_encoding(0) =~= seq![0x00u8]);
}

/// The signed encoding is as short as can be: it fits in k bytes exactly
/// when the value lies in [-64 * 128^(k-1), 64 * 128^(k-1)), so it never
/// ends with a byte that only repeats the sign, no 128-bit value takes more
/// than 19 bytes, zero is the single byte 0x00 and -1 the single byte 0x7F.
pub proof fn lemma_signed_encoding_minimal(value: i128, k: nat)
    requires
        k >= 1,
    ensures
        signed_encoding(value as int).len() <= k <==> (-64 * pow(128, (k - 1) as nat) <= value
            < 64 * pow(128, (k - 1) as nat)),
        1 <= signed_encoding(value as int).len() <= 19,
        signed_encoding(0) == seq![0x00u8],
        signed_encoding(-1) == seq![0x7fu8],
{
    lemma_signed_encoding_len(value as int);
    if -64 * pow(128, (k - 1) as nat) <= value < 64 * pow(128, (k - 1) as nat) {
        lemma_signed_encoding_len_below(value as int, k);
    }
    if signed_encoding(value as int).len() <= k {
        lemma_signed_short_encoding_bounds(value as int, k);
    }
    assert(signed_group_is_last(0));
    assert(signed_encoding(0) =~= seq![0x00u8]);
    assert(signed_group_is_last(-1));
    assert(signed_encoding(-1) =~= seq![0x7fu8]);
}

/// The unsigned encodings of `values`, one after another.
pub open spec fn unsigned_stream(values: Seq<u128>) -> Seq<u8>
    decreases values.len(),
{
    if values.len() == 0 {
        Seq::empty()
    } else {
        unsigned_stream(values.drop_last()) + unsigned_encoding(values.last() as nat)
    }
}

/// The signed encodings of `values`, one after another.
pub open spec fn signed_stream(values: Seq<i128>) -> Seq<u8>
    decreases values.len(),
{
    if values.len() == 0 {
        Seq::empty()
    } else {
        signed_stream(values.drop_last()) + signed_encoding(values.last() as int)
    }
}

proof fn lemma_unsigned_stream_prefix(values: Seq<u128>, j: int)
    requires
        0 <= j <= values.len(),
    ensures
        unsigned_stream(values.take(j)).len() <= unsigned_stream(values).len(),
        unsigned_stream(values).take(unsigned_stream(values.take(j)).len() as int)
            == unsigned_stream(values.take(j)),
    decreases values.len(),
{
    if j == values.len() {
        assert(values.take(j) =~= values);
        assert(unsigned_stream(values).take(unsigned_stream(values).len() as int)
            =~= unsigned_stream(values));
    } else {
        let shorter = values.drop_last();
        assert(shorter.take(j) =~= values.take(j));
        lemma_unsigned_stream_prefix(shorter, j);
        let p = unsigned_stream(values.take(j));
        assert(unsigned_stream(values).take(p.len() as int) =~= unsigned_stream(shorter).take(
            p.len() as int,
        ));
    }
}

proof fn lemma_signed_stream_prefix(values: Seq<i128>, j: int)
    requires
        0 <= j <= values.len(),
    ensures
        signed_stream(values.take(j)).len() <= signed_stream(values).len(),
        signed_stream(values).take(signed_stream(values.take(j)).len() as int)
            == signed_stream(values.take(j)),
    decreases values.len(),
{
    if j == values.len() {
        assert(values.take(j) =~= values);
        assert(signed_stream(values).take(signed_stream(values).len() as int)
            =~= signed_stream(values));
    } else {
        let shorter = values.drop_last();
        assert(shorter.take(j) =~= values.take(j));
        lemma_signed_stream_prefix(shorter, j);
        let p = signed_stream(values.take(j));
        assert(signed_stream(values).take(p.len() as int) =~= signed_stream(shorter).take(
            p.len() as int,
        ));
    }
}

/// Values encoded back to back decode in order: the i-th value is found at
/// the total length of the encodings before it, and the bytes read there
/// carry the offset on to the next value.
pub proof fn lemma_unsigned_packing(values: Seq<u128>, i: int)
    requires
        0 <= i < values.len(),
    ensures
        unsigned_decoding(unsigned_stream(values), unsigned_stream(values.take(i)).len() as int)
            == Ok::<(u128, usize), DecodeError>(
            (values[i], unsigned_encoding(values[i] as nat).len() as usize),
        ),
        unsigned_stream(values.take(i + 1)).len() == unsigned_stream(values.take(i)).len()
            + unsigned_encoding(values[i] as nat).len(),
{
    let whole = unsigned_stream(values);
    let before = unsigned_stream(values.take(i));
    let e = unsigned_encoding(values[i] as nat);
    assert(values.take(i + 1).drop_last() =~= values.take(i));
    assert(unsigned_stream(values.take(i + 1)) == before + e);
    lemma_unsigned_stream_prefix(values, i + 1);
    let after = whole.subrange((before + e).len() as int, whole.len() as int);
    assert(whole =~= before + e + after);
    lemma_unsigned_round_trip(values[i], before, after);
}

/// Values encoded back to back decode in order: the i-th value is found at
/// the total length of the encodings before it, and the bytes read there
/// carry the offset on to the next value.
pub proof fn lemma_signed_packing(values: Seq<i128>, i: int)
    requires
        0 <= i < values.len(),
    ensures
        signed_decoding(signed_stream(values), signed_stream(values.take(i)).len() as int)
            == Ok::<(i128, usize), DecodeError>(
            (values[i], signed_encoding(values[i] as int).len() as usize),
        ),
        signed_stream(values.take(i + 1)).len() == signed_stream(values.take(i)).len()
            + signed_encoding(values[i] as int).len(),
{
    let whole = signed_stream(values);
    let before = signed_stream(values.take(i));
    let e = signed_encoding(values[i] as int);
    assert(values.take(i + 1).drop_last() =~= values.take(i));
    assert(signed_stream(values.take(i + 1)) == before + e);
    lemma_signed_stream_prefix(values, i + 1);
    let after = whole.subrange((before + e).len() as int, whole.len() as int);
    assert(whole =~= before + e + after);
    lemma_signed_round_trip(values[i], before, after);
}

} // verus!
