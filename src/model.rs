//! Mathematical model of the LEB128 wire format.
use vstd::prelude::*;

verus! {

/// 2^128, the number of distinct 128-bit values.
pub open spec fn modulus() -> int {
    u128::MAX as int + 1
}

/// The seven payload bits of an encoded byte.
pub open spec fn payload(b: u8) -> int {
    b as int % 128
}

/// Whether an encoded byte announces that more bytes follow.
pub open spec fn continues(b: u8) -> bool {
    b >= 128
}

/// The minimal unsigned encoding of `v`: low group first, continuation flag
/// on every byte but the last.
pub open spec fn unsigned_encoding(v: nat) -> Seq<u8>
    decreases v,
{
    if v < 128 {
        seq![v as u8]
    } else {
        seq![(v % 128 + 128) as u8] + unsigned_encoding(v / 128)
    }
}

/// Whether the signed encoding of `v` ends with the group holding its low
/// seven bits: what is left after that group is the sign that bit 6 of
/// the group already shows.
pub open spec fn signed_group_is_last(v: int) -> bool {
    (v / 128 == 0 && v % 128 < 64) || (v / 128 == -1 && v % 128 >= 64)
}

/// The minimal signed (two's-complement) encoding of `v`.
pub open spec fn signed_encoding(v: int) -> Seq<u8>
    decreases (if v >= 0 { v } else { -v }),
{
    if signed_group_is_last(v) {
        seq![(v % 128) as u8]
    } else {
        seq![(v % 128 + 128) as u8] + signed_encoding(v / 128)
    }
}


/// The unsigned encoding of a value below 128^k is at most k bytes long.
pub proof fn lemma_unsigned_encoding_len_below(v: nat, k: nat)
    requires
        k >= 1,
        v < vstd::arithmetic::power::pow(128, k),
    ensures
        unsigned_encoding(v).len() <= k,
    decreases v,
{
    reveal(vstd::arithmetic::power::pow);
    if v >= 128 {
        if k == 1 {
            assert(vstd::arithmetic::power::pow(128, 0) == 1);
        } else {
            let below = vstd::arithmetic::power::pow(128, (k - 1) as nat);
            assert(v < 128 * below);
            assert(v / 128 < below) by (nonlinear_arith)
                requires v < 128 * below, below >= 0;
            lemma_unsigned_encoding_len_below(v / 128, (k - 1) as nat);
        }
    }
}

/// An unsigned 128-bit value encodes in at most 19 bytes.
pub proof fn lemma_unsigned_encoding_len(v: nat)
    requires
        v <= u128::MAX,
    ensures
        1 <= unsigned_encoding(v).len() <= 19,
{
    reveal_with_fuel(vstd::arithmetic::power::pow, 20);
    assert(vstd::arithmetic::power::pow(128, 19) > u128::MAX);
    lemma_unsigned_encoding_len_below(v, 19);
    reveal_with_fuel(unsigned_encoding, 1);
}


/// The signed encoding of a value in [-64 * 128^(k-1), 64 * 128^(k-1)) is
/// at most k bytes long.
pub proof fn lemma_signed_encoding_len_below(v: int, k: nat)
    requires
        k >= 1,
        -64 * vstd::arithmetic::power::pow(128, (k - 1) as nat) <= v,
        v < 64 * vstd::arithmetic::power::pow(128, (k - 1) as nat),
    ensures
        signed_encoding(v).len() <= k,
    decreases k,
{
    reveal(vstd::arithmetic::power::pow);
    if !signed_group_is_last(v) {
        if k == 1 {
            assert(vstd::arithmetic::power::pow(128, 0) == 1);
        } else {
            let below = vstd::arithmetic::power::pow(128, (k - 2) as nat);
            assert(vstd::arithmetic::power::pow(128, (k - 1) as nat) == 128 * below);
            assert(-64 * below <= v / 128 < 64 * below) by (nonlinear_arith)
                requires -64 * (128 * below) <= v < 64 * (128 * below), below >= 0;
            lemma_signed_encoding_len_below(v / 128, (k - 1) as nat);
        }
    }
}

/// A signed 128-bit value encodes in at most 19 bytes.
pub proof fn lemma_signed_encoding_len(v: int)
    requires
        i128::MIN <= v <= i128::MAX,
    ensures
        1 <= signed_encoding(v).len() <= 19,
{
    reveal_with_fuel(vstd::arithmetic::power::pow, 20);
    assert(64 * vstd::arithmetic::power::pow(128, 18) > i128::MAX);
    lemma_signed_encoding_len_below(v, 19);
    reveal_with_fuel(signed_encoding, 1);
}


/// Why a byte sequence could not be decoded.
#[derive(Debug, Clone, Copy, PartialEq, Eq, Structural)]
pub enum DecodeError {
    /// The input ends before a byte without the continuation flag.
    Truncated,
}

/// The length of the encoded value that starts at index `i` of `data`:
/// up to and including the first byte from `i` on without the continuation
/// flag, or `None` where no such byte exists.
pub open spec fn frame_len(data: Seq<u8>, i: int) -> Option<nat>
    decreases data.len() - i,
{
    if i < 0 || i >= data.len() {
        None
    } else if !continues(data[i]) {
        Some(1)
    } else {
        match frame_len(data, i + 1) {
            Some(n) => Some(n + 1),
            None => None,
        }
    }
}

/// The little-endian base-128 number whose groups are the payloads of
/// `groups`, followed by the (possibly negative) top part `top`.
pub open spec fn fold_groups(groups: Seq<u8>, top: int) -> int
    decreases groups.len(),
{
    if groups.len() == 0 {
        top
    } else {
        payload(groups[0]) + 128 * fold_groups(groups.drop_first(), top)
    }
}

/// The value of an unsigned encoding.
pub open spec fn unsigned_value(frame: Seq<u8>) -> int {
    fold_groups(frame, 0)
}

/// The payload of a final byte read as a seven-bit two's-complement number.
pub open spec fn sign_extended(b: u8) -> int {
    if payload(b) >= 64 {
        payload(b) - 128
    } else {
        payload(b)
    }
}

/// The value of a signed encoding: its last group carries the sign.
pub open spec fn signed_value(frame: Seq<u8>) -> int
    recommends
        frame.len() > 0,
{
    fold_groups(frame.drop_last(), sign_extended(frame.last()))
}

/// The 128-bit two's-complement value congruent to `x` modulo 2^128.
pub open spec fn wrap_i128(x: int) -> int {
    let m = x % modulus();
    if m <= i128::MAX {
        m
    } else {
        m - modulus()
    }
}

/// What decoding an unsigned value at `start` gives: the value modulo 2^128
/// and the number of bytes read.
pub open spec fn unsigned_decoding(data: Seq<u8>, start: int) -> Result<(u128, usize), DecodeError> {
    match frame_len(data, start) {
        Some(n) => Ok((
            (unsigned_value(data.subrange(start, start + n)) % modulus()) as u128,
            n as usize,
        )),
        None => Err(DecodeError::Truncated),
    }
}

/// What decoding a signed value at `start` gives: the value wrapped to 128
/// bits and the number of bytes read.
pub open spec fn signed_decoding(data: Seq<u8>, start: int) -> Result<(i128, usize), DecodeError> {
    match frame_len(data, start) {
        Some(n) => Ok((
            wrap_i128(signed_value(data.subrange(start, start + n))) as i128,
            n as usize,
        )),
        None => Err(DecodeError::Truncated),
    }
}

/// A frame found at `i` lies inside `data`.
pub proof fn lemma_frame_len_bounds(data: Seq<u8>, i: int)
    ensures
        frame_len(data, i) matches Some(n) ==> 0 <= i && 1 <= n && i + n <= data.len(),
    decreases data.len() - i,
{
    if 0 <= i < data.len() && continues(data[i]) {
        lemma_frame_len_bounds(data, i + 1);
    }
}

/// Groups whose top parts agree modulo 2^128 fold to values that agree
/// modulo 2^128.
pub proof fn lemma_fold_groups_mod(groups: Seq<u8>, a: int, b: int)
    requires
        a % modulus() == b % modulus(),
    ensures
        fold_groups(groups, a) % modulus() == fold_groups(groups, b) % modulus(),
    decreases groups.len(),
{
    if groups.len() > 0 {
        let fa = fold_groups(groups.drop_first(), a);
        let fb = fold_groups(groups.drop_first(), b);
        lemma_fold_groups_mod(groups.drop_first(), a, b);
        vstd::arithmetic::div_mod::lemma_mul_mod_noop_right(128, fa, modulus());
        vstd::arithmetic::div_mod::lemma_mul_mod_noop_right(128, fb, modulus());
        vstd::arithmetic::div_mod::lemma_add_mod_noop(payload(groups[0]), 128 * fa, modulus());
        vstd::arithmetic::div_mod::lemma_add_mod_noop(payload(groups[0]), 128 * fb, modulus());
    }
}

} // verus!
