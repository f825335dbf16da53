//! Locating an encoded value in a byte slice and folding its groups.
use vstd::prelude::*;
use vstd::arithmetic::div_mod::{
    lemma_add_mod_noop_right, lemma_fundamental_div_mod, lemma_mod_mod,
    lemma_mod_multiples_basic, lemma_mul_mod_noop_right, lemma_small_mod,
};
use crate::model::{continues, fold_groups, frame_len, modulus, payload};

verus! {

/// Finds the length of the encoded value that starts at `start`, or `None`
/// where the slice ends before its last byte.
pub fn scan_frame(data: &[u8], start: usize) -> (r: Option<usize>)
    ensures
        r matches Some(n) ==> frame_len(data@, start as int) == Some(n as nat),
        r is None ==> frame_len(data@, start as int) is None,
{
    let mut i: usize = start;
    while i < data.len()
        invariant
            start <= i,
            frame_len(data@, start as int) is Some <==> frame_len(data@, i as int) is Some,
            frame_len(data@, i as int) matches Some(n) ==> frame_len(data@, start as int)
                == Some((n + (i - start)) as nat),
        decreases data@.len() - i,
    {
        let byte = data[i];
        assert(byte & 0x80 == 0 <==> byte < 128) by (bit_vector);
        if byte & 0x80 == 0 {
            assert(!continues(data@[i as int]));
            return Some(i - start + 1);
        }
        i = i + 1;
    }
    None
}

/// One step of folding groups from the top: `f % 2^128` times 128 (wrapping)
/// plus a payload stays below 2^128 and is `payload + 128 * f` modulo 2^128.
proof fn lemma_fold_step(f: int, p: int)
    requires
        0 <= p < 128,
    ensures
        ((f % modulus()) * 128) % modulus() + p < modulus(),
        ((f % modulus()) * 128) % modulus() + p == (p + 128 * f) % modulus(),
{
    let m = modulus();
    let half: int = m / 128;
    assert(m == 128 * half);
    let q = ((f % m) * 128) % m;
    lemma_mod_multiples_basic(f % m, 128);
    lemma_mod_mod((f % m) * 128, 128, half);
    assert(q % 128 == 0);
    lemma_fundamental_div_mod(q, 128);
    assert(q / 128 < half);
    assert(q <= m - 128);
    lemma_mul_mod_noop_right(128, f, m);
    assert(q == (128 * f) % m);
    lemma_add_mod_noop_right(p, 128 * f, m);
    lemma_small_mod((p + q) as nat, m as nat);
}

/// Folds the groups of `data[lo..hi]` on top of `top`, modulo 2^128.
pub fn fold_payloads(data: &[u8], lo: usize, hi: usize, top: u128) -> (r: u128)
    requires
        lo <= hi <= data@.len(),
    ensures
        r == fold_groups(data@.subrange(lo as int, hi as int), top as int) % modulus(),
{
    let mut acc: u128 = top;
    let mut i: usize = hi;
    assert(data@.subrange(hi as int, hi as int).len() == 0);
    proof {
        lemma_small_mod(top as nat, modulus() as nat);
    }
    while i > lo
        invariant
            lo <= i <= hi <= data@.len(),
            acc == fold_groups(data@.subrange(i as int, hi as int), top as int) % modulus(),
        decreases i,
    {
        i = i - 1;
        let ghost below = fold_groups(data@.subrange(i + 1, hi as int), top as int);
        let ghost group = data@.subrange(i as int, hi as int);
        assert(group.drop_first() =~= data@.subrange(i + 1, hi as int));
        let byte = data[i];
        assert(byte & 0x7f == byte % 128) by (bit_vector);
        let p = (byte & 0x7f) as u128;
        proof {
            lemma_fold_step(below, p as int);
        }
        acc = acc.wrapping_mul(128) + p;
        assert(fold_groups(group, top as int) == payload(data@[i as int]) + 128 * below);
    }
    acc
}

} // verus!
