//! The 16-bit Internet checksum, computed as a little-endian pair sum.
//!
//! Every byte of the covered data is added into a wide accumulator with
//! weight 1 at even offsets and weight 256 at odd offsets; the carries
//! above 16 bits are folded back in until none remain; the result is the
//! one's complement of the folded sum.  Storing the low byte of the
//! checksum at an even offset and the high byte at the following odd
//! offset makes the folded sum of the completed data come out as
//! `0xFFFF`, so verification over the emitted bytes yields zero.

use vstd::prelude::*;
use vstd::arithmetic::div_mod::{
    lemma_fundamental_div_mod, lemma_mod_multiples_vanish, lemma_small_mod,
};

verus! {

/// Weight of the byte at offset `i`: pairs of bytes are read as
/// little-endian 16-bit words.
pub open spec fn byte_weight(i: int) -> int {
    if i % 2 == 0 {
        1
    } else {
        256
    }
}

/// Weighted sum of the first `n` bytes of `data`.
pub open spec fn pair_sum_upto(data: Seq<u8>, n: int) -> int
    decreases n,
{
    if n <= 0 {
        0
    } else {
        pair_sum_upto(data, n - 1) + data[n - 1] * byte_weight(n - 1)
    }
}

/// Weighted sum of all bytes of `data`.
pub open spec fn pair_sum(data: Seq<u8>) -> int {
    pair_sum_upto(data, data.len() as int)
}

/// Fold the carries above 16 bits back into the low 16 bits until the
/// value fits in 16 bits.
pub open spec fn fold16(x: int) -> int
    recommends
        x >= 0,
    decreases x,
{
    if x <= 0xFFFF {
        x
    } else {
        fold16(x % 0x10000 + x / 0x10000)
    }
}

/// The Internet checksum of `data`: the 16-bit one's complement of the
/// folded pair sum.
pub open spec fn checksum16(data: Seq<u8>) -> int {
    0xFFFF - fold16(pair_sum(data))
}

/// The pair sum never decreases as more bytes are included.
pub proof fn lemma_pair_sum_upto_mono(data: Seq<u8>, m: int, n: int)
    requires
        0 <= m <= n <= data.len(),
    ensures
        pair_sum_upto(data, m) <= pair_sum_upto(data, n),
    decreases n,
{
    if m < n {
        lemma_pair_sum_upto_mono(data, m, n - 1);
        assert(data[n - 1] * byte_weight(n - 1) >= 0);
    }
}

/// The pair sum of any data is non-negative.
pub proof fn lemma_pair_sum_nonneg(data: Seq<u8>)
    ensures
        pair_sum(data) >= 0,
{
    lemma_pair_sum_upto_mono(data, 0, data.len() as int);
}

/// The folded sum stays within 16 bits and stays positive when the
/// input is positive.
pub proof fn lemma_fold16_bounds(x: int)
    requires
        x >= 0,
    ensures
        0 <= fold16(x) <= 0xFFFF,
        x > 0 ==> fold16(x) >= 1,
    decreases x,
{
    if x > 0xFFFF {
        lemma_fundamental_div_mod(x, 0x10000);
        lemma_fold16_bounds(x % 0x10000 + x / 0x10000);
    }
}

/// Folding preserves the value modulo `0xFFFF`.
pub proof fn lemma_fold16_mod(x: int)
    requires
        x >= 0,
    ensures
        fold16(x) % 0xFFFF == x % 0xFFFF,
    decreases x,
{
    if x > 0xFFFF {
        let q = x / 0x10000;
        let r = x % 0x10000;
        lemma_fundamental_div_mod(x, 0x10000);
        assert(x == 0xFFFF * q + (q + r));
        lemma_mod_multiples_vanish(q, q + r, 0xFFFF);
        lemma_fold16_mod(q + r);
    }
}

/// Changing one byte changes the pair sum by the weighted difference.
pub proof fn lemma_pair_sum_upto_update(data: Seq<u8>, i: int, v: u8, n: int)
    requires
        0 <= i < data.len(),
        0 <= n <= data.len(),
    ensures
        pair_sum_upto(data.update(i, v), n) == pair_sum_upto(data, n) + if i < n {
            (v - data[i]) * byte_weight(i)
        } else {
            0
        },
    decreases n,
{
    if n > 0 {
        lemma_pair_sum_upto_update(data, i, v, n - 1);
        if i == n - 1 {
            assert(data.update(i, v)[n - 1] == v);
            assert((v as int) * byte_weight(i) - (data[i] as int) * byte_weight(i) == (v - data[i])
                * byte_weight(i)) by (nonlinear_arith);
        } else {
            assert(data.update(i, v)[n - 1] == data[n - 1]);
        }
    }
}

/// Changing one byte of `data` changes the pair sum by the weighted
/// difference at that offset.
pub proof fn lemma_pair_sum_update(data: Seq<u8>, i: int, v: u8)
    requires
        0 <= i < data.len(),
    ensures
        pair_sum(data.update(i, v)) == pair_sum(data) + (v - data[i]) * byte_weight(i),
{
    lemma_pair_sum_upto_update(data, i, v, data.len() as int);
}

/// Writing the checksum into a zeroed 16-bit field of the covered data
/// makes the folded sum of the completed data `0xFFFF`: verification
/// over the emitted bytes yields checksum zero.
pub proof fn lemma_checksum_completion(data: Seq<u8>, i: int)
    requires
        0 <= i,
        i % 2 == 0,
        i + 1 < data.len(),
        data[i] == 0,
        data[i + 1] == 0,
        pair_sum(data) > 0,
    ensures
        ({
            let c = checksum16(data);
            let done = data.update(i, (c % 256) as u8).update(i + 1, (c / 256) as u8);
            checksum16(done) == 0
        }),
{
    let s = pair_sum(data);
    lemma_pair_sum_nonneg(data);
    lemma_fold16_bounds(s);
    let f = fold16(s);
    let c = 0xFFFF - f;
    assert(0 <= c <= 0xFFFE);
    let lo = (c % 256) as u8;
    let hi = (c / 256) as u8;
    lemma_fundamental_div_mod(c, 256);

    let mid = data.update(i, lo);
    lemma_pair_sum_update(data, i, lo);
    assert(byte_weight(i) == 1);
    assert(pair_sum(mid) == s + c % 256);

    let done = mid.update(i + 1, hi);
    lemma_pair_sum_update(mid, i + 1, hi);
    assert((i + 1) % 2 == 1);
    assert(byte_weight(i + 1) == 256);
    assert(mid[i + 1] == 0);
    assert((c / 256) * 256 == 256 * (c / 256)) by (nonlinear_arith);
    assert(pair_sum(done) == s + c);

    // s + c is a positive multiple of 0xFFFF, so it folds to exactly 0xFFFF.
    lemma_fold16_mod(s);
    lemma_fundamental_div_mod(s, 0xFFFF);
    lemma_fundamental_div_mod(f, 0xFFFF);
    assert(f % 0xFFFF == s % 0xFFFF);
    let k = s / 0xFFFF - f / 0xFFFF + 1;
    assert(s + c == 0xFFFF * k);
    lemma_fold16_mod(s + c);
    lemma_mod_multiples_vanish(k, 0, 0xFFFF);
    lemma_small_mod(0, 0xFFFF);
    assert((s + c) % 0xFFFF == 0);
    lemma_fold16_bounds(s + c);
    let g = fold16(s + c);
    assert(g % 0xFFFF == 0);
    assert(1 <= g <= 0xFFFF);
    if g < 0xFFFF {
        lemma_small_mod(g as nat, 0xFFFF);
        assert(false);
    }
    assert(g == 0xFFFF);
}

/// Compute the Internet checksum of `data`.
pub fn compute_checksum(data: &Vec<u8>) -> (c: u16)
    requires
        data@.len() <= 0x100000,
    ensures
        c == checksum16(data@),
{
    let mut accum: u64 = 0;
    let mut i: usize = 0;
    while i < data.len()
        invariant
            i <= data@.len(),
            data@.len() <= 0x100000,
            accum == pair_sum_upto(data@, i as int),
            accum <= 0xFF00 * i,
        decreases data@.len() - i,
    {
        let b = data[i] as u64;
        let term: u64 = if i % 2 == 0 {
            b
        } else {
            b * 256
        };
        proof {
            assert(term == data@[i as int] * byte_weight(i as int));
            assert(term <= 0xFF00);
        }
        accum = accum + term;
        i = i + 1;
    }
    assert(accum == pair_sum(data@));
    proof {
        lemma_pair_sum_nonneg(data@);
    }
    while accum > 0xFFFF
        invariant
            accum >= 0,
            fold16(accum as int) == fold16(pair_sum(data@)),
        decreases accum,
    {
        proof {
            lemma_fundamental_div_mod(accum as int, 0x10000);
        }
        accum = accum % 0x10000 + accum / 0x10000;
    }
    assert(fold16(accum as int) == accum);
    (0xFFFF - accum) as u16
}

} // verus!
