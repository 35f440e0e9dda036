//! Merging the checksums of two adjacent byte ranges, by arithmetic on
//! polynomials modulo the BYOND polynomial.
use crate::golden::{crc_of, lemma_crc_affine, lemma_crc_append};
use crate::poly::{
    lemma_mpow8_small, lemma_mpow_add, lemma_mpow_xor, lemma_pmul_power, lemma_xor, low_term,
    mpow, mulx, pmul, shift_once,
};
use vstd::prelude::*;

verus! {

/// The checksum of `s1 ++ s2`, given the checksum `crc1` of `s1` and the
/// checksum `crc2` of `s2`, both started from `0xFFFFFFFF`, where `s2` is
/// `len2` bytes long: the seed is peeled off `crc1`, which is then shifted
/// over `len2` zero bytes and added to `crc2`.
pub open spec fn combine_spec(crc1: u32, crc2: u32, len2: nat) -> u32 {
    mpow(8 * len2, crc1 ^ 0xffff_ffffu32) ^ crc2
}

proof fn lemma_low_bit_u32(a: u32, prod: u32, t: u32, rest: u32)
    by (bit_vector)
    ensures
        (a & 1u32 != 0u32) == (a % 2 == 1),
        a >> 1u32 == (a / 2) as u32,
        (prod ^ t) ^ rest == prod ^ (t ^ rest),
{
}

proof fn lemma_low_bit_u64(m: u64)
    by (bit_vector)
    ensures
        (m & 1u64 != 0u64) == (m % 2 == 1),
        m >> 1u64 == (m / 2) as u64,
{
}

/// The product `a * b` modulo the polynomial: `b` is added for each set bit
/// of `a`, from the lowest, and shifted once per bit.
pub fn multmodp(a: u32, b: u32) -> (r: u32)
    ensures
        r == pmul(a, b),
{
    let mut a = a;
    let mut b = b;
    let mut prod: u32 = 0;
    let ghost a0 = a;
    let ghost b0 = b;
    proof {
        lemma_xor(pmul(a, b), 0, 0);
    }
    while a != 0
        invariant
            prod ^ pmul(a, b) == pmul(a0, b0),
        decreases a,
    {
        proof {
            let rest = pmul((a / 2) as u32, mulx(b));
            lemma_low_bit_u32(a, prod, low_term(a, b), rest);
            lemma_xor(rest, 0, 0);
        }
        if a & 1 != 0 {
            prod = prod ^ b;
        }
        a = a >> 1u32;
        b = shift_once(b);
    }
    proof {
        lemma_xor(prod, 0, 0);
    }
    prod
}

/// `x^(8n)` modulo the polynomial, by square-and-multiply over the bits of
/// `n`: `sq` runs through `x^8`, `x^16`, `x^32`, ..., `x^(8 * 2^k)`, each the
/// square of the one before, and is multiplied in for each set bit `k`.
pub fn x8nmodp(n: u64) -> (r: u32)
    ensures
        r == mpow(8 * n as nat, 1),
{
    let mut m = n;
    let mut xp: u32 = 1;
    let mut sq: u32 = 0x100;
    let ghost mut done: nat = 0;
    let ghost mut w: nat = 1;
    proof {
        lemma_mpow8_small(1);
        assert(1u32 << 8u32 == 0x100u32) by (bit_vector);
    }
    while m != 0
        invariant
            n == m * w + done,
            xp == mpow(8 * done, 1),
            sq == mpow(8 * w, 1),
        decreases m,
    {
        proof {
            lemma_low_bit_u64(m);
            assert(m == (m / 2) * 2 + m % 2);
        }
        if m & 1 != 0 {
            proof {
                lemma_pmul_power(8 * w, xp);
                lemma_mpow_add(8 * w, 8 * done, 1);
            }
            xp = multmodp(sq, xp);
            proof {
                done = done + w;
            }
        }
        proof {
            assert(n == (m / 2) * (2 * w) + done) by (nonlinear_arith)
                requires
                    m == (m / 2) * 2 + m % 2,
                    n == m * w + done - (if m % 2 == 1 { w } else { 0 }),
            ;
        }
        m = m >> 1u64;
        if m != 0 {
            proof {
                lemma_pmul_power(8 * w, sq);
                lemma_mpow_add(8 * w, 8 * w, 1);
                w = 2 * w;
            }
            sq = multmodp(sq, sq);
        }
    }
    xp
}

/// The checksum of two adjacent ranges from their checksums and the length
/// of the second.
pub fn combine(crc1: u32, crc2: u32, len2: u64) -> (r: u32)
    ensures
        r == combine_spec(crc1, crc2, len2 as nat),
{
    let p1 = crc1 ^ 0xffff_ffff;
    let shift = x8nmodp(len2);
    proof {
        lemma_pmul_power(8 * len2 as nat, p1);
    }
    multmodp(shift, p1) ^ crc2
}

/// Combine is correct: merging the checksums of `s1` and `s2` gives the
/// checksum of `s1 ++ s2`.
pub proof fn lemma_combine_concat(s1: Seq<u8>, s2: Seq<u8>)
    ensures
        combine_spec(crc_of(0xffff_ffff, s1), crc_of(0xffff_ffff, s2), s2.len())
            == crc_of(0xffff_ffff, s1 + s2),
{
    let c1 = crc_of(0xffff_ffff, s1);
    let n = 8 * s2.len();
    let z = crc_of(0, s2);
    lemma_crc_append(0xffff_ffff, s1, s2);
    lemma_crc_affine(c1, s2);
    lemma_crc_affine(0xffff_ffff, s2);
    lemma_mpow_xor(n, c1, 0xffff_ffff);
    combine_regroup(mpow(n, c1), mpow(n, 0xffff_ffff), z);
}

proof fn combine_regroup(a: u32, b: u32, z: u32)
    by (bit_vector)
    ensures
        (a ^ b) ^ (b ^ z) == a ^ z,
{
}

} // verus!
