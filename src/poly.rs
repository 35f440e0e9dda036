//! The polynomial model behind CRC-32/BYOND.
//!
//! A 32-bit register holds a polynomial of degree below 32 over GF(2), bit
//! `i` being the coefficient of `x^i`. The BYOND polynomial is `x^32 + P`,
//! where `P` is the register value `0xAF`; every register operation here is
//! arithmetic modulo that polynomial.
use vstd::prelude::*;

verus! {

/// The low coefficients of the BYOND polynomial.
pub const POLY: u32 = 0xaf;

/// One shift of the register: multiplication by `x` modulo the polynomial.
pub open spec fn mulx(r: u32) -> u32 {
    if r & 0x8000_0000u32 != 0 {
        ((r << 1u32) ^ 0xafu32) as u32
    } else {
        (r << 1u32) as u32
    }
}

/// `n` shifts of the register: multiplication by `x^n` modulo the polynomial.
pub open spec fn mpow(n: nat, r: u32) -> u32
    decreases n,
{
    if n == 0 {
        r
    } else {
        mulx(mpow((n - 1) as nat, r))
    }
}

/// The term that bit 0 of `a` contributes to the product `a * b`.
pub open spec fn low_term(a: u32, b: u32) -> u32 {
    if a % 2 == 1 {
        b
    } else {
        0u32
    }
}

/// The product `a * b` modulo the polynomial, by shift-and-add over the bits
/// of `a` from the lowest up.
pub open spec fn pmul(a: u32, b: u32) -> u32
    decreases a,
{
    if a == 0 {
        0u32
    } else {
        low_term(a, b) ^ pmul((a / 2) as u32, mulx(b))
    }
}

/// Shifts the register once.
pub fn shift_once(r: u32) -> (out: u32)
    ensures
        out == mulx(r),
{
    if r & 0x8000_0000 != 0 {
        (r << 1u32) ^ POLY
    } else {
        r << 1u32
    }
}

/// Rearrangements of `^` that the proofs below call on.
pub proof fn lemma_xor(a: u32, b: u32, c: u32)
    by (bit_vector)
    ensures
        a ^ 0u32 == a,
        0u32 ^ a == a,
        a ^ a == 0u32,
        a ^ b == b ^ a,
        (a ^ b) ^ c == a ^ (b ^ c),
{
}

/// Swapping the middle terms of a four-way `^`.
pub proof fn lemma_xor4(a: u32, b: u32, c: u32, d: u32)
    by (bit_vector)
    ensures
        (a ^ b) ^ (c ^ d) == (a ^ c) ^ (b ^ d),
{
}

/// A shift distributes over `^` and keeps zero at zero.
pub proof fn lemma_mulx_xor(a: u32, b: u32)
    by (bit_vector)
    ensures
        mulx(a ^ b) == mulx(a) ^ mulx(b),
        mulx(0u32) == 0u32,
{
}

/// Eight shifts of a register whose top byte is clear lose nothing.
proof fn lemma_mulx8_small(x: u32)
    by (bit_vector)
    requires
        x < 0x100_0000u32,
    ensures
        mulx(mulx(mulx(mulx(mulx(mulx(mulx(mulx(x)))))))) == x << 8u32,
{
}

/// `mpow` distributes over `^`.
pub proof fn lemma_mpow_xor(n: nat, a: u32, b: u32)
    ensures
        mpow(n, a ^ b) == mpow(n, a) ^ mpow(n, b),
    decreases n,
{
    if n > 0 {
        lemma_mpow_xor((n - 1) as nat, a, b);
        lemma_mulx_xor(mpow((n - 1) as nat, a), mpow((n - 1) as nat, b));
    }
}

/// Shifting by `n + m` is shifting by `m`, then by `n`.
pub proof fn lemma_mpow_add(n: nat, m: nat, r: u32)
    ensures
        mpow(n + m, r) == mpow(n, mpow(m, r)),
    decreases n,
{
    if n > 0 {
        lemma_mpow_add((n - 1) as nat, m, r);
        assert(mpow(n + m, r) == mulx(mpow((n + m - 1) as nat, r)));
    }
}

/// Eight shifts of a register whose top byte is clear are a plain `<< 8`.
pub proof fn lemma_mpow8_small(x: u32)
    requires
        x < 0x100_0000,
    ensures
        mpow(8, x) == x << 8u32,
{
    reveal_with_fuel(mpow, 9);
    lemma_mulx8_small(x);
}

/// Facts on single bits that the product lemmas need.
proof fn lemma_bit_step(a: u32, k: u32)
    by (bit_vector)
    requires
        a != 0u32,
        k < 32u32,
        a <= (0xffff_ffffu32 >> k),
    ensures
        k < 31u32 ==> mulx(1u32 << k) == 1u32 << ((k + 1) as u32),
        k < 31u32 ==> ((a / 2) as u32) <= (0xffff_ffffu32 >> ((k + 1) as u32)),
        k < 31u32 ==> (if a % 2 == 1 { 1u32 << k } else { 0u32 }) ^ (((a / 2) as u32) << ((k
            + 1) as u32)) == a << k,
        k == 31u32 ==> a == 1u32 && (a / 2) as u32 == 0u32 && (1u32 << k) == a << k,
{
}

/// Splitting `a` into its bit 0 and the rest, shifted back into place.
proof fn lemma_split_low_bit(a: u32)
    by (bit_vector)
    ensures
        mulx((a / 2) as u32) ^ ((a % 2) as u32) == a,
        (a % 2) as u32 == 0u32 || (a % 2) as u32 == 1u32,
        1u32 << 0u32 == 1u32,
        a << 0u32 == a,
        0u32 << a == 0u32,
        0xffff_ffffu32 >> 0u32 == 0xffff_ffffu32,
{
}

/// Multiplying by `x^k` while no coefficient passes `x^31` is a plain shift.
proof fn lemma_pmul_pow2(a: u32, k: u32)
    requires
        k < 32,
        a <= (0xffff_ffffu32 >> k),
    ensures
        pmul(a, 1u32 << k) == a << k,
    decreases a,
{
    if a == 0 {
        lemma_split_low_bit(k);
    } else {
        lemma_bit_step(a, k);
        let h = (a / 2) as u32;
        if k < 31 {
            lemma_pmul_pow2(h, (k + 1) as u32);
        } else {
            assert(pmul(h, mulx(1u32 << k)) == 0);
            lemma_xor(1u32 << k, 0, 0);
        }
    }
}

/// One is the unit of the product.
pub proof fn lemma_pmul_one(a: u32)
    ensures
        pmul(a, 1) == a,
{
    lemma_split_low_bit(a);
    lemma_pmul_pow2(a, 0);
}

/// Zero absorbs the product on the right.
pub proof fn lemma_pmul_zero(a: u32)
    ensures
        pmul(a, 0) == 0,
    decreases a,
{
    if a != 0 {
        lemma_pmul_zero((a / 2) as u32);
        lemma_mulx_xor(0, 0);
        lemma_xor(0, 0, 0);
    }
}

/// The product distributes over `^` on the right.
pub proof fn lemma_pmul_xor(a: u32, b: u32, c: u32)
    ensures
        pmul(a, b ^ c) == pmul(a, b) ^ pmul(a, c),
    decreases a,
{
    lemma_xor(0, 0, 0);
    if a != 0 {
        let h = (a / 2) as u32;
        lemma_mulx_xor(b, c);
        lemma_pmul_xor(h, mulx(b), mulx(c));
        lemma_xor4(low_term(a, b), low_term(a, c), pmul(h, mulx(b)), pmul(h, mulx(c)));
    }
}

/// A shift of the right factor shifts the product.
pub proof fn lemma_pmul_mulx(a: u32, b: u32)
    ensures
        pmul(a, mulx(b)) == mulx(pmul(a, b)),
    decreases a,
{
    lemma_mulx_xor(0, 0);
    if a != 0 {
        let h = (a / 2) as u32;
        lemma_pmul_mulx(h, mulx(b));
        lemma_mulx_xor(low_term(a, b), pmul(h, mulx(b)));
    }
}

/// The product commutes.
pub proof fn lemma_pmul_comm(a: u32, b: u32)
    ensures
        pmul(a, b) == pmul(b, a),
    decreases a,
{
    if a == 0 {
        lemma_pmul_zero(b);
    } else {
        let h = (a / 2) as u32;
        let lo = (a % 2) as u32;
        lemma_pmul_mulx(h, b);
        lemma_pmul_comm(h, b);
        lemma_pmul_mulx(b, h);
        lemma_split_low_bit(a);
        lemma_pmul_xor(b, mulx(h), lo);
        lemma_pmul_one(b);
        lemma_pmul_zero(b);
        assert(pmul(b, lo) == low_term(a, b));
        lemma_xor(low_term(a, b), pmul(b, mulx(h)), 0);
    }
}

/// Multiplying by `x^j` commutes with the product.
pub proof fn lemma_pmul_mpow(a: u32, j: nat, b: u32)
    ensures
        pmul(a, mpow(j, b)) == mpow(j, pmul(a, b)),
    decreases j,
{
    if j > 0 {
        lemma_pmul_mpow(a, (j - 1) as nat, b);
        lemma_pmul_mulx(a, mpow((j - 1) as nat, b));
    }
}

/// The product with the register that holds `x^j` is `j` shifts.
pub proof fn lemma_pmul_power(j: nat, v: u32)
    ensures
        pmul(mpow(j, 1), v) == mpow(j, v),
{
    lemma_pmul_comm(mpow(j, 1), v);
    lemma_pmul_mpow(v, j, 1);
    lemma_pmul_one(v);
}

} // verus!
