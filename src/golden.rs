//! The bit-by-bit definition of CRC-32/BYOND, which every engine is proved
//! against, and the facts about it that the engines and `combine` rely on.
use crate::poly::{
    lemma_mpow8_small, lemma_mpow_add, lemma_mpow_xor, lemma_xor, mpow, shift_once,
};
use vstd::prelude::*;

verus! {

/// The register after feeding one byte: the byte enters at the top, then the
/// register is shifted eight times.
pub open spec fn byte_step(c: u32, b: u8) -> u32 {
    mpow(8, c ^ ((b as u32) << 24u32))
}

/// The CRC-32/BYOND register after feeding `s`, byte by byte, to a register
/// that started at `seed`. No final XOR or reflection is applied.
pub open spec fn crc_of(seed: u32, s: Seq<u8>) -> u32
    decreases s.len(),
{
    if s.len() == 0 {
        seed
    } else {
        byte_step(crc_of(seed, s.drop_last()), s.last())
    }
}

/// What byte `b` followed by `k` zero bytes leaves in a zero register: the
/// entry of row `k`, column `b` of the lookup tables.
pub open spec fn table_entry(k: nat, b: u8) -> u32 {
    mpow(8 * (k + 1), (b as u32) << 24u32)
}

/// The contribution of every byte of `w` to a zero register fed with `w`,
/// the first byte meeting the highest table row.
pub open spec fn front_sum(w: Seq<u8>) -> u32
    decreases w.len(),
{
    if w.len() <= 1 {
        if w.len() == 0 {
            0u32
        } else {
            table_entry(0, w[0])
        }
    } else {
        table_entry((w.len() - 1) as nat, w[0]) ^ front_sum(w.drop_first())
    }
}

/// The CRC register after feeding `bytes` to a register holding `crc`,
/// computed one bit at a time.
pub fn golden(crc: u32, bytes: &[u8]) -> (r: u32)
    ensures
        r == crc_of(crc, bytes@),
{
    let mut c = crc;
    let mut i: usize = 0;
    while i < bytes.len()
        invariant
            i <= bytes@.len(),
            c == crc_of(crc, bytes@.take(i as int)),
        decreases bytes.len() - i,
    {
        let b = bytes[i];
        c = c ^ ((b as u32) << 24u32);
        let ghost start = c;
        let mut j: usize = 0;
        while j < 8
            invariant
                j <= 8,
                c == mpow(j as nat, start),
            decreases 8 - j,
        {
            c = shift_once(c);
            j += 1;
        }
        proof {
            assert(bytes@.take(i + 1).drop_last() =~= bytes@.take(i as int));
        }
        i += 1;
    }
    proof {
        assert(bytes@.take(i as int) =~= bytes@);
    }
    c
}

/// Feeding `s ++ t` is feeding `s`, then `t`.
pub proof fn lemma_crc_append(seed: u32, s: Seq<u8>, t: Seq<u8>)
    ensures
        crc_of(seed, s + t) == crc_of(crc_of(seed, s), t),
    decreases t.len(),
{
    if t.len() == 0 {
        assert(s + t =~= s);
    } else {
        lemma_crc_append(seed, s, t.drop_last());
        assert((s + t).drop_last() =~= s + t.drop_last());
        assert((s + t).last() == t.last());
    }
}

/// The register is affine in its start: the start is shifted over the whole
/// input, and the input's own contribution is added.
pub proof fn lemma_crc_affine(c: u32, s: Seq<u8>)
    ensures
        crc_of(c, s) == mpow(8 * s.len(), c) ^ crc_of(0, s),
    decreases s.len(),
{
    if s.len() == 0 {
        lemma_xor(c, 0, 0);
    } else {
        let p = s.drop_last();
        let m = mpow(8 * p.len(), c);
        let z = crc_of(0, p);
        let top = (s.last() as u32) << 24u32;
        lemma_crc_affine(c, p);
        lemma_xor(m, z, top);
        lemma_mpow_xor(8, m, z ^ top);
        lemma_mpow_add(8, 8 * p.len(), c);
        assert(8 * s.len() == 8 + 8 * p.len()) by (nonlinear_arith)
            requires
                s.len() == p.len() + 1,
        ;
    }
}

/// Splitting a register into its low three bytes and its top byte, merged
/// with the byte fed in.
proof fn lemma_split_top(c: u32, b: u8)
    by (bit_vector)
    ensures
        c ^ ((b as u32) << 24u32) == (c & 0xff_ffffu32) ^ (((((c >> 24u32) as u8) ^ b) as u32)
            << 24u32),
        (c & 0xff_ffffu32) < 0x100_0000u32,
        (c & 0xff_ffffu32) << 8u32 == c << 8u32,
        (((c >> 24u32) as u8) ^ b) as u32 == (c >> 24u32) ^ (b as u32),
{
}

/// One byte through the register is a shift by eight, plus the table entry
/// that the leaving top byte selects.
pub proof fn lemma_byte_step_table(c: u32, b: u8)
    ensures
        byte_step(c, b) == (c << 8u32) ^ table_entry(0, ((c >> 24u32) as u8) ^ b),
{
    let lo = c & 0xff_ffffu32;
    let hi = ((((c >> 24u32) as u8) ^ b) as u32) << 24u32;
    lemma_split_top(c, b);
    lemma_mpow_xor(8, lo, hi);
    lemma_mpow8_small(lo);
}

/// Each table row is the previous row shifted over one more zero byte.
pub proof fn lemma_table_next(k: nat, b: u8)
    ensures
        table_entry(k + 1, b) == mpow(8, table_entry(k, b)),
{
    lemma_mpow_add(8, 8 * (k + 1), (b as u32) << 24u32);
    assert(8 * (k + 1 + 1) == 8 + 8 * (k + 1)) by (nonlinear_arith);
}

/// A zero register fed with `w` holds the front-weighted table sum of `w`.
pub proof fn lemma_front_sum(w: Seq<u8>)
    ensures
        crc_of(0, w) == front_sum(w),
    decreases w.len(),
{
    if w.len() == 0 {
    } else if w.len() == 1 {
        assert(w.drop_last().len() == 0);
        assert(crc_of(0, w.drop_last()) == 0);
        lemma_xor(0, 0, 0);
        lemma_xor((w[0] as u32) << 24u32, 0, 0);
        assert(w.last() == w[0]);
    } else {
        let one = seq![w[0]];
        let rest = w.drop_first();
        assert(w =~= one + rest);
        lemma_crc_append(0, one, rest);
        assert(one.drop_last().len() == 0);
        assert(crc_of(0, one.drop_last()) == 0);
        lemma_xor((w[0] as u32) << 24u32, 0, 0);
        assert(crc_of(0, one) == table_entry(0, w[0]));
        lemma_crc_affine(table_entry(0, w[0]), rest);
        lemma_mpow_add(8 * rest.len(), 8, (w[0] as u32) << 24u32);
        assert(8 * rest.len() + 8 == 8 * ((w.len() - 1) as nat + 1)) by (nonlinear_arith)
            requires
                rest.len() == w.len() - 1,
        ;
        lemma_front_sum(rest);
        assert(crc_of(0, w) == crc_of(table_entry(0, w[0]), rest));
        assert(mpow(8 * rest.len(), table_entry(0, w[0])) == table_entry(
            (w.len() - 1) as nat,
            w[0],
        ));
        assert(front_sum(w) == table_entry((w.len() - 1) as nat, w[0]) ^ front_sum(rest));
    }
}

} // verus!
