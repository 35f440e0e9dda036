//! The portable table-driven engine: slice-by-16 over whole 16-byte chunks,
//! slice-by-1 over the rest.
//!
//! The register is kept in its natural order: the first four bytes of a
//! chunk are merged into it as a big-endian word, so that its top byte meets
//! row 15 of the word table and its lowest byte row 12, while the other
//! twelve bytes of the chunk meet rows 11 down to 0.
use crate::golden::{
    crc_of, front_sum, lemma_byte_step_table, lemma_crc_affine, lemma_crc_append,
    lemma_front_sum, table_entry,
};
use crate::poly::{lemma_mpow8_small, lemma_mpow_add, lemma_mpow_xor, mpow};
use crate::tables::{lemma_top_byte, Tables};
use std::sync::Arc;
use vstd::prelude::*;

verus! {

/// The first four bytes of `w` as a big-endian word: the order in which
/// they meet the register.
pub open spec fn be_word(w: Seq<u8>) -> u32 {
    ((w[0] as u32) << 24u32) ^ (((w[1] as u32) << 16u32) ^ (((w[2] as u32) << 8u32) ^ (
    w[3] as u32)))
}

/// What the four bytes of register `v` contribute after sixteen more bytes:
/// the top byte meets row 15, the lowest byte row 12.
pub open spec fn register_sum(v: u32) -> u32 {
    table_entry(15, (v >> 24u32) as u8) ^ (table_entry(14, ((v >> 16u32) & 0xffu32) as u8) ^ (
    table_entry(13, ((v >> 8u32) & 0xffu32) as u8) ^ table_entry(12, (v & 0xffu32) as u8)))
}

/// The four bytes of a register, put back in place.
proof fn lemma_bytes_of(v: u32)
    by (bit_vector)
    ensures
        v >> 24u32 < 256u32,
        (v >> 16u32) & 0xffu32 < 256u32,
        (v >> 8u32) & 0xffu32 < 256u32,
        v & 0xffu32 < 256u32,
        v == ((((v >> 24u32) as u8) as u32) << 24u32) ^ ((((((v >> 16u32) & 0xffu32) as u8)
            as u32) << 16u32) ^ ((((((v >> 8u32) & 0xffu32) as u8) as u32) << 8u32) ^ (((v
            & 0xffu32) as u8) as u32))),
{
}

/// Where a byte stands in a register, and that it moves up intact.
proof fn lemma_byte_places(b: u8)
    by (bit_vector)
    ensures
        (b as u32) < 0x100_0000u32,
        (b as u32) << 8u32 < 0x100_0000u32,
        (b as u32) << 16u32 < 0x100_0000u32,
        ((b as u32) << 8u32) << 8u32 == (b as u32) << 16u32,
        ((b as u32) << 16u32) << 8u32 == (b as u32) << 24u32,
{
}

/// The bytes of a big-endian word are the bytes it was made from.
proof fn lemma_be_bytes(a: u8, b: u8, c: u8, d: u8)
    by (bit_vector)
    ensures
        ((((a as u32) << 24u32) ^ (((b as u32) << 16u32) ^ (((c as u32) << 8u32) ^ (d as u32))))
            >> 24u32) as u8 == a,
        ((((((a as u32) << 24u32) ^ (((b as u32) << 16u32) ^ (((c as u32) << 8u32) ^ (
        d as u32)))) >> 16u32) & 0xffu32) as u8) == b,
        ((((((a as u32) << 24u32) ^ (((b as u32) << 16u32) ^ (((c as u32) << 8u32) ^ (
        d as u32)))) >> 8u32) & 0xffu32) as u8) == c,
        (((((a as u32) << 24u32) ^ (((b as u32) << 16u32) ^ (((c as u32) << 8u32) ^ (
        d as u32)))) & 0xffu32) as u8) == d,
{
}

/// Regrouping the sum of a chunk's terms.
proof fn lemma_xor_regroup(m: u32, a: u32, b: u32, c: u32, d: u32, r: u32)
    by (bit_vector)
    ensures
        m ^ (a ^ (b ^ (c ^ (d ^ r)))) == (m ^ (a ^ (b ^ (c ^ d)))) ^ r,
{
}

/// Sixteen shifts of a register, read off the table rows 15 to 12.
proof fn lemma_register_sum(v: u32)
    ensures
        mpow(128, v) == register_sum(v),
{
    let b3 = (v >> 24u32) as u8;
    let b2 = ((v >> 16u32) & 0xffu32) as u8;
    let b1 = ((v >> 8u32) & 0xffu32) as u8;
    let b0 = (v & 0xffu32) as u8;
    let x3 = (b3 as u32) << 24u32;
    let x2 = (b2 as u32) << 16u32;
    let x1 = (b1 as u32) << 8u32;
    let x0 = b0 as u32;
    lemma_bytes_of(v);
    lemma_mpow_xor(128, x3, x2 ^ (x1 ^ x0));
    lemma_mpow_xor(128, x2, x1 ^ x0);
    lemma_mpow_xor(128, x1, x0);
    lemma_byte_places(b2);
    lemma_byte_places(b1);
    lemma_byte_places(b0);
    // x2 reaches the top byte after one byte shift
    lemma_mpow_add(120, 8, x2);
    lemma_mpow8_small(x2);
    // x1 after two
    lemma_mpow_add(112, 16, x1);
    lemma_mpow_add(8, 8, x1);
    lemma_mpow8_small(x1);
    lemma_mpow8_small(x1 << 8u32);
    // x0 after three
    lemma_mpow_add(104, 24, x0);
    lemma_mpow_add(16, 8, x0);
    lemma_mpow_add(8, 8, x0 << 8u32);
    lemma_mpow8_small(x0);
    lemma_mpow8_small(x0 << 8u32);
    lemma_mpow8_small((x0 << 8u32) << 8u32);
}

/// One step of unfolding the front sum of the tail `w[k..]`.
proof fn lemma_front_sum_unfold(w: Seq<u8>, k: int)
    requires
        0 <= k < w.len(),
    ensures
        front_sum(w.skip(k)) == if k + 1 == w.len() {
            table_entry(0, w[k])
        } else {
            table_entry((w.len() - 1 - k) as nat, w[k]) ^ front_sum(w.skip(k + 1))
        },
{
    assert(w.skip(k).drop_first() =~= w.skip(k + 1));
    assert(w.skip(k)[0] == w[k]);
}

/// A 16-byte chunk through the register: the register merged with the first
/// four bytes, read off rows 15 to 12, plus the other twelve bytes read off
/// rows 11 to 0.
pub proof fn lemma_chunk(c: u32, w: Seq<u8>)
    requires
        w.len() == 16,
    ensures
        crc_of(c, w) == register_sum(c ^ be_word(w)) ^ front_sum(w.skip(4)),
{
    let be = be_word(w);
    lemma_crc_affine(c, w);
    lemma_front_sum(w);
    assert(w.skip(0) =~= w);
    lemma_front_sum_unfold(w, 0);
    lemma_front_sum_unfold(w, 1);
    lemma_front_sum_unfold(w, 2);
    lemma_front_sum_unfold(w, 3);
    lemma_be_bytes(w[0], w[1], w[2], w[3]);
    lemma_register_sum(be);
    lemma_register_sum(c ^ be);
    lemma_mpow_xor(128, c, be);
    lemma_xor_regroup(
        mpow(128, c),
        table_entry(15, w[0]),
        table_entry(14, w[1]),
        table_entry(13, w[2]),
        table_entry(12, w[3]),
        front_sum(w.skip(4)),
    );
}

/// Feeds `bytes[from..]` to the register one byte at a time.
fn fold_bytes(tables: &Tables, crc: u32, bytes: &[u8], from: usize) -> (r: u32)
    requires
        from <= bytes@.len(),
    ensures
        r == crc_of(crc, bytes@.subrange(from as int, bytes@.len() as int)),
{
    let mut c = crc;
    let mut i: usize = from;
    while i < bytes.len()
        invariant
            from <= i <= bytes@.len(),
            c == crc_of(crc, bytes@.subrange(from as int, i as int)),
        decreases bytes.len() - i,
    {
        let b = bytes[i];
        proof {
            lemma_top_byte(c);
            lemma_byte_step_table(c, b);
            assert(bytes@.subrange(from as int, i + 1).drop_last() =~= bytes@.subrange(
                from as int,
                i as int,
            ));
        }
        c = (c << 8u32) ^ tables.byte(((c >> 24u32) as u8) ^ b);
        i += 1;
    }
    c
}

/// The register after feeding `bytes`, one byte and one table lookup at a time.
pub fn slice_by_1(tables: &Tables, crc: u32, bytes: &[u8]) -> (r: u32)
    ensures
        r == crc_of(crc, bytes@),
{
    proof {
        assert(bytes@.subrange(0, bytes@.len() as int) =~= bytes@);
    }
    fold_bytes(tables, crc, bytes, 0)
}

/// The tail of a chunk, the twelve bytes that meet rows 11 to 0, unfolded.
proof fn lemma_tail(w: Seq<u8>)
    requires
        w.len() == 16,
    ensures
        front_sum(w.skip(4)) == table_entry(11, w[4]) ^ (table_entry(10, w[5]) ^ (table_entry(
            9,
            w[6],
        ) ^ (table_entry(8, w[7]) ^ (table_entry(7, w[8]) ^ (table_entry(6, w[9]) ^ (
        table_entry(5, w[10]) ^ (table_entry(4, w[11]) ^ (table_entry(3, w[12]) ^ (table_entry(
            2,
            w[13],
        ) ^ (table_entry(1, w[14]) ^ table_entry(0, w[15]))))))))))),
{
    lemma_front_sum_unfold(w, 15);
    lemma_front_sum_unfold(w, 14);
    lemma_front_sum_unfold(w, 13);
    lemma_front_sum_unfold(w, 12);
    lemma_front_sum_unfold(w, 11);
    lemma_front_sum_unfold(w, 10);
    lemma_front_sum_unfold(w, 9);
    lemma_front_sum_unfold(w, 8);
    lemma_front_sum_unfold(w, 7);
    lemma_front_sum_unfold(w, 6);
    lemma_front_sum_unfold(w, 5);
    lemma_front_sum_unfold(w, 4);
}

/// Feeds the 16 bytes `bytes[i..i + 16]` to the register with sixteen
/// lookups.
#[inline(always)]
fn chunk_step(tables: &Tables, c: u32, bytes: &[u8], i: usize) -> (r: u32)
    requires
        i + 16 <= bytes@.len(),
    ensures
        r == crc_of(c, bytes@.subrange(i as int, i + 16)),
{
    let ghost w = bytes@.subrange(i as int, i + 16);
    let v = c ^ (((bytes[i] as u32) << 24u32) ^ (((bytes[i + 1] as u32) << 16u32) ^ (((bytes[i
        + 2] as u32) << 8u32) ^ (bytes[i + 3] as u32))));
    proof {
        lemma_bytes_of(v);
    }
    let head = tables.word(15, (v >> 24u32) as u8) ^ (tables.word(
        14,
        ((v >> 16u32) & 0xff) as u8,
    ) ^ (tables.word(13, ((v >> 8u32) & 0xff) as u8) ^ tables.word(12, (v & 0xff) as u8)));
    let tail = tables.word(11, bytes[i + 4]) ^ (tables.word(10, bytes[i + 5]) ^ (tables.word(
        9,
        bytes[i + 6],
    ) ^ (tables.word(8, bytes[i + 7]) ^ (tables.word(7, bytes[i + 8]) ^ (tables.word(
        6,
        bytes[i + 9],
    ) ^ (tables.word(5, bytes[i + 10]) ^ (tables.word(4, bytes[i + 11]) ^ (tables.word(
        3,
        bytes[i + 12],
    ) ^ (tables.word(2, bytes[i + 13]) ^ (tables.word(1, bytes[i + 14]) ^ tables.word(
        0,
        bytes[i + 15],
    )))))))))));
    proof {
        lemma_tail(w);
        assert(v == c ^ be_word(w));
        lemma_chunk(c, w);
    }
    head ^ tail
}

/// The register after feeding `bytes`: sixteen table lookups per 16-byte
/// chunk, then one per remaining byte.
pub fn slice_by_16(tables: &Tables, crc: u32, bytes: &[u8]) -> (r: u32)
    ensures
        r == crc_of(crc, bytes@),
{
    let n = bytes.len();
    let mut c = crc;
    let mut i: usize = 0;
    while 16 <= n - i
        invariant
            n == bytes@.len(),
            i <= n,
            c == crc_of(crc, bytes@.take(i as int)),
        decreases n - i,
    {
        proof {
            lemma_crc_append(crc, bytes@.take(i as int), bytes@.subrange(i as int, i + 16));
            assert(bytes@.take(i + 16) =~= bytes@.take(i as int) + bytes@.subrange(
                i as int,
                i + 16,
            ));
        }
        c = chunk_step(tables, c, bytes, i);
        i += 16;
    }
    proof {
        assert(bytes@ =~= bytes@.take(i as int) + bytes@.subrange(i as int, n as int));
        lemma_crc_append(crc, bytes@.take(i as int), bytes@.subrange(i as int, n as int));
    }
    fold_bytes(tables, c, bytes, i)
}

/// The start of every fresh CRC-32/BYOND computation.
pub const DEFAULT_CRC32: u32 = 0xffff_ffff;

/// A CRC register fed by the table-driven engine.
#[derive(Clone, Debug)]
pub struct State {
    state: u32,
    tables: Arc<Tables>,
}

impl View for State {
    type V = u32;

    closed spec fn view(&self) -> u32 {
        self.state
    }
}

impl State {
    /// A register holding `state`.
    pub fn new(state: u32) -> (s: Self)
        ensures
            s@ == state,
    {
        State { state, tables: Arc::new(Tables::new()) }
    }

    /// Feeds `buf` to the register.
    pub fn update(&mut self, buf: &[u8])
        ensures
            final(self)@ == crc_of(old(self)@, buf@),
    {
        self.state = slice_by_16(&self.tables, self.state, buf);
    }

    /// The register's value.
    pub fn as_u32(&self) -> (r: u32)
        ensures
            r == self@,
    {
        self.state
    }

    /// Puts the register back to `0xFFFFFFFF`.
    pub fn reset(&mut self)
        ensures
            final(self)@ == DEFAULT_CRC32,
    {
        self.state = DEFAULT_CRC32;
    }
}

} // verus!
