//! Lookup tables derived from the BYOND polynomial.
use crate::golden::{byte_step, lemma_byte_step_table, lemma_table_next, table_entry};
use crate::poly::{lemma_xor, mpow, shift_once};
use vstd::prelude::*;

verus! {

/// The byte table and the sixteen rows of the word table.
///
/// Row `k`, column `b` holds what byte `b` followed by `k` zero bytes leaves
/// in a zero register; row 0 is the byte table.
#[derive(Debug)]
pub struct Tables {
    byte: Vec<u32>,
    word: Vec<Vec<u32>>,
}

impl Tables {
    #[verifier::type_invariant]
    spec fn inv(&self) -> bool {
        &&& self.byte@.len() == 256
        &&& forall|b: int| 0 <= b < 256 ==> #[trigger] self.byte@[b] == table_entry(0, b as u8)
        &&& self.word@.len() == 16
        &&& forall|k: int| 0 <= k < 16 ==> #[trigger] self.word@[k]@.len() == 256
        &&& forall|k: int, b: int|
            0 <= k < 16 && 0 <= b < 256 ==> #[trigger] self.word@[k]@[b] == table_entry(
                k as nat,
                b as u8,
            )
    }

    /// Computes both tables from the polynomial.
    pub fn new() -> (t: Tables) {
        let byte = byte_row();
        let mut word: Vec<Vec<u32>> = Vec::with_capacity(16);
        word.push(byte_row());
        let mut k: usize = 1;
        while k < 16
            invariant
                1 <= k <= 16,
                word@.len() == k,
                byte@.len() == 256,
                forall|b: int| 0 <= b < 256 ==> #[trigger] byte@[b] == table_entry(0, b as u8),
                forall|j: int| 0 <= j < k ==> #[trigger] word@[j]@.len() == 256,
                forall|j: int, b: int|
                    0 <= j < k && 0 <= b < 256 ==> #[trigger] word@[j]@[b] == table_entry(
                        j as nat,
                        b as u8,
                    ),
            decreases 16 - k,
        {
            let row = next_row(&byte, &word[k - 1], k);
            word.push(row);
            k += 1;
        }
        Tables { byte, word }
    }

    /// The byte table entry of `b`.
    #[inline(always)]
    pub fn byte(&self, b: u8) -> (r: u32)
        ensures
            r == table_entry(0, b),
    {
        proof {
            use_type_invariant(self);
        }
        self.byte[b as usize]
    }

    /// Row `k`, column `b` of the word table.
    #[inline(always)]
    pub fn word(&self, k: usize, b: u8) -> (r: u32)
        requires
            k < 16,
        ensures
            r == table_entry(k as nat, b),
    {
        proof {
            use_type_invariant(self);
        }
        self.word[k][b as usize]
    }
}

/// The byte table: each byte at the top of the register, shifted eight times.
fn byte_row() -> (row: Vec<u32>)
    ensures
        row@.len() == 256,
        forall|b: int| 0 <= b < 256 ==> #[trigger] row@[b] == table_entry(0, b as u8),
{
    let mut row: Vec<u32> = Vec::with_capacity(256);
    let mut b: usize = 0;
    while b < 256
        invariant
            b <= 256,
            row@.len() == b,
            forall|i: int| 0 <= i < b ==> #[trigger] row@[i] == table_entry(0, i as u8),
        decreases 256 - b,
    {
        let start = ((b as u8) as u32) << 24u32;
        let mut r = start;
        let mut j: usize = 0;
        while j < 8
            invariant
                j <= 8,
                r == mpow(j as nat, start),
            decreases 8 - j,
        {
            r = shift_once(r);
            j += 1;
        }
        row.push(r);
        b += 1;
    }
    row
}

/// The top byte of a register, and that byte merged with zero.
pub proof fn lemma_top_byte(x: u32)
    by (bit_vector)
    ensures
        x >> 24u32 < 256u32,
        ((x >> 24u32) as u8) ^ 0u8 == (x >> 24u32) as u8,
        (0u8 as u32) << 24u32 == 0u32,
{
}

/// Row `k` of the word table, from row `k - 1` and the byte table.
fn next_row(byte: &Vec<u32>, prev: &Vec<u32>, k: usize) -> (row: Vec<u32>)
    requires
        1 <= k < 16,
        byte@.len() == 256,
        prev@.len() == 256,
        forall|b: int| 0 <= b < 256 ==> #[trigger] byte@[b] == table_entry(0, b as u8),
        forall|b: int| 0 <= b < 256 ==> #[trigger] prev@[b] == table_entry((k - 1) as nat, b as u8),
    ensures
        row@.len() == 256,
        forall|b: int| 0 <= b < 256 ==> #[trigger] row@[b] == table_entry(k as nat, b as u8),
{
    let mut row: Vec<u32> = Vec::with_capacity(256);
    let mut b: usize = 0;
    while b < 256
        invariant
            b <= 256,
            1 <= k < 16,
            byte@.len() == 256,
            prev@.len() == 256,
            forall|i: int| 0 <= i < 256 ==> #[trigger] byte@[i] == table_entry(0, i as u8),
            forall|i: int|
                0 <= i < 256 ==> #[trigger] prev@[i] == table_entry((k - 1) as nat, i as u8),
            row@.len() == b,
            forall|i: int| 0 <= i < b ==> #[trigger] row@[i] == table_entry(k as nat, i as u8),
        decreases 256 - b,
    {
        let x = prev[b];
        proof {
            lemma_top_byte(x);
        }
        let top = (x >> 24u32) as u8;
        let r = (x << 8u32) ^ byte[top as usize];
        proof {
            lemma_byte_step_table(x, 0);
            lemma_xor(x, 0, 0);
            assert(byte_step(x, 0) == mpow(8, x));
            lemma_table_next((k - 1) as nat, b as u8);
        }
        row.push(r);
        b += 1;
    }
    row
}

} // verus!
