//! The reversible byte-chained XOR that obscures encrypted resources. It is
//! not cryptography: the key evolves through Bob Jenkins' 32-bit integer hash.
use vstd::prelude::*;

verus! {

/// `x + y` modulo 2^32.
pub open spec fn wadd(x: u32, y: u32) -> u32 {
    if x + y > u32::MAX {
        (x + y - 0x1_0000_0000) as u32
    } else {
        (x + y) as u32
    }
}

/// Bob Jenkins' full-avalanche 32-bit integer hash; all sums wrap.
#[verifier::opaque]
pub open spec fn jenkins(a0: u32) -> u32 {
    let a1 = wadd(wadd(a0, 0x7ed5_5d16), a0 << 12u32);
    let a2 = (a1 ^ 0xc761_c23cu32) ^ (a1 >> 19u32);
    let a3 = wadd(wadd(a2, 0x1656_67b1), a2 << 5u32);
    let a4 = wadd(a3, 0xd3a2_646c) ^ (a3 << 9u32);
    let a5 = wadd(wadd(a4, 0xfd70_46c5), a4 << 3u32);
    (a5 ^ 0xb55a_4f09u32) ^ (a5 >> 16u32)
}

/// The low byte of a key: what the next byte is XORed with.
pub open spec fn key_byte(k: u32) -> u8 {
    (k & 0xffu32) as u8
}

/// The key after the ciphertext bytes `c` went by, starting from `k`: each
/// ciphertext byte is added to the key, which is then hashed.
pub open spec fn keystream(k: u32, c: Seq<u8>) -> u32
    decreases c.len(),
{
    if c.len() == 0 {
        k
    } else {
        jenkins(wadd(keystream(k, c.drop_last()), c.last() as u32))
    }
}

/// `p` encrypted with key `k`: each byte is XORed with the low byte of the
/// key that the ciphertext before it produced.
pub open spec fn encrypt_spec(k: u32, p: Seq<u8>) -> Seq<u8>
    decreases p.len(),
{
    if p.len() == 0 {
        Seq::empty()
    } else {
        let c = encrypt_spec(k, p.drop_last());
        c.push(p.last() ^ key_byte(keystream(k, c)))
    }
}

/// `c` decrypted with key `k`: each byte is XORed with the low byte of the
/// key that the ciphertext before it produced.
pub open spec fn decrypt_spec(k: u32, c: Seq<u8>) -> Seq<u8> {
    Seq::new(c.len(), |i: int| c[i] ^ key_byte(keystream(k, c.take(i))))
}

proof fn lemma_key_byte(k: u32)
    by (bit_vector)
    ensures
        k & 0xffu32 < 256u32,
{
}

/// The Jenkins hash of `a`.
pub fn hash(a: u32) -> (r: u32)
    ensures
        r == jenkins(a),
{
    proof {
        reveal(jenkins);
    }
    let a1 = a.wrapping_add(0x7ed5_5d16).wrapping_add(a << 12u32);
    let a2 = (a1 ^ 0xc761_c23c) ^ (a1 >> 19u32);
    let a3 = a2.wrapping_add(0x1656_67b1).wrapping_add(a2 << 5u32);
    let a4 = a3.wrapping_add(0xd3a2_646c) ^ (a3 << 9u32);
    let a5 = a4.wrapping_add(0xfd70_46c5).wrapping_add(a4 << 3u32);
    (a5 ^ 0xb55a_4f09) ^ (a5 >> 16u32)
}

/// The next key, after ciphertext byte `c`.
fn next_key(k: u32, c: u8) -> (r: u32)
    ensures
        r == jenkins(wadd(k, c as u32)),
{
    hash(k.wrapping_add(c as u32))
}

/// Encryption is prefix by prefix: the first `i` ciphertext bytes encrypt the
/// first `i` plaintext bytes, and byte `i` is keyed by them.
pub proof fn lemma_encrypt_prefix(k: u32, p: Seq<u8>, i: int)
    requires
        0 <= i < p.len(),
    ensures
        encrypt_spec(k, p).len() == p.len(),
        encrypt_spec(k, p).take(i) == encrypt_spec(k, p.take(i)),
        encrypt_spec(k, p)[i] == p[i] ^ key_byte(keystream(k, encrypt_spec(k, p.take(i)))),
    decreases p.len(),
{
    lemma_encrypt_len(k, p);
    let q = p.drop_last();
    if i == p.len() - 1 {
        assert(p.take(i) =~= q);
        lemma_encrypt_len(k, q);
        assert(encrypt_spec(k, p).take(i) =~= encrypt_spec(k, q));
    } else {
        lemma_encrypt_prefix(k, q, i);
        lemma_encrypt_len(k, q);
        assert(q.take(i) =~= p.take(i));
        assert(encrypt_spec(k, p).take(i) =~= encrypt_spec(k, q).take(i));
    }
}

/// Encryption keeps the length.
pub proof fn lemma_encrypt_len(k: u32, p: Seq<u8>)
    ensures
        encrypt_spec(k, p).len() == p.len(),
    decreases p.len(),
{
    if p.len() > 0 {
        lemma_encrypt_len(k, p.drop_last());
    }
}

proof fn lemma_xor_twice(p: u8, x: u8)
    by (bit_vector)
    ensures
        (p ^ x) ^ x == p,
{
}

/// Decryption undoes encryption, for every key and every byte string.
pub proof fn lemma_decrypt_encrypt(k: u32, p: Seq<u8>)
    ensures
        decrypt_spec(k, encrypt_spec(k, p)) == p,
{
    let c = encrypt_spec(k, p);
    lemma_encrypt_len(k, p);
    assert forall|i: int| 0 <= i < p.len() implies #[trigger] decrypt_spec(k, c)[i] == p[i] by {
        lemma_encrypt_prefix(k, p, i);
        lemma_xor_twice(p[i], key_byte(keystream(k, c.take(i))));
    }
    assert(decrypt_spec(k, c) =~= p);
}

/// Encrypts `bytes` in place with key `key`.
pub fn encrypt(key: u32, bytes: &mut Vec<u8>)
    ensures
        final(bytes)@ == encrypt_spec(key, old(bytes)@),
{
    let ghost plain = bytes@;
    let mut k = key;
    let mut i: usize = 0;
    while i < bytes.len()
        invariant
            bytes@.len() == plain.len(),
            i <= plain.len(),
            bytes@.take(i as int) == encrypt_spec(key, plain.take(i as int)),
            forall|j: int| i <= j < plain.len() ==> #[trigger] bytes@[j] == plain[j],
            k == keystream(key, bytes@.take(i as int)),
        decreases plain.len() - i,
    {
        proof {
            lemma_key_byte(k);
        }
        let x = (k & 0xff) as u8;
        let b = bytes[i] ^ x;
        let ghost before = bytes@;
        bytes.set(i, b);
        k = next_key(k, b);
        proof {
            assert(bytes@.take(i as int) =~= before.take(i as int));
            assert(bytes@.take(i + 1).last() == b);
            assert(plain.take(i + 1).drop_last() =~= plain.take(i as int));
            assert(bytes@.take(i + 1) =~= encrypt_spec(key, plain.take(i as int)).push(b));
            assert(bytes@.take(i + 1).drop_last() =~= bytes@.take(i as int));
        }
        i += 1;
    }
    proof {
        assert(bytes@ =~= bytes@.take(i as int));
        assert(plain =~= plain.take(i as int));
    }
}

/// Decrypts `bytes` in place with key `key`.
pub fn decrypt(key: u32, bytes: &mut Vec<u8>)
    ensures
        final(bytes)@ == decrypt_spec(key, old(bytes)@),
{
    let ghost cipher = bytes@;
    let mut k = key;
    let mut i: usize = 0;
    while i < bytes.len()
        invariant
            bytes@.len() == cipher.len(),
            i <= cipher.len(),
            forall|j: int| 0 <= j < i ==> #[trigger] bytes@[j] == decrypt_spec(key, cipher)[j],
            forall|j: int| i <= j < cipher.len() ==> #[trigger] bytes@[j] == cipher[j],
            k == keystream(key, cipher.take(i as int)),
        decreases cipher.len() - i,
    {
        proof {
            lemma_key_byte(k);
        }
        let x = (k & 0xff) as u8;
        let c = bytes[i];
        k = next_key(k, c);
        bytes.set(i, c ^ x);
        proof {
            assert(cipher.take(i + 1).drop_last() =~= cipher.take(i as int));
        }
        i += 1;
    }
    proof {
        assert(bytes@ =~= decrypt_spec(key, cipher));
    }
}

} // verus!
