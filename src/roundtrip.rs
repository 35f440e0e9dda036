//! What the decoder makes of the blocks that the encoder writes.
use crate::crypt::{encrypt_spec, lemma_decrypt_encrypt, lemma_encrypt_len};
use crate::format::{
    body_result, decode_from, encode_spec, frame, le_bytes, le_u32, lemma_le_round_trip,
    nul_index, DecodeError, ResourceView, CRC_KEY, CRC_SEED, ENCRYPTED_FLAG, MAX_DATA_SIZE,
    block_size, name_of, decode_all,
};
use crate::golden::crc_of;
use vstd::prelude::*;
use vstd::utf8::{
    encode_scalar, encode_utf8, encode_utf8_decode_utf8, encode_utf8_valid_utf8,
    has_width_1_encoding, last_continuation_byte, leading_byte_width_1,
    leading_byte_width_2, leading_byte_width_3, leading_byte_width_4,
    second_last_continuation_byte, third_last_continuation_byte,
};

verus! {

/// The first NUL at or after `i` is the one at `j` when none comes between.
pub proof fn lemma_nul_index(d: Seq<u8>, i: int, j: int)
    requires
        0 <= i <= j < d.len(),
        d[j] == 0,
        forall|k: int| i <= k < j ==> d[k] != 0,
    ensures
        nul_index(d, i) == Some(j),
    decreases j - i,
{
    if i < j {
        lemma_nul_index(d, i + 1, j);
    }
}

/// Reading a `u32` where its four little-endian bytes stand.
pub proof fn lemma_le_at(d: Seq<u8>, i: int, v: u32)
    requires
        0 <= i,
        i + 4 <= d.len(),
        d.subrange(i, i + 4) == le_bytes(v),
    ensures
        le_u32(d, i) == v,
{
    lemma_le_round_trip(v);
    assert(d[i] == d.subrange(i, i + 4)[0]);
    assert(d[i + 1] == d.subrange(i, i + 4)[1]);
    assert(d[i + 2] == d.subrange(i, i + 4)[2]);
    assert(d[i + 3] == d.subrange(i, i + 4)[3]);
}

/// Where each field of a block stands.
proof fn lemma_frame_layout(
    size: u32,
    flags: u8,
    crc_field: Seq<u8>,
    modified_time: u32,
    created_time: u32,
    name: Seq<u8>,
    payload: Seq<u8>,
)
    requires
        crc_field.len() == 4,
    ensures
        ({
            let f = frame(size, 1, flags, crc_field, modified_time, created_time, name, payload);
            let n = name.len() as int;
            let dl = payload.len() as int;
            &&& f.len() == 23 + n + dl
            &&& f[4] == 1
            &&& f[5] == flags
            &&& f.subrange(6, 10) == crc_field
            &&& f.subrange(10, 14) == le_bytes(modified_time)
            &&& f.subrange(14, 18) == le_bytes(created_time)
            &&& f.subrange(18, 22) == le_bytes(payload.len() as u32)
            &&& f.subrange(22, 22 + n) == name
            &&& f[22 + n] == 0
            &&& f.subrange(23 + n, 23 + n + dl) == payload
        }),
{
    let n = name.len() as int;
    let dl = payload.len() as int;
    lemma_le_round_trip(size);
    lemma_le_round_trip(modified_time);
    lemma_le_round_trip(created_time);
    lemma_le_round_trip(payload.len() as u32);
    let a = le_bytes(size) + seq![1u8] + seq![flags];
    let b = a + crc_field;
    let c = b + le_bytes(modified_time);
    let e = c + le_bytes(created_time);
    let g = e + le_bytes(payload.len() as u32);
    let h = g + name;
    let i = h + seq![0u8];
    let f = i + payload;
    assert(f == frame(size, 1, flags, crc_field, modified_time, created_time, name, payload));
    assert(a.len() == 6 && a[4] == 1 && a[5] == flags);
    assert(b.subrange(6, 10) =~= crc_field);
    assert(c.subrange(10, 14) =~= le_bytes(modified_time));
    assert(e.subrange(14, 18) =~= le_bytes(created_time));
    assert(g.subrange(18, 22) =~= le_bytes(payload.len() as u32));
    assert(h.subrange(22, 22 + n) =~= name);
    assert(f.subrange(23 + n, 23 + n + dl) =~= payload);
    assert(f.subrange(0, 22 + n) =~= h.subrange(0, 22 + n));
    assert(h.subrange(0, 22) =~= g);
    assert(g.subrange(0, 18) =~= e);
    assert(e.subrange(0, 14) =~= c);
    assert(c.subrange(0, 10) =~= b);
    assert(b.subrange(0, 6) =~= a);
    assert(f.subrange(6, 10) =~= b.subrange(6, 10));
    assert(f.subrange(10, 14) =~= c.subrange(10, 14));
    assert(f.subrange(14, 18) =~= e.subrange(14, 18));
    assert(f.subrange(18, 22) =~= g.subrange(18, 22));
    assert(f.subrange(22, 22 + n) =~= h.subrange(22, 22 + n));
    assert(f[4] == a[4]);
    assert(f[5] == a[5]);
    assert(f[22 + n] == i[22 + n]);
}

/// The bytes of `f` stand unchanged inside `pre + f + rest`.
proof fn lemma_embedded(pre: Seq<u8>, f: Seq<u8>, rest: Seq<u8>, a: int, b: int)
    requires
        0 <= a <= b <= f.len(),
    ensures
        (pre + f + rest).subrange(pre.len() + a, pre.len() + b) == f.subrange(a, b),
{
    assert((pre + f + rest).subrange(pre.len() + a, pre.len() + b) =~= f.subrange(a, b));
}

/// A live block with a NUL-free name and an acceptable payload size, put
/// anywhere in a stream, decodes to what its fields hold.
pub proof fn lemma_decode_frame(
    pre: Seq<u8>,
    size: u32,
    flags: u8,
    crc_field: Seq<u8>,
    modified_time: u32,
    created_time: u32,
    name: Seq<u8>,
    payload: Seq<u8>,
    rest: Seq<u8>,
    decrypt: bool,
    skip_checksum: bool,
)
    requires
        crc_field.len() == 4,
        payload.len() <= MAX_DATA_SIZE,
        forall|k: int| 0 <= k < name.len() ==> name[k] != 0,
    ensures
        ({
            let f = frame(size, 1, flags, crc_field, modified_time, created_time, name, payload);
            decode_from(pre + f + rest, pre.len() as int, decrypt, skip_checksum) == match body_result(
                flags,
                crc_field,
                modified_time,
                created_time,
                name,
                payload,
                decrypt,
                skip_checksum,
                (pre.len() + f.len()) as int,
            ) {
                Ok(x) => Ok(Some(x)),
                Err(e) => Err::<Option<(ResourceView, int)>, DecodeError>(e),
            }
        }),
{
    let f = frame(size, 1, flags, crc_field, modified_time, created_time, name, payload);
    let d = pre + f + rest;
    let p = pre.len() as int;
    let n = name.len() as int;
    let dl = payload.len() as int;
    lemma_frame_layout(size, flags, crc_field, modified_time, created_time, name, payload);
    lemma_embedded(pre, f, rest, 0, f.len() as int);
    assert(d[p + 4] == f[4]);
    assert(d[p + 5] == f[5]);
    assert(d[p + 22 + n] == f[22 + n]);
    lemma_embedded(pre, f, rest, 6, 10);
    lemma_embedded(pre, f, rest, 10, 14);
    lemma_embedded(pre, f, rest, 14, 18);
    lemma_embedded(pre, f, rest, 18, 22);
    lemma_embedded(pre, f, rest, 22, 22 + n);
    lemma_embedded(pre, f, rest, 23 + n, 23 + n + dl);
    lemma_le_round_trip(payload.len() as u32);
    lemma_le_at(d, p + 10, modified_time);
    lemma_le_at(d, p + 14, created_time);
    lemma_le_at(d, p + 18, payload.len() as u32);
    assert forall|k: int| p + 22 <= k < p + 22 + n implies d[k] != 0 by {
        assert(d[k] == d.subrange(p + 22, p + 22 + n)[k - (p + 22)]);
    }
    lemma_nul_index(d, p + 22, p + 22 + n);
}

/// Single bytes of UTF-8 encodings of non-zero scalars are never zero.
proof fn lemma_scalar_bytes(s: u32)
    by (bit_vector)
    requires
        s != 0u32,
    ensures
        has_width_1_encoding(s) ==> leading_byte_width_1(s) != 0u8,
        leading_byte_width_2(s) != 0u8,
        leading_byte_width_3(s) != 0u8,
        leading_byte_width_4(s) != 0u8,
        last_continuation_byte(s) != 0u8,
        second_last_continuation_byte(s) != 0u8,
        third_last_continuation_byte(s) != 0u8,
{
}

/// A text without NUL characters encodes to UTF-8 without NUL bytes.
pub proof fn lemma_utf8_no_nul(chars: Seq<char>)
    requires
        forall|i: int| 0 <= i < chars.len() ==> (#[trigger] chars[i] as u32) != 0,
    ensures
        forall|k: int| 0 <= k < encode_utf8(chars).len() ==> encode_utf8(chars)[k] != 0,
    decreases chars.len(),
{
    if chars.len() > 0 {
        let rest = chars.drop_first();
        assert forall|i: int| 0 <= i < rest.len() implies (#[trigger] rest[i] as u32) != 0 by {
            assert(rest[i] == chars[i + 1]);
        }
        lemma_utf8_no_nul(rest);
        let s = chars[0] as u32;
        assert(s != 0);
        lemma_scalar_bytes(s);
        let head = encode_scalar(s);
        assert forall|k: int| 0 <= k < head.len() implies head[k] != 0 by {}
        let e = encode_utf8(chars);
        assert(e == head + encode_utf8(rest));
        assert forall|k: int| 0 <= k < e.len() implies e[k] != 0 by {
            if k < head.len() {
                assert(e[k] == head[k]);
            } else {
                assert(e[k] == encode_utf8(rest)[k - head.len()]);
            }
        }
    }
}

proof fn lemma_flag_bits(f: u8)
    by (bit_vector)
    requires
        f < 0x80u8,
    ensures
        (f | 0x80u8) & 0x80u8 != 0u8,
        f & 0x80u8 == 0u8,
        (f | 0x80u8) & 0x7fu8 == f,
{
}

/// Decoding inverts encoding: a resource whose flags leave the encryption
/// bit clear, whose name holds no NUL character and whose payload is at most
/// 2^31 - 1 bytes long, encoded with or without encryption and put anywhere
/// in a stream, is decoded back to itself by a decrypting decoder, which then
/// stands just after its block.
pub proof fn lemma_round_trip(
    r: ResourceView,
    encrypt: bool,
    skip_checksum: bool,
    pre: Seq<u8>,
    rest: Seq<u8>,
)
    requires
        r.flags < 0x80,
        r.data.len() <= MAX_DATA_SIZE,
        forall|i: int| 0 <= i < r.name.len() ==> (#[trigger] r.name[i] as u32) != 0,
    ensures
        decode_from(pre + encode_spec(r, encrypt) + rest, pre.len() as int, true, skip_checksum)
            == Ok::<Option<(ResourceView, int)>, DecodeError>(
            Some((r, (pre.len() + encode_spec(r, encrypt).len()) as int)),
        ),
{
    reveal(encode_spec);
    let name = encode_utf8(r.name);
    let crc = crc_of(CRC_SEED, r.data);
    let crc_field = if encrypt {
        encrypt_spec(CRC_KEY, le_bytes(crc))
    } else {
        le_bytes(crc)
    };
    let key = le_u32(crc_field, 0);
    let payload = if encrypt {
        encrypt_spec(key, r.data)
    } else {
        r.data
    };
    let flags = if encrypt {
        r.flags | ENCRYPTED_FLAG
    } else {
        r.flags
    };
    lemma_le_round_trip(crc);
    lemma_encrypt_len(CRC_KEY, le_bytes(crc));
    lemma_encrypt_len(key, r.data);
    lemma_decrypt_encrypt(CRC_KEY, le_bytes(crc));
    lemma_decrypt_encrypt(key, r.data);
    lemma_utf8_no_nul(r.name);
    encode_utf8_valid_utf8(r.name);
    encode_utf8_decode_utf8(r.name);
    lemma_flag_bits(r.flags);
    lemma_decode_frame(
        pre,
        block_size(name.len(), r.data.len()),
        flags,
        crc_field,
        r.modified_time,
        r.created_time,
        name,
        payload,
        rest,
        true,
        skip_checksum,
    );
    assert(name_of(name) == r.name);
}

/// A dead block of any contents ahead of a live one is passed over: the
/// stream decodes to exactly the live resource, then ends.
pub proof fn lemma_dead_block_skipped(
    junk: Seq<u8>,
    r: ResourceView,
    encrypt: bool,
    skip_checksum: bool,
)
    requires
        junk.len() <= u32::MAX,
        r.flags < 0x80,
        r.data.len() <= MAX_DATA_SIZE,
        forall|i: int| 0 <= i < r.name.len() ==> (#[trigger] r.name[i] as u32) != 0,
    ensures
        ({
            let d = le_bytes(junk.len() as u32) + seq![0u8] + junk + encode_spec(r, encrypt);
            &&& decode_from(d, 0, true, skip_checksum) == Ok::<
                Option<(ResourceView, int)>,
                DecodeError,
            >(Some((r, d.len() as int)))
            &&& decode_from(d, d.len() as int, true, skip_checksum) == Ok::<
                Option<(ResourceView, int)>,
                DecodeError,
            >(None)
        }),
{
    let pre = le_bytes(junk.len() as u32) + seq![0u8] + junk;
    let e = encode_spec(r, encrypt);
    let d = pre + e;
    lemma_le_round_trip(junk.len() as u32);
    assert(pre.subrange(0, 4) =~= le_bytes(junk.len() as u32));
    assert(d.subrange(0, 4) =~= pre.subrange(0, 4));
    assert(d[4] == pre[4]);
    lemma_le_at(d, 0, junk.len() as u32);
    assert(d =~= pre + e + Seq::<u8>::empty());
    lemma_round_trip(r, encrypt, skip_checksum, pre, Seq::empty());
}

/// A block flag other than 0 or 1 is rejected with that flag.
pub proof fn lemma_unexpected_flag(d: Seq<u8>, decrypt: bool, skip_checksum: bool)
    requires
        d.len() >= 5,
        d[4] != 0,
        d[4] != 1,
    ensures
        decode_from(d, 0, decrypt, skip_checksum) == Err::<Option<(ResourceView, int)>, DecodeError>(
            DecodeError::UnexpectedBlockFlag(d[4]),
        ),
{
}

/// A live body that declares a payload above 2^31 - 1 bytes is rejected
/// with that size, before anything is read past its fixed fields.
pub proof fn lemma_size_limit(d: Seq<u8>, decrypt: bool, skip_checksum: bool)
    requires
        d.len() >= 22,
        d[4] == 1,
        le_u32(d, 18) > MAX_DATA_SIZE,
    ensures
        decode_from(d, 0, decrypt, skip_checksum) == Err::<Option<(ResourceView, int)>, DecodeError>(
            DecodeError::SizeLimitExceeded(le_u32(d, 18)),
        ),
{
}

/// A plain live block whose payload does not match the checksum it stores is
/// rejected with both values, unless checksums are skipped, in which case
/// the payload is returned as it stands.
pub proof fn lemma_checksum_mismatch(
    size: u32,
    flags: u8,
    expected: u32,
    modified_time: u32,
    created_time: u32,
    name: Seq<u8>,
    payload: Seq<u8>,
    skip_checksum: bool,
)
    requires
        flags < 0x80,
        payload.len() <= MAX_DATA_SIZE,
        forall|k: int| 0 <= k < name.len() ==> name[k] != 0,
        crc_of(CRC_SEED, payload) != expected,
    ensures
        ({
            let f = frame(
                size,
                1,
                flags,
                le_bytes(expected),
                modified_time,
                created_time,
                name,
                payload,
            );
            let found = ResourceView {
                flags,
                modified_time,
                created_time,
                name: name_of(name),
                data: payload,
            };
            decode_from(f, 0, true, skip_checksum) == if skip_checksum {
                Ok::<Option<(ResourceView, int)>, DecodeError>(Some((found, f.len() as int)))
            } else {
                Err(
                    DecodeError::ChecksumMismatch {
                        expected,
                        actual: crc_of(CRC_SEED, payload),
                    },
                )
            }
        }),
{
    let f = frame(size, 1, flags, le_bytes(expected), modified_time, created_time, name, payload);
    lemma_le_round_trip(expected);
    lemma_flag_bits(flags);
    assert(f =~= Seq::<u8>::empty() + f + Seq::<u8>::empty());
    lemma_decode_frame(
        Seq::empty(),
        size,
        flags,
        le_bytes(expected),
        modified_time,
        created_time,
        name,
        payload,
        Seq::empty(),
        true,
        skip_checksum,
    );
}

/// A resource that the container carries unchanged: the encryption bit of
/// its flags is clear, its name holds no NUL character and its payload is
/// at most 2^31 - 1 bytes long.
pub open spec fn codable(r: ResourceView) -> bool {
    &&& r.flags < 0x80
    &&& r.data.len() <= MAX_DATA_SIZE
    &&& forall|i: int| 0 <= i < r.name.len() ==> (#[trigger] r.name[i] as u32) != 0
}

/// The blocks that encode `rs`, one after another.
pub open spec fn encode_many(rs: Seq<ResourceView>, encrypt: bool) -> Seq<u8>
    decreases rs.len(),
{
    if rs.len() == 0 {
        Seq::empty()
    } else {
        encode_spec(rs[0], encrypt) + encode_many(rs.drop_first(), encrypt)
    }
}

/// Once a resource is decoded from a block `e`, the rest of the list
/// follows from where that block ends.
proof fn lemma_decode_all_step(
    pre: Seq<u8>,
    e: Seq<u8>,
    rest: Seq<u8>,
    skip_checksum: bool,
    r: ResourceView,
    tail: Seq<ResourceView>,
)
    requires
        decode_from(pre + e + rest, pre.len() as int, true, skip_checksum) == Ok::<
            Option<(ResourceView, int)>,
            DecodeError,
        >(Some((r, (pre.len() + e.len()) as int))),
        e.len() > 0,
        decode_all((pre + e) + rest, (pre + e).len() as int, true, skip_checksum) == Ok::<
            Seq<ResourceView>,
            DecodeError,
        >(tail),
    ensures
        decode_all(pre + e + rest, pre.len() as int, true, skip_checksum) == Ok::<
            Seq<ResourceView>,
            DecodeError,
        >(seq![r] + tail),
{
}

/// One codable resource ahead of blocks that decode to `tail` makes the
/// stream decode to that resource, then `tail`.
proof fn lemma_cons_step(
    pre: Seq<u8>,
    r: ResourceView,
    rest: Seq<u8>,
    tail: Seq<ResourceView>,
    encrypt: bool,
    skip_checksum: bool,
)
    requires
        codable(r),
        decode_all(
            (pre + encode_spec(r, encrypt)) + rest,
            (pre + encode_spec(r, encrypt)).len() as int,
            true,
            skip_checksum,
        ) == Ok::<Seq<ResourceView>, DecodeError>(tail),
    ensures
        decode_all(pre + encode_spec(r, encrypt) + rest, pre.len() as int, true, skip_checksum)
            == Ok::<Seq<ResourceView>, DecodeError>(seq![r] + tail),
{
    let e = encode_spec(r, encrypt);
    lemma_round_trip(r, encrypt, skip_checksum, pre, rest);
    lemma_encode_len(r, encrypt);
    lemma_decode_all_step(pre, e, rest, skip_checksum, r, tail);
}

/// Decoding inverts encoding over any number of resources: the blocks of
/// codable resources, written one after another after any bytes `pre`, are
/// decoded from the end of `pre` back to the same resources, in order, and
/// then the stream ends.
pub proof fn lemma_round_trip_many(
    rs: Seq<ResourceView>,
    encrypt: bool,
    skip_checksum: bool,
    pre: Seq<u8>,
)
    requires
        forall|i: int| 0 <= i < rs.len() ==> codable(#[trigger] rs[i]),
    ensures
        decode_all(pre + encode_many(rs, encrypt), pre.len() as int, true, skip_checksum)
            == Ok::<Seq<ResourceView>, DecodeError>(rs),
    decreases rs.len(),
{
    if rs.len() == 0 {
        lemma_stream_empty(pre, rs, encrypt, skip_checksum);
    } else {
        let tail = rs.drop_first();
        assert forall|i: int| 0 <= i < tail.len() implies codable(#[trigger] tail[i]) by {
            assert(tail[i] == rs[i + 1]);
        }
        assert(codable(rs[0]));
        lemma_round_trip_many(tail, encrypt, skip_checksum, pre + encode_spec(rs[0], encrypt));
        lemma_cons_step(pre, rs[0], encode_many(tail, encrypt), tail, encrypt, skip_checksum);
        lemma_stream_split(pre, rs, encrypt);
    }
}

/// A stream with no blocks after `pre` decodes to no resources.
proof fn lemma_stream_empty(pre: Seq<u8>, rs: Seq<ResourceView>, encrypt: bool, skip_checksum: bool)
    requires
        rs.len() == 0,
    ensures
        decode_all(pre + encode_many(rs, encrypt), pre.len() as int, true, skip_checksum)
            == Ok::<Seq<ResourceView>, DecodeError>(rs),
{
    assert(pre + encode_many(rs, encrypt) =~= pre);
    assert(rs =~= Seq::<ResourceView>::empty());
    assert(decode_from(pre, pre.len() as int, true, skip_checksum) == Ok::<
        Option<(ResourceView, int)>,
        DecodeError,
    >(None));
}

/// The blocks of a list are the first block, then the blocks of the rest.
proof fn lemma_stream_split(pre: Seq<u8>, rs: Seq<ResourceView>, encrypt: bool)
    requires
        rs.len() > 0,
    ensures
        pre + encode_many(rs, encrypt) == pre + encode_spec(rs[0], encrypt) + encode_many(
            rs.drop_first(),
            encrypt,
        ),
        seq![rs[0]] + rs.drop_first() == rs,
{
    assert(pre + encode_many(rs, encrypt) =~= pre + encode_spec(rs[0], encrypt) + encode_many(
        rs.drop_first(),
        encrypt,
    ));
    assert(seq![rs[0]] + rs.drop_first() =~= rs);
}

/// An encoded block is at least as long as its fixed fields.
pub proof fn lemma_encode_len(r: ResourceView, encrypt: bool)
    ensures
        encode_spec(r, encrypt).len() >= 23,
{
    reveal(encode_spec);
    let crc = crc_of(CRC_SEED, r.data);
    lemma_le_round_trip(crc);
    lemma_encrypt_len(CRC_KEY, le_bytes(crc));
}

/// Where the dead blocks from `pos` on end: the first header that is not a
/// complete dead block.
pub open spec fn skip_dead(d: Seq<u8>, pos: int) -> int
    decreases d.len() - pos,
{
    if 0 <= pos && pos + 5 <= d.len() && d[pos + 4] == 0 && pos + 5 + le_u32(d, pos) <= d.len() {
        skip_dead(d, pos + 5 + le_u32(d, pos))
    } else {
        pos
    }
}

/// A bad block flag is rejected after any number of dead blocks, and only
/// then: decoding fails with `UnexpectedBlockFlag(n)` exactly when the first
/// header after the dead blocks is complete and holds flag `n`, neither 0
/// nor 1.
pub proof fn lemma_flag_rejection(
    d: Seq<u8>,
    pos: int,
    decrypt: bool,
    skip_checksum: bool,
    n: u8,
)
    ensures
        (decode_from(d, pos, decrypt, skip_checksum) == Err::<
            Option<(ResourceView, int)>,
            DecodeError,
        >(DecodeError::UnexpectedBlockFlag(n))) == ({
            let q = skip_dead(d, pos);
            &&& 0 <= q
            &&& q + 5 <= d.len()
            &&& d[q + 4] == n
            &&& n != 0
            &&& n != 1
        }),
    decreases d.len() - pos,
{
    if 0 <= pos && pos + 5 <= d.len() && d[pos + 4] == 0 && pos + 5 + le_u32(d, pos) <= d.len() {
        lemma_flag_rejection(d, pos + 5 + le_u32(d, pos), decrypt, skip_checksum, n);
    }
}

} // verus!
