//! The RSC container: resources, the on-disk block layout, and the byte
//! order helpers both directions share.
//!
//! A stream is a run of blocks. Each starts with a little-endian `u32` size
//! and a flag byte: flag 0 marks a dead block of `size` opaque bytes, flag 1
//! a live block holding one resource:
//!
//! ```text
//! flags (1) | crc (4) | modified (4) | created (4) | data size (4) | name, NUL | data
//! ```
use crate::crypt::{decrypt_spec, encrypt_spec};
use crate::golden::crc_of;
use vstd::prelude::*;
use vstd::utf8::{decode_utf8, encode_utf8, valid_utf8};

verus! {

/// The key that obscures the checksum field of an encrypted resource.
pub const CRC_KEY: u32 = 0x45dd_0ba6;

/// The bit of the on-disk flags byte that marks an encrypted resource.
pub const ENCRYPTED_FLAG: u8 = 0x80;

/// The largest payload a decoder accepts.
pub const MAX_DATA_SIZE: u32 = 0x7fff_ffff;

/// The checksum seed for payloads.
pub const CRC_SEED: u32 = 0xffff_ffff;

/// One named resource of a container.
#[derive(Clone, Debug, Default, PartialEq, Eq)]
pub struct Resource {
    /// User flags; the top bit is reserved for the on-disk encryption marker.
    pub flags: u8,
    pub modified_time: u32,
    pub created_time: u32,
    pub name: String,
    pub data: Vec<u8>,
}

/// A resource as values.
pub ghost struct ResourceView {
    pub flags: u8,
    pub modified_time: u32,
    pub created_time: u32,
    pub name: Seq<char>,
    pub data: Seq<u8>,
}

impl View for Resource {
    type V = ResourceView;

    open spec fn view(&self) -> ResourceView {
        ResourceView {
            flags: self.flags,
            modified_time: self.modified_time,
            created_time: self.created_time,
            name: self.name@,
            data: self.data@,
        }
    }
}

/// Why a stream could not be decoded.
#[derive(Clone, Copy, Debug, PartialEq, Eq, Structural)]
pub enum DecodeError {
    /// A block flag other than 0 or 1.
    UnexpectedBlockFlag(u8),
    /// A declared payload size above the limit.
    SizeLimitExceeded(u32),
    /// The payload does not match its checksum.
    ChecksumMismatch { expected: u32, actual: u32 },
    /// The stream ends inside a block.
    UnexpectedEof,
}

/// Why a resource could not be encoded.
#[derive(Clone, Copy, Debug, PartialEq, Eq, Structural)]
pub enum EncodeError {
    /// The payload is longer than a `u32` can count.
    SizeLimitExceeded(usize),
}

/// The little-endian `u32` at `s[i..i + 4]`.
pub open spec fn le_u32(s: Seq<u8>, i: int) -> u32 {
    (s[i] as u32) | ((s[i + 1] as u32) << 8u32) | ((s[i + 2] as u32) << 16u32) | ((s[i
        + 3] as u32) << 24u32)
}

/// The four little-endian bytes of `v`.
pub open spec fn le_bytes(v: u32) -> Seq<u8> {
    seq![
        (v & 0xffu32) as u8,
        ((v >> 8u32) & 0xffu32) as u8,
        ((v >> 16u32) & 0xffu32) as u8,
        (v >> 24u32) as u8,
    ]
}

proof fn lemma_le_bv(v: u32)
    by (bit_vector)
    ensures
        (((v & 0xffu32) as u8) as u32) | (((((v >> 8u32) & 0xffu32) as u8) as u32) << 8u32) | ((
        (((v >> 16u32) & 0xffu32) as u8) as u32) << 16u32) | ((((v >> 24u32) as u8) as u32)
            << 24u32) == v,
        v >> 24u32 < 256u32,
{
}

/// Reading back the bytes of `v` gives `v`.
pub proof fn lemma_le_round_trip(v: u32)
    ensures
        le_bytes(v).len() == 4,
        le_u32(le_bytes(v), 0) == v,
{
    lemma_le_bv(v);
}

/// The block size written ahead of a live block: two single bytes, four
/// `u32`s, the name and the payload, counted modulo 2^32.
pub open spec fn block_size(name_len: nat, data_len: nat) -> u32 {
    ((18 + name_len + data_len) % 0x1_0000_0000) as u32
}

/// A block: the block size and flag, then a body with the given flags byte,
/// checksum field, timestamps, name bytes (NUL-terminated) and payload.
pub open spec fn frame(
    size: u32,
    flag: u8,
    flags: u8,
    crc_field: Seq<u8>,
    modified_time: u32,
    created_time: u32,
    name: Seq<u8>,
    payload: Seq<u8>,
) -> Seq<u8> {
    le_bytes(size) + seq![flag] + seq![flags] + crc_field + le_bytes(modified_time) + le_bytes(
        created_time,
    ) + le_bytes(payload.len() as u32) + name + seq![0u8] + payload
}

/// The block that encodes `r`, obscured when `encrypt` is set.
#[verifier::opaque]
pub open spec fn encode_spec(r: ResourceView, encrypt: bool) -> Seq<u8> {
    let name = encode_utf8(r.name);
    let crc = crc_of(CRC_SEED, r.data);
    let crc_field = if encrypt {
        encrypt_spec(CRC_KEY, le_bytes(crc))
    } else {
        le_bytes(crc)
    };
    let payload = if encrypt {
        encrypt_spec(le_u32(crc_field, 0), r.data)
    } else {
        r.data
    };
    frame(
        block_size(name.len(), r.data.len()),
        1,
        if encrypt {
            r.flags | ENCRYPTED_FLAG
        } else {
            r.flags
        },
        crc_field,
        r.modified_time,
        r.created_time,
        name,
        payload,
    )
}

/// What `String::from_utf8_lossy` makes of bytes that are not valid UTF-8.
pub uninterp spec fn lossy_utf8(b: Seq<u8>) -> Seq<char>;

/// The text of a name field: UTF-8 decoded, with invalid sequences replaced.
pub open spec fn name_of(b: Seq<u8>) -> Seq<char> {
    if valid_utf8(b) {
        decode_utf8(b)
    } else {
        lossy_utf8(b)
    }
}

/// The index of the first NUL byte of `d` at or after `i`.
pub open spec fn nul_index(d: Seq<u8>, i: int) -> Option<int>
    decreases d.len() - i,
{
    if i < 0 || i >= d.len() {
        None
    } else if d[i] == 0 {
        Some(i)
    } else {
        nul_index(d, i + 1)
    }
}

/// The resource that a live body with the given fields holds, decrypted when
/// it is marked encrypted and `decrypt` is set, and checked against its
/// checksum unless `skip_checksum` is set; `next` is where the next block
/// starts.
pub open spec fn body_result(
    flags: u8,
    crc_field: Seq<u8>,
    modified_time: u32,
    created_time: u32,
    name: Seq<u8>,
    raw: Seq<u8>,
    decrypt: bool,
    skip_checksum: bool,
    next: int,
) -> Result<(ResourceView, int), DecodeError> {
    let obscured = decrypt && flags & ENCRYPTED_FLAG != 0;
    let crc = if obscured {
        le_u32(decrypt_spec(CRC_KEY, crc_field), 0)
    } else {
        le_u32(crc_field, 0)
    };
    let data = if obscured {
        decrypt_spec(le_u32(crc_field, 0), raw)
    } else {
        raw
    };
    let actual = crc_of(CRC_SEED, data);
    if !skip_checksum && actual != crc {
        Err(DecodeError::ChecksumMismatch { expected: crc, actual })
    } else {
        Ok(
            (
                ResourceView {
                    flags: if obscured {
                        flags & 0x7f
                    } else {
                        flags
                    },
                    modified_time,
                    created_time,
                    name: name_of(name),
                    data,
                },
                next,
            ),
        )
    }
}

/// Decodes the live block body that starts at `b`: the resource and where
/// the next block starts.
pub open spec fn decode_body(d: Seq<u8>, b: int, decrypt: bool, skip_checksum: bool) -> Result<
    (ResourceView, int),
    DecodeError,
> {
    if b + 17 > d.len() {
        Err(DecodeError::UnexpectedEof)
    } else {
        let size = le_u32(d, b + 13);
        if size > MAX_DATA_SIZE {
            Err(DecodeError::SizeLimitExceeded(size))
        } else {
            match nul_index(d, b + 17) {
                None => Err(DecodeError::UnexpectedEof),
                Some(z) => {
                    if z + 1 + size > d.len() {
                        Err(DecodeError::UnexpectedEof)
                    } else {
                        body_result(
                            d[b],
                            d.subrange(b + 1, b + 5),
                            le_u32(d, b + 5),
                            le_u32(d, b + 9),
                            d.subrange(b + 17, z),
                            d.subrange(z + 1, z + 1 + size),
                            decrypt,
                            skip_checksum,
                            z + 1 + size,
                        )
                    }
                },
            }
        }
    }
}

/// Decodes the next live resource of `d` from `pos` on, passing over dead
/// blocks: `None` at the end of the stream, else the resource and where the
/// next block starts.
pub open spec fn decode_from(d: Seq<u8>, pos: int, decrypt: bool, skip_checksum: bool) -> Result<
    Option<(ResourceView, int)>,
    DecodeError,
>
    decreases d.len() - pos,
{
    if pos < 0 || pos >= d.len() {
        Ok(None)
    } else if pos + 5 > d.len() {
        Err(DecodeError::UnexpectedEof)
    } else {
        let size = le_u32(d, pos);
        let flag = d[pos + 4];
        if flag == 0 {
            if pos + 5 + size > d.len() {
                Err(DecodeError::UnexpectedEof)
            } else {
                decode_from(d, pos + 5 + size, decrypt, skip_checksum)
            }
        } else if flag == 1 {
            match decode_body(d, pos + 5, decrypt, skip_checksum) {
                Ok((r, next)) => Ok(Some((r, next))),
                Err(e) => Err(e),
            }
        } else {
            Err(DecodeError::UnexpectedBlockFlag(flag))
        }
    }
}

/// Every live resource of `d` from `pos` on, in order, or the first error.
pub open spec fn decode_all(d: Seq<u8>, pos: int, decrypt: bool, skip_checksum: bool) -> Result<
    Seq<ResourceView>,
    DecodeError,
>
    decreases d.len() - pos,
{
    match decode_from(d, pos, decrypt, skip_checksum) {
        Ok(None) => Ok(Seq::empty()),
        Ok(Some((r, next))) => if pos < next <= d.len() {
            match decode_all(d, next, decrypt, skip_checksum) {
                Ok(rest) => Ok(seq![r] + rest),
                Err(e) => Err(e),
            }
        } else {
            Ok(seq![r])
        },
        Err(e) => Err(e),
    }
}

/// A decoded resource lies past the position it was decoded from, within
/// the stream.
pub proof fn lemma_decode_advances(d: Seq<u8>, pos: int, decrypt: bool, skip_checksum: bool)
    ensures
        decode_from(d, pos, decrypt, skip_checksum) matches Ok(Some((_, next))) ==> pos < next
            <= d.len(),
    decreases d.len() - pos,
{
    if 0 <= pos < d.len() && pos + 5 <= d.len() {
        let size = le_u32(d, pos);
        if d[pos + 4] == 0 && pos + 5 + size <= d.len() {
            lemma_decode_advances(d, pos + 5 + size, decrypt, skip_checksum);
        } else if d[pos + 4] == 1 {
            let b = pos + 5;
            if b + 17 <= d.len() {
                if let Some(z) = nul_index(d, b + 17) {
                    lemma_nul_index_bounds(d, b + 17);
                }
            }
        }
    }
}

/// A NUL found at or after `i` lies in the stream, not before `i`.
pub proof fn lemma_nul_index_bounds(d: Seq<u8>, i: int)
    ensures
        nul_index(d, i) matches Some(z) ==> i <= z < d.len(),
    decreases d.len() - i,
{
    if 0 <= i < d.len() && d[i] != 0 {
        lemma_nul_index_bounds(d, i + 1);
    }
}

/// Reads the little-endian `u32` at `d[i..i + 4]`.
pub fn read_u32_le(d: &[u8], i: usize) -> (r: u32)
    requires
        i + 4 <= d@.len(),
    ensures
        r == le_u32(d@, i as int),
{
    (d[i] as u32) | ((d[i + 1] as u32) << 8u32) | ((d[i + 2] as u32) << 16u32) | ((d[i
        + 3] as u32) << 24u32)
}

/// The four little-endian bytes of `v`.
pub fn u32_le(v: u32) -> (r: Vec<u8>)
    ensures
        r@ == le_bytes(v),
{
    proof {
        lemma_le_bv(v);
    }
    let mut r: Vec<u8> = Vec::with_capacity(4);
    r.push((v & 0xff) as u8);
    r.push(((v >> 8u32) & 0xff) as u8);
    r.push(((v >> 16u32) & 0xff) as u8);
    r.push((v >> 24u32) as u8);
    proof {
        assert(r@ =~= le_bytes(v));
    }
    r
}

/// Appends `src` to `out`.
pub fn append_bytes(out: &mut Vec<u8>, src: &[u8])
    ensures
        final(out)@ == old(out)@ + src@,
{
    let ghost start = out@;
    let mut i: usize = 0;
    while i < src.len()
        invariant
            i <= src@.len(),
            out@ == start + src@.take(i as int),
        decreases src@.len() - i,
    {
        out.push(src[i]);
        proof {
            assert(src@.take(i + 1) =~= src@.take(i as int).push(src@[i as int]));
        }
        i += 1;
    }
    proof {
        assert(src@.take(i as int) =~= src@);
    }
}

} // verus!
