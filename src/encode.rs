//! Writing resources into a container.
use crate::crc32::Crc32;
use crate::crypt::{encrypt, encrypt_spec, lemma_encrypt_len};
use crate::golden::crc_of;
use crate::format::{
    append_bytes, block_size, encode_spec, frame, le_bytes, le_u32, read_u32_le, u32_le, EncodeError, Resource,
    CRC_KEY, CRC_SEED, ENCRYPTED_FLAG,
};
use vstd::prelude::*;
use vstd::utf8::encode_utf8;

verus! {

/// Appends encoded resources to a byte buffer.
#[derive(Debug)]
pub struct Encoder {
    writer: Vec<u8>,
    encrypt: bool,
}

impl Encoder {
    /// The bytes written so far, after what the buffer held at construction.
    pub closed spec fn output(&self) -> Seq<u8> {
        self.writer@
    }

    /// Whether resources are written obscured.
    pub closed spec fn encrypts(&self) -> bool {
        self.encrypt
    }

    /// An encoder that appends to `w`, without encryption.
    pub fn new(w: Vec<u8>) -> (e: Self)
        ensures
            e.output() == w@,
            !e.encrypts(),
    {
        Encoder { writer: w, encrypt: false }
    }

    /// Turns encryption of the resources written from now on on or off.
    pub fn encrypt(&mut self, encrypt: bool) -> (r: &mut Self)
        ensures
            r.output() == old(self).output(),
            r.encrypts() == encrypt,
            *final(self) == *final(r),
    {
        self.encrypt = encrypt;
        self
    }

    /// The buffer, with everything written.
    pub fn into_inner(self) -> (w: Vec<u8>)
        ensures
            w@ == self.output(),
    {
        self.writer
    }

    /// Appends the block that encodes `resource`; fails, writing nothing,
    /// when its payload is longer than a `u32` can count.
    pub fn write(&mut self, resource: &Resource) -> (r: Result<(), EncodeError>)
        ensures
            final(self).encrypts() == old(self).encrypts(),
            resource.data@.len() > u32::MAX ==> r == Err::<(), EncodeError>(
                EncodeError::SizeLimitExceeded(resource.data@.len() as usize),
            ) && final(self).output() == old(self).output(),
            resource.data@.len() <= u32::MAX ==> r is Ok && final(self).output() == old(
                self,
            ).output() + encode_spec(resource@, old(self).encrypts()),
    {
        let data_len = resource.data.len();
        if data_len > 0xffff_ffff {
            return Err(EncodeError::SizeLimitExceeded(data_len));
        }
        let name = resource.name.as_str().as_bytes();
        let ghost start = self.writer@;
        let size = block_size_of(name.len(), data_len);
        append_bytes(&mut self.writer, u32_le(size).as_slice());
        self.writer.push(1u8);
        let mut crc = Crc32::new();
        crc.update(resource.data.as_slice());
        let mut crc_bytes = u32_le(crc.as_u32());
        if self.encrypt {
            self.writer.push(resource.flags | ENCRYPTED_FLAG);
            encrypt(CRC_KEY, &mut crc_bytes);
            proof {
                lemma_encrypt_len(CRC_KEY, le_bytes(crc.checksum()));
            }
        } else {
            self.writer.push(resource.flags);
        }
        let ghost crc_field = crc_bytes@;
        append_bytes(&mut self.writer, crc_bytes.as_slice());
        append_bytes(&mut self.writer, u32_le(resource.modified_time).as_slice());
        append_bytes(&mut self.writer, u32_le(resource.created_time).as_slice());
        append_bytes(&mut self.writer, u32_le(data_len as u32).as_slice());
        append_bytes(&mut self.writer, name);
        self.writer.push(0u8);
        if self.encrypt {
            let key = read_u32_le(crc_bytes.as_slice(), 0);
            let mut data = resource.data.clone();
            proof {
                assert(data@ =~= resource.data@);
            }
            encrypt(key, &mut data);
            append_bytes(&mut self.writer, data.as_slice());
        } else {
            append_bytes(&mut self.writer, resource.data.as_slice());
        }
        proof {
            reveal(encode_spec);
            let r = resource@;
            assert(crc.checksum() == crc_of(CRC_SEED, r.data));
            let payload = if self.encrypt {
                encrypt_spec(le_u32(crc_field, 0), r.data)
            } else {
                r.data
            };
            lemma_encrypt_len(le_u32(crc_field, 0), r.data);
            let fl = if self.encrypt {
                r.flags | ENCRYPTED_FLAG
            } else {
                r.flags
            };
            assert(self.writer@ =~= start + frame(
                size,
                1,
                fl,
                crc_field,
                r.modified_time,
                r.created_time,
                encode_utf8(r.name),
                payload,
            ));
        }
        Ok(())
    }
}

/// The block size field for a name and a payload of the given lengths.
fn block_size_of(name_len: usize, data_len: usize) -> (r: u32)
    ensures
        r == block_size(name_len as nat, data_len as nat),
{
    let n = (name_len as u64 % 0x1_0000_0000) as u32;
    let d = (data_len as u64 % 0x1_0000_0000) as u32;
    n.wrapping_add(d).wrapping_add(18)
}

} // verus!
