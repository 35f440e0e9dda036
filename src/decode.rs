//! Reading resources out of a container.
use crate::crc32::Crc32;
use crate::crypt::decrypt;
use crate::format::{
    decode_all, decode_body, decode_from, lemma_decode_advances, lossy_utf8, nul_index, read_u32_le, DecodeError, Resource,
    ResourceView, CRC_KEY, ENCRYPTED_FLAG, MAX_DATA_SIZE,
};
use vstd::prelude::*;
use vstd::slice::{slice_subrange, slice_to_vec};
use vstd::utf8::{decode_utf8, valid_utf8};

verus! {

/// Relies on `String::from_utf8_lossy`: bytes that are valid UTF-8 are
/// decoded as they are, and any other input gets a result that depends on
/// the bytes alone.
#[verifier::external_body]
fn utf8_lossy(b: &[u8]) -> (s: String)
    ensures
        valid_utf8(b@) ==> s@ == decode_utf8(b@),
        !valid_utf8(b@) ==> s@ == lossy_utf8(b@),
{
    String::from_utf8_lossy(b).into_owned()
}

/// A live block body as values: the resource and where the next block starts.
pub open spec fn body_view(r: Result<(Resource, usize), DecodeError>) -> Result<
    (ResourceView, int),
    DecodeError,
> {
    match r {
        Ok((res, next)) => Ok((res@, next as int)),
        Err(e) => Err(e),
    }
}

/// The outcome of `read_next` as values.
pub open spec fn next_view(r: Result<Option<Resource>, DecodeError>) -> Result<
    Option<ResourceView>,
    DecodeError,
> {
    match r {
        Ok(Some(res)) => Ok(Some(res@)),
        Ok(None) => Ok(None),
        Err(e) => Err(e),
    }
}

/// A decoding outcome without the position of the next block.
pub open spec fn without_position(o: Result<Option<(ResourceView, int)>, DecodeError>) -> Result<
    Option<ResourceView>,
    DecodeError,
> {
    match o {
        Ok(Some((res, _))) => Ok(Some(res)),
        Ok(None) => Ok(None),
        Err(e) => Err(e),
    }
}

/// Where a decoding outcome leaves the stream, if it found a resource.
pub open spec fn position_after(o: Result<Option<(ResourceView, int)>, DecodeError>, pos: int) -> int {
    match o {
        Ok(Some((_, next))) => next,
        _ => pos,
    }
}

/// The views of a list of resources.
pub open spec fn views(v: Seq<Resource>) -> Seq<ResourceView> {
    v.map_values(|r: Resource| r@)
}

/// Reads resources, in order, out of the bytes of a container.
pub struct Decoder<'a> {
    reader: &'a [u8],
    pos: usize,
    decrypt: bool,
    skip_checksum: bool,
}

impl<'a> Decoder<'a> {
    #[verifier::type_invariant]
    spec fn inv(&self) -> bool {
        self.pos <= self.reader@.len()
    }

    /// The whole container.
    pub closed spec fn input(&self) -> Seq<u8> {
        self.reader@
    }

    /// Where the next block starts.
    pub closed spec fn position(&self) -> int {
        self.pos as int
    }

    /// Whether encrypted resources are decrypted.
    pub closed spec fn decrypts(&self) -> bool {
        self.decrypt
    }

    /// Whether payloads are returned without checking them against their
    /// checksum.
    pub closed spec fn skips_checksum(&self) -> bool {
        self.skip_checksum
    }

    /// A decoder at the start of `r` that decrypts and checks checksums.
    pub fn new(r: &'a [u8]) -> (d: Self)
        ensures
            d.input() == r@,
            d.position() == 0,
            d.decrypts(),
            !d.skips_checksum(),
    {
        Decoder { reader: r, pos: 0, decrypt: true, skip_checksum: false }
    }

    /// Where the next block starts, counted from the start of the input.
    pub fn offset(&self) -> (r: usize)
        ensures
            r == self.position(),
    {
        self.pos
    }

    /// Turns decryption of encrypted resources on or off.
    pub fn decrypt(&mut self, decrypt: bool) -> (r: &Self)
        ensures
            final(self).input() == old(self).input(),
            final(self).position() == old(self).position(),
            final(self).decrypts() == decrypt,
            final(self).skips_checksum() == old(self).skips_checksum(),
            *r == *final(self),
    {
        proof {
            use_type_invariant(&*self);
        }
        self.decrypt = decrypt;
        self
    }

    /// Turns the checksum check off or on.
    pub fn skip_checksum(&mut self, skip_checksum: bool) -> (r: &mut Self)
        ensures
            r.input() == old(self).input(),
            r.position() == old(self).position(),
            r.decrypts() == old(self).decrypts(),
            r.skips_checksum() == skip_checksum,
            *final(self) == *final(r),
    {
        proof {
            use_type_invariant(&*self);
        }
        self.skip_checksum = skip_checksum;
        self
    }

    /// The next live resource, or `None` at the end of the stream. A decoder
    /// that failed must not be used again.
    pub fn read_next(&mut self) -> (r: Result<Option<Resource>, DecodeError>)
        ensures
            final(self).input() == old(self).input(),
            final(self).decrypts() == old(self).decrypts(),
            final(self).skips_checksum() == old(self).skips_checksum(),
            next_view(r) == without_position(
                decode_from(
                    old(self).input(),
                    old(self).position(),
                    old(self).decrypts(),
                    old(self).skips_checksum(),
                ),
            ),
            r is Ok ==> final(self).position() == position_after(
                decode_from(
                    old(self).input(),
                    old(self).position(),
                    old(self).decrypts(),
                    old(self).skips_checksum(),
                ),
                old(self).position(),
            ),
    {
        proof {
            use_type_invariant(&*self);
        }
        let d = self.reader;
        let n = d.len();
        let mut pos = self.pos;
        let ghost start = self.pos as int;
        loop
            invariant
                pos <= n,
                n == d@.len(),
                d@ == self.input(),
                self.pos == start,
                self.input() == old(self).input(),
                self.decrypts() == old(self).decrypts(),
                self.skips_checksum() == old(self).skips_checksum(),
                start == old(self).position(),
                decode_from(d@, pos as int, self.decrypt, self.skip_checksum) == decode_from(
                    d@,
                    start,
                    self.decrypt,
                    self.skip_checksum,
                ),
            decreases n - pos,
        {
            if pos == n {
                return Ok(None);
            }
            if n - pos < 5 {
                return Err(DecodeError::UnexpectedEof);
            }
            let size = read_u32_le(d, pos);
            let flag = d[pos + 4];
            if flag == 0 {
                if size as usize > n - pos - 5 {
                    return Err(DecodeError::UnexpectedEof);
                }
                pos = pos + 5 + size as usize;
            } else if flag == 1 {
                match self.read_body(pos + 5) {
                    Ok((res, next)) => {
                        self.pos = next;
                        return Ok(Some(res));
                    },
                    Err(e) => {
                        return Err(e);
                    },
                }
            } else {
                return Err(DecodeError::UnexpectedBlockFlag(flag));
            }
        }
    }

    /// Every remaining live resource, in order; on an error, the first one.
    pub fn read_all(&mut self) -> (r: Result<Vec<Resource>, DecodeError>)
        ensures
            match r {
                Ok(v) => decode_all(
                    old(self).input(),
                    old(self).position(),
                    old(self).decrypts(),
                    old(self).skips_checksum(),
                ) == Ok::<Seq<ResourceView>, DecodeError>(views(v@)),
                Err(e) => decode_all(
                    old(self).input(),
                    old(self).position(),
                    old(self).decrypts(),
                    old(self).skips_checksum(),
                ) == Err::<Seq<ResourceView>, DecodeError>(e),
            },
    {
        let mut out: Vec<Resource> = Vec::new();
        let ghost d = self.input();
        let ghost start = self.position();
        let ghost dec = self.decrypts();
        let ghost skip = self.skips_checksum();
        proof {
            use_type_invariant(&*self);
            assert(views(out@) + Seq::empty() =~= Seq::<ResourceView>::empty());
        }
        loop
            invariant
                d == old(self).input(),
                start == old(self).position(),
                dec == old(self).decrypts(),
                skip == old(self).skips_checksum(),
                self.input() == d,
                self.decrypts() == dec,
                self.skips_checksum() == skip,
                0 <= self.position() <= d.len(),
                decode_all(d, start, dec, skip) == match decode_all(d, self.position(), dec, skip) {
                    Ok(rest) => Ok(views(out@) + rest),
                    Err(e) => Err::<Seq<ResourceView>, DecodeError>(e),
                },
            decreases d.len() - self.position(),
        {
            let ghost pos = self.position();
            proof {
                lemma_decode_advances(d, pos, dec, skip);
            }
            match self.read_next() {
                Ok(Some(res)) => {
                    proof {
                        use_type_invariant(&*self);
                        let rest = decode_all(d, self.position(), dec, skip);
                        assert(views(out@.push(res)) =~= views(out@) + seq![res@]);
                        if let Ok(tail) = rest {
                            assert(views(out@) + (seq![res@] + tail) =~= views(out@.push(res))
                                + tail);
                        }
                    }
                    out.push(res);
                },
                Ok(None) => {
                    proof {
                        assert(decode_from(d, pos, dec, skip) == Ok::<
                            Option<(ResourceView, int)>,
                            DecodeError,
                        >(None));
                        assert(decode_all(d, pos, dec, skip) == Ok::<Seq<ResourceView>, DecodeError>(
                            Seq::empty(),
                        ));
                        assert(views(out@) + Seq::empty() =~= views(out@));
                    }
                    return Ok(out);
                },
                Err(e) => {
                    proof {
                        assert(decode_from(d, pos, dec, skip) == Err::<
                            Option<(ResourceView, int)>,
                            DecodeError,
                        >(e));
                        assert(decode_all(d, pos, dec, skip) == Err::<Seq<ResourceView>, DecodeError>(
                            e,
                        ));
                    }
                    return Err(e);
                },
            }
        }
    }

    /// Decodes the live block body that starts at `b`.
    fn read_body(&self, b: usize) -> (r: Result<(Resource, usize), DecodeError>)
        requires
            b <= self.input().len(),
        ensures
            body_view(r) == decode_body(self.input(), b as int, self.decrypts(), self.skips_checksum()),
            r is Ok ==> r->Ok_0.1 <= self.input().len(),
    {
        let d = self.reader;
        let n = d.len();
        if n - b < 17 {
            return Err(DecodeError::UnexpectedEof);
        }
        let mut flags = d[b];
        let mut crc_field = slice_to_vec(slice_subrange(d, b + 1, b + 5));
        let modified_time = read_u32_le(d, b + 5);
        let created_time = read_u32_le(d, b + 9);
        let size = read_u32_le(d, b + 13);
        if size > MAX_DATA_SIZE {
            return Err(DecodeError::SizeLimitExceeded(size));
        }
        let z = match find_nul(d, b + 17) {
            Some(z) => z,
            None => {
                return Err(DecodeError::UnexpectedEof);
            },
        };
        let start = z + 1;
        if size as usize > n - start {
            return Err(DecodeError::UnexpectedEof);
        }
        let end = start + size as usize;
        let name = utf8_lossy(slice_subrange(d, b + 17, z));
        let mut data = slice_to_vec(slice_subrange(d, start, end));
        let ghost field = crc_field@;
        let crc;
        if self.decrypt && flags & ENCRYPTED_FLAG != 0 {
            proof {
                assert(field.len() == 4);
            }
            let key = read_u32_le(crc_field.as_slice(), 0);
            decrypt(CRC_KEY, &mut crc_field);
            crc = read_u32_le(crc_field.as_slice(), 0);
            decrypt(key, &mut data);
            flags = flags & 0x7f;
        } else {
            crc = read_u32_le(crc_field.as_slice(), 0);
        }
        if !self.skip_checksum {
            let mut check = Crc32::new();
            check.update(data.as_slice());
            let actual = check.as_u32();
            if actual != crc {
                return Err(DecodeError::ChecksumMismatch { expected: crc, actual });
            }
        }
        Ok((Resource { flags, modified_time, created_time, name, data }, end))
    }
}

/// The index of the first NUL byte of `d` at or after `from`.
fn find_nul(d: &[u8], from: usize) -> (r: Option<usize>)
    requires
        from <= d@.len(),
    ensures
        match r {
            Some(z) => nul_index(d@, from as int) == Some(z as int) && from <= z < d@.len(),
            None => nul_index(d@, from as int) is None,
        },
{
    let mut i = from;
    while i < d.len()
        invariant
            from <= i <= d@.len(),
            nul_index(d@, from as int) == nul_index(d@, i as int),
        decreases d@.len() - i,
    {
        if d[i] == 0 {
            return Some(i);
        }
        i += 1;
    }
    None
}

} // verus!
