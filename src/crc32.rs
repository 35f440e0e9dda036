//! The incremental CRC-32/BYOND hasher.
use crate::baseline::{State, DEFAULT_CRC32};
use crate::combine::combine_spec;
use crate::golden::crc_of;
use vstd::prelude::*;

verus! {

/// An in-progress CRC-32/BYOND computation: the register and the number of
/// bytes fed to it, which `combine` needs.
///
/// All updates go through the portable table engine.
#[derive(Clone, Debug)]
pub struct Crc32 {
    len: u64,
    state: State,
}

impl Crc32 {
    /// The checksum value: the register, with no final XOR.
    pub closed spec fn checksum(&self) -> u32 {
        self.state@
    }

    /// The number of bytes consumed since construction or reset, plus the
    /// length given at construction.
    pub closed spec fn count(&self) -> u64 {
        self.len
    }

    /// A fresh computation: register `0xFFFFFFFF`, nothing consumed.
    pub fn new() -> (c: Self)
        ensures
            c.checksum() == DEFAULT_CRC32,
            c.count() == 0,
    {
        Self::new_with_initial(DEFAULT_CRC32, 0)
    }

    /// A computation that resumes from checksum `crc`, reached after `len`
    /// bytes.
    pub fn new_with_initial(crc: u32, len: u64) -> (c: Self)
        ensures
            c.checksum() == crc,
            c.count() == len,
    {
        Crc32 { len, state: State::new(crc) }
    }

    /// The current checksum.
    pub fn as_u32(&self) -> (r: u32)
        ensures
            r == self.checksum(),
    {
        self.state.as_u32()
    }

    /// Whether no byte has been counted.
    pub fn is_empty(&self) -> (r: bool)
        ensures
            r == (self.count() == 0),
    {
        self.len == 0
    }

    /// The number of bytes counted.
    pub fn len(&self) -> (r: u64)
        ensures
            r == self.count(),
    {
        self.len
    }

    /// Starts over: register `0xFFFFFFFF`, nothing consumed.
    pub fn reset(&mut self)
        ensures
            final(self).checksum() == DEFAULT_CRC32,
            final(self).count() == 0,
    {
        self.len = 0;
        self.state.reset();
    }

    /// Feeds `bytes` and counts them (the count is kept modulo 2^64).
    pub fn update(&mut self, bytes: &[u8])
        ensures
            final(self).checksum() == crc_of(old(self).checksum(), bytes@),
            final(self).count() == (old(self).count() + bytes@.len()) % 0x1_0000_0000_0000_0000,
    {
        self.len = self.len.wrapping_add(bytes.len() as u64);
        self.state.update(bytes);
    }

    /// The computation over `a`'s bytes followed by `b`'s, where `b` was
    /// started from `0xFFFFFFFF`.
    pub fn combine(a: &Self, b: &Self) -> (c: Self)
        ensures
            c.checksum() == combine_spec(a.checksum(), b.checksum(), b.count() as nat),
            c.count() == (a.count() + b.count()) % 0x1_0000_0000_0000_0000,
    {
        let crc1 = a.as_u32();
        let crc2 = b.as_u32();
        Self::new_with_initial(crate::combine::combine(crc1, crc2, b.len), a.len.wrapping_add(b.len))
    }
}

impl Default for Crc32 {
    fn default() -> (c: Self)
        ensures
            c.checksum() == DEFAULT_CRC32,
            c.count() == 0,
    {
        Self::new()
    }
}

impl PartialEq for Crc32 {
    fn eq(&self, other: &Crc32) -> (r: bool) {
        self.len == other.len && self.state.as_u32() == other.state.as_u32()
    }
}

impl vstd::std_specs::cmp::PartialEqSpecImpl for Crc32 {
    open spec fn obeys_eq_spec() -> bool {
        true
    }

    open spec fn eq_spec(&self, other: &Crc32) -> bool {
        self.checksum() == other.checksum() && self.count() == other.count()
    }
}

impl Eq for Crc32 {

}

impl PartialEq<u32> for Crc32 {
    fn eq(&self, other: &u32) -> (r: bool) {
        self.as_u32() == *other
    }
}

impl vstd::std_specs::cmp::PartialEqSpecImpl<u32> for Crc32 {
    open spec fn obeys_eq_spec() -> bool {
        true
    }

    open spec fn eq_spec(&self, other: &u32) -> bool {
        self.checksum() == *other
    }
}

impl PartialEq<Crc32> for u32 {
    fn eq(&self, other: &Crc32) -> (r: bool) {
        *self == other.as_u32()
    }
}

impl vstd::std_specs::cmp::PartialEqSpecImpl<Crc32> for u32 {
    open spec fn obeys_eq_spec() -> bool {
        true
    }

    open spec fn eq_spec(&self, other: &Crc32) -> bool {
        *self == other.checksum()
    }
}

impl std::hash::Hasher for Crc32 {
    fn finish(&self) -> (r: u64)
        ensures
            r == self.checksum() as u64,
    {
        self.as_u32() as u64
    }

    fn write(&mut self, bytes: &[u8])
        ensures
            final(self).checksum() == crc_of(old(self).checksum(), bytes@),
            final(self).count() == (old(self).count() + bytes@.len()) % 0x1_0000_0000_0000_0000,
    {
        self.update(bytes);
    }
}

} // verus!
