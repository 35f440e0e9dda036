//! CRC-32/BYOND checksums and the RSC resource container format.
//!
//! The checksum is a non-reflected CRC over the polynomial `x^32 + 0xAF`,
//! with no final XOR. Every engine is proved equal to the bit-by-bit
//! definition in [`golden`], and [`combine`] is proved to merge the
//! checksums of adjacent ranges. The container codec is proved to decode
//! what it encodes.
pub mod baseline;
pub mod combine;
pub mod crc32;
pub mod crypt;
pub mod decode;
pub mod encode;
pub mod format;
pub mod golden;
pub mod poly;
pub mod roundtrip;
pub mod tables;

pub use baseline::DEFAULT_CRC32;
pub use crc32::Crc32;
pub use decode::Decoder;
pub use encode::Encoder;
pub use format::{DecodeError, EncodeError, Resource};
pub use golden::golden;
