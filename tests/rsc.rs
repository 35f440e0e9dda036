use byond_rsc::crypt::{decrypt, encrypt, hash};
use byond_rsc::{DecodeError, Decoder, Encoder, Resource};

fn foo_bar() -> Resource {
    Resource {
        flags: 4,
        modified_time: 5,
        created_time: 6,
        name: "foo".to_string(),
        data: b"bar".iter().cloned().collect(),
    }
}

fn encode_all(resources: &[Resource], encrypted: bool) -> Vec<u8> {
    let mut encoder = Encoder::new(vec![]);
    encoder.encrypt(encrypted);
    for r in resources {
        encoder.write(r).unwrap();
    }
    encoder.into_inner()
}

#[test]
fn encode_decode() {
    let resource = foo_bar();
    let buf = {
        let mut encoder = Encoder::new(vec![]);
        encoder.write(&resource).unwrap();
        encoder.write(&resource).unwrap();
        encoder.into_inner()
    };
    let mut decoder = Decoder::new(buf.as_slice());
    assert_eq!(decoder.read_next().unwrap().unwrap(), resource);
    assert_eq!(decoder.read_next().unwrap().unwrap(), resource);
    assert!(matches!(decoder.read_next(), Ok(None)));
}

#[test]
fn encode_decode_encrypted() {
    let resource = foo_bar();
    let buf = {
        let mut encoder = Encoder::new(vec![]);
        encoder.encrypt(true);
        encoder.write(&resource).unwrap();
        encoder.write(&resource).unwrap();
        encoder.into_inner()
    };
    let mut decoder = Decoder::new(buf.as_slice());
    assert_eq!(decoder.read_next().unwrap().unwrap(), resource);
    assert_eq!(decoder.read_next().unwrap().unwrap(), resource);
    assert!(matches!(decoder.read_next(), Ok(None)));
}

#[test]
fn encode_decode_skipped_resource() {
    let resource = foo_bar();
    let mut buf = {
        let mut encoder = Encoder::new(vec![]);
        encoder.write(&resource).unwrap();
        encoder.write(&resource).unwrap();
        encoder.into_inner()
    };
    buf[4] = 0; // Set the block flag of the first resource to 0.
    let mut decoder = Decoder::new(buf.as_slice());
    assert_eq!(decoder.read_next().unwrap().unwrap(), resource);
    assert!(matches!(decoder.read_next(), Ok(None)));
}

#[test]
fn exact_plain_layout() {
    let buf = encode_all(&[foo_bar()], false);
    let expected: Vec<u8> = vec![
        24, 0, 0, 0, 1, 4, 0xeb, 0xba, 0x40, 0xa5, 5, 0, 0, 0, 6, 0, 0, 0, 3, 0, 0, 0, b'f', b'o',
        b'o', 0, b'b', b'a', b'r',
    ];
    assert_eq!(buf, expected);
}

#[test]
fn encrypted_layout_marks_flags() {
    let plain = encode_all(&[foo_bar()], false);
    let buf = encode_all(&[foo_bar()], true);
    assert_eq!(buf.len(), plain.len());
    assert_eq!(buf[5], 4 | 0x80);
    assert_ne!(&buf[6..10], &plain[6..10]);
    assert_ne!(&buf[26..29], b"bar");
    let mut field = plain[6..10].to_vec();
    encrypt(0x45dd_0ba6, &mut field);
    assert_eq!(&buf[6..10], field.as_slice());
}

#[test]
fn encrypted_read_without_decryption() {
    let buf = encode_all(&[foo_bar()], true);
    let mut decoder = Decoder::new(buf.as_slice());
    decoder.decrypt(false);
    decoder.skip_checksum(true);
    let r = decoder.read_next().unwrap().unwrap();
    assert_eq!(r.flags, 4 | 0x80);
    assert_eq!(r.data, buf[26..29].to_vec());
}

#[test]
fn round_trip_many() {
    let resources = vec![
        foo_bar(),
        Resource {
            flags: 0x7f,
            modified_time: 0xffff_ffff,
            created_time: 0,
            name: "ünïcode/näme.dmi".to_string(),
            data: (0..1000u32).map(|i| (i * 31 % 251) as u8).collect(),
        },
        Resource::default(),
    ];
    for encrypted in [false, true] {
        let buf = encode_all(&resources, encrypted);
        let mut decoder = Decoder::new(buf.as_slice());
        for r in &resources {
            assert_eq!(&decoder.read_next().unwrap().unwrap(), r);
        }
        assert!(matches!(decoder.read_next(), Ok(None)));
    }
}

#[test]
fn lone_dead_block_is_end_of_stream() {
    let buf = [0u8, 0, 0, 0, 0];
    let mut decoder = Decoder::new(&buf);
    assert!(matches!(decoder.read_next(), Ok(None)));
    let empty: [u8; 0] = [];
    let mut decoder = Decoder::new(&empty);
    assert!(matches!(decoder.read_next(), Ok(None)));
}

#[test]
fn dead_block_of_junk_is_skipped() {
    let mut buf = vec![7u8, 0, 0, 0, 0, 1, 2, 3, 4, 5, 6, 7];
    buf.extend(encode_all(&[foo_bar()], true));
    let mut decoder = Decoder::new(buf.as_slice());
    assert_eq!(decoder.read_next().unwrap().unwrap(), foo_bar());
    assert!(matches!(decoder.read_next(), Ok(None)));
}

#[test]
fn unexpected_block_flag() {
    let mut buf = encode_all(&[foo_bar()], false);
    buf[4] = 2;
    let mut decoder = Decoder::new(buf.as_slice());
    assert_eq!(decoder.read_next(), Err(DecodeError::UnexpectedBlockFlag(2)));
}

#[test]
fn size_limit_exceeded() {
    let mut buf = encode_all(&[foo_bar()], false);
    buf[18..22].copy_from_slice(&0x8000_0000u32.to_le_bytes());
    let mut decoder = Decoder::new(buf.as_slice());
    assert_eq!(decoder.read_next(), Err(DecodeError::SizeLimitExceeded(0x8000_0000)));
}

#[test]
fn checksum_mismatch_unless_skipped() {
    let mut buf = encode_all(&[foo_bar()], false);
    buf[28] = b'z';
    let mut decoder = Decoder::new(buf.as_slice());
    assert_eq!(
        decoder.read_next(),
        Err(DecodeError::ChecksumMismatch { expected: 0xa540_baeb, actual: byond_rsc::golden(0xffff_ffff, b"baz") })
    );
    let mut decoder = Decoder::new(buf.as_slice());
    decoder.skip_checksum(true);
    let r = decoder.read_next().unwrap().unwrap();
    assert_eq!(r.data, b"baz".to_vec());
}

#[test]
fn truncated_streams() {
    let buf = encode_all(&[foo_bar()], false);
    for cut in [3usize, 5, 12, 21, 24, 25, 27] {
        let mut decoder = Decoder::new(&buf[..cut]);
        assert_eq!(decoder.read_next(), Err(DecodeError::UnexpectedEof), "cut at {}", cut);
    }
    let dead = [9u8, 0, 0, 0, 0, 1, 2];
    let mut decoder = Decoder::new(&dead);
    assert_eq!(decoder.read_next(), Err(DecodeError::UnexpectedEof));
}

#[test]
fn invalid_name_is_decoded_lossily() {
    let mut buf = vec![19u8, 0, 0, 0, 1, 0, 0xff, 0xff, 0xff, 0xff, 1, 0, 0, 0, 2, 0, 0, 0, 0, 0, 0, 0];
    buf.extend([b'a', 0xff, b'b', 0]);
    let mut decoder = Decoder::new(buf.as_slice());
    let r = decoder.read_next().unwrap().unwrap();
    assert_eq!(r.name, "a\u{fffd}b");
    assert_eq!(r.data, Vec::<u8>::new());
    assert_eq!(r.modified_time, 1);
    assert_eq!(r.created_time, 2);
}

#[test]
fn crypt_inverse_and_values() {
    assert_eq!(hash(0), 0x6b4e_d927);
    assert_eq!(hash(1), 0xb486_81b6);
    let mut b = vec![1u8, 2, 3];
    encrypt(0x45dd_0ba6, &mut b);
    assert_eq!(b, vec![167, 151, 118]);
    decrypt(0x45dd_0ba6, &mut b);
    assert_eq!(b, vec![1, 2, 3]);
    for key in [0u32, 7, 0xffff_ffff] {
        let plain: Vec<u8> = (0..300u32).map(|i| (i * 13) as u8).collect();
        let mut data = plain.clone();
        encrypt(key, &mut data);
        assert_ne!(data, plain);
        decrypt(key, &mut data);
        assert_eq!(data, plain);
    }
}

#[test]
fn bad_flag_after_dead_blocks() {
    let mut buf = vec![2u8, 0, 0, 0, 0, 9, 9, 0, 0, 0, 0, 0];
    buf.extend([1u8, 0, 0, 0, 7, 0]);
    let mut decoder = Decoder::new(buf.as_slice());
    assert_eq!(decoder.read_next(), Err(DecodeError::UnexpectedBlockFlag(7)));
}
