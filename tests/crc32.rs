use byond_rsc::baseline::{slice_by_1, slice_by_16, State};
use byond_rsc::combine::{combine, multmodp, x8nmodp};
use byond_rsc::tables::Tables;
use byond_rsc::{golden, Crc32, DEFAULT_CRC32};
use std::hash::Hasher;

const CHECK: u32 = 0xa5fd3138;

fn sample(n: usize) -> Vec<u8> {
    (0..n).map(|i| (i * 7 + i / 5 + 3) as u8).collect()
}

#[test]
fn golden_is_valid() {
    assert_eq!(CHECK, golden(DEFAULT_CRC32, b"123456789"));
}

#[test]
fn check_combine() {
    let mut crc_a = Crc32::new();
    let mut crc_b = Crc32::new();
    crc_a.update(b"12345");
    crc_b.update(b"6789");
    assert_eq!(CHECK, Crc32::combine(&crc_a, &crc_b));
}

#[test]
fn empty_input_keeps_seed() {
    let crc = Crc32::new();
    assert_eq!(crc.as_u32(), 0xffff_ffff);
    assert!(crc.is_empty());
    assert_eq!(golden(DEFAULT_CRC32, b""), 0xffff_ffff);
}

#[test]
fn check_value_through_hasher() {
    let mut crc = Crc32::new();
    crc.update(b"123456789");
    assert_eq!(crc.as_u32(), CHECK);
    assert_eq!(crc.len(), 9);
    assert!(crc == CHECK);
    let mut h = Crc32::default();
    h.write(b"123456789");
    assert_eq!(h.finish(), CHECK as u64);
}

#[test]
fn known_short_values() {
    assert_eq!(golden(0, b"a"), 0x3e8f);
    assert_eq!(golden(DEFAULT_CRC32, b"bar"), 0xa540_baeb);
}

#[test]
fn engines_agree_with_golden() {
    let tables = Tables::new();
    for n in [0usize, 1, 15, 16, 17, 31, 32, 255, 256, 257, 1000, 4099] {
        let data = sample(n);
        for seed in [0u32, 1, 0xffff_ffff, 0x1234_5678] {
            let expected = golden(seed, &data);
            assert_eq!(slice_by_16(&tables, seed, &data), expected);
            assert_eq!(slice_by_1(&tables, seed, &data), expected);
            let mut state = State::new(seed);
            state.update(&data);
            assert_eq!(state.as_u32(), expected);
        }
    }
}

#[test]
fn split_updates_agree() {
    let data = sample(777);
    let mut whole = Crc32::new();
    whole.update(&data);
    for split in [0usize, 1, 16, 100, 500, 777] {
        let mut parts = Crc32::new();
        parts.update(&data[..split]);
        parts.update(&data[split..]);
        assert_eq!(parts.as_u32(), whole.as_u32());
        assert_eq!(parts.len(), 777);
    }
}

#[test]
fn combine_matches_concatenation() {
    let data = sample(600);
    let mut whole = Crc32::new();
    whole.update(&data);
    for split in [0usize, 1, 9, 300, 599, 600] {
        let mut a = Crc32::new();
        a.update(&data[..split]);
        let mut b = Crc32::new();
        b.update(&data[split..]);
        let c = Crc32::combine(&a, &b);
        assert_eq!(c.as_u32(), whole.as_u32());
        assert_eq!(c.len(), 600);
    }
}

#[test]
fn combine_edge_cases() {
    assert_eq!(combine(0x1234_5678, 0xffff_ffff, 0), 0x1234_5678);
    let mut b = Crc32::new();
    b.update(b"6789");
    assert_eq!(combine(0xffff_ffff, b.as_u32(), 4), b.as_u32());
}

#[test]
fn polynomial_products() {
    assert_eq!(multmodp(1, 0xdead_beef), 0xdead_beef);
    assert_eq!(multmodp(0, 0xdead_beef), 0);
    assert_eq!(multmodp(2, 0x8000_0000), 0xaf);
    assert_eq!(x8nmodp(0), 1);
    assert_eq!(x8nmodp(1), 0x100);
    assert_eq!(x8nmodp(2), 0x1_0000);
    assert_eq!(x8nmodp(4), 0xaf);
    assert_eq!(x8nmodp(8), 0x4455);
    assert_eq!(x8nmodp(16), 0x1010_1111);
}

#[test]
fn reset_restores_fresh_state() {
    let mut crc = Crc32::new_with_initial(0x1234, 10);
    crc.update(b"abc");
    assert_eq!(crc.len(), 13);
    crc.reset();
    assert_eq!(crc.as_u32(), Crc32::new().as_u32());
    assert_eq!(crc.len(), 0);
    assert!(crc == Crc32::new());
    assert_eq!(crc.finish(), 0xffff_ffff);
    let mut s = State::new(5);
    s.update(b"xyz");
    s.reset();
    assert_eq!(s.as_u32(), DEFAULT_CRC32);
}

#[test]
fn initial_state_is_kept() {
    let crc = Crc32::new_with_initial(0xabcd, 42);
    assert_eq!(crc.as_u32(), 0xabcd);
    assert_eq!(crc.len(), 42);
    assert!(!crc.is_empty());
    assert!(0xabcd_u32 == crc);
}
