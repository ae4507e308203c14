use shoeset::buffer::Buffer;
use shoeset::error::ErrorKind;
use shoeset::read_utils::{
    encode_dyn_uint64, read_all_or_bits_new, read_bits_new, read_dyn_uint64, read_dyn_uint64_new,
    read_uint32, read_uint32_new, read_uint64_new,
};

#[test]
fn read_uint32_zero() {
    let data = vec![0, 0, 0, 0];
    let mut buff = Buffer::new(&data);
    let result = read_uint32_new(&mut buff).unwrap();
    assert_eq!(result, 0);
}

#[test]
fn read_uint32_257() {
    let data = vec![1, 1, 0, 0];
    let mut buff = Buffer::new(&data);
    let result = read_uint32_new(&mut buff).unwrap();
    assert_eq!(result, 257);
}

#[test]
fn read_uint32_4096() {
    let data = vec![0, 16, 0, 0];
    let mut buff = Buffer::new(&data);
    let result = read_uint32_new(&mut buff).unwrap();
    assert_eq!(result, 4096);
}

#[test]
fn read_two_numbers() {
    let data = vec![0, 16, 0, 0, 0, 8, 0, 0];
    let mut buff = Buffer::new(&data);
    let result1 = read_uint32_new(&mut buff).unwrap();
    let result2 = read_uint32_new(&mut buff).unwrap();
    assert_eq!(result1, 4096);
    assert_eq!(result2, 2048);
}

#[test]
fn read_uint64_zero() {
    let data = vec![0, 0, 0, 0, 0, 0, 0, 0];
    let mut buff = Buffer::new(&data);
    let result = read_uint64_new(&mut buff).unwrap();
    assert_eq!(result, 0);
}

#[test]
fn read_uint64_257() {
    let data = vec![1, 2, 3, 4, 200, 201, 202, 203];
    let mut buff = Buffer::new(&data);
    let result = read_uint64_new(&mut buff).unwrap();
    assert_eq!(result, 14684771395892871681);
}

#[test]
fn read_uint64_4096() {
    let data = vec![0, 16, 0, 0, 0, 0, 0, 0];
    let mut buff = Buffer::new(&data);
    let result = read_uint64_new(&mut buff).unwrap();
    assert_eq!(result, 4096);
}

#[test]
fn read_real_uint64_zero() {
    let data = vec![0];
    let mut buff = Buffer::new(&data);
    let result = read_dyn_uint64_new(&mut buff).unwrap();
    assert_eq!(result, 0);
}

#[test]
fn read_real_uint64_2199140894112() {
    let data = vec![250, 160, 5, 3, 7, 0, 0, 1, 3];
    let mut buff = Buffer::new(&data);
    let result = read_dyn_uint64_new(&mut buff).unwrap();
    assert_eq!(result, 2199140894112);
}

#[test]
fn all_bits_true() {
    let data = vec![1, 0];
    let mut buff = Buffer::new(&data);
    let bitset = read_all_or_bits_new(&mut buff, 3).unwrap();
    assert!(bitset.contains(0), "All bits should be true");
    assert!(bitset.contains(1), "All bits should be true");
    assert!(bitset.contains(2), "All bits should be true");
}

#[test]
fn read_bits() {
    let data = vec![0, 128];
    let mut buff = Buffer::new(&data);
    let bitset = read_all_or_bits_new(&mut buff, 4).unwrap();
    assert_eq!(bitset.contains(0), true);
    assert_eq!(bitset.contains(1), false);
    assert_eq!(bitset.contains(2), false);
    assert_eq!(bitset.contains(3), false);
    assert_eq!(bitset.count(), 1);
}

#[test]
fn dyn_uint64_round_trips() {
    let samples: Vec<u64> = vec![
        0,
        1,
        0x7f,
        0x80,
        0x3fff,
        0x4000,
        0x1f_ffff,
        0x20_0000,
        0xfff_ffff,
        0x1000_0000,
        0x7_ffff_ffff,
        0x8_0000_0000,
        0x3ff_ffff_ffff,
        0x400_0000_0000,
        0x1_ffff_ffff_ffff,
        0x2_0000_0000_0000,
        0xff_ffff_ffff_ffff,
        0x100_0000_0000_0000,
        2199140894112,
        u64::MAX,
    ];
    for n in samples {
        let encoded = encode_dyn_uint64(n);
        let mut buff = Buffer::new(&encoded);
        let decoded = read_dyn_uint64(&mut buff).unwrap();
        assert_eq!(decoded, n);
        assert_eq!(buff.debug_get_pos(), encoded.len());
    }
}

#[test]
fn encode_dyn_uint64_shapes() {
    assert_eq!(encode_dyn_uint64(0), vec![0x00]);
    assert_eq!(encode_dyn_uint64(0x7f), vec![0x7f]);
    assert_eq!(encode_dyn_uint64(0x80), vec![0x80, 0x80]);
    assert_eq!(encode_dyn_uint64(0x3fff), vec![0xbf, 0xff]);
    assert_eq!(
        encode_dyn_uint64(u64::MAX),
        vec![0xff, 0xff, 0xff, 0xff, 0xff, 0xff, 0xff, 0xff, 0xff]
    );
}

#[test]
fn read_bits_consumes_whole_bytes() {
    // Twelve bits then three bits: ceil(12/8) + ceil(3/8) = 2 + 1 bytes.
    let data = vec![0xff, 0x0f, 0x80, 0xaa];
    let mut buff = Buffer::new(&data);
    let first = read_bits_new(&mut buff, 12).unwrap();
    assert_eq!(buff.debug_get_pos(), 2);
    let second = read_bits_new(&mut buff, 3).unwrap();
    assert_eq!(buff.debug_get_pos(), 3);
    assert!(first.contains(0) && first.contains(7));
    assert!(!first.contains(8) && !first.contains(11));
    assert!(second.contains(0) && !second.contains(1) && !second.contains(2));
}

#[test]
fn read_uint32_truncated() {
    let data = vec![1, 2];
    let mut buff = Buffer::new(&data);
    let err = read_uint32(&mut buff).unwrap_err();
    assert_eq!(err.kind, ErrorKind::Truncated);
}
