use datasketches::codec::ensure_preamble_longs_in;
use datasketches::codec::ensure_preamble_longs_in_range;
use datasketches::codec::ensure_serial_version_is;
use datasketches::codec::read_i64_le;
use datasketches::codec::read_u32_le;
use datasketches::codec::read_u64_le;
use datasketches::codec::write_u32_le;
use datasketches::codec::write_u64_le;
use datasketches::error::ErrorKind;
use datasketches::hash::murmur3_x64_128;
use datasketches::theta::compact::compute_seed_hash;

#[test]
fn murmur3_known_vectors() {
    assert_eq!(murmur3_x64_128(b"", 0), (0, 0));
    assert_eq!(
        murmur3_x64_128(b"hello", 0),
        (0xcbd8_a7b3_41bd_9b02, 0x5b1e_906a_48ae_1d19)
    );
    assert_eq!(
        murmur3_x64_128(b"The quick brown fox jumps over the lazy dog", 0),
        (0xe34b_bc7b_bc07_1b6c, 0x7a43_3ca9_c49a_9347)
    );
}

#[test]
fn seed_hash_of_default_seed() {
    let h = murmur3_x64_128(&9001u64.to_le_bytes(), 0).0;
    assert_eq!(compute_seed_hash(9001), (h & 0xffff) as u16);
    assert_ne!(compute_seed_hash(9001), compute_seed_hash(9002));
}

#[test]
fn little_endian_round_trip() {
    let mut bytes = vec![0u8; 16];
    write_u32_le(&mut bytes, 1, 0xdead_beef);
    assert_eq!(&bytes[1..5], &[0xef, 0xbe, 0xad, 0xde]);
    assert_eq!(read_u32_le(&bytes, 1), 0xdead_beef);
    write_u64_le(&mut bytes, 8, u64::MAX - 1);
    assert_eq!(read_u64_le(&bytes, 8), u64::MAX - 1);
    assert_eq!(read_i64_le(&bytes, 8), -2);
    assert_eq!(bytes[0], 0);
    assert_eq!(bytes[5], 0);
}

#[test]
fn preamble_checks() {
    assert!(ensure_serial_version_is(3, 3).is_ok());
    assert_eq!(ensure_serial_version_is(3, 4).err().unwrap().kind(), ErrorKind::InvalidData);
    assert!(ensure_preamble_longs_in(&[1, 2, 3], 2).is_ok());
    assert!(ensure_preamble_longs_in(&[1, 2, 3], 4).is_err());
    assert!(ensure_preamble_longs_in_range(1, 3, 3).is_ok());
    assert!(ensure_preamble_longs_in_range(1, 3, 0).is_err());
}
