use datasketches::cpc::pair_table::PairTable;

#[test]
fn insert_and_delete() {
    let mut table = PairTable::new(2, 16);
    assert!(table.maybe_insert(5));
    assert!(!table.maybe_insert(5));
    for i in 0..100u32 {
        table.maybe_insert(i * 97 % 65536);
    }
    let mut items = table.unwrapping_get_items();
    items.sort();
    let mut expected: Vec<u32> = (0..100u32).map(|i| i * 97 % 65536).collect();
    expected.push(5);
    expected.sort();
    expected.dedup();
    assert_eq!(items, expected);
    for i in 0..100u32 {
        assert!(table.maybe_delete(i * 97 % 65536));
    }
    assert!(table.maybe_delete(5) || expected.len() == 100);
    assert!(!table.maybe_delete(5));
    assert!(table.unwrapping_get_items().is_empty());
    assert!(table.slots().len() >= 4);
}

#[test]
fn from_slots_and_clear() {
    let items = vec![3u32, 70000, 12, 999_999];
    let mut table = PairTable::from_slots(14, 4, items.clone());
    let mut got = table.unwrapping_get_items();
    got.sort();
    let mut want = items.clone();
    want.sort();
    assert_eq!(got, want);
    table.clear();
    assert!(table.unwrapping_get_items().is_empty());
    assert!(table.slots().iter().all(|&s| s == u32::MAX));
}

#[test]
fn wrapped_items_go_last() {
    let mut table = PairTable::new(2, 8);
    // 0xff and 0xfe share the last home slot; one of them wraps to slot 0
    table.maybe_insert(0xff);
    table.maybe_insert(0xfe);
    table.maybe_insert(0x01);
    let items = table.unwrapping_get_items();
    assert_eq!(items.len(), 3);
    assert_eq!(items[0], 0x01);
}

use datasketches::cpc::wrapper::CpcWrapper;
use datasketches::error::ErrorKind;

#[test]
fn cpc_header_is_read() {
    // compressed, has HIP and a window
    let flags = (1u8 << 1) | (1u8 << 2) | (1u8 << 4);
    let mut bytes = vec![0u8; 40];
    bytes[0] = 3 + 4 + 1;
    bytes[1] = 1;
    bytes[2] = 16;
    bytes[3] = 11;
    bytes[5] = flags;
    bytes[8..12].copy_from_slice(&500u32.to_le_bytes());
    bytes[24..32].copy_from_slice(&123.5f64.to_bits().to_le_bytes());
    let w = CpcWrapper::new(&bytes).unwrap();
    assert_eq!(w.lg_k(), 11);
    assert_eq!(w.num_coupons(), 500);
    assert!(!w.merge_flag());
    assert_eq!(f64::from_bits(w.hip_est_accum_bits()), 123.5);
    assert!(!w.is_empty());
    bytes[0] = 2;
    assert_eq!(CpcWrapper::new(&bytes).err().unwrap().kind(), ErrorKind::InvalidData);
    assert_eq!(CpcWrapper::new(&bytes[..20]).err().unwrap().kind(), ErrorKind::InsufficientData);
}
