use datasketches::hll::pack_coupon;
use datasketches::hll::Array8;

#[test]
fn test_array8_basic() {
    let arr = Array8::new(10);
    assert_eq!(arr.get(0), 0);
    assert_eq!(arr.get(100), 0);
    assert_eq!(arr.get(1023), 0);
}

#[test]
fn test_get_set() {
    let mut arr = Array8::new(4);
    for slot in 0..16 {
        arr.put(slot, (slot * 17) as u8);
    }
    for slot in 0..16 {
        assert_eq!(arr.get(slot), (slot * 17) as u8);
    }
    arr.put(0, 0);
    arr.put(1, 127);
    arr.put(2, 255);
    assert_eq!(arr.get(0), 0);
    assert_eq!(arr.get(1), 127);
    assert_eq!(arr.get(2), 255);
}

#[test]
fn test_update_basic() {
    let mut arr = Array8::new(4);
    arr.update(pack_coupon(0, 5));
    assert_eq!(arr.get(0), 5);
    arr.update(pack_coupon(0, 3));
    assert_eq!(arr.get(0), 5);
    arr.update(pack_coupon(0, 42));
    assert_eq!(arr.get(0), 42);
    arr.update(pack_coupon(1, 63));
    assert_eq!(arr.get(1), 63);
}

#[test]
fn test_full_value_range() {
    let mut arr = Array8::new(8);
    for val in 0..=255u8 {
        arr.put(val as u32, val);
    }
    for val in 0..=255u8 {
        assert_eq!(arr.get(val as u32), val);
    }
}

#[test]
fn test_high_value_direct() {
    let mut arr = Array8::new(6);
    let test_values = [16, 32, 64, 128, 200, 255];
    for (slot, &value) in test_values.iter().enumerate() {
        arr.put(slot as u32, value);
        assert_eq!(arr.get(slot as u32), value);
    }
    for (slot, &value) in test_values.iter().enumerate() {
        assert_eq!(arr.get(slot as u32), value);
    }
}

#[test]
fn update_reports_promotions_and_zero_count() {
    let mut arr = Array8::new(4);
    assert_eq!(arr.num_zeros(), 16);
    assert_eq!(arr.update(pack_coupon(3, 7)), Some((0, 7)));
    assert_eq!(arr.num_zeros(), 15);
    assert_eq!(arr.update(pack_coupon(3, 2)), None);
    assert_eq!(arr.update(pack_coupon(19, 9)), Some((7, 9)));
    assert_eq!(arr.num_zeros(), 15);
}

#[test]
fn serialize_round_trip_keeps_registers_and_hip() {
    let mut arr = Array8::new(5);
    for i in 0..32u32 {
        arr.update(pack_coupon(i * 7, (i % 13) as u8));
    }
    let bytes = arr.serialize();
    assert_eq!(bytes.len(), 40 + 32);
    assert_eq!(bytes[7], 10);
    assert_eq!(u64::from_le_bytes(bytes[16..24].try_into().unwrap()), (1023u64 + 5) << 52);
    assert_eq!(f64::from_bits((1023u64 + 5) << 52), 32.0);
    let back = Array8::deserialize(&bytes, 5, false, false).unwrap();
    for i in 0..32u32 {
        assert_eq!(back.get(i), arr.get(i));
    }
    assert_eq!(back.num_zeros(), arr.num_zeros());
    assert_eq!(back.hip(), arr.hip());
    assert!(Array8::deserialize(&bytes[..50], 5, false, false).is_err());
}
