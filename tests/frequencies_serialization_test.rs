use datasketches::error::ErrorKind;
use datasketches::frequencies::ErrorType;
use datasketches::frequencies::FrequentItemsSketch;

#[test]
fn test_longs_round_trip() {
    let mut sketch: FrequentItemsSketch<i64> = FrequentItemsSketch::new(32);
    for i in 1..=100 {
        sketch.update_with_count(i, i as u64);
    }
    let bytes = sketch.serialize();
    let restored = FrequentItemsSketch::<i64>::deserialize(&bytes).unwrap();
    assert_eq!(restored.total_weight(), sketch.total_weight());
    assert_eq!(restored.estimate(&42), sketch.estimate(&42));
    assert_eq!(restored.maximum_error(), sketch.maximum_error());
}

#[test]
fn test_items_round_trip() {
    let mut sketch = FrequentItemsSketch::new(32);
    sketch.update_with_count("alpha".to_string(), 3);
    sketch.update_with_count("beta".to_string(), 5);
    sketch.update_with_count("gamma".to_string(), 7);

    let bytes = sketch.serialize();
    let restored = FrequentItemsSketch::<String>::deserialize(&bytes).unwrap();
    assert_eq!(restored.total_weight(), sketch.total_weight());
    assert_eq!(restored.estimate(&"beta".to_string()), 5);
    assert_eq!(restored.maximum_error(), sketch.maximum_error());
}

#[test]
fn heavy_hitters() {
    let mut sketch = FrequentItemsSketch::<i64>::new(64);
    sketch.update_with_count(1, 3);
    sketch.update(2);
    let rows = sketch.frequent_items(ErrorType::NoFalseNegatives);
    assert!(rows.iter().any(|row| *row.item() == 1));
    assert!(sketch.estimate(&1) >= 3);
    assert!(sketch.lower_bound(&1) <= 3);
    assert!(3 <= sketch.upper_bound(&1));
    assert_eq!(rows[0].estimate(), 3);
}

#[test]
fn utf8_strings_round_trip() {
    let words = ["абвгд", "еёжзи", "йклмн", "опрст", "уфхцч", "шщъыь", "эюя"];
    let mut sketch = FrequentItemsSketch::<String>::new(64);
    for (i, w) in words.iter().enumerate() {
        sketch.update_with_count(w.to_string(), (i + 1) as u64);
    }
    let bytes = sketch.serialize();
    let restored = FrequentItemsSketch::<String>::deserialize(&bytes).unwrap();
    for (i, w) in words.iter().enumerate() {
        assert_eq!(restored.estimate(&w.to_string()), (i + 1) as u64);
    }
    assert_eq!(restored.maximum_error(), 0);
    assert_eq!(restored.total_weight(), 28);
}

#[test]
fn bounds_hold_after_purges() {
    let mut sketch = FrequentItemsSketch::<i64>::new(8);
    let mut truth = vec![0u64; 50];
    for round in 0..20u64 {
        for item in 0..50i64 {
            let count = (item as u64 % 7) + round % 3 + 1;
            sketch.update_with_count(item, count);
            truth[item as usize] += count;
        }
    }
    assert!(sketch.maximum_error() > 0);
    assert!(sketch.num_active_items() <= sketch.current_map_capacity());
    for item in 0..50i64 {
        assert!(sketch.lower_bound(&item) <= truth[item as usize]);
        assert!(truth[item as usize] <= sketch.upper_bound(&item));
        assert!(sketch.upper_bound(&item) - sketch.lower_bound(&item) <= sketch.maximum_error());
    }
}

#[test]
fn reset_returns_to_new_state() {
    let mut sketch = FrequentItemsSketch::<i64>::new(16);
    for i in 0..100i64 {
        sketch.update_with_count(i, 5);
    }
    sketch.reset();
    assert!(sketch.is_empty());
    assert_eq!(sketch.total_weight(), 0);
    assert_eq!(sketch.maximum_error(), 0);
    assert_eq!(sketch.lg_cur_map_size(), 3);
    assert_eq!(sketch.lg_max_map_size(), 4);
    assert_eq!(sketch.estimate(&3), 0);
}

#[test]
fn merge_adds_counts_and_weights() {
    let mut a = FrequentItemsSketch::<i64>::new(64);
    let mut b = FrequentItemsSketch::<i64>::new(64);
    a.update_with_count(1, 4);
    b.update_with_count(1, 6);
    b.update_with_count(2, 1);
    a.merge(&b);
    assert_eq!(a.estimate(&1), 10);
    assert_eq!(a.estimate(&2), 1);
    assert_eq!(a.total_weight(), 11);
}

#[test]
fn threshold_queries_filter_and_sort() {
    let mut sketch = FrequentItemsSketch::<i64>::new(64);
    sketch.update_with_count(1, 5);
    sketch.update_with_count(2, 50);
    sketch.update_with_count(3, 20);
    let rows = sketch.frequent_items_with_threshold(ErrorType::NoFalsePositives, 10);
    let items: Vec<i64> = rows.iter().map(|r| *r.item()).collect();
    assert_eq!(items, vec![2, 3]);
    assert_eq!(rows[0].lower_bound(), 50);
    assert_eq!(rows[0].upper_bound(), 50);
}

#[test]
fn deserialize_rejects_bad_images() {
    let err = FrequentItemsSketch::<i64>::deserialize(&[1, 1, 10]).err().unwrap();
    assert_eq!(err.kind(), ErrorKind::InsufficientData);
    let sketch = FrequentItemsSketch::<i64>::new(32);
    let mut bytes = sketch.serialize();
    assert_eq!(bytes.len(), 8);
    bytes[2] = 11;
    let err = FrequentItemsSketch::<i64>::deserialize(&bytes).err().unwrap();
    assert_eq!(err.kind(), ErrorKind::InvalidData);
    let mut s = FrequentItemsSketch::<String>::new(32);
    s.update("ok".to_string());
    let mut bytes = s.serialize();
    let n = bytes.len();
    bytes[n - 1] = 0xff;
    let err = FrequentItemsSketch::<String>::deserialize(&bytes).err().unwrap();
    assert_eq!(err.kind(), ErrorKind::InvalidData);
}

#[test]
fn merge_adds_weight_and_offset_of_a_peer_without_items() {
    let mut image = vec![0u8; 32];
    image[0] = 4;
    image[1] = 1;
    image[2] = 10;
    image[3] = 5;
    image[4] = 3;
    image[16..24].copy_from_slice(&5u64.to_le_bytes());
    image[24..32].copy_from_slice(&3u64.to_le_bytes());
    let peer = FrequentItemsSketch::<i64>::deserialize(&image).unwrap();
    assert!(peer.is_empty());
    let mut a = FrequentItemsSketch::<i64>::new(32);
    a.update_with_count(7, 2);
    a.merge(&peer);
    assert_eq!(a.total_weight(), 7);
    assert_eq!(a.maximum_error(), 3);
    assert_eq!(a.estimate(&7), 5);
}
