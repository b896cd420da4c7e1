use datasketches::countmin::CountMinSketch;
use datasketches::error::ErrorKind;

#[test]
fn test_init_defaults() {
    let sketch = CountMinSketch::<i64>::new(3, 5);
    assert_eq!(sketch.num_hashes(), 3);
    assert_eq!(sketch.num_buckets(), 5);
    assert_eq!(sketch.seed(), 9001);
    assert!(sketch.is_empty());
    assert_eq!(sketch.total_weight(), 0);
    assert_eq!(sketch.estimate("missing"), 0);
}

#[test]
fn test_update_and_bounds() {
    let mut sketch = CountMinSketch::<i64>::with_seed(3, 128, 123);
    sketch.update("x");
    sketch.update_with_weight("x", 9);
    assert_eq!(sketch.estimate("x"), 10);
    assert_eq!(sketch.total_weight(), 10);
    let estimate = sketch.estimate("x");
    let upper = sketch.upper_bound("x");
    let lower = sketch.lower_bound("x");
    assert!(lower <= estimate);
    assert!(estimate <= upper);
}

#[test]
fn test_update_and_bounds_with_scaling() {
    let mut sketch = CountMinSketch::<u64>::with_seed(3, 128, 123);
    sketch.update_with_weight("x", 10);

    let estimate = sketch.estimate("x");
    let upper = sketch.upper_bound("x");
    let lower = sketch.lower_bound("x");
    assert_eq!(estimate, 10);
    assert!(lower <= estimate);
    assert!(estimate <= upper);

    // relative error e / w
    let eps = std::f64::consts::E / 128.0;

    sketch.halve();
    let estimate = sketch.estimate("x");
    let upper = sketch.upper_bound("x");
    let lower = sketch.lower_bound("x");
    assert_eq!(sketch.total_weight(), 5);
    assert_eq!(estimate, 5);
    assert!(lower <= estimate);
    assert!(estimate <= upper);
    assert_eq!(
        upper,
        estimate + (eps * sketch.total_weight() as f64) as u64
    );

    // decay by 0.5
    sketch.decay(1, 2);
    let estimate = sketch.estimate("x");
    let upper = sketch.upper_bound("x");
    let lower = sketch.lower_bound("x");
    assert_eq!(sketch.total_weight(), 2);
    assert_eq!(estimate, 2);
    assert!(lower <= estimate);
    assert!(estimate <= upper);
    assert_eq!(
        upper,
        estimate + (eps * sketch.total_weight() as f64) as u64
    );
}

#[test]
fn test_negative_weights() {
    let mut sketch = CountMinSketch::<i64>::with_seed(2, 32, 123);
    sketch.update_with_weight("y", -1);
    assert_eq!(sketch.total_weight(), 1);
    assert_eq!(sketch.estimate("y"), -1);
    sketch.update_with_weight("x", 2);
    assert_eq!(sketch.total_weight(), 3);
}

#[test]
fn test_halve() {
    // e / 0.01 rounded up, and ln(1 / (1 - 0.9)) rounded up
    let buckets = 272u32;
    let hashes = 3u8;
    let mut sketch = CountMinSketch::<u64>::new(hashes, buckets);

    for i in 0..1000usize {
        for _ in 0..i {
            sketch.update(i as u64);
        }
    }

    for i in 0..1000usize {
        assert!(sketch.estimate(i as u64) >= i as u64);
    }

    sketch.halve();

    for i in 0..1000usize {
        assert!(sketch.estimate(i as u64) >= (i as u64) / 2);
    }
}

#[test]
fn test_decay() {
    // e / 0.01 rounded up, and ln(1 / (1 - 0.9)) rounded up
    let buckets = 272u32;
    let hashes = 3u8;
    let mut sketch = CountMinSketch::<u64>::new(hashes, buckets);

    for i in 0..1000usize {
        for _ in 0..i {
            sketch.update(i as u64);
        }
    }

    for i in 0..1000usize {
        assert!(sketch.estimate(i as u64) >= i as u64);
    }

    const FACTOR: f64 = 0.5;
    sketch.decay(1, 2);

    for i in 0..1000usize {
        let expected = ((i as f64) * FACTOR).floor() as u64;
        assert!(sketch.estimate(i as u64) >= expected);
    }
}

#[test]
fn test_merge() {
    let mut left = CountMinSketch::<i64>::new(3, 64);
    let mut right = CountMinSketch::<i64>::new(3, 64);
    for _ in 0..10 {
        left.update("a");
    }
    for _ in 0..4 {
        right.update("a");
        right.update("b");
    }
    left.merge(&right).unwrap();
    assert_eq!(left.total_weight(), 18);
    assert!(left.estimate("a") >= 14);
    assert!(left.estimate("b") >= 4);
}

#[test]
fn test_serialize_deserialize_empty() {
    let sketch = CountMinSketch::<i64>::with_seed(2, 5, 123);
    let bytes = sketch.serialize();
    let decoded = CountMinSketch::<i64>::deserialize_with_seed(&bytes, 123).unwrap();
    assert!(decoded.is_empty());
    assert_eq!(decoded.num_hashes(), 2);
    assert_eq!(decoded.num_buckets(), 5);
    assert_eq!(decoded.seed(), 123);
}

#[test]
fn test_serialize_deserialize_non_empty() {
    let mut sketch = CountMinSketch::<i64>::with_seed(3, 32, 123);
    for i in 0..100i64 {
        sketch.update(i);
    }
    let bytes = sketch.serialize();
    let decoded = CountMinSketch::<i64>::deserialize_with_seed(&bytes, 123).unwrap();
    assert_eq!(decoded.total_weight(), sketch.total_weight());
    assert_eq!(decoded.estimate(42i64), sketch.estimate(42i64));
}

#[test]
fn test_serialize_deserialize_non_empty_u64() {
    let mut sketch = CountMinSketch::<u64>::with_seed(3, 32, 123);
    for i in 0..100u64 {
        sketch.update(i);
    }
    let bytes = sketch.serialize();
    let decoded = CountMinSketch::<u64>::deserialize_with_seed(&bytes, 123).unwrap();
    assert_eq!(decoded.total_weight(), sketch.total_weight());
    assert_eq!(decoded.estimate(42u64), sketch.estimate(42u64));
}

#[test]
fn test_increment_single_key_like_rust_count_min_sketch() {
    let mut sketch = CountMinSketch::<i64>::new(4, 32);
    for _ in 0..300 {
        sketch.update("key");
    }
    assert_eq!(sketch.estimate("key"), 300);
}

#[test]
fn test_increment_multi_like_rust_count_min_sketch() {
    let mut sketch = CountMinSketch::<i64>::new(6, 128);
    for i in 0..1_000_000u64 {
        sketch.update(i % 100);
    }
    for key in 0..100u64 {
        assert!(sketch.estimate(key) >= 9_000);
    }
}

#[test]
fn merge_rejects_other_sizes() {
    let mut left = CountMinSketch::<i64>::new(3, 64);
    let right = CountMinSketch::<i64>::new(2, 64);
    let err = left.merge(&right).err().unwrap();
    assert_eq!(err.kind(), ErrorKind::InvalidArgument);
}

#[test]
fn deserialize_rejects_other_seed_and_type() {
    let mut sketch = CountMinSketch::<i64>::with_seed(3, 32, 123);
    sketch.update(7i64);
    let bytes = sketch.serialize();
    let err = CountMinSketch::<i64>::deserialize_with_seed(&bytes, 124).err().unwrap();
    assert_eq!(err.kind(), ErrorKind::InvalidData);
    let err = CountMinSketch::<u64>::deserialize_with_seed(&bytes, 123).err().unwrap();
    assert_eq!(err.kind(), ErrorKind::InvalidData);
    let err = CountMinSketch::<i64>::deserialize_with_seed(&bytes[..10], 123).err().unwrap();
    assert_eq!(err.kind(), ErrorKind::InsufficientData);
}

#[test]
fn estimate_never_below_true_count() {
    let mut sketch = CountMinSketch::<u32>::with_seed(6, 128, 1);
    for k in 0..1000u64 {
        sketch.update_with_weight(k, (k * 10 + 3) as u32);
    }
    let total = sketch.total_weight() as f64;
    let eps = std::f64::consts::E / 128.0;
    for k in 0..1000u64 {
        let truth = (k * 10 + 3) as f64;
        let est = sketch.estimate(k) as f64;
        assert!(est >= truth);
        assert!(est >= truth - eps * total);
        assert!(sketch.lower_bound(k) <= sketch.estimate(k));
        assert!(sketch.estimate(k) <= sketch.upper_bound(k));
    }
}

#[test]
fn bounds_use_e_over_w() {
    let mut sketch = CountMinSketch::<i32>::with_seed(1, 3, 5);
    sketch.update_with_weight("a", 100);
    // e * 100 / 3 = 90.6..
    assert_eq!(sketch.upper_bound("a"), 100 + 90);
    assert_eq!(sketch.lower_bound("a"), 100 - 90);
}

#[test]
fn small_counters_saturate_bounds() {
    let mut sketch = CountMinSketch::<u8>::with_seed(1, 3, 5);
    sketch.update_with_weight("a", 200);
    assert_eq!(sketch.upper_bound("a"), 255);
    assert_eq!(sketch.lower_bound("a"), 200 - 181);
}
