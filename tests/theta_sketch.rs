use datasketches::theta::ThetaSketch;
use datasketches::ResizeFactor;

#[test]
fn exact_mode_keeps_every_hash() {
    let mut sketch = ThetaSketch::builder().lg_k(12).build();
    assert!(sketch.is_empty());
    for i in 0..2000u64 {
        sketch.update(i);
    }
    assert!(!sketch.is_empty());
    assert!(!sketch.is_estimation_mode());
    assert_eq!(sketch.num_retained(), 2000);
    assert_eq!(sketch.iter().len(), 2000);
    assert_eq!(sketch.lg_k(), 12);
}

#[test]
fn small_exact_mode() {
    let mut sketch = ThetaSketch::builder().lg_k(12).build();
    for i in 0..13u64 {
        sketch.update(i);
    }
    assert_eq!(sketch.num_retained(), 13);
    for i in 0..13u64 {
        sketch.update(i);
    }
    assert_eq!(sketch.num_retained(), 13);
}

#[test]
fn estimation_mode_keeps_k_smallest() {
    let mut sketch = ThetaSketch::builder().lg_k(5).build();
    for i in 0..5000u64 {
        sketch.update(i);
    }
    assert!(sketch.is_estimation_mode());
    assert_eq!(sketch.num_retained(), 32);
    let theta = sketch.theta64();
    for h in sketch.iter() {
        assert!(h > 0 && h < theta);
    }
    sketch.trim();
    assert_eq!(sketch.num_retained(), 32);
}

#[test]
fn every_resize_factor_reaches_the_same_set() {
    let mut reference: Option<Vec<u64>> = None;
    for rf in [ResizeFactor::X1, ResizeFactor::X2, ResizeFactor::X4, ResizeFactor::X8] {
        let mut sketch = ThetaSketch::builder().lg_k(6).resize_factor(rf).build();
        for i in 0..1000i64 {
            sketch.update(i);
        }
        let mut hashes = sketch.iter();
        hashes.sort();
        assert_eq!(hashes.len(), 64);
        match &reference {
            None => reference = Some(hashes),
            Some(r) => assert_eq!(r, &hashes),
        }
    }
}

#[test]
fn sampling_threshold_and_reset() {
    let half = 0x7fff_ffff_ffff_ffffu64 / 2;
    let mut sketch = ThetaSketch::builder().sampling_threshold(half).seed(7).build();
    for i in 0..1000u64 {
        sketch.update(i);
    }
    assert!(sketch.is_estimation_mode());
    assert!(sketch.num_retained() > 300 && sketch.num_retained() < 700);
    for h in sketch.iter() {
        assert!(h < half);
    }
    sketch.reset();
    assert!(sketch.is_empty());
    assert_eq!(sketch.num_retained(), 0);
    assert_eq!(sketch.theta64(), half);
}

#[test]
fn strings_and_integers_hash_differently() {
    let mut sketch = ThetaSketch::builder().build();
    sketch.update("a");
    sketch.update("a".to_string());
    sketch.update(1i64);
    assert_eq!(sketch.num_retained(), 2);
}

use datasketches::error::ErrorKind;
use datasketches::theta::CompactThetaSketch;

#[test]
fn theta_exact_mode_round_trip() {
    let mut sketch = ThetaSketch::builder().lg_k(12).build();
    for i in 0..2000u64 {
        sketch.update(i);
    }
    let compact = sketch.compact(true);
    assert!(compact.is_ordered());
    assert!(!compact.is_estimation_mode());
    assert_eq!(compact.num_retained(), 2000);
    let bytes = compact.serialize();
    assert_eq!(bytes[0], 2);
    let back = CompactThetaSketch::deserialize_with_seed(&bytes, 9001).unwrap();
    assert_eq!(back.entries(), compact.entries());
    assert_eq!(back.theta64(), compact.theta64());
    assert_eq!(back.seed_hash(), compact.seed_hash());
    assert!(back.is_ordered());
    assert!(!back.is_empty());
}

#[test]
fn theta_estimation_round_trip_carries_theta() {
    let mut sketch = ThetaSketch::builder().lg_k(5).build();
    for i in 0..5000u64 {
        sketch.update(i);
    }
    let compact = sketch.compact(true);
    assert!(compact.is_estimation_mode());
    let bytes = compact.serialize();
    assert_eq!(bytes[0], 3);
    assert_eq!(bytes.len(), 24 + 8 * 32);
    let back = CompactThetaSketch::deserialize_with_seed(&bytes, 9001).unwrap();
    assert_eq!(back.theta64(), sketch.theta64());
    assert_eq!(back.entries(), compact.entries());
    let entries = back.entries();
    for w in entries.windows(2) {
        assert!(w[0] < w[1]);
    }
}

#[test]
fn theta_empty_and_single_images() {
    let sketch = ThetaSketch::builder().sampling_threshold(1000).build();
    let compact = sketch.compact(false);
    assert!(compact.is_empty());
    assert_eq!(compact.theta64(), 0x7fff_ffff_ffff_ffff);
    let bytes = compact.serialize();
    assert_eq!(bytes.len(), 8);
    let back = CompactThetaSketch::deserialize_with_seed(&bytes, 1).unwrap();
    assert!(back.is_empty());

    let mut one = ThetaSketch::builder().build();
    one.update("x");
    let bytes = one.compact(false).serialize();
    assert_eq!(bytes[0], 1);
    assert_eq!(bytes.len(), 16);
    let back = CompactThetaSketch::deserialize_with_seed(&bytes, 9001).unwrap();
    assert_eq!(back.num_retained(), 1);
}

#[test]
fn theta_seed_hash_is_checked() {
    let mut sketch = ThetaSketch::builder().build();
    for i in 0..10u64 {
        sketch.update(i);
    }
    let bytes = sketch.compact(true).serialize();
    let err = CompactThetaSketch::deserialize_with_seed(&bytes, 9002).err().unwrap();
    assert_eq!(err.kind(), ErrorKind::InvalidData);
    let err = CompactThetaSketch::deserialize_with_seed(&bytes[..20], 9001).err().unwrap();
    assert_eq!(err.kind(), ErrorKind::InsufficientData);
    let mut bad = bytes.clone();
    bad[16] = 0;
    bad[17] = 0;
    bad[18] = 0;
    bad[19] = 0;
    bad[20] = 0;
    bad[21] = 0;
    bad[22] = 0;
    bad[23] = 0;
    let err = CompactThetaSketch::deserialize_with_seed(&bad, 9001).err().unwrap();
    assert_eq!(err.kind(), ErrorKind::InvalidData);
}

#[test]
fn theta_exact_mode_v3_and_v4_agree() {
    let mut sketch = ThetaSketch::builder().lg_k(12).build();
    for i in 0..2000u64 {
        sketch.update(i);
    }
    let compact = sketch.compact(true);
    let v3 = CompactThetaSketch::deserialize_with_seed(&compact.serialize(), 9001).unwrap();
    let bytes = compact.serialize_compressed();
    assert_eq!(bytes[1], 4);
    let v4 = CompactThetaSketch::deserialize_with_seed(&bytes, 9001).unwrap();
    assert_eq!(v3.entries(), v4.entries());
    assert_eq!(v4.entries(), compact.entries());
    assert_eq!(v4.num_retained(), 2000);
    assert!(bytes.len() < compact.serialize().len());
}

#[test]
fn theta_compressed_tail() {
    let mut sketch = ThetaSketch::builder().lg_k(12).build();
    for i in 0..13u64 {
        sketch.update(i);
    }
    assert_eq!(sketch.num_retained(), 13);
    let compact = sketch.compact(true);
    let bytes = compact.serialize_compressed();
    assert_eq!(bytes[1], 4);
    assert_eq!(bytes[4], 1);
    let back = CompactThetaSketch::deserialize_with_seed(&bytes, 9001).unwrap();
    assert_eq!(back.entries(), compact.entries());
    assert_eq!(back.num_retained(), 13);
}

#[test]
fn theta_compressed_more_than_255_entries() {
    let mut sketch = ThetaSketch::builder().lg_k(12).build();
    for i in 0..300u64 {
        sketch.update(i);
    }
    assert!(sketch.num_retained() > 255);
    let compact = sketch.compact(true);
    let bytes = compact.serialize_compressed();
    assert_eq!(bytes[4], 2);
    let back = CompactThetaSketch::deserialize_with_seed(&bytes, 9001).unwrap();
    assert_eq!(back.entries(), compact.entries());
}

#[test]
fn theta_compressed_estimation_mode_carries_theta() {
    let mut sketch = ThetaSketch::builder().lg_k(5).build();
    for i in 0..5000u64 {
        sketch.update(i);
    }
    assert!(sketch.is_estimation_mode());
    let compact = sketch.compact(true);
    let bytes = compact.serialize_compressed();
    assert_eq!(bytes[0], 2);
    assert_eq!(u64::from_le_bytes(bytes[8..16].try_into().unwrap()), sketch.theta64());
    let back = CompactThetaSketch::deserialize_with_seed(&bytes, 9001).unwrap();
    assert_eq!(back.theta64(), sketch.theta64());
    assert_eq!(back.entries(), compact.entries());
    assert!(back.is_estimation_mode());
}

#[test]
fn theta_unordered_or_single_falls_back_to_v3() {
    let mut sketch = ThetaSketch::builder().build();
    sketch.update(1u64);
    assert_eq!(sketch.compact(true).serialize_compressed()[1], 3);
    sketch.update(2u64);
    assert_eq!(sketch.compact(false).serialize_compressed()[1], 3);
    assert_eq!(sketch.compact(true).serialize_compressed()[1], 4);
    let err = CompactThetaSketch::deserialize_with_seed(&sketch.compact(true).serialize_compressed(), 1).err().unwrap();
    assert_eq!(err.kind(), ErrorKind::InvalidData);
}

#[test]
fn theta_legacy_images_are_read() {
    let mut sketch = ThetaSketch::builder().lg_k(5).build();
    for i in 0..500u64 {
        sketch.update(i);
    }
    let compact = sketch.compact(true);
    let mut v2 = compact.serialize();
    v2[1] = 2;
    let back = CompactThetaSketch::deserialize_with_seed(&v2, 9001).unwrap();
    assert_eq!(back.entries(), compact.entries());
    assert_eq!(back.theta64(), compact.theta64());

    let empty_v2 = [1u8, 2, 3, 0, 0, 4, 0, 0];
    assert!(CompactThetaSketch::deserialize_with_seed(&empty_v2, 9001).unwrap().is_empty());

    let mut v1 = vec![0u8; 24];
    v1[0] = 3;
    v1[1] = 1;
    v1[2] = 3;
    v1[8..12].copy_from_slice(&(compact.num_retained() as u32).to_le_bytes());
    v1[16..24].copy_from_slice(&compact.theta64().to_le_bytes());
    for e in compact.entries() {
        v1.extend_from_slice(&e.to_le_bytes());
    }
    let back = CompactThetaSketch::deserialize_with_seed(&v1, 9001).unwrap();
    assert_eq!(back.entries(), compact.entries());
    assert_eq!(back.theta64(), compact.theta64());
    assert_eq!(back.seed_hash(), compact.seed_hash());
}
