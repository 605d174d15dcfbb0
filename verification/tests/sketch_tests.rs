use bjkst::error::SketchError;
use bjkst::model::{HashKey, MAX_PRECISION, MIN_PRECISION};
use bjkst::retention::{is_retained, level_step};
use bjkst::sketch::Sketch;

fn sketch_of(precision: u8, fingerprints: &[u64]) -> Sketch {
    let mut s = Sketch::new(precision).unwrap();
    for f in fingerprints {
        s.insert_fingerprint(*f);
    }
    s
}

#[test]
fn new_sketch_is_empty() {
    let s = Sketch::new(3).unwrap();
    assert!(s.is_empty());
    assert_eq!(s.estimate(), 0);
    assert_eq!(s.level(), 0);
    assert_eq!(s.precision(), 3);
    assert_eq!(s.capacity(), 8);
    assert_eq!(s.sample_len(), 0);
    assert_eq!(s.hash_key(), HashKey { k0: 0, k1: 0, k2: 0, k3: 0 });
}

#[test]
fn capacity_is_two_to_the_precision() {
    assert_eq!(Sketch::new(MIN_PRECISION).unwrap().capacity(), 8);
    assert_eq!(Sketch::new(10).unwrap().capacity(), 1024);
    assert_eq!(Sketch::new(MAX_PRECISION).unwrap().capacity(), 65536);
}

#[test]
fn precision_below_minimum_is_rejected() {
    assert_eq!(Sketch::new(2).err(), Some(SketchError::InvalidPrecision(2)));
    assert_eq!(Sketch::new(0).err(), Some(SketchError::InvalidPrecision(0)));
}

#[test]
fn precision_above_maximum_is_rejected() {
    assert_eq!(Sketch::new(17).err(), Some(SketchError::InvalidPrecision(17)));
    assert_eq!(Sketch::new(255).err(), Some(SketchError::InvalidPrecision(255)));
    let key = HashKey { k0: 1, k1: 2, k2: 3, k3: 4 };
    assert_eq!(Sketch::with_hash_key(64, key).err(), Some(SketchError::InvalidPrecision(64)));
}

#[test]
fn precision_bounds_are_accepted() {
    assert!(Sketch::new(MIN_PRECISION).is_ok());
    assert!(Sketch::new(MAX_PRECISION).is_ok());
}

#[test]
fn retention_rule_on_concrete_fingerprints() {
    assert!(is_retained(0, 0));
    assert!(is_retained(7, 0));
    assert!(!is_retained(7, 1));
    assert!(is_retained(8, 3));
    assert!(!is_retained(8, 4));
    assert!(is_retained(1u64 << 63, 63));
    assert!(!is_retained(1u64 << 63, 64));
    assert!(is_retained(0, 64));
    assert!(is_retained(0, 200));
    assert!(!is_retained(u64::MAX, 200));
}

#[test]
fn level_step_is_a_power_of_two() {
    assert_eq!(level_step(0), 1);
    assert_eq!(level_step(5), 32);
    assert_eq!(level_step(64), 1u128 << 64);
}

#[test]
fn exact_below_capacity() {
    let mut s = Sketch::new(3).unwrap();
    for (i, f) in [11u64, 22, 33, 44, 55, 66, 77, 88].iter().enumerate() {
        s.insert_fingerprint(*f);
        assert_eq!(s.estimate(), i as u128 + 1);
        assert_eq!(s.level(), 0);
    }
    assert!(!s.is_empty());
}

#[test]
fn duplicates_change_nothing() {
    let mut s = sketch_of(3, &[5, 6, 7]);
    let before = s.serialize();
    for _ in 0..10 {
        s.insert_fingerprint(6);
    }
    assert_eq!(s.estimate(), 3);
    assert_eq!(s.serialize(), before);
}

#[test]
fn duplicates_change_nothing_after_thinning() {
    let mut s = sketch_of(3, &[1, 2, 3, 4, 5, 6, 7, 8, 9]);
    let before = s.serialize();
    s.insert_fingerprint(9);
    s.insert_fingerprint(8);
    s.insert_fingerprint(8);
    assert_eq!(s.serialize(), before);
}

#[test]
fn five_then_ten_with_capacity_eight() {
    let mut s = Sketch::new(3).unwrap();
    for f in 1u64..=5 {
        s.insert_fingerprint(f);
    }
    assert_eq!(s.estimate(), 5);
    assert_eq!(s.level(), 0);
    for f in 6u64..=10 {
        s.insert_fingerprint(f);
    }
    assert!(s.level() > 0);
    assert_eq!(s.estimate() % (1u128 << s.level()), 0);
    assert_eq!(s.level(), 1);
    assert_eq!(s.sample_len(), 5);
    assert_eq!(s.estimate(), 10);
}

#[test]
fn thinning_raises_the_level_until_the_sample_fits() {
    // Nine odd fingerprints: none survives level one.
    let s = sketch_of(3, &[1, 3, 5, 7, 9, 11, 13, 15, 17]);
    assert_eq!(s.level(), 1);
    assert_eq!(s.sample_len(), 0);
    assert_eq!(s.estimate(), 0);
    assert!(!s.is_empty());
    // Nine multiples of four: all survive levels one and two, and level three keeps five.
    let t = sketch_of(3, &[0, 4, 8, 12, 16, 20, 24, 28, 32]);
    assert_eq!(t.level(), 3);
    assert_eq!(t.sample_len(), 5);
    assert_eq!(t.estimate(), 40);
}

#[test]
fn thinning_skips_levels_that_do_not_fit() {
    let s = sketch_of(3, &[0, 8, 16, 24, 32, 40, 48, 56, 64]);
    assert_eq!(s.level(), 4);
    assert_eq!(s.sample_len(), 5);
    assert_eq!(s.estimate(), 80);
}

#[test]
fn fingerprints_below_the_level_are_ignored() {
    let mut s = sketch_of(3, &[2, 4, 6, 8, 10, 12, 14, 16, 18]);
    assert_eq!(s.level(), 2);
    assert_eq!(s.sample_len(), 4);
    let before = s.serialize();
    s.insert_fingerprint(1);
    s.insert_fingerprint(2);
    s.insert_fingerprint(6);
    assert_eq!(s.serialize(), before);
    s.insert_fingerprint(20);
    assert_eq!(s.sample_len(), 5);
    assert_eq!(s.estimate(), 20);
}

#[test]
fn sample_never_exceeds_capacity() {
    let mut s = Sketch::new(4).unwrap();
    let mut level = 0;
    for i in 0u64..5000 {
        s.insert_fingerprint(i.wrapping_mul(0x9E37_79B9_7F4A_7C15));
        assert!(s.sample_len() <= s.capacity());
        assert!(s.level() >= level);
        level = s.level();
        assert_eq!(s.estimate(), (s.sample_len() as u128) << s.level());
    }
    assert!(s.level() > 0);
}

#[test]
fn insert_many_is_insert_one_by_one() {
    let fingerprints: Vec<u64> = (0u64..40).map(|i| i * 3).collect();
    let mut a = Sketch::new(3).unwrap();
    a.insert_many_fingerprints(fingerprints.clone());
    let b = sketch_of(3, &fingerprints);
    assert_eq!(a.serialize(), b.serialize());
    let mut c = Sketch::new(3).unwrap();
    c.insert_many_fingerprints(Vec::new());
    assert!(c.is_empty());
}

#[test]
fn clear_returns_to_the_empty_sketch() {
    let mut s = sketch_of(3, &[1, 2, 3, 4, 5, 6, 7, 8, 9, 10]);
    assert!(s.level() > 0);
    s.clear();
    assert!(s.is_empty());
    assert_eq!(s.estimate(), 0);
    assert_eq!(s.level(), 0);
    assert_eq!(s.precision(), 3);
    assert_eq!(s.serialize(), Sketch::new(3).unwrap().serialize());
}

#[test]
fn copy_is_independent() {
    let mut s = sketch_of(3, &[1, 2, 3]);
    let c = s.copy();
    s.insert_fingerprint(4);
    assert_eq!(c.estimate(), 3);
    assert_eq!(s.estimate(), 4);
    assert_eq!(c.serialize(), sketch_of(3, &[1, 2, 3]).serialize());
}

#[test]
fn merge_is_the_union_below_capacity() {
    let mut a = sketch_of(3, &[1, 2, 3]);
    let b = sketch_of(3, &[3, 4, 5]);
    assert_eq!(a.merge_into(&b), Ok(()));
    assert_eq!(a.estimate(), 5);
    assert_eq!(a.level(), 0);
    assert_eq!(b.estimate(), 3);
}

#[test]
fn merge_thins_when_the_union_is_too_large() {
    let mut a = sketch_of(3, &[1, 2, 3, 4, 5, 6]);
    let b = sketch_of(3, &[7, 8, 9, 10, 11, 12]);
    assert_eq!(a.merge_into(&b), Ok(()));
    assert_eq!(a.level(), 1);
    assert_eq!(a.sample_len(), 6);
    assert_eq!(a.estimate(), 12);
}

#[test]
fn merge_takes_the_higher_level() {
    let mut low = sketch_of(3, &[1, 2, 3, 4]);
    let high = sketch_of(3, &[2, 4, 6, 8, 10, 12, 14, 16, 18]);
    assert_eq!(high.level(), 2);
    assert_eq!(low.merge_into(&high), Ok(()));
    assert_eq!(low.level(), 2);
    assert_eq!(low.sample_len(), 4);
    assert_eq!(low.estimate(), 16);
}

#[test]
fn merge_commutes() {
    let xs: Vec<u64> = (0u64..30).map(|i| i * 7 + 1).collect();
    let ys: Vec<u64> = (0u64..30).map(|i| i * 5 + 2).collect();
    let mut ab = sketch_of(3, &xs);
    ab.merge_into(&sketch_of(3, &ys)).unwrap();
    let mut ba = sketch_of(3, &ys);
    ba.merge_into(&sketch_of(3, &xs)).unwrap();
    assert_eq!(ab.estimate(), ba.estimate());
    assert_eq!(ab.level(), ba.level());
    assert_eq!(ab.sample_len(), ba.sample_len());
    assert_eq!(ab.serialize(), ba.serialize());
}

#[test]
fn merge_with_itself_changes_nothing() {
    let mut a = sketch_of(3, &[1, 2, 3, 4, 5, 6, 7, 8, 9, 10, 11]);
    let before = a.serialize();
    let same = a.copy();
    assert_eq!(a.merge_into(&same), Ok(()));
    assert_eq!(a.serialize(), before);
}

#[test]
fn merge_associates() {
    let xs: Vec<u64> = (0u64..20).map(|i| i * 3).collect();
    let ys: Vec<u64> = (0u64..20).map(|i| i * 4 + 1).collect();
    let zs: Vec<u64> = (0u64..20).map(|i| i * 6 + 2).collect();
    let mut left = sketch_of(3, &xs);
    left.merge_into(&sketch_of(3, &ys)).unwrap();
    left.merge_into(&sketch_of(3, &zs)).unwrap();
    let mut bc = sketch_of(3, &ys);
    bc.merge_into(&sketch_of(3, &zs)).unwrap();
    let mut right = sketch_of(3, &xs);
    right.merge_into(&bc).unwrap();
    assert_eq!(left.estimate(), right.estimate());
    assert_eq!(left.level(), right.level());
    assert_eq!(left.serialize(), right.serialize());
}

#[test]
fn merge_is_one_sketch_over_both_streams() {
    let xs: Vec<u64> = (0u64..25).map(|i| i * 9 + 4).collect();
    let ys: Vec<u64> = (0u64..25).map(|i| i * 2).collect();
    let mut merged = sketch_of(4, &xs);
    merged.merge_into(&sketch_of(4, &ys)).unwrap();
    let mut all = xs.clone();
    all.extend(ys.iter());
    let one = sketch_of(4, &all);
    assert_eq!(merged.estimate(), one.estimate());
    assert_eq!(merged.level(), one.level());
    assert_eq!(merged.serialize(), one.serialize());
}

#[test]
fn merge_of_different_precisions_is_refused() {
    let mut a = sketch_of(3, &[1, 2, 3]);
    let before = a.serialize();
    let b = sketch_of(4, &[4, 5]);
    assert_eq!(a.merge_into(&b), Err(SketchError::Incompatible));
    assert_eq!(a.serialize(), before);
}

#[test]
fn merge_of_different_keys_is_refused() {
    let mut a = Sketch::with_hash_key(3, HashKey { k0: 1, k1: 0, k2: 0, k3: 0 }).unwrap();
    a.insert_fingerprint(1);
    let before = a.serialize();
    let b = sketch_of(3, &[4, 5]);
    assert_eq!(a.merge_into(&b), Err(SketchError::Incompatible));
    assert_eq!(a.serialize(), before);
    assert_eq!(a.hash_key(), HashKey { k0: 1, k1: 0, k2: 0, k3: 0 });
}

#[test]
fn merge_of_large_sketches() {
    let xs: Vec<u64> = (0u64..100_000).map(|i| i.wrapping_mul(0x9E37_79B9_7F4A_7C15)).collect();
    let ys: Vec<u64> = (50_000u64..150_000).map(|i| i.wrapping_mul(0x9E37_79B9_7F4A_7C15)).collect();
    let mut a = Sketch::new(12).unwrap();
    a.insert_many_fingerprints(xs.clone());
    let mut b = Sketch::new(12).unwrap();
    b.insert_many_fingerprints(ys.clone());
    a.merge_into(&b).unwrap();
    let mut all = Sketch::new(12).unwrap();
    all.insert_many_fingerprints(xs);
    all.insert_many_fingerprints(ys);
    assert_eq!(a.serialize(), all.serialize());
    assert!(a.sample_len() <= 4096);
    assert_eq!(a.estimate(), (a.sample_len() as u128) << a.level());
}
