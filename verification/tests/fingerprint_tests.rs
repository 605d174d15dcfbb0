use bjkst::error::SketchError;
use bjkst::fingerprint::Value;
use bjkst::model::HashKey;
use bjkst::sketch::Sketch;
use highway::HighwayHasher;
use std::hash::{BuildHasher, BuildHasherDefault};

fn reference() -> BuildHasherDefault<HighwayHasher> {
    BuildHasherDefault::<HighwayHasher>::default()
}

#[test]
fn integer_fingerprint_is_the_keyed_hash() {
    let s = Sketch::new(3).unwrap();
    let got = s.fingerprint(&Value::Int(5)).unwrap();
    assert_eq!(got, reference().hash_one(5i128));
    assert_ne!(got, 5);
    let negative = s.fingerprint(&Value::Int(-5)).unwrap();
    assert_eq!(negative, reference().hash_one(-5i128));
    assert_ne!(negative, got);
}

#[test]
fn bytes_fingerprint_is_the_keyed_hash() {
    let s = Sketch::new(3).unwrap();
    let data: Vec<u8> = vec![1, 2, 3];
    let got = s.fingerprint(&Value::Bytes(data.clone())).unwrap();
    assert_eq!(got, reference().hash_one(&data[..]));
    let other = s.fingerprint(&Value::Bytes(vec![1, 2, 4])).unwrap();
    assert_ne!(got, other);
}

#[test]
fn text_fingerprint_is_the_keyed_hash() {
    let s = Sketch::new(3).unwrap();
    let got = s.fingerprint(&Value::Text(String::from("hello"))).unwrap();
    assert_eq!(got, reference().hash_one("hello"));
    let other = s.fingerprint(&Value::Text(String::from("world"))).unwrap();
    assert_ne!(got, other);
}

#[test]
fn fingerprint_is_repeatable() {
    let s = Sketch::new(3).unwrap();
    let t = Sketch::new(9).unwrap();
    let v = Value::Text(String::from("same"));
    assert_eq!(s.fingerprint(&v), s.fingerprint(&v));
    assert_eq!(s.fingerprint(&v), t.fingerprint(&v));
}

#[test]
fn fingerprint_depends_on_the_key() {
    let plain = Sketch::new(3).unwrap();
    let keyed = Sketch::with_hash_key(3, HashKey { k0: 1, k1: 2, k2: 3, k3: 4 }).unwrap();
    let v = Value::Int(42);
    assert_ne!(plain.fingerprint(&v), keyed.fingerprint(&v));
}

#[test]
fn shapes_are_told_apart() {
    let s = Sketch::new(3).unwrap();
    let text = s.fingerprint(&Value::Text(String::from("ab"))).unwrap();
    let bytes = s.fingerprint(&Value::Bytes(vec![b'a', b'b'])).unwrap();
    assert_ne!(text, bytes);
}

#[test]
fn unsupported_shape_is_rejected_by_fingerprint() {
    let s = Sketch::new(3).unwrap();
    assert_eq!(
        s.fingerprint(&Value::Other(String::from("list"))),
        Err(SketchError::UnsupportedType(String::from("list")))
    );
}

#[test]
fn unsupported_shape_is_rejected_by_insert() {
    let mut s = Sketch::new(3).unwrap();
    s.insert(&Value::Int(1)).unwrap();
    let before = s.serialize();
    assert_eq!(
        s.insert(&Value::Other(String::from("dict"))),
        Err(SketchError::UnsupportedType(String::from("dict")))
    );
    assert_eq!(s.serialize(), before);
    assert_eq!(s.estimate(), 1);
}

#[test]
fn insert_is_fingerprint_then_insert_fingerprint() {
    let mut a = Sketch::new(3).unwrap();
    let mut b = Sketch::new(3).unwrap();
    let values = vec![
        Value::Int(1),
        Value::Int(2),
        Value::Bytes(vec![9, 9]),
        Value::Text(String::from("x")),
        Value::Int(1),
    ];
    for v in &values {
        assert_eq!(a.insert(v), Ok(()));
        let f = b.fingerprint(v).unwrap();
        b.insert_fingerprint(f);
    }
    assert_eq!(a.serialize(), b.serialize());
    assert_eq!(a.estimate(), 4);
    assert_eq!(a.level(), 0);
}

#[test]
fn many_values_are_estimated_within_reason() {
    let mut s = Sketch::new(10).unwrap();
    for i in 0..20000i128 {
        s.insert(&Value::Int(i)).unwrap();
    }
    assert!(s.level() > 0);
    assert!(s.sample_len() <= 1024);
    let estimate = s.estimate();
    assert!(estimate > 15000 && estimate < 25000);
}
