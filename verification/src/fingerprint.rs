//! From values to fingerprints: the shapes of value a sketch takes, the
//! bytes that stand for each, and the keyed hash of those bytes.
//!
//! The bytes of a value are those that `std::hash::Hash` feeds a hasher on a
//! little-endian 64-bit machine, so that a fingerprint agrees with
//! `BuildHasher::hash_one` there, and is the same on every other machine.

use crate::error::SketchError;
use crate::model::HashKey;
use crate::sketch::Sketch;
use vstd::bytes::*;
use vstd::prelude::*;
use vstd::utf8::*;

verus! {

/// A value offered to a sketch. Integers, byte sequences and text can be
/// fingerprinted; a value of any other shape is known by its type's name only.
#[derive(Debug, PartialEq, Eq)]
pub enum Value {
    /// A signed integer.
    Int(i128),
    /// A sequence of bytes.
    Bytes(Vec<u8>),
    /// A text.
    Text(String),
    /// A value of an unsupported shape; holds the name of its type.
    Other(String),
}

impl Value {
    /// Whether the value is of a shape that can be fingerprinted.
    pub open spec fn supported(&self) -> bool {
        !(self is Other)
    }
}

/// The 64-bit HighwayHash of `data` under the key `k0`, `k1`, `k2`, `k3`.
pub uninterp spec fn highway_hash64(k0: u64, k1: u64, k2: u64, k3: u64, data: Seq<u8>) -> u64;

/// The two's complement of a signed integer, as an unsigned one.
pub open spec fn twos_complement(v: i128) -> u128 {
    if v >= 0 {
        v as u128
    } else {
        (v + 0x1_0000_0000_0000_0000_0000_0000_0000_0000) as u128
    }
}

/// The bytes that stand for a value when it is hashed: for an integer, its
/// sixteen bytes in two's complement, lowest first; for a byte sequence, its
/// length as eight bytes, lowest first, and then the bytes; for a text, its
/// UTF-8 encoding and then one byte `0xFF`.
pub open spec fn hash_input(value: Value) -> Seq<u8> {
    match value {
        Value::Int(v) => spec_u128_to_le_bytes(twos_complement(v)),
        Value::Bytes(b) => spec_u64_to_le_bytes(b@.len() as u64) + b@,
        Value::Text(s) => encode_utf8(s@) + seq![0xFFu8],
        Value::Other(_) => Seq::empty(),
    }
}

/// The fingerprint of a supported value under a key.
pub open spec fn fingerprint_of(key: HashKey, value: Value) -> u64 {
    highway_hash64(key.k0, key.k1, key.k2, key.k3, hash_input(value))
}

/// Calls `highway::HighwayHash::hash64` on the hasher that
/// `highway::HighwayHasher::new` makes from the four key words. The contract
/// claims that the result depends on the key and the bytes alone, which the
/// crate promises of its hashes on all hardware; of the value of the result
/// it claims nothing.
#[verifier::external_body]
fn hash64(key: &HashKey, data: &[u8]) -> (h: u64)
    ensures
        h == highway_hash64(key.k0, key.k1, key.k2, key.k3, data@),
{
    let hasher = highway::HighwayHasher::new(highway::Key([key.k0, key.k1, key.k2, key.k3]));
    highway::HighwayHash::hash64(hasher, data)
}

/// The bytes that stand for an integer.
fn int_input(v: i128) -> (data: Vec<u8>)
    ensures
        data@ == hash_input(Value::Int(v)),
{
    if v >= 0 {
        u128_to_le_bytes(v as u128)
    } else {
        let above: i128 = v - i128::MIN;
        let low: u128 = above as u128;
        u128_to_le_bytes(low + 0x8000_0000_0000_0000_0000_0000_0000_0000u128)
    }
}

/// The bytes that stand for a byte sequence.
fn bytes_input(b: &Vec<u8>) -> (data: Vec<u8>)
    ensures
        data@ == spec_u64_to_le_bytes(b@.len() as u64) + b@,
{
    let mut data: Vec<u8> = u64_to_le_bytes(b.len() as u64);
    data.extend_from_slice(b.as_slice());
    proof {
        assert(data@ =~= spec_u64_to_le_bytes(b@.len() as u64) + b@);
    }
    data
}

/// The bytes that stand for a text.
fn text_input(s: &String) -> (data: Vec<u8>)
    ensures
        data@ == encode_utf8(s@) + seq![0xFFu8],
{
    let mut data: Vec<u8> = vstd::slice::slice_to_vec(s.as_str().as_bytes());
    data.push(0xFFu8);
    proof {
        assert(data@ =~= encode_utf8(s@) + seq![0xFFu8]);
    }
    data
}

impl Sketch {
    /// The fingerprint of a value under this sketch's hash key. The sketch is
    /// not changed. A value of an unsupported shape is refused, with the name
    /// of its type; every other value has a fingerprint, which depends on the
    /// key and the value alone.
    pub fn fingerprint(&self, value: &Value) -> (r: Result<u64, SketchError>)
        ensures
            value.supported() ==> r == Ok::<u64, SketchError>(fingerprint_of(self@.key, *value)),
            value matches Value::Other(name) ==> r == Err::<u64, SketchError>(
                SketchError::UnsupportedType(*name),
            ),
    {
        proof {
            self.lemma_fields();
        }
        match value {
            Value::Int(v) => {
                let data = int_input(*v);
                Ok(hash64(&self.key, data.as_slice()))
            },
            Value::Bytes(b) => {
                let data = bytes_input(b);
                Ok(hash64(&self.key, data.as_slice()))
            },
            Value::Text(s) => {
                let data = text_input(s);
                Ok(hash64(&self.key, data.as_slice()))
            },
            Value::Other(name) => Err(SketchError::UnsupportedType(name.clone())),
        }
    }

    /// Fingerprints a value and offers the fingerprint to the sketch. A value
    /// of an unsupported shape is refused, and the sketch stays as it was.
    pub fn insert(&mut self, value: &Value) -> (r: Result<(), SketchError>)
        requires
            old(self).wf(),
        ensures
            final(self).wf(),
            value.supported() ==> r is Ok && final(self)@ == old(self)@.insert(
                fingerprint_of(old(self)@.key, *value),
            ),
            value matches Value::Other(name) ==> r == Err::<(), SketchError>(
                SketchError::UnsupportedType(*name),
            ) && *final(self) == *old(self),
    {
        match self.fingerprint(value) {
            Ok(f) => {
                self.insert_fingerprint(f);
                Ok(())
            },
            Err(e) => Err(e),
        }
    }
}

} // verus!
