//! The byte encoding of a sketch.
//!
//! Three bytes come first: the format version, the precision and the level.
//! Then follow 64-bit words, each as eight bytes, lowest first: the number of
//! fingerprints, the four words of the hash key, and the fingerprints in
//! rising order. A sketch thus has one encoding.

use crate::error::{DecodeFault, SketchError};
use crate::model::{
    capacity_of, lemma_capacity_bounds, HashKey, SketchState, MAX_PRECISION, MIN_PRECISION,
};
use crate::order::{ascending, lemma_ascending_len};
use crate::retention::{is_retained, level_step, retained, MAX_LEVEL};
use crate::sketch::Sketch;
use vstd::bytes::*;
use vstd::prelude::*;
use vstd::slice::*;

verus! {

/// The format version that this library writes and reads.
pub const FORMAT_VERSION: u8 = 1;

/// The length of the shortest encoding: three bytes and five words.
pub const MIN_ENCODED_LEN: usize = 43;

/// The encoding of a sequence of words, eight bytes each, lowest byte first.
pub open spec fn encode_words(ws: Seq<u64>) -> Seq<u8>
    decreases ws.len(),
{
    if ws.len() == 0 {
        Seq::empty()
    } else {
        encode_words(ws.drop_last()) + spec_u64_to_le_bytes(ws.last())
    }
}

/// The words that follow the three leading bytes of an encoding.
pub open spec fn words_of(key: HashKey, fs: Seq<u64>) -> Seq<u64> {
    seq![fs.len() as u64, key.k0, key.k1, key.k2, key.k3] + fs
}

/// The encoding of a sketch with the given precision, level and key that
/// stores the fingerprints `fs` in this order.
pub open spec fn encode(precision: u8, level: u8, key: HashKey, fs: Seq<u64>) -> Seq<u8> {
    seq![FORMAT_VERSION, precision, level] + encode_words(words_of(key, fs))
}

/// The word at place `i` of an encoding, counted after the three leading bytes.
pub open spec fn word_at(bytes: Seq<u8>, i: int) -> u64 {
    spec_u64_from_le_bytes(bytes.subrange(3 + 8 * i, 11 + 8 * i))
}

/// The number of fingerprints that an encoding declares.
pub open spec fn declared_count(bytes: Seq<u8>) -> nat {
    word_at(bytes, 0) as nat
}

/// The hash key that an encoding holds.
pub open spec fn decoded_key(bytes: Seq<u8>) -> HashKey {
    HashKey {
        k0: word_at(bytes, 1),
        k1: word_at(bytes, 2),
        k2: word_at(bytes, 3),
        k3: word_at(bytes, 4),
    }
}

/// The fingerprints that an encoding holds, in their order.
pub open spec fn decoded_sample(bytes: Seq<u8>) -> Seq<u64> {
    Seq::new(declared_count(bytes), |i: int| word_at(bytes, 5 + i))
}

/// The sketch that an encoding stands for.
pub open spec fn decoded_state(bytes: Seq<u8>) -> SketchState {
    SketchState {
        precision: bytes[1] as nat,
        level: bytes[2] as nat,
        sample: decoded_sample(bytes).to_set(),
        key: decoded_key(bytes),
    }
}

/// What is wrong with a byte sequence as an encoding, if anything: the first
/// of the faults, in the order of `DecodeFault`, that it shows.
pub open spec fn decode_fault(bytes: Seq<u8>) -> Option<DecodeFault> {
    if bytes.len() < 43 {
        Some(DecodeFault::Truncated)
    } else if bytes[0] != FORMAT_VERSION {
        Some(DecodeFault::UnknownVersion)
    } else if bytes[1] < MIN_PRECISION || bytes[1] > MAX_PRECISION {
        Some(DecodeFault::PrecisionOutOfRange)
    } else if bytes[2] > 64 {
        Some(DecodeFault::LevelOutOfRange)
    } else if declared_count(bytes) > capacity_of(bytes[1] as nat) {
        Some(DecodeFault::SampleTooLarge)
    } else if bytes.len() != 43 + 8 * declared_count(bytes) {
        Some(DecodeFault::LengthMismatch)
    } else if exists|i: int|
        0 <= i < declared_count(bytes) && !retained(
            #[trigger] decoded_sample(bytes)[i],
            bytes[2] as nat,
        ) {
        Some(DecodeFault::NotRetained)
    } else if !ascending(decoded_sample(bytes)) {
        Some(DecodeFault::NotAscending)
    } else {
        None
    }
}

/// Appending a word to a sequence appends its eight bytes to the encoding.
pub proof fn lemma_encode_push(ws: Seq<u64>, w: u64)
    ensures
        encode_words(ws.push(w)) == encode_words(ws) + spec_u64_to_le_bytes(w),
{
    assert(ws.push(w).drop_last() =~= ws);
}

/// The encoding of words has eight bytes for each, and the bytes of each
/// word stand at its place.
pub proof fn lemma_encode_words(ws: Seq<u64>)
    ensures
        encode_words(ws).len() == 8 * ws.len(),
        forall|i: int|
            0 <= i < ws.len() ==> #[trigger] encode_words(ws).subrange(8 * i, 8 * i + 8)
                == spec_u64_to_le_bytes(ws[i]),
    decreases ws.len(),
{
    lemma_auto_spec_u64_to_from_le_bytes();
    if ws.len() > 0 {
        let front = ws.drop_last();
        lemma_encode_words(front);
        let e = encode_words(ws);
        assert forall|i: int| 0 <= i < ws.len() implies #[trigger] e.subrange(8 * i, 8 * i + 8)
            == spec_u64_to_le_bytes(ws[i]) by {
            if i < front.len() {
                assert(e.subrange(8 * i, 8 * i + 8) =~= encode_words(front).subrange(
                    8 * i,
                    8 * i + 8,
                ));
            } else {
                assert(e.subrange(8 * i, 8 * i + 8) =~= spec_u64_to_le_bytes(ws.last()));
            }
        }
    }
}

/// Decoding undoes encoding: the encoding of a sketch that meets the
/// invariant shows no fault, and stands for that sketch, with its
/// fingerprints in the same order. The decoded sketch is thus the same
/// mathematical value, with the same estimate and the same merges.
pub proof fn law_round_trip(precision: u8, level: u8, key: HashKey, fs: Seq<u64>)
    requires
        MIN_PRECISION <= precision <= MAX_PRECISION,
        level <= 64,
        ascending(fs),
        fs.len() <= capacity_of(precision as nat),
        forall|i: int| 0 <= i < fs.len() ==> retained(#[trigger] fs[i], level as nat),
    ensures
        decode_fault(encode(precision, level, key, fs)) is None,
        decoded_sample(encode(precision, level, key, fs)) == fs,
        decoded_state(encode(precision, level, key, fs)) == (SketchState {
            precision: precision as nat,
            level: level as nat,
            sample: fs.to_set(),
            key,
        }),
{
    let ws = words_of(key, fs);
    let bytes = encode(precision, level, key, fs);
    lemma_capacity_bounds(precision as nat);
    lemma_encode_words(ws);
    lemma_auto_spec_u64_to_from_le_bytes();
    assert forall|i: int| 0 <= i < ws.len() implies word_at(bytes, i) == ws[i] by {
        assert(bytes.subrange(3 + 8 * i, 11 + 8 * i) =~= encode_words(ws).subrange(
            8 * i,
            8 * i + 8,
        ));
    }
    assert(word_at(bytes, 0) == ws[0]);
    assert(word_at(bytes, 1) == ws[1]);
    assert(word_at(bytes, 2) == ws[2]);
    assert(word_at(bytes, 3) == ws[3]);
    assert(word_at(bytes, 4) == ws[4]);
    assert(declared_count(bytes) == fs.len());
    assert forall|i: int| 0 <= i < fs.len() implies decoded_sample(bytes)[i] == fs[i] by {
        assert(word_at(bytes, 5 + i) == ws[5 + i]);
    }
    assert(decoded_sample(bytes) =~= fs);
}

/// Appends the eight bytes of a word.
fn put_word(out: &mut Vec<u8>, w: u64)
    ensures
        final(out)@ == old(out)@ + spec_u64_to_le_bytes(w),
{
    let mut bytes: Vec<u8> = u64_to_le_bytes(w);
    out.append(&mut bytes);
}

/// Reads the word at place `i`, counted after the three leading bytes.
fn read_word(data: &[u8], i: usize) -> (w: u64)
    requires
        11 + 8 * i <= data@.len(),
    ensures
        w == word_at(data@, i as int),
{
    let len: usize = data.len();
    assert(8 * i + 11 <= len);
    u64_from_le_bytes(slice_subrange(data, 3 + 8 * i, 11 + 8 * i))
}

/// Whether `v` rises strictly from each member to the next.
fn is_ascending(v: &Vec<u64>) -> (r: bool)
    ensures
        r == ascending(v@),
{
    let mut i: usize = 1;
    while i < v.len()
        invariant
            1 <= i,
            forall|a: int, b: int| 0 <= a < b < i && b < v.len() ==> v@[a] < v@[b],
        decreases v.len() - i,
    {
        if v[i - 1] >= v[i] {
            return false;
        }
        proof {
            assert forall|a: int, b: int| 0 <= a < b < i + 1 && b < v.len() implies v@[a]
                < v@[b] by {
                if b == i && a < i - 1 {
                    assert(v@[a] < v@[i - 1]);
                }
            }
        }
        i += 1;
    }
    true
}

impl Sketch {
    /// Encodes the sketch. Decoding the result gives the sketch back.
    #[verifier::loop_isolation(false)]
    pub fn serialize(&self) -> (bytes: Vec<u8>)
        requires
            self.wf(),
        ensures
            bytes@ == encode(
                self@.precision as u8,
                self@.level as u8,
                self@.key,
                self.stored(),
            ),
            decode_fault(bytes@) is None,
            decoded_state(bytes@) == self@,
            decoded_sample(bytes@) == self.stored(),
    {
        let mut out: Vec<u8> = Vec::new();
        out.push(FORMAT_VERSION);
        out.push(self.precision);
        out.push(self.level);
        let ghost head = out@;
        let ghost done = Seq::<u64>::empty();
        let n: usize = self.sample.len();
        proof {
            self.lemma_fields();
            lemma_ascending_len(self.sample@);
            lemma_capacity_bounds(self.precision as nat);
            assert(out@ =~= head + encode_words(done));
        }
        put_word(&mut out, n as u64);
        proof {
            lemma_encode_push(done, n as u64);
            done = done.push(n as u64);
            assert(out@ =~= head + encode_words(done));
        }
        put_word(&mut out, self.key.k0);
        proof {
            lemma_encode_push(done, self.key.k0);
            done = done.push(self.key.k0);
            assert(out@ =~= head + encode_words(done));
        }
        put_word(&mut out, self.key.k1);
        proof {
            lemma_encode_push(done, self.key.k1);
            done = done.push(self.key.k1);
            assert(out@ =~= head + encode_words(done));
        }
        put_word(&mut out, self.key.k2);
        proof {
            lemma_encode_push(done, self.key.k2);
            done = done.push(self.key.k2);
            assert(out@ =~= head + encode_words(done));
        }
        put_word(&mut out, self.key.k3);
        proof {
            lemma_encode_push(done, self.key.k3);
            done = done.push(self.key.k3);
            assert(out@ =~= head + encode_words(done));
        }
        let mut i: usize = 0;
        while i < n
            invariant
                i <= n,
                n == self.sample.len(),
                out@ == head + encode_words(done),
                done == words_of(self.key, self.sample@).take(5 + i),
            decreases n - i,
        {
            let f: u64 = self.sample[i];
            put_word(&mut out, f);
            proof {
                lemma_encode_push(done, f);
                done = done.push(f);
                assert(out@ =~= head + encode_words(done));
                assert(done =~= words_of(self.key, self.sample@).take(5 + i + 1));
            }
            i += 1;
        }
        proof {
            assert(done =~= words_of(self.key, self.sample@));
            assert(head =~= seq![FORMAT_VERSION, self.precision, self.level]);
            assert forall|k: int| 0 <= k < self.sample@.len() implies retained(
                #[trigger] self.sample@[k],
                self.level as nat,
            ) by {
                assert(self.sample@.to_set().contains(self.sample@[k]));
            }
            law_round_trip(self.precision, self.level, self.key, self.sample@);
        }
        out
    }

    /// Decodes a sketch. Bytes that are not the encoding of a sketch that
    /// meets the invariant are refused, with the first fault they show.
    #[verifier::loop_isolation(false)]
    pub fn deserialize(data: &[u8]) -> (r: Result<Sketch, SketchError>)
        ensures
            match decode_fault(data@) {
                Some(fault) => r == Err::<Sketch, SketchError>(SketchError::Decode(fault)),
                None => r is Ok && r->Ok_0.wf() && r->Ok_0@ == decoded_state(data@)
                    && r->Ok_0.stored() == decoded_sample(data@),
            },
    {
        if data.len() < MIN_ENCODED_LEN {
            return Err(SketchError::Decode(DecodeFault::Truncated));
        }
        if data[0] != FORMAT_VERSION {
            return Err(SketchError::Decode(DecodeFault::UnknownVersion));
        }
        let precision: u8 = data[1];
        if precision < MIN_PRECISION || precision > MAX_PRECISION {
            return Err(SketchError::Decode(DecodeFault::PrecisionOutOfRange));
        }
        let level: u8 = data[2];
        if level > MAX_LEVEL {
            return Err(SketchError::Decode(DecodeFault::LevelOutOfRange));
        }
        proof {
            lemma_capacity_bounds(precision as nat);
        }
        let count: u64 = read_word(data, 0);
        let cap: u128 = level_step(precision);
        if count as u128 > cap {
            return Err(SketchError::Decode(DecodeFault::SampleTooLarge));
        }
        let n: usize = count as usize;
        if data.len() != MIN_ENCODED_LEN + 8 * n {
            return Err(SketchError::Decode(DecodeFault::LengthMismatch));
        }
        let key = HashKey {
            k0: read_word(data, 1),
            k1: read_word(data, 2),
            k2: read_word(data, 3),
            k3: read_word(data, 4),
        };
        let mut sample: Vec<u64> = Vec::new();
        let mut i: usize = 0;
        while i < n
            invariant
                i <= n,
                n == declared_count(data@),
                data@.len() == 43 + 8 * n,
                sample@ == decoded_sample(data@).take(i as int),
                forall|k: int|
                    0 <= k < i ==> retained(#[trigger] decoded_sample(data@)[k], level as nat),
            decreases n - i,
        {
            let f: u64 = read_word(data, 5 + i);
            if !is_retained(f, level) {
                proof {
                    assert(!retained(decoded_sample(data@)[i as int], level as nat));
                }
                return Err(SketchError::Decode(DecodeFault::NotRetained));
            }
            sample.push(f);
            proof {
                assert(sample@ =~= decoded_sample(data@).take(i + 1));
            }
            i += 1;
        }
        proof {
            assert(sample@ =~= decoded_sample(data@));
        }
        if !is_ascending(&sample) {
            return Err(SketchError::Decode(DecodeFault::NotAscending));
        }
        let sketch = Sketch { precision, level, sample, key };
        proof {
            sketch.lemma_fields();
            lemma_ascending_len(sketch.sample@);
            assert forall|f: u64| sketch.sample@.to_set().contains(f) implies retained(
                f,
                level as nat,
            ) by {
                let k = choose|k: int| 0 <= k < sketch.sample@.len() && sketch.sample@[k] == f;
                assert(retained(decoded_sample(data@)[k], level as nat));
            }
        }
        Ok(sketch)
    }
}

} // verus!
