//! The sketch: a bounded sample of fingerprints at a retention level.

use crate::error::SketchError;
use crate::model::{
    capacity_of, empty_state, higher, lemma_capacity_bounds, lemma_settle_after_keep, HashKey,
    SketchState, MAX_PRECISION, MIN_PRECISION,
};
use crate::order::{
    ascending, lemma_ascending_len, lemma_ascending_unique, lemma_insert_to_set,
    lemma_push_to_set,
};
use crate::retention::{
    is_retained, keep, lemma_keep_all, lemma_keep_at_top, lemma_keep_bounded, lemma_keep_twice,
    level_step, retained, settle_level, MAX_LEVEL,
};
use vstd::prelude::*;

verus! {

/// A distinct-count sketch. It owns its sample and its hash key.
#[derive(Debug)]
pub struct Sketch {
    pub(crate) precision: u8,
    pub(crate) level: u8,
    pub(crate) sample: Vec<u64>,
    pub(crate) key: HashKey,
}

impl View for Sketch {
    type V = SketchState;

    closed spec fn view(&self) -> SketchState {
        SketchState {
            precision: self.precision as nat,
            level: self.level as nat,
            sample: self.sample@.to_set(),
            key: self.key,
        }
    }
}

/// The hash key of a sketch that was made without one: all zero.
pub open spec fn default_key() -> HashKey {
    HashKey { k0: 0, k1: 0, k2: 0, k3: 0 }
}

/// The first place in `v` whose member is not below `f`, or the length of
/// `v` if there is none.
fn lower_bound(v: &Vec<u64>, f: u64) -> (at: usize)
    requires
        ascending(v@),
    ensures
        at <= v.len(),
        forall|k: int| 0 <= k < at ==> v@[k] < f,
        forall|k: int| at <= k < v.len() ==> v@[k] >= f,
{
    let mut at: usize = 0;
    while at < v.len() && v[at] < f
        invariant
            at <= v.len(),
            forall|k: int| 0 <= k < at ==> v@[k] < f,
        decreases v.len() - at,
    {
        at += 1;
    }
    proof {
        assert forall|k: int| at <= k < v.len() implies v@[k] >= f by {
            if k > at {
                assert(v@[at as int] < v@[k]);
            }
        }
    }
    at
}

/// The members of `v` that are retained at `level`, in their order.
fn retain_level(v: &Vec<u64>, level: u8) -> (out: Vec<u64>)
    requires
        ascending(v@),
    ensures
        ascending(out@),
        out@.to_set() == keep(v@.to_set(), level as nat),
        out.len() <= v.len(),
{
    let mut out: Vec<u64> = Vec::new();
    let mut i: usize = 0;
    while i < v.len()
        invariant
            i <= v.len(),
            ascending(v@),
            out.len() <= i,
            ascending(out@),
            forall|m: int, k: int| 0 <= m < out.len() && i <= k < v.len() ==> out@[m] < v@[k],
            out@.to_set() == keep(v@.take(i as int).to_set(), level as nat),
        decreases v.len() - i,
    {
        let f: u64 = v[i];
        proof {
            lemma_push_to_set(out@, f);
            lemma_push_to_set(v@.take(i as int), f);
            assert(v@.take(i + 1) =~= v@.take(i as int).push(f));
        }
        if is_retained(f, level) {
            out.push(f);
        }
        proof {
            assert(out@.to_set() =~= keep(v@.take(i + 1).to_set(), level as nat));
        }
        i += 1;
    }
    proof {
        assert(v@.take(i as int) =~= v@);
    }
    out
}

/// The members of `xs`, and those of `ys` that are retained at `level`, in
/// rising order.
fn merge_retained(xs: &Vec<u64>, ys: &Vec<u64>, level: u8) -> (out: Vec<u64>)
    requires
        ascending(xs@),
        ascending(ys@),
    ensures
        ascending(out@),
        out@.to_set() == xs@.to_set().union(keep(ys@.to_set(), level as nat)),
{
    let mut out: Vec<u64> = Vec::new();
    let mut i: usize = 0;
    let mut j: usize = 0;
    proof {
        assert(out@.to_set() =~= xs@.take(0).to_set().union(
            keep(ys@.take(0).to_set(), level as nat),
        ));
    }
    while i < xs.len() || j < ys.len()
        invariant
            i <= xs.len(),
            j <= ys.len(),
            ascending(xs@),
            ascending(ys@),
            ascending(out@),
            forall|m: int, k: int| 0 <= m < out.len() && i <= k < xs.len() ==> out@[m] < xs@[k],
            forall|m: int, k: int| 0 <= m < out.len() && j <= k < ys.len() ==> out@[m] < ys@[k],
            out@.to_set() == xs@.take(i as int).to_set().union(
                keep(ys@.take(j as int).to_set(), level as nat),
            ),
        decreases (xs.len() - i) + (ys.len() - j),
    {
        let ghost before = out@;
        if j >= ys.len() || (i < xs.len() && xs[i] < ys[j]) {
            let f: u64 = xs[i];
            proof {
                lemma_push_to_set(before, f);
                lemma_push_to_set(xs@.take(i as int), f);
                assert(xs@.take(i + 1) =~= xs@.take(i as int).push(f));
            }
            out.push(f);
            i += 1;
        } else if i >= xs.len() || ys[j] < xs[i] {
            let f: u64 = ys[j];
            proof {
                lemma_push_to_set(before, f);
                lemma_push_to_set(ys@.take(j as int), f);
                assert(ys@.take(j + 1) =~= ys@.take(j as int).push(f));
            }
            if is_retained(f, level) {
                out.push(f);
            }
            j += 1;
        } else {
            let f: u64 = xs[i];
            proof {
                lemma_push_to_set(before, f);
                lemma_push_to_set(xs@.take(i as int), f);
                lemma_push_to_set(ys@.take(j as int), f);
                assert(xs@.take(i + 1) =~= xs@.take(i as int).push(f));
                assert(ys@.take(j + 1) =~= ys@.take(j as int).push(f));
            }
            out.push(f);
            i += 1;
            j += 1;
        }
        proof {
            assert(out@.to_set() =~= xs@.take(i as int).to_set().union(
                keep(ys@.take(j as int).to_set(), level as nat),
            ));
        }
    }
    proof {
        assert(xs@.take(i as int) =~= xs@);
        assert(ys@.take(j as int) =~= ys@);
    }
    out
}

impl Sketch {
    /// The fingerprints of the sample, in the order in which they are stored.
    pub closed spec fn stored(&self) -> Seq<u64> {
        self.sample@
    }

    /// Whether the stored fingerprints rise strictly.
    pub open spec fn ordered(&self) -> bool {
        ascending(self.stored())
    }

    /// What the model and the stored order are, in terms of the fields.
    pub(crate) proof fn lemma_fields(&self)
        ensures
            self@.precision == self.precision,
            self@.level == self.level,
            self@.key == self.key,
            self@.sample == self.sample@.to_set(),
            self.stored() == self.sample@,
    {
    }

    /// The sample of the model is the set of the stored fingerprints.
    pub proof fn lemma_stored(&self)
        ensures
            self@.sample == self.stored().to_set(),
            self.ordered() ==> self@.sample.len() == self.stored().len(),
    {
        if self.ordered() {
            lemma_ascending_len(self.sample@);
        }
    }

    /// Sketches that are the same mathematical value store the same
    /// fingerprints in the same order, and so have the same encoding.
    pub proof fn lemma_one_order(&self, other: &Sketch)
        requires
            self.wf(),
            other.wf(),
            self@ == other@,
        ensures
            self.stored() == other.stored(),
    {
        lemma_ascending_unique(self.sample@, other.sample@);
    }

    /// The invariant of a sketch.
    pub open spec fn wf(&self) -> bool {
        self@.wf() && self.ordered()
    }

    /// Makes an empty sketch with the all-zero hash key.
    pub fn new(precision: u8) -> (r: Result<Sketch, SketchError>)
        ensures
            MIN_PRECISION <= precision <= MAX_PRECISION ==> r is Ok && r->Ok_0.wf() && r->Ok_0@
                == empty_state(precision as nat, default_key()),
            !(MIN_PRECISION <= precision <= MAX_PRECISION) ==> r == Err::<Sketch, SketchError>(
                SketchError::InvalidPrecision(precision),
            ),
    {
        Sketch::with_hash_key(precision, HashKey { k0: 0, k1: 0, k2: 0, k3: 0 })
    }

    /// Makes an empty sketch that fingerprints values under `key`.
    pub fn with_hash_key(precision: u8, key: HashKey) -> (r: Result<Sketch, SketchError>)
        ensures
            MIN_PRECISION <= precision <= MAX_PRECISION ==> r is Ok && r->Ok_0.wf() && r->Ok_0@
                == empty_state(precision as nat, key),
            !(MIN_PRECISION <= precision <= MAX_PRECISION) ==> r == Err::<Sketch, SketchError>(
                SketchError::InvalidPrecision(precision),
            ),
    {
        if precision < MIN_PRECISION || precision > MAX_PRECISION {
            return Err(SketchError::InvalidPrecision(precision));
        }
        let s = Sketch { precision, level: 0, sample: Vec::new(), key };
        proof {
            lemma_capacity_bounds(precision as nat);
            assert(s.sample@.to_set() =~= Set::<u64>::empty());
        }
        Ok(s)
    }

    /// The precision the sketch was made with.
    pub fn precision(&self) -> (p: u8)
        ensures
            p == self@.precision,
    {
        self.precision
    }

    /// The current retention level.
    pub fn level(&self) -> (l: u8)
        ensures
            l == self@.level,
    {
        self.level
    }

    /// The hash key the sketch was made with.
    pub fn hash_key(&self) -> (k: HashKey)
        ensures
            k == self@.key,
    {
        self.key
    }

    /// The most fingerprints the sample may hold.
    pub fn capacity(&self) -> (c: usize)
        requires
            self.wf(),
        ensures
            c == self@.capacity(),
    {
        proof {
            lemma_capacity_bounds(self.precision as nat);
        }
        let step: u128 = level_step(self.precision);
        step as usize
    }

    /// The number of fingerprints in the sample.
    pub fn sample_len(&self) -> (n: usize)
        requires
            self.wf(),
        ensures
            n == self@.sample.len(),
            n <= self@.capacity(),
    {
        proof {
            lemma_ascending_len(self.sample@);
        }
        self.sample.len()
    }

    /// Whether the sketch has retained nothing and has never thinned.
    pub fn is_empty(&self) -> (r: bool)
        requires
            self.wf(),
        ensures
            r == self@.is_empty(),
    {
        proof {
            lemma_ascending_len(self.sample@);
        }
        self.sample.len() == 0 && self.level == 0
    }

    /// The estimated number of distinct fingerprints offered so far.
    pub fn estimate(&self) -> (n: u128)
        requires
            self.wf(),
        ensures
            n == self@.estimate(),
    {
        let step: u128 = level_step(self.level);
        let len: usize = self.sample.len();
        proof {
            lemma_ascending_len(self.sample@);
            lemma_capacity_bounds(self.precision as nat);
            assert(len * step <= 0x10000 * 0x1_0000_0000_0000_0000) by (nonlinear_arith)
                requires
                    0 <= len <= 0x10000,
                    0 <= step <= 0x1_0000_0000_0000_0000,
            ;
        }
        (len as u128) * step
    }

    /// Forgets everything: the sketch is as it was when it was made.
    pub fn clear(&mut self)
        requires
            old(self).wf(),
        ensures
            final(self).wf(),
            final(self)@ == empty_state(old(self)@.precision, old(self)@.key),
    {
        self.level = 0;
        self.sample = Vec::new();
        proof {
            assert(self.sample@.to_set() =~= Set::<u64>::empty());
        }
    }

    /// An independent sketch in the same state.
    pub fn copy(&self) -> (c: Sketch)
        requires
            self.wf(),
        ensures
            c.wf(),
            c@ == self@,
            c.stored() == self.stored(),
    {
        let mut sample: Vec<u64> = Vec::new();
        let mut i: usize = 0;
        while i < self.sample.len()
            invariant
                i <= self.sample.len(),
                sample@ == self.sample@.take(i as int),
            decreases self.sample.len() - i,
        {
            sample.push(self.sample[i]);
            proof {
                assert(sample@ =~= self.sample@.take(i + 1));
            }
            i += 1;
        }
        proof {
            assert(self.sample@.take(i as int) =~= self.sample@);
        }
        Sketch { precision: self.precision, level: self.level, sample, key: self.key }
    }

    /// Raises the level until the sample fits the capacity, dropping at each
    /// step what the new level no longer retains.
    fn thin(&mut self)
        requires
            MIN_PRECISION <= old(self).precision <= MAX_PRECISION,
            old(self).level <= MAX_LEVEL,
            ascending(old(self).sample@),
            forall|f: u64|
                old(self).sample@.contains(f) ==> retained(f, old(self).level as nat),
        ensures
            final(self).wf(),
            final(self)@ == old(self)@.settled(old(self)@.sample, old(self)@.level),
    {
        let ghost s0 = self.sample@.to_set();
        let ghost l0 = self.level as nat;
        let ghost cap = capacity_of(self.precision as nat);
        proof {
            lemma_capacity_bounds(self.precision as nat);
            lemma_keep_all(s0, l0);
        }
        let limit: usize = level_step(self.precision) as usize;
        while self.sample.len() > limit && self.level < MAX_LEVEL
            invariant
                self.precision == old(self).precision,
                self.key == old(self).key,
                self.level <= 64,
                l0 <= self.level,
                limit == cap,
                cap >= 8,
                s0.finite(),
                ascending(self.sample@),
                self.sample@.to_set() == keep(s0, self.level as nat),
                settle_level(s0, l0, cap) == settle_level(s0, self.level as nat, cap),
            decreases 64 - self.level,
        {
            proof {
                lemma_ascending_len(self.sample@);
                lemma_keep_twice(s0, self.level as nat, (self.level + 1) as nat);
            }
            self.level = self.level + 1;
            self.sample = retain_level(&self.sample, self.level);
        }
        proof {
            lemma_ascending_len(self.sample@);
            lemma_keep_bounded(s0, self.level as nat);
            if self.level >= 64 {
                lemma_keep_at_top(s0, self.level as nat);
            }
            assert(settle_level(s0, self.level as nat, cap) == self.level);
        }
    }

    /// Offers one fingerprint to the sketch. One that the current level does
    /// not retain, or that the sample already holds, changes nothing; another
    /// joins the sample, which is thinned if it then exceeds the capacity.
    pub fn insert_fingerprint(&mut self, fingerprint: u64)
        requires
            old(self).wf(),
        ensures
            final(self).wf(),
            final(self)@ == old(self)@.insert(fingerprint),
    {
        let ghost s0 = self.sample@.to_set();
        let ghost l0 = self.level as nat;
        if is_retained(fingerprint, self.level) {
            let at: usize = lower_bound(&self.sample, fingerprint);
            if at == self.sample.len() || self.sample[at] != fingerprint {
                proof {
                    lemma_insert_to_set(self.sample@, at as int, fingerprint);
                }
                self.sample.insert(at, fingerprint);
            } else {
                proof {
                    assert(s0.contains(self.sample@[at as int]));
                }
            }
        }
        proof {
            assert(self.sample@.to_set() =~= keep(s0.insert(fingerprint), l0));
            lemma_settle_after_keep(
                s0.insert(fingerprint),
                l0,
                capacity_of(self.precision as nat),
            );
        }
        self.thin();
    }

    /// Offers each fingerprint of `fingerprints` to the sketch, in order.
    pub fn insert_many_fingerprints(&mut self, fingerprints: Vec<u64>)
        requires
            old(self).wf(),
        ensures
            final(self).wf(),
            final(self)@ == old(self)@.insert_all(fingerprints@),
    {
        let mut i: usize = 0;
        while i < fingerprints.len()
            invariant
                i <= fingerprints.len(),
                self.wf(),
                self@ == old(self)@.insert_all(fingerprints@.take(i as int)),
            decreases fingerprints.len() - i,
        {
            proof {
                assert(fingerprints@.take(i + 1).drop_last() =~= fingerprints@.take(i as int));
            }
            self.insert_fingerprint(fingerprints[i]);
            i += 1;
        }
        proof {
            assert(fingerprints@.take(i as int) =~= fingerprints@);
        }
    }

    /// Merges `other` into this sketch, so that it stands for the union of the
    /// two streams. Sketches that differ in precision or in hash key are not
    /// merged: the call fails and this sketch stays as it was. `other` is
    /// never changed.
    pub fn merge_into(&mut self, other: &Sketch) -> (r: Result<(), SketchError>)
        requires
            old(self).wf(),
            other.wf(),
        ensures
            final(self).wf(),
            old(self)@.compatible(other@) ==> r is Ok && final(self)@ == old(self)@.merge(
                other@,
            ),
            !old(self)@.compatible(other@) ==> r == Err::<(), SketchError>(
                SketchError::Incompatible,
            ) && *final(self) == *old(self),
    {
        if self.precision != other.precision || self.key != other.key {
            return Err(SketchError::Incompatible);
        }
        let ghost a = self.sample@.to_set();
        let ghost b = other.sample@.to_set();
        let ghost top: nat = higher(self.level as nat, other.level as nat);
        if other.level > self.level {
            self.level = other.level;
            self.sample = retain_level(&self.sample, self.level);
        } else {
            proof {
                lemma_keep_all(a, top);
            }
        }
        self.sample = merge_retained(&self.sample, &other.sample, self.level);
        proof {
            assert(self.sample@.to_set() =~= keep(a.union(b), top));
            lemma_settle_after_keep(a.union(b), top, capacity_of(self.precision as nat));
            assert forall|f: u64| self.sample@.contains(f) implies retained(f, top) by {
                assert(keep(a.union(b), top).contains(f));
            }
        }
        self.thin();
        Ok(())
    }
}

} // verus!
