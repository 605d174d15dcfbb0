//! The mathematical model of a sketch: a precision, a retention level, a set
//! of fingerprints and a hash key, with the operations as functions on it.

use crate::retention::{keep, lemma_keep_all, lemma_keep_bounded, lemma_keep_twice, lemma_settle_level, retained, settle_level};
use vstd::arithmetic::power2::*;
use vstd::prelude::*;

verus! {

/// The lowest precision a sketch can be made with.
pub const MIN_PRECISION: u8 = 3;

/// The highest precision a sketch can be made with.
pub const MAX_PRECISION: u8 = 16;

/// The seed material of the keyed hash that turns values into fingerprints.
#[derive(Clone, Copy, Debug, PartialEq, Eq, Structural)]
pub struct HashKey {
    pub k0: u64,
    pub k1: u64,
    pub k2: u64,
    pub k3: u64,
}

/// The number of fingerprints a sketch of the given precision may hold: two
/// to the power of the precision.
pub open spec fn capacity_of(precision: nat) -> nat {
    pow2(precision)
}

/// The higher of two levels.
pub open spec fn higher(x: nat, y: nat) -> nat {
    if x >= y {
        x
    } else {
        y
    }
}

/// What a sketch is, as a mathematical value.
pub struct SketchState {
    pub precision: nat,
    pub level: nat,
    pub sample: Set<u64>,
    pub key: HashKey,
}

/// The state of a sketch that has seen nothing.
pub open spec fn empty_state(precision: nat, key: HashKey) -> SketchState {
    SketchState { precision, level: 0, sample: Set::empty(), key }
}

impl SketchState {
    /// The most fingerprints this sketch may hold.
    pub open spec fn capacity(self) -> nat {
        capacity_of(self.precision)
    }

    /// The invariant of a sketch: the precision and the level are in range,
    /// the sample fits the capacity, and every fingerprint in it is retained
    /// at the current level.
    pub open spec fn wf(self) -> bool {
        &&& MIN_PRECISION <= self.precision <= MAX_PRECISION
        &&& self.level <= 64
        &&& self.sample.finite()
        &&& self.sample.len() <= self.capacity()
        &&& forall|f: u64| self.sample.contains(f) ==> retained(f, self.level)
    }

    /// The estimated number of distinct fingerprints seen: the size of the
    /// sample, scaled by two to the power of the level.
    pub open spec fn estimate(self) -> nat {
        self.sample.len() * pow2(self.level)
    }

    /// Whether the sketch has retained nothing and has never thinned.
    pub open spec fn is_empty(self) -> bool {
        self.sample.len() == 0 && self.level == 0
    }

    /// This sketch after it has taken in the fingerprints `s` at a level not
    /// below `level`: the level rises to the first at which what is retained
    /// of `s` fits the capacity, and the sample is what is retained there.
    pub open spec fn settled(self, s: Set<u64>, level: nat) -> SketchState {
        let rest = settle_level(s, level, self.capacity());
        SketchState { level: rest, sample: keep(s, rest), ..self }
    }

    /// This sketch after one more fingerprint has been offered to it.
    pub open spec fn insert(self, f: u64) -> SketchState {
        self.settled(self.sample.insert(f), self.level)
    }

    /// This sketch after each fingerprint of `fs` has been offered to it, in order.
    pub open spec fn insert_all(self, fs: Seq<u64>) -> SketchState
        decreases fs.len(),
    {
        if fs.len() == 0 {
            self
        } else {
            self.insert_all(fs.drop_last()).insert(fs.last())
        }
    }

    /// Whether two sketches can be merged: same precision, same hash key.
    pub open spec fn compatible(self, other: SketchState) -> bool {
        self.precision == other.precision && self.key == other.key
    }

    /// This sketch after `other` has been merged into it: the union of the two
    /// samples, taken in at the higher of the two levels.
    pub open spec fn merge(self, other: SketchState) -> SketchState {
        self.settled(self.sample.union(other.sample), higher(self.level, other.level))
    }
}

/// Taking in a set, or only what of it is retained at the starting level,
/// comes to the same resting level.
pub proof fn lemma_settle_after_keep(s: Set<u64>, level: nat, cap: nat)
    ensures
        settle_level(keep(s, level), level, cap) == settle_level(s, level, cap),
        keep(keep(s, level), settle_level(s, level, cap)) == keep(
            s,
            settle_level(s, level, cap),
        ),
{
    lemma_settle_from(s, level, level, cap);
}

/// The same, for a search that starts above the level of the first keeping.
pub proof fn lemma_settle_from(s: Set<u64>, base: nat, level: nat, cap: nat)
    requires
        base <= level,
    ensures
        settle_level(keep(s, base), level, cap) == settle_level(s, level, cap),
        keep(keep(s, base), settle_level(s, level, cap)) == keep(
            s,
            settle_level(s, level, cap),
        ),
    decreases 64 - level,
{
    lemma_keep_twice(s, base, level);
    if level >= 64 || keep(s, level).len() <= cap {
    } else {
        lemma_settle_from(s, base, level + 1, cap);
    }
}

/// The capacity of a precision in range is at least eight and at most two to
/// the power sixteen.
pub proof fn lemma_capacity_bounds(precision: nat)
    requires
        MIN_PRECISION <= precision <= MAX_PRECISION,
    ensures
        8 <= capacity_of(precision) <= 0x10000,
{
    lemma2_to64();
    if precision > 3 {
        lemma_pow2_strictly_increases(3, precision);
    }
    if precision < 16 {
        lemma_pow2_strictly_increases(precision, 16);
    }
}

/// Taking in a finite set leaves a sketch that meets the invariant.
pub proof fn lemma_settled_wf(st: SketchState, s: Set<u64>, level: nat)
    requires
        MIN_PRECISION <= st.precision <= MAX_PRECISION,
        s.finite(),
        level <= 64,
    ensures
        st.settled(s, level).wf(),
        st.settled(s, level).precision == st.precision,
        st.settled(s, level).key == st.key,
        level <= st.settled(s, level).level,
{
    lemma_capacity_bounds(st.precision);
    lemma_settle_level(s, level, st.capacity());
    lemma_keep_bounded(s, settle_level(s, level, st.capacity()));
}

/// Taking in the sample a sketch already holds, at its own level, changes nothing.
pub proof fn lemma_settled_same(st: SketchState)
    requires
        st.wf(),
    ensures
        st.settled(st.sample, st.level) == st,
{
    lemma_keep_all(st.sample, st.level);
}

} // verus!
