//! The retention rule: which fingerprints survive at which level, and the
//! level at which a set of fingerprints comes to rest under a capacity.

use vstd::arithmetic::div_mod::*;
use vstd::arithmetic::power2::*;
use vstd::prelude::*;
use vstd::set_lib::*;

verus! {

/// The highest retention level. At this level only the fingerprint zero survives.
pub const MAX_LEVEL: u8 = 64;

/// A fingerprint is retained at `level` when its `level` low-order bits are all
/// zero, that is, when it is a multiple of two to the power `level`.
pub open spec fn retained(f: u64, level: nat) -> bool {
    (f as nat) % pow2(level) == 0
}

/// The fingerprints of `s` that are retained at `level`.
pub open spec fn keep(s: Set<u64>, level: nat) -> Set<u64> {
    s.filter(|f: u64| retained(f, level))
}

/// The level at which `s` comes to rest when thinning starts at `level`: the
/// first level, from `level` upwards, at which no more than `cap` fingerprints
/// of `s` are retained. The search ends at the highest level at the latest.
pub open spec fn settle_level(s: Set<u64>, level: nat, cap: nat) -> nat
    decreases 64 - level,
{
    if level >= 64 || keep(s, level).len() <= cap {
        level
    } else {
        settle_level(s, level + 1, cap)
    }
}

/// Every fingerprint is retained at level zero.
pub proof fn lemma_retained_at_zero(f: u64)
    ensures
        retained(f, 0),
{
    lemma2_to64();
}

/// Retention only narrows: what is retained at a level is retained at every lower one.
pub proof fn lemma_retained_weakens(f: u64, low: nat, high: nat)
    requires
        low <= high,
        retained(f, high),
    ensures
        retained(f, low),
{
    let d: nat = (high - low) as nat;
    lemma_pow2_adds(low, d);
    lemma_pow2_pos(low);
    lemma_pow2_pos(high);
    let q: int = (f as int) / (pow2(high) as int);
    lemma_fundamental_div_mod(f as int, pow2(high) as int);
    assert(f as int == (pow2(low) * pow2(d)) * q);
    assert((pow2(low) * pow2(d)) * q == (pow2(d) * q) * pow2(low)) by (nonlinear_arith);
    lemma_mod_multiples_basic(pow2(d) * q, pow2(low) as int);
}

/// From the highest level on, zero is the only fingerprint retained.
pub proof fn lemma_retained_at_top(f: u64, level: nat)
    requires
        level >= 64,
    ensures
        retained(f, level) <==> f == 0,
{
    lemma2_to64();
    if level > 64 {
        lemma_pow2_strictly_increases(64, level);
    }
    lemma_small_mod(f as nat, pow2(level));
}

/// Keeping at a level what was kept at a lower one is keeping at the higher one.
pub proof fn lemma_keep_twice(s: Set<u64>, low: nat, high: nat)
    requires
        low <= high,
    ensures
        keep(keep(s, low), high) == keep(s, high),
{
    assert forall|f: u64| keep(s, high).contains(f) implies keep(keep(s, low), high).contains(
        f,
    ) by {
        lemma_retained_weakens(f, low, high);
    }
    assert(keep(keep(s, low), high) =~= keep(s, high));
}

/// What is kept of a finite set is finite, and no larger than the set.
pub proof fn lemma_keep_bounded(s: Set<u64>, level: nat)
    requires
        s.finite(),
    ensures
        keep(s, level).finite(),
        keep(s, level).len() <= s.len(),
        keep(s, level).subset_of(s),
{
    lemma_len_subset(keep(s, level), s);
}

/// A set whose members are all retained at a level is kept whole at that level.
pub proof fn lemma_keep_all(s: Set<u64>, level: nat)
    requires
        forall|f: u64| s.contains(f) ==> retained(f, level),
    ensures
        keep(s, level) == s,
{
    assert(keep(s, level) =~= s);
}

/// At the highest level at most one fingerprint is kept.
pub proof fn lemma_keep_at_top(s: Set<u64>, level: nat)
    requires
        s.finite(),
        level >= 64,
    ensures
        keep(s, level).len() <= 1,
{
    let k = keep(s, level);
    lemma_keep_bounded(s, level);
    assert forall|f: u64| k.contains(f) implies f == 0 by {
        lemma_retained_at_top(f, level);
    }
    if k.contains(0u64) {
        assert(k =~= set![0u64]);
    } else {
        assert(k =~= Set::<u64>::empty());
    }
}

/// The resting level is the first level, from the start upwards, that fits the
/// capacity: it is not below the start, it fits, and no level between fits.
pub proof fn lemma_settle_level(s: Set<u64>, level: nat, cap: nat)
    requires
        s.finite(),
        cap >= 1,
    ensures
        level <= settle_level(s, level, cap),
        level <= 64 ==> settle_level(s, level, cap) <= 64,
        keep(s, settle_level(s, level, cap)).len() <= cap,
        forall|l: nat| level <= l < settle_level(s, level, cap) ==> keep(s, l).len() > cap,
    decreases 64 - level,
{
    if level >= 64 {
        lemma_keep_at_top(s, level);
    } else if keep(s, level).len() <= cap {
    } else {
        lemma_settle_level(s, level + 1, cap);
    }
}

/// Two to the power `level`, for a level up to the highest.
pub fn level_step(level: u8) -> (step: u128)
    requires
        level <= MAX_LEVEL,
    ensures
        step == pow2(level as nat),
        1 <= step <= 0x1_0000_0000_0000_0000,
{
    let mut step: u128 = 1;
    let mut i: u8 = 0;
    proof {
        lemma2_to64();
    }
    while i < level
        invariant
            i <= level <= 64,
            step == pow2(i as nat),
            step <= 0x1_0000_0000_0000_0000,
            pow2(64) == 0x1_0000_0000_0000_0000,
        decreases level - i,
    {
        proof {
            lemma_pow2_unfold((i + 1) as nat);
            if i + 1 < 64 {
                lemma_pow2_strictly_increases((i + 1) as nat, 64);
            }
        }
        step = step * 2;
        i = i + 1;
    }
    proof {
        lemma_pow2_pos(level as nat);
        if level < 64 {
            lemma_pow2_strictly_increases(level as nat, 64);
        }
    }
    step
}

/// Tests the retention rule on one fingerprint.
pub fn is_retained(f: u64, level: u8) -> (r: bool)
    ensures
        r == retained(f, level as nat),
{
    if level >= MAX_LEVEL {
        proof {
            lemma_retained_at_top(f, level as nat);
        }
        f == 0
    } else {
        let step: u128 = level_step(level);
        (f as u128) % step == 0
    }
}

} // verus!
