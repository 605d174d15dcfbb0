//! What holds of the model's operations, whatever the sketches and fingerprints.

use crate::model::{
    capacity_of, empty_state, higher, lemma_capacity_bounds, lemma_settle_after_keep,
    lemma_settled_same, lemma_settled_wf, HashKey, SketchState, MAX_PRECISION, MIN_PRECISION,
};
use crate::order::lemma_push_to_set;
use crate::retention::{
    keep, lemma_keep_all, lemma_keep_bounded, lemma_retained_at_zero, lemma_retained_weakens,
    lemma_settle_level, retained, settle_level,
};
use vstd::arithmetic::power2::*;
use vstd::prelude::*;
use vstd::set_lib::*;

verus! {

/// An empty sketch meets the invariant, is empty, and estimates zero.
pub proof fn law_empty(precision: nat, key: HashKey)
    requires
        MIN_PRECISION <= precision <= MAX_PRECISION,
    ensures
        empty_state(precision, key).wf(),
        empty_state(precision, key).is_empty(),
        empty_state(precision, key).estimate() == 0,
{
    lemma_capacity_bounds(precision);
    assert(0 * pow2(0) == 0);
}

/// The estimate is zero exactly when the sample is empty; an empty sketch has
/// an empty sample.
pub proof fn law_estimate_zero(st: SketchState)
    ensures
        st.estimate() == 0 <==> st.sample.len() == 0,
        st.is_empty() ==> st.estimate() == 0,
{
    lemma_pow2_pos(st.level);
    let n = st.sample.len();
    let p = pow2(st.level);
    assert(n * p == 0 <==> n == 0) by (nonlinear_arith)
        requires
            p > 0,
            n >= 0,
    ;
}

/// The estimate is a multiple of two to the power of the level.
pub proof fn law_estimate_multiple(st: SketchState)
    ensures
        st.estimate() % pow2(st.level) == 0,
{
    lemma_pow2_pos(st.level);
    vstd::arithmetic::div_mod::lemma_mod_multiples_basic(
        st.sample.len() as int,
        pow2(st.level) as int,
    );
}

/// Offering a fingerprint keeps the invariant, so the sample never exceeds the
/// capacity; the precision and the key stay, and the level never falls.
pub proof fn law_insert_keeps_invariant(st: SketchState, f: u64)
    requires
        st.wf(),
    ensures
        st.insert(f).wf(),
        st.insert(f).sample.len() <= st.capacity(),
        st.insert(f).precision == st.precision,
        st.insert(f).key == st.key,
        st.insert(f).level >= st.level,
{
    lemma_settled_wf(st, st.sample.insert(f), st.level);
}

/// Offering a sequence of fingerprints keeps the invariant, and the level never falls.
pub proof fn law_insert_all_keeps_invariant(st: SketchState, fs: Seq<u64>)
    requires
        st.wf(),
    ensures
        st.insert_all(fs).wf(),
        st.insert_all(fs).sample.len() <= st.capacity(),
        st.insert_all(fs).precision == st.precision,
        st.insert_all(fs).key == st.key,
        st.insert_all(fs).level >= st.level,
    decreases fs.len(),
{
    if fs.len() > 0 {
        law_insert_all_keeps_invariant(st, fs.drop_last());
        law_insert_keeps_invariant(st.insert_all(fs.drop_last()), fs.last());
    }
}

/// Merging keeps the invariant, so the sample never exceeds the capacity; the
/// level is not below that of either sketch.
pub proof fn law_merge_keeps_invariant(a: SketchState, b: SketchState)
    requires
        a.wf(),
        b.wf(),
    ensures
        a.merge(b).wf(),
        a.merge(b).sample.len() <= a.capacity(),
        a.merge(b).precision == a.precision,
        a.merge(b).key == a.key,
        a.merge(b).level >= a.level,
        a.merge(b).level >= b.level,
{
    lemma_settled_wf(a, a.sample.union(b.sample), higher(a.level, b.level));
}

/// A fingerprint that the current level does not retain changes nothing.
pub proof fn law_insert_filtered(st: SketchState, f: u64)
    requires
        st.wf(),
        !retained(f, st.level),
    ensures
        st.insert(f) == st,
{
    assert(keep(st.sample.insert(f), st.level) =~= st.sample);
    lemma_settle_after_keep(st.sample.insert(f), st.level, st.capacity());
    lemma_settled_same(st);
}

/// A fingerprint that the sample already holds changes nothing.
pub proof fn law_insert_present(st: SketchState, f: u64)
    requires
        st.wf(),
        st.sample.contains(f),
    ensures
        st.insert(f) == st,
{
    assert(st.sample.insert(f) =~= st.sample);
    lemma_settled_same(st);
}

/// Below the capacity a retained fingerprint simply joins the sample.
pub proof fn law_insert_below_capacity(st: SketchState, f: u64)
    requires
        st.wf(),
        retained(f, st.level),
        st.sample.insert(f).len() <= st.capacity(),
    ensures
        st.insert(f).level == st.level,
        st.insert(f).sample == st.sample.insert(f),
{
    lemma_keep_all(st.sample.insert(f), st.level);
}

/// Offering a fingerprint a second time changes nothing.
pub proof fn law_insert_twice(st: SketchState, f: u64)
    requires
        st.wf(),
    ensures
        st.insert(f).insert(f) == st.insert(f),
        st.insert(f).insert(f).estimate() == st.insert(f).estimate(),
{
    let once = st.insert(f);
    law_insert_keeps_invariant(st, f);
    if retained(f, once.level) {
        assert(once.sample.contains(f));
        law_insert_present(once, f);
    } else {
        law_insert_filtered(once, f);
    }
}

/// Offering a fingerprint any number of times more changes nothing.
pub proof fn law_insert_repeated(st: SketchState, f: u64, times: nat)
    requires
        st.wf(),
    ensures
        st.insert(f).insert_all(Seq::new(times, |i: int| f)) == st.insert(f),
    decreases times,
{
    let all = Seq::new(times, |i: int| f);
    if times > 0 {
        assert(all.drop_last() =~= Seq::new((times - 1) as nat, |i: int| f));
        law_insert_repeated(st, f, (times - 1) as nat);
        law_insert_twice(st, f);
    }
}

/// While the distinct fingerprints offered to an empty sketch are no more
/// than its capacity, the sketch holds exactly them at level zero, and its
/// estimate is their exact number.
pub proof fn law_exact_while_fits(precision: nat, key: HashKey, fs: Seq<u64>)
    requires
        MIN_PRECISION <= precision <= MAX_PRECISION,
        fs.to_set().len() <= capacity_of(precision),
    ensures
        empty_state(precision, key).insert_all(fs).level == 0,
        empty_state(precision, key).insert_all(fs).sample == fs.to_set(),
        empty_state(precision, key).insert_all(fs).estimate() == fs.to_set().len(),
    decreases fs.len(),
{
    let start = empty_state(precision, key);
    lemma2_to64();
    if fs.len() == 0 {
        assert(fs.to_set() =~= Set::<u64>::empty());
        assert(0 * pow2(0) == 0);
    } else {
        let front = fs.drop_last();
        let f = fs.last();
        vstd::seq_lib::seq_to_set_is_finite(fs);
        assert(fs =~= front.push(f));
        lemma_push_to_set(front, f);
        lemma_len_subset(front.to_set(), fs.to_set());
        law_exact_while_fits(precision, key, front);
        law_empty(precision, key);
        law_insert_all_keeps_invariant(start, front);
        lemma_retained_at_zero(f);
        law_insert_below_capacity(start.insert_all(front), f);
        assert(fs.to_set().len() * pow2(0) == fs.to_set().len());
    }
}

/// An empty sketch that is offered `k` distinct fingerprints, `k` no more than
/// its capacity, estimates exactly `k` and stays at level zero.
pub proof fn law_exact_below_capacity(precision: nat, key: HashKey, fs: Seq<u64>)
    requires
        MIN_PRECISION <= precision <= MAX_PRECISION,
        fs.no_duplicates(),
        fs.len() <= capacity_of(precision),
    ensures
        empty_state(precision, key).insert_all(fs).level == 0,
        empty_state(precision, key).insert_all(fs).estimate() == fs.len(),
{
    fs.unique_seq_to_set();
    law_exact_while_fits(precision, key, fs);
}

/// Merging is commutative: either order gives the same sketch, and so the
/// same estimate and the same behaviour ever after.
pub proof fn law_merge_commutes(a: SketchState, b: SketchState)
    requires
        a.compatible(b),
    ensures
        a.merge(b) == b.merge(a),
        a.merge(b).estimate() == b.merge(a).estimate(),
{
    assert(a.sample.union(b.sample) =~= b.sample.union(a.sample));
}

/// Merging a sketch with itself gives the sketch back.
pub proof fn law_merge_idempotent(a: SketchState)
    requires
        a.wf(),
    ensures
        a.merge(a) == a,
{
    assert(a.sample.union(a.sample) =~= a.sample);
    lemma_settled_same(a);
}

/// Merging an empty sketch into a sketch changes nothing.
pub proof fn law_merge_empty(a: SketchState)
    requires
        a.wf(),
    ensures
        a.merge(empty_state(a.precision, a.key)) == a,
{
    assert(a.sample.union(Set::<u64>::empty()) =~= a.sample);
    lemma_settled_same(a);
}

/// Two sets of which the same is kept at every level from `level` upwards
/// come to rest at the same level from there.
pub proof fn lemma_settle_agree(x: Set<u64>, y: Set<u64>, level: nat, cap: nat)
    requires
        forall|l: nat| l >= level ==> #[trigger] keep(x, l) == keep(y, l),
    ensures
        settle_level(x, level, cap) == settle_level(y, level, cap),
    decreases 64 - level,
{
    assert(keep(x, level) == keep(y, level));
    if level >= 64 || keep(x, level).len() <= cap {
    } else {
        lemma_settle_agree(x, y, level + 1, cap);
    }
}

/// A search for the resting level may start above levels that do not fit.
pub proof fn lemma_settle_skip(s: Set<u64>, from: nat, to: nat, cap: nat)
    requires
        from <= to <= 64,
        forall|l: nat| from <= l < to ==> #[trigger] keep(s, l).len() > cap,
    ensures
        settle_level(s, from, cap) == settle_level(s, to, cap),
    decreases to - from,
{
    if from < to {
        assert(keep(s, from).len() > cap);
        lemma_settle_skip(s, from + 1, to, cap);
    }
}

/// Merging two sketches into a third, one after the other, is taking in the
/// union of the three samples at the highest of the three levels.
pub proof fn lemma_merge_twice(a: SketchState, b: SketchState, c: SketchState)
    requires
        a.wf(),
        b.wf(),
        c.wf(),
        a.compatible(b),
        a.compatible(c),
    ensures
        a.merge(b).merge(c) == a.settled(
            a.sample.union(b.sample).union(c.sample),
            higher(higher(a.level, b.level), c.level),
        ),
{
    let cap = a.capacity();
    let both = a.sample.union(b.sample);
    let all = both.union(c.sample);
    let top_ab = higher(a.level, b.level);
    let top = higher(top_ab, c.level);
    let ab = a.merge(b);
    let next = higher(ab.level, c.level);
    let mixed = ab.sample.union(c.sample);
    law_merge_keeps_invariant(a, b);
    lemma_capacity_bounds(a.precision);
    lemma_settle_level(both, top_ab, cap);
    assert forall|l: nat| l >= next implies #[trigger] keep(mixed, l) == keep(all, l) by {
        assert forall|x: u64| keep(all, l).contains(x) implies keep(mixed, l).contains(x) by {
            lemma_retained_weakens(x, ab.level, l);
        }
        assert(keep(mixed, l) =~= keep(all, l));
    }
    lemma_settle_agree(mixed, all, next, cap);
    assert forall|l: nat| top <= l < next implies #[trigger] keep(all, l).len() > cap by {
        assert(keep(both, l).len() > cap);
        lemma_keep_bounded(all, l);
        assert(keep(both, l).subset_of(keep(all, l)));
        lemma_len_subset(keep(both, l), keep(all, l));
    }
    lemma_settle_skip(all, top, next, cap);
    lemma_settle_level(all, next, cap);
    let rest = settle_level(all, top, cap);
    assert(keep(mixed, rest) == keep(all, rest));
}

/// Merging is associative: however three sketches are merged, the same
/// sketch results, and so the same estimate.
pub proof fn law_merge_associates(a: SketchState, b: SketchState, c: SketchState)
    requires
        a.wf(),
        b.wf(),
        c.wf(),
        a.compatible(b),
        a.compatible(c),
    ensures
        a.merge(b).merge(c) == a.merge(b.merge(c)),
        a.merge(b).merge(c).estimate() == a.merge(b.merge(c)).estimate(),
{
    law_merge_keeps_invariant(b, c);
    lemma_merge_twice(a, b, c);
    lemma_merge_twice(b, c, a);
    law_merge_commutes(a, b.merge(c));
    assert(a.sample.union(b.sample).union(c.sample) =~= b.sample.union(c.sample).union(
        a.sample,
    ));
}

} // verus!
