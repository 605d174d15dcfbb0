//! Sequences that rise strictly, and the sets of their members.

use vstd::prelude::*;

verus! {

/// Appending to a sequence adds one member to its set.
pub proof fn lemma_push_to_set(s: Seq<u64>, f: u64)
    ensures
        s.push(f).to_set() == s.to_set().insert(f),
{
    let t = s.push(f);
    assert forall|x: u64| t.to_set().contains(x) <==> s.to_set().insert(f).contains(x) by {
        if s.contains(x) {
            let k = choose|k: int| 0 <= k < s.len() && s[k] == x;
            assert(t[k] == x);
        }
        if x == f {
            assert(t[s.len() as int] == f);
        }
    }
    assert(t.to_set() =~= s.to_set().insert(f));
}

/// Whether a sequence rises strictly from each member to the next.
pub open spec fn ascending(s: Seq<u64>) -> bool {
    forall|i: int, j: int| 0 <= i < j < s.len() ==> s[i] < s[j]
}

/// A sequence that rises strictly holds nothing twice, so it is as long as
/// its set is large.
pub proof fn lemma_ascending_len(s: Seq<u64>)
    requires
        ascending(s),
    ensures
        s.no_duplicates(),
        s.len() == s.to_set().len(),
{
    assert forall|i: int, j: int| 0 <= i < s.len() && 0 <= j < s.len() && i != j implies s[i]
        != s[j] by {
        if i < j {
            assert(s[i] < s[j]);
        } else {
            assert(s[j] < s[i]);
        }
    }
    s.unique_seq_to_set();
}

/// Inserting into a sequence adds one member to its set.
pub proof fn lemma_insert_to_set(s: Seq<u64>, at: int, f: u64)
    requires
        0 <= at <= s.len(),
    ensures
        s.insert(at, f).to_set() == s.to_set().insert(f),
{
    let t = s.insert(at, f);
    assert forall|x: u64| t.to_set().contains(x) <==> s.to_set().insert(f).contains(x) by {
        if s.contains(x) {
            let k = choose|k: int| 0 <= k < s.len() && s[k] == x;
            if k < at {
                assert(t[k] == x);
            } else {
                assert(t[k + 1] == x);
            }
        }
        if x == f {
            assert(t[at] == f);
        }
        if t.contains(x) {
            let k = choose|k: int| 0 <= k < t.len() && t[k] == x;
            if k < at {
                assert(s[k] == x);
            } else if k > at {
                assert(s[k - 1] == x);
            }
        }
    }
    assert(t.to_set() =~= s.to_set().insert(f));
}

/// A set has at most one sequence that holds its members in rising order.
pub proof fn lemma_ascending_unique(s: Seq<u64>, t: Seq<u64>)
    requires
        ascending(s),
        ascending(t),
        s.to_set() == t.to_set(),
    ensures
        s == t,
    decreases s.len(),
{
    lemma_ascending_len(s);
    lemma_ascending_len(t);
    if s.len() > 0 {
        let a = s.last();
        let b = t.last();
        assert(t.to_set().contains(a)) by {
            assert(s.contains(a));
        }
        assert(s.to_set().contains(b)) by {
            assert(t.contains(b));
        }
        let k = choose|k: int| 0 <= k < t.len() && t[k] == a;
        let m = choose|m: int| 0 <= m < s.len() && s[m] == b;
        assert(a == b) by {
            if k < t.len() - 1 {
                assert(t[k] < t[t.len() - 1]);
            }
            if m < s.len() - 1 {
                assert(s[m] < s[s.len() - 1]);
            }
        }
        let s1 = s.drop_last();
        let t1 = t.drop_last();
        assert forall|x: u64| s1.to_set().contains(x) <==> t1.to_set().contains(x) by {
            if s1.contains(x) {
                let i = choose|i: int| 0 <= i < s1.len() && s1[i] == x;
                assert(s[i] < s[s.len() - 1]);
                assert(s.contains(x));
                assert(t.to_set().contains(x));
                let j = choose|j: int| 0 <= j < t.len() && t[j] == x;
                assert(t1[j] == x);
            }
            if t1.contains(x) {
                let i = choose|i: int| 0 <= i < t1.len() && t1[i] == x;
                assert(t[i] < t[t.len() - 1]);
                assert(t.contains(x));
                assert(s.to_set().contains(x));
                let j = choose|j: int| 0 <= j < s.len() && s[j] == x;
                assert(s1[j] == x);
            }
        }
        assert(s1.to_set() =~= t1.to_set());
        lemma_ascending_unique(s1, t1);
        assert(s =~= s1.push(a));
        assert(t =~= t1.push(b));
    } else {
        assert(s =~= t);
    }
}

} // verus!
