//! Counting how often a value occurs in a sequence.

use vstd::prelude::*;

verus! {

/// The number of positions of `s` that hold `v`.
pub open spec fn occurrences<T>(s: Seq<T>, v: T) -> nat
    decreases s.len(),
{
    if s.len() == 0 {
        0
    } else {
        occurrences(s.drop_last(), v) + if s.last() == v {
            1nat
        } else {
            0nat
        }
    }
}

/// Appending `x` raises the count of `x` by one and leaves every other count as it was.
pub proof fn lemma_occurrences_push<T>(s: Seq<T>, x: T, v: T)
    ensures
        occurrences(s.push(x), v) == occurrences(s, v) + if x == v {
            1nat
        } else {
            0nat
        },
{
    assert(s.push(x).drop_last() =~= s);
}

/// Replacing the value at one position lowers the count of the old value by one and
/// raises the count of the new value by one.
pub proof fn lemma_occurrences_update<T>(s: Seq<T>, i: int, x: T, v: T)
    requires
        0 <= i < s.len(),
    ensures
        occurrences(s.update(i, x), v) + (if s[i] == v {
            1nat
        } else {
            0nat
        }) == occurrences(s, v) + if x == v {
            1nat
        } else {
            0nat
        },
    decreases s.len(),
{
    if i == s.len() - 1 {
        assert(s.update(i, x).drop_last() =~= s.drop_last());
    } else {
        lemma_occurrences_update(s.drop_last(), i, x, v);
        assert(s.update(i, x).drop_last() =~= s.drop_last().update(i, x));
    }
}

/// A value that stands at no position is counted 0 times.
pub proof fn lemma_occurrences_absent<T>(s: Seq<T>, v: T)
    requires
        forall|i: int| 0 <= i < s.len() ==> s[i] != v,
    ensures
        occurrences(s, v) == 0,
    decreases s.len(),
{
    if s.len() > 0 {
        lemma_occurrences_absent(s.drop_last(), v);
    }
}

/// A value is counted at most once for each position.
pub proof fn lemma_occurrences_bound<T>(s: Seq<T>, v: T)
    ensures
        occurrences(s, v) <= s.len(),
    decreases s.len(),
{
    if s.len() > 0 {
        lemma_occurrences_bound(s.drop_last(), v);
    }
}

/// A value that stands at some position is counted at least once.
pub proof fn lemma_occurrences_positive<T>(s: Seq<T>, p: int)
    requires
        0 <= p < s.len(),
    ensures
        occurrences(s, s[p]) >= 1,
    decreases s.len(),
{
    if p < s.len() - 1 {
        lemma_occurrences_positive(s.drop_last(), p);
    }
}

/// A value that is counted at least once stands at some position.
pub proof fn lemma_occurrences_witness<T>(s: Seq<T>, v: T) -> (p: int)
    requires
        occurrences(s, v) >= 1,
    ensures
        0 <= p < s.len(),
        s[p] == v,
    decreases s.len(),
{
    if s.last() == v {
        s.len() - 1
    } else {
        lemma_occurrences_witness(s.drop_last(), v)
    }
}

} // verus!
