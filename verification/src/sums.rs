//! Sums of sequences of integers, and what the ranking needs to know of
//! them.

use vstd::prelude::*;

verus! {

/// The sum of a finite sequence of integers.
pub open spec fn sum(s: Seq<int>) -> int
    decreases s.len(),
{
    if s.len() == 0 {
        0
    } else {
        sum(s.drop_last()) + s.last()
    }
}

/// Every entry is zero or more.
pub open spec fn non_negative(s: Seq<int>) -> bool {
    forall|i: int| 0 <= i < s.len() ==> s[i] >= 0
}

/// Replacing one entry changes the sum by the difference of the two values.
pub proof fn lemma_sum_update(s: Seq<int>, i: int, x: int)
    requires
        0 <= i < s.len(),
    ensures
        sum(s.update(i, x)) == sum(s) - s[i] + x,
    decreases s.len(),
{
    if i == s.len() - 1 {
        assert(s.update(i, x).drop_last() =~= s.drop_last());
    } else {
        lemma_sum_update(s.drop_last(), i, x);
        assert(s.update(i, x).drop_last() =~= s.drop_last().update(i, x));
    }
}

/// A sequence without negative entries has a sum of zero or more.
pub proof fn lemma_sum_non_negative(s: Seq<int>)
    requires
        non_negative(s),
    ensures
        sum(s) >= 0,
    decreases s.len(),
{
    if s.len() > 0 {
        lemma_sum_non_negative(s.drop_last());
    }
}

/// In a sequence without negative entries no entry exceeds the sum.
pub proof fn lemma_entry_at_most_sum(s: Seq<int>, i: int)
    requires
        non_negative(s),
        0 <= i < s.len(),
    ensures
        0 <= s[i] <= sum(s),
    decreases s.len(),
{
    lemma_sum_non_negative(s.drop_last());
    if i < s.len() - 1 {
        lemma_entry_at_most_sum(s.drop_last(), i);
    }
}

/// Sums are monotone: a sequence that is entry by entry at most another
/// has at most its sum.
pub proof fn lemma_sum_monotone(a: Seq<int>, b: Seq<int>)
    requires
        a.len() == b.len(),
        forall|i: int| 0 <= i < a.len() ==> a[i] <= b[i],
    ensures
        sum(a) <= sum(b),
    decreases a.len(),
{
    if a.len() > 0 {
        lemma_sum_monotone(a.drop_last(), b.drop_last());
    }
}

/// The sum of an entry-by-entry sum is the sum of the two sums.
pub proof fn lemma_sum_zip(a: Seq<int>, b: Seq<int>, c: Seq<int>)
    requires
        a.len() == b.len(),
        c.len() == a.len(),
        forall|i: int| 0 <= i < c.len() ==> c[i] == a[i] + b[i],
    ensures
        sum(c) == sum(a) + sum(b),
    decreases a.len(),
{
    if a.len() > 0 {
        lemma_sum_zip(a.drop_last(), b.drop_last(), c.drop_last());
    }
}

/// A sequence of zeros sums to zero.
pub proof fn lemma_sum_zeros(s: Seq<int>)
    requires
        forall|i: int| 0 <= i < s.len() ==> s[i] == 0,
    ensures
        sum(s) == 0,
    decreases s.len(),
{
    if s.len() > 0 {
        lemma_sum_zeros(s.drop_last());
    }
}

} // verus!
