//! Sums and maxima of `i64` sequences, with the induction lemmas the
//! accumulator proofs need: how a point update moves the sum, how it moves
//! the maximum, and how prefix sums grow.

use vstd::prelude::*;

verus! {

/// Sum of all elements.
pub open spec fn sum64(s: Seq<i64>) -> int
    decreases s.len(),
{
    if s.len() == 0 {
        0
    } else {
        sum64(s.drop_last()) + s.last()
    }
}

/// Maximum of the elements and 0 (so the empty sequence has maximum 0).
pub open spec fn max64(s: Seq<i64>) -> int
    decreases s.len(),
{
    if s.len() == 0 {
        0
    } else {
        let m = max64(s.drop_last());
        if s.last() > m {
            s.last() as int
        } else {
            m
        }
    }
}

/// The all-zero sequence sums to 0 and has maximum 0.
pub proof fn lemma_zero_seq(n: nat)
    ensures
        sum64(Seq::new(n, |i: int| 0i64)) == 0,
        max64(Seq::new(n, |i: int| 0i64)) == 0,
    decreases n,
{
    let s = Seq::new(n, |i: int| 0i64);
    if n > 0 {
        lemma_zero_seq((n - 1) as nat);
        assert(s.drop_last() =~= Seq::new((n - 1) as nat, |i: int| 0i64));
    }
}

/// Updating one element moves the sum by the difference.
pub proof fn lemma_sum_update(s: Seq<i64>, i: int, v: i64)
    requires
        0 <= i < s.len(),
    ensures
        sum64(s.update(i, v)) == sum64(s) - s[i] + v,
    decreases s.len(),
{
    let t = s.update(i, v);
    if i == s.len() - 1 {
        assert(t.drop_last() =~= s.drop_last());
    } else {
        assert(t.drop_last() =~= s.drop_last().update(i, v));
        lemma_sum_update(s.drop_last(), i, v);
    }
}

/// Every element of a nonnegative sequence is at most the sum.
pub proof fn lemma_elem_le_sum(s: Seq<i64>, i: int)
    requires
        0 <= i < s.len(),
        forall|j: int| 0 <= j < s.len() ==> s[j] >= 0,
    ensures
        0 <= s[i] <= sum64(s),
        sum64(s) >= 0,
    decreases s.len(),
{
    if s.len() > 0 {
        if i == s.len() - 1 {
            lemma_sum_nonneg(s.drop_last());
        } else {
            lemma_elem_le_sum(s.drop_last(), i);
        }
    }
}

/// A nonnegative sequence has a nonnegative sum.
pub proof fn lemma_sum_nonneg(s: Seq<i64>)
    requires
        forall|j: int| 0 <= j < s.len() ==> s[j] >= 0,
    ensures
        sum64(s) >= 0,
    decreases s.len(),
{
    if s.len() > 0 {
        lemma_sum_nonneg(s.drop_last());
    }
}

/// Raising one element to a value at least its old value makes the new
/// maximum the larger of the old maximum and the new value.
pub proof fn lemma_max_update(s: Seq<i64>, i: int, v: i64)
    requires
        0 <= i < s.len(),
        v >= s[i],
    ensures
        max64(s.update(i, v)) == if v > max64(s) {
            v as int
        } else {
            max64(s)
        },
    decreases s.len(),
{
    let t = s.update(i, v);
    if i == s.len() - 1 {
        assert(t.drop_last() =~= s.drop_last());
    } else {
        assert(t.drop_last() =~= s.drop_last().update(i, v));
        lemma_max_update(s.drop_last(), i, v);
    }
}

/// Extending a prefix by one element adds that element to its sum.
pub proof fn lemma_prefix_sum_step(s: Seq<i64>, n: int)
    requires
        0 <= n < s.len(),
    ensures
        sum64(s.take(n + 1)) == sum64(s.take(n)) + s[n],
{
    assert(s.take(n + 1).drop_last() =~= s.take(n));
    assert(s.take(n + 1).last() == s[n]);
}

/// For nonnegative sequences the maximum is at most the sum.
pub proof fn lemma_max_le_sum(s: Seq<i64>)
    requires
        forall|j: int| 0 <= j < s.len() ==> s[j] >= 0,
    ensures
        0 <= max64(s) <= sum64(s),
    decreases s.len(),
{
    if s.len() == 0 {
    } else {
        lemma_max_le_sum(s.drop_last());
        lemma_sum_nonneg(s.drop_last());
    }
}

} // verus!
