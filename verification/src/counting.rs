//! Specification vocabulary for the statistics functions: how often a value
//! occurs in a sequence, the sum of a sequence, and sortedness, together with
//! the lemmas about prefixes that the loop proofs rely on.
use vstd::prelude::*;

verus! {

/// How many times `v` occurs in `s`.
pub open spec fn occ(s: Seq<i32>, v: i32) -> nat {
    s.to_multiset().count(v)
}

/// The mathematical sum of the elements of `s`.
pub open spec fn sum_of(s: Seq<i32>) -> int
    decreases s.len(),
{
    if s.len() == 0 {
        0
    } else {
        sum_of(s.drop_last()) + s.last()
    }
}

/// `s` is in non-decreasing order.
pub open spec fn is_ascending(s: Seq<i32>) -> bool {
    forall|i: int, j: int| 0 <= i < j < s.len() ==> s[i] <= s[j]
}

/// A prefix of length 0 contains no occurrences of anything.
pub proof fn lemma_occ_take_zero(s: Seq<i32>, v: i32)
    ensures
        occ(s.take(0), v) == 0,
{
    broadcast use vstd::seq_lib::group_to_multiset_ensures;

    assert(!s.take(0).contains(v));
}

/// Extending a prefix by one element adds one occurrence of that element
/// and leaves every other count unchanged.
pub proof fn lemma_occ_take_step(s: Seq<i32>, i: int, v: i32)
    requires
        0 <= i < s.len(),
    ensures
        occ(s.take(i + 1), v) == occ(s.take(i), v) + (if s[i] == v {
            1int
        } else {
            0int
        }),
{
    broadcast use vstd::seq_lib::group_to_multiset_ensures;
    broadcast use vstd::multiset::group_multiset_axioms;

    assert(s.take(i + 1) =~= s.take(i).push(s[i]));
}

/// The full-length prefix of `s` is `s` itself, so the counts agree.
pub proof fn lemma_occ_take_full(s: Seq<i32>, v: i32)
    ensures
        occ(s.take(s.len() as int), v) == occ(s, v),
{
    assert(s.take(s.len() as int) =~= s);
}

/// Occurrence counts grow monotonically with the prefix length.
pub proof fn lemma_occ_take_mono(s: Seq<i32>, i: int, j: int, v: i32)
    requires
        0 <= i <= j <= s.len(),
    ensures
        occ(s.take(i), v) <= occ(s.take(j), v),
    decreases j - i,
{
    if i < j {
        lemma_occ_take_step(s, j - 1, v);
        lemma_occ_take_mono(s, i, j - 1, v);
    }
}

/// A prefix's count never exceeds the count in the whole sequence.
pub proof fn lemma_occ_take_bound(s: Seq<i32>, i: int, v: i32)
    requires
        0 <= i <= s.len(),
    ensures
        occ(s.take(i), v) <= occ(s, v),
{
    lemma_occ_take_mono(s, i, s.len() as int, v);
    lemma_occ_take_full(s, v);
}

/// If `v` occurs nowhere at or after position `a`, the prefix of length `a`
/// already holds every occurrence of `v`.
pub proof fn lemma_occ_no_more(s: Seq<i32>, a: int, v: i32)
    requires
        0 <= a <= s.len(),
        forall|k: int| a <= k < s.len() ==> s[k] != v,
    ensures
        occ(s.take(a), v) == occ(s, v),
    decreases s.len() - a,
{
    if a == s.len() {
        lemma_occ_take_full(s, v);
    } else {
        lemma_occ_take_step(s, a, v);
        lemma_occ_no_more(s, a + 1, v);
    }
}

/// An element of the sequence occurs in it at least once.
pub proof fn lemma_occ_at_index(s: Seq<i32>, i: int)
    requires
        0 <= i < s.len(),
    ensures
        occ(s, s[i]) >= 1,
{
    broadcast use vstd::seq_lib::group_to_multiset_ensures;

    assert(s.contains(s[i]));
}

/// A value that occurs at all occurs at some index.
pub proof fn lemma_occ_to_index(s: Seq<i32>, v: i32)
    requires
        occ(s, v) >= 1,
    ensures
        exists|i: int| 0 <= i < s.len() && s[i] == v,
{
    broadcast use vstd::seq_lib::group_to_multiset_ensures;

    assert(s.contains(v));
}

/// Extending a prefix by one element adds that element to the sum.
pub proof fn lemma_sum_take_step(s: Seq<i32>, i: int)
    requires
        0 <= i < s.len(),
    ensures
        sum_of(s.take(i + 1)) == sum_of(s.take(i)) + s[i],
{
    assert(s.take(i + 1).drop_last() =~= s.take(i));
    assert(s.take(i + 1).last() == s[i]);
}

/// The sum over the full-length prefix is the sum over the whole sequence.
pub proof fn lemma_sum_take_full(s: Seq<i32>)
    ensures
        sum_of(s.take(s.len() as int)) == sum_of(s),
{
    assert(s.take(s.len() as int) =~= s);
}

/// Removing the element at index `i` removes exactly its contribution to the sum.
pub proof fn lemma_sum_of_remove(s: Seq<i32>, i: int)
    requires
        0 <= i < s.len(),
    ensures
        sum_of(s.remove(i)) == sum_of(s) - s[i],
    decreases s.len(),
{
    if i == s.len() - 1 {
        assert(s.remove(i) =~= s.drop_last());
    } else {
        assert(s.remove(i).drop_last() =~= s.drop_last().remove(i));
        assert(s.remove(i).last() == s.last());
        lemma_sum_of_remove(s.drop_last(), i);
    }
}

/// A sequence whose adjacent pairs are in order is ascending throughout.
pub proof fn lemma_ascending_from_adjacent(s: Seq<i32>)
    requires
        forall|j: int| 0 < j < s.len() ==> #[trigger] s[j] >= s[j - 1],
    ensures
        is_ascending(s),
{
    assert forall|i: int, j: int| 0 <= i < j < s.len() implies s[i] <= s[j] by {
        lemma_ascending_span(s, i, j);
    }
}

/// Chains the adjacent-pair ordering from index `i` up to index `j`.
proof fn lemma_ascending_span(s: Seq<i32>, i: int, j: int)
    requires
        forall|k: int| 0 < k < s.len() ==> #[trigger] s[k] >= s[k - 1],
        0 <= i <= j < s.len(),
    ensures
        s[i] <= s[j],
    decreases j - i,
{
    if i < j {
        lemma_ascending_span(s, i, j - 1);
    }
}

} // verus!
