//! Basic statistics of numeric lists: mean, median and mode.
//!
//! `mode` is computed by one of two strategies chosen by the caller's
//! `is_sorted` flag; the sorted strategy rejects input that is not actually
//! in non-decreasing order. `list_sum` and `median_values` supply the exact
//! integer parts of mean and median; the final floating-point division is a
//! one-step conversion left to the caller.
//!
//! `mode` and `median_values` read a middle or first element, so they ask
//! for a non-empty list as an explicit precondition instead of reporting an
//! error; `list_sum` accepts the empty list and returns 0.
use vstd::prelude::*;

use core::cmp::Ordering;
use crate::counting::{
    is_ascending, lemma_ascending_from_adjacent, lemma_occ_at_index, lemma_occ_take_full,
    lemma_occ_take_step, lemma_occ_take_zero, lemma_sum_take_step, occ, sum_of,
};

verus! {

/// The one failure of the library: the sorted `mode` strategy found an
/// adjacent pair of elements in descending order.
#[derive(Debug, Clone, Copy, PartialEq, Eq, Structural)]
pub enum StatsError {
    NotSorted,
}

/// Relies on `compare::natural` and `compare::Compare::compare`: the natural
/// comparator delegates to `Ord::cmp`, which orders `i32` values exactly as
/// `<`, `==` and `>` do.
#[verifier::external_body]
fn natural_compare(a: i32, b: i32) -> (r: Ordering)
    ensures
        (r == Ordering::Less <==> a < b),
        (r == Ordering::Equal <==> a == b),
        (r == Ordering::Greater <==> a > b),
{
    let cmp = compare::natural();
    compare::Compare::compare(&cmp, &a, &b)
}

/// The state of the sorted-strategy scan after it has processed `s[0..=i]`:
/// the current run counter, the best counter value seen so far, and the
/// element recorded as most popular.
///
/// The counter starts at 1 on the first element but is reset to 0 (not 1)
/// when a strictly greater element starts a new run, so a later run of
/// length `L` only ever drives the counter up to `L - 1`. This quirk of the
/// original scan is kept deliberately; see [`sorted_mode_spec`].
pub open spec fn scan_state(s: Seq<i32>, i: int) -> (int, int, i32)
    recommends
        0 <= i < s.len(),
    decreases i,
{
    if i <= 0 {
        (1, 0, s[0])
    } else {
        let prev = scan_state(s, i - 1);
        let cnt = if s[i] == s[i - 1] {
            prev.0 + 1
        } else {
            0
        };
        if cnt > prev.1 {
            (cnt, cnt, s[i])
        } else {
            (cnt, prev.1, prev.2)
        }
    }
}

/// What the sorted strategy returns on an ascending sequence: the element
/// recorded by the run-length scan once the whole sequence is processed.
///
/// Because the run counter restarts at 0 after the first run, this is not
/// always a most frequent element: the first run competes with its full
/// length while every later run competes with its length minus one.
pub open spec fn sorted_mode_spec(s: Seq<i32>) -> i32
    recommends
        s.len() >= 1,
{
    scan_state(s, s.len() - 1).2
}

/// `r` occurs in `s` at least as often as every element of `s`.
pub open spec fn is_mode_of(s: Seq<i32>, r: i32) -> bool {
    &&& s.contains(r)
    &&& forall|k: int| 0 <= k < s.len() ==> occ(s, #[trigger] s[k]) <= occ(s, r)
}

/// `u` occurs in `s` strictly more often than every other element of `s`.
pub open spec fn is_unique_mode(s: Seq<i32>, u: i32) -> bool {
    &&& s.contains(u)
    &&& forall|k: int| 0 <= k < s.len() && s[k] != u ==> occ(s, #[trigger] s[k]) < occ(s, u)
}

/// Calculates the most frequent item in a sorted list by a single scan over
/// runs of equal elements, rejecting the list as soon as an adjacent pair is
/// out of order.
pub fn internal_sorted_mode(list: &Vec<i32>) -> (r: Result<i32, StatsError>)
    requires
        list@.len() >= 1,
    ensures
        (r is Ok) <==> is_ascending(list@),
        is_ascending(list@) ==> r == Ok::<i32, StatsError>(sorted_mode_spec(list@)),
        !is_ascending(list@) ==> r == Err::<i32, StatsError>(StatsError::NotSorted),
{
    let ghost s = list@;
    let mut max_appearences: usize = 0;
    let mut popular_elem: i32 = list[0];
    let mut count_appearences: usize = 1;
    let mut i: usize = 1;
    while i < list.len()
        invariant
            1 <= i <= s.len(),
            s == list@,
            forall|j: int| 0 < j < i ==> #[trigger] s[j] >= s[j - 1],
            count_appearences <= i,
            max_appearences <= i,
            count_appearences as int == scan_state(s, i - 1).0,
            max_appearences as int == scan_state(s, i - 1).1,
            popular_elem == scan_state(s, i - 1).2,
        decreases s.len() - i,
    {
        match natural_compare(list[i], list[i - 1]) {
            Ordering::Less => {
                proof {
                    assert(!is_ascending(s)) by {
                        if is_ascending(s) {
                            assert(s[i - 1] <= s[i as int]);
                        }
                    }
                }
                return Err(StatsError::NotSorted);
            },
            Ordering::Equal => {
                count_appearences = count_appearences + 1;
            },
            Ordering::Greater => {
                count_appearences = 0;
            },
        }
        if count_appearences > max_appearences {
            max_appearences = count_appearences;
            popular_elem = list[i];
        }
        i = i + 1;
    }
    proof {
        lemma_ascending_from_adjacent(s);
    }
    Ok(popular_elem)
}

/// Counts how often `v` occurs in `list`.
fn count_occurrences(list: &Vec<i32>, v: i32) -> (c: usize)
    ensures
        c == occ(list@, v),
{
    let ghost s = list@;
    let mut c: usize = 0;
    let mut i: usize = 0;
    proof {
        lemma_occ_take_zero(s, v);
    }
    while i < list.len()
        invariant
            0 <= i <= s.len(),
            s == list@,
            c <= i,
            c == occ(s.take(i as int), v),
        decreases s.len() - i,
    {
        proof {
            lemma_occ_take_step(s, i as int, v);
        }
        if list[i] == v {
            c = c + 1;
        }
        i = i + 1;
    }
    proof {
        lemma_occ_take_full(s, v);
    }
    c
}

/// Calculates the most frequent item in a list of any order by counting the
/// occurrences of every element.
///
/// When several elements tie for the greatest count, which of them comes
/// back is left open by the contract, as the choice in the original strategy
/// depends on an unspecified map iteration order.
pub fn internal_unsorted_mode(list: &Vec<i32>) -> (r: i32)
    requires
        list@.len() >= 1,
    ensures
        is_mode_of(list@, r),
{
    let ghost s = list@;
    let mut popular_elem: i32 = list[0];
    let mut max_appearences: usize = 0;
    let mut i: usize = 0;
    while i < list.len()
        invariant
            0 <= i <= s.len(),
            s == list@,
            s.len() >= 1,
            i == 0 ==> max_appearences == 0 && popular_elem == s[0],
            i > 0 ==> s.contains(popular_elem),
            i > 0 ==> max_appearences == occ(s, popular_elem),
            forall|j: int| 0 <= j < i ==> occ(s, #[trigger] s[j]) <= max_appearences,
        decreases s.len() - i,
    {
        let c = count_occurrences(list, list[i]);
        proof {
            lemma_occ_at_index(s, i as int);
            assert(s.contains(s[i as int]));
        }
        if c > max_appearences {
            max_appearences = c;
            popular_elem = list[i];
        }
        i = i + 1;
    }
    popular_elem
}

/// Calculates the most frequent element in the numeric list.
///
/// Sorted lists are processed faster by a single scan over runs of equal
/// elements; that scan fails with [`StatsError::NotSorted`] if the list is
/// not actually in non-decreasing order. The unsorted strategy never fails.
pub fn mode(list: &Vec<i32>, is_sorted: bool) -> (r: Result<i32, StatsError>)
    requires
        list@.len() >= 1,
    ensures
        is_sorted ==> ((r is Ok) <==> is_ascending(list@)),
        is_sorted && is_ascending(list@) ==> r == Ok::<i32, StatsError>(sorted_mode_spec(list@)),
        is_sorted && !is_ascending(list@) ==> r == Err::<i32, StatsError>(StatsError::NotSorted),
        !is_sorted ==> (r is Ok) && is_mode_of(list@, r->Ok_0),
{
    match is_sorted {
        true => internal_sorted_mode(list),
        _ => Ok(internal_unsorted_mode(list)),
    }
}

/// Calculates the sum of the numeric list; the mean is this sum divided by
/// the list's length.
pub fn list_sum(list: &Vec<i32>) -> (r: i128)
    ensures
        r == sum_of(list@),
{
    let ghost s = list@;
    let mut r: i128 = 0;
    let mut i: usize = 0;
    while i < list.len()
        invariant
            0 <= i <= s.len(),
            s == list@,
            -0x8000_0000 * (i as int) <= r <= 0x8000_0000 * (i as int),
            r == sum_of(s.take(i as int)),
        decreases s.len() - i,
    {
        proof {
            lemma_sum_take_step(s, i as int);
        }
        r = r + (list[i] as i128);
        i = i + 1;
    }
    proof {
        crate::counting::lemma_sum_take_full(s);
    }
    r
}

/// Inserts `x` into the ascending vector `out` so that it stays ascending.
fn insert_in_order(out: &mut Vec<i32>, x: i32)
    requires
        is_ascending(old(out)@),
    ensures
        is_ascending(final(out)@),
        final(out)@.to_multiset() == old(out)@.to_multiset().insert(x),
        final(out)@.len() == old(out)@.len() + 1,
{
    let ghost t = out@;
    let mut k: usize = 0;
    while k < out.len() && out[k] <= x
        invariant
            0 <= k <= t.len(),
            t == out@,
            is_ascending(t),
            forall|j: int| 0 <= j < k ==> #[trigger] t[j] <= x,
        decreases t.len() - k,
    {
        k = k + 1;
    }
    out.insert(k, x);
    proof {
        broadcast use vstd::seq_lib::group_to_multiset_ensures;

        let u = out@;
        assert(u == t.insert(k as int, x));
        assert forall|a: int, b: int| 0 <= a < b < u.len() implies u[a] <= u[b] by {
            if b < k {
                assert(u[a] == t[a] && u[b] == t[b]);
            } else if a < k && b == k {
                assert(u[a] == t[a] && u[b] == x);
            } else if a < k && b > k {
                assert(u[a] == t[a] && u[b] == t[b - 1]);
                assert(t[a] <= t[b - 1]);
            } else if a == k {
                assert(u[a] == x && u[b] == t[b - 1]);
                assert(b - 1 >= k);
            } else {
                assert(u[a] == t[a - 1] && u[b] == t[b - 1]);
            }
        }
    }
}

/// Sorts the list into non-decreasing order, keeping exactly the same
/// elements.
pub fn sort_list(list: &mut Vec<i32>)
    ensures
        is_ascending(final(list)@),
        final(list)@.to_multiset() == old(list)@.to_multiset(),
        final(list)@.len() == old(list)@.len(),
{
    let ghost s = list@;
    let mut out: Vec<i32> = Vec::new();
    let mut i: usize = 0;
    proof {
        broadcast use vstd::seq_lib::group_to_multiset_ensures;

        assert(s.take(0) =~= out@);
    }
    while i < list.len()
        invariant
            0 <= i <= s.len(),
            s == list@,
            is_ascending(out@),
            out@.len() == i,
            out@.to_multiset() == s.take(i as int).to_multiset(),
        decreases s.len() - i,
    {
        proof {
            broadcast use vstd::seq_lib::group_to_multiset_ensures;

            assert(s.take(i + 1) =~= s.take(i as int).push(s[i as int]));
        }
        insert_in_order(&mut out, list[i]);
        i = i + 1;
    }
    proof {
        assert(s.take(s.len() as int) =~= s);
    }
    *list = out;
}

/// Calculates the two middle values of the list, sorting it in place as the
/// original in-place strategy does.
///
/// For an odd length both components are the single middle element, so the
/// median is `r.0` itself; for an even length the median is the average of
/// `r.0` and `r.1`.
pub fn median_values(list: &mut Vec<i32>) -> (r: (i32, i32))
    requires
        old(list)@.len() >= 1,
    ensures
        is_ascending(final(list)@),
        final(list)@.to_multiset() == old(list)@.to_multiset(),
        final(list)@.len() == old(list)@.len(),
        r.0 == final(list)@[((final(list)@.len() as int) - 1) / 2],
        r.1 == final(list)@[(final(list)@.len() as int) / 2],
{
    sort_list(list);
    let n = list.len();
    let mid0 = (n - 1) / 2;
    let mid1 = n / 2;
    (list[mid0], list[mid1])
}

} // verus!
