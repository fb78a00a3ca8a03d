//! The general properties of the statistics functions, proved once and for
//! all: the median and the mean depend only on the multiset of input values,
//! and on sorted input the two `mode` strategies agree whenever the most
//! frequent value is unique and clear of the sorted scan's first-run quirk.
use vstd::prelude::*;

use crate::counting::{
    is_ascending, lemma_occ_at_index, lemma_occ_take_bound, lemma_occ_take_mono,
    lemma_occ_take_step, lemma_occ_take_zero, lemma_occ_to_index, lemma_occ_no_more,
    lemma_sum_of_remove, occ, sum_of,
};
use crate::stats::{is_mode_of, is_unique_mode, scan_state, sorted_mode_spec};
use vstd::relations::{sorted_by, total_ordering};
use vstd::seq_lib::lemma_sorted_unique;

verus! {

/// The median is invariant under reordering of the input: two lists with the
/// same multiset of values have exactly one ascending arrangement between
/// them, so the middle values that `median_values` reads — and hence the
/// median — coincide.
pub proof fn lemma_median_permutation_invariant(
    a: Seq<i32>,
    b: Seq<i32>,
    sa: Seq<i32>,
    sb: Seq<i32>,
)
    requires
        a.to_multiset() == b.to_multiset(),
        is_ascending(sa),
        sa.to_multiset() == a.to_multiset(),
        is_ascending(sb),
        sb.to_multiset() == b.to_multiset(),
    ensures
        sa == sb,
{
    let leq = (|x: i32, y: i32| x <= y);
    assert(total_ordering(leq)) by {
        assert(vstd::relations::reflexive(leq)) by {
            assert(forall|x: i32| #[trigger] leq(x, x));
        }
        assert(vstd::relations::antisymmetric(leq));
        assert(vstd::relations::transitive(leq));
        assert(vstd::relations::strongly_connected(leq)) by {
            assert(forall|x: i32, y: i32| #[trigger] leq(x, y) || #[trigger] leq(y, x));
        }
    }
    assert(sorted_by(sa, leq)) by {
        assert(forall|i: int, j: int|
            0 <= i < j < sa.len() ==> #[trigger] leq(sa[i], sa[j]));
    }
    assert(sorted_by(sb, leq)) by {
        assert(forall|i: int, j: int|
            0 <= i < j < sb.len() ==> #[trigger] leq(sb[i], sb[j]));
    }
    lemma_sorted_unique(sa, sb, leq);
}

/// The mean is a pure function of the multiset's sum and count: two lists
/// with the same multiset of values have the same sum and the same length,
/// so reordering the input never changes the mean.
pub proof fn lemma_mean_permutation_invariant(a: Seq<i32>, b: Seq<i32>)
    requires
        a.to_multiset() == b.to_multiset(),
    ensures
        sum_of(a) == sum_of(b),
        a.len() == b.len(),
    decreases a.len(),
{
    broadcast use vstd::seq_lib::group_to_multiset_ensures;
    broadcast use vstd::multiset::group_multiset_axioms;

    assert(a.to_multiset().len() == a.len());
    assert(b.to_multiset().len() == b.len());
    if a.len() == 0 {
        assert(b.len() == 0);
    } else {
        let v = a.last();
        assert(a[a.len() - 1] == v);
        assert(a.contains(v));
        assert(b.to_multiset().count(v) > 0);
        assert(b.contains(v));
        let j = choose|j: int| 0 <= j < b.len() && b[j] == v;
        assert(a =~= a.drop_last().push(v));
        assert(a.to_multiset() == a.drop_last().to_multiset().insert(v));
        assert(a.drop_last().to_multiset() =~= a.to_multiset().remove(v));
        assert(b.remove(j).to_multiset() =~= b.to_multiset().remove(v));
        lemma_mean_permutation_invariant(a.drop_last(), b.remove(j));
        lemma_sum_of_remove(b, j);
    }
}

/// The largest counter value the sorted scan can reach while standing on an
/// occurrence of `u`: the first element's run drives the counter up to its
/// full length, every later run only up to its length minus one.
spec fn mode_score(s: Seq<i32>, u: i32) -> int {
    occ(s, u) - if u == s[0] {
        0int
    } else {
        1int
    }
}

/// The index of the last occurrence of `v` in `s` (`-1` if there is none).
spec fn last_index_of(s: Seq<i32>, v: i32) -> int
    decreases s.len(),
{
    if s.len() == 0 {
        -1
    } else if s.last() == v {
        s.len() - 1
    } else {
        last_index_of(s.drop_last(), v)
    }
}

proof fn lemma_last_index_of(s: Seq<i32>, v: i32)
    requires
        s.contains(v),
    ensures
        ({
            let l = last_index_of(s, v);
            &&& 0 <= l < s.len()
            &&& s[l] == v
            &&& forall|k: int| l < k < s.len() ==> s[k] != v
        }),
    decreases s.len(),
{
    if s.last() == v {
    } else {
        let idx = choose|idx: int| 0 <= idx < s.len() && s[idx] == v;
        assert(s.drop_last()[idx] == v);
        assert(s.drop_last().contains(v));
        lemma_last_index_of(s.drop_last(), v);
        let l = last_index_of(s.drop_last(), v);
        assert(s[l] == s.drop_last()[l]);
        assert forall|k: int| l < k < s.len() implies s[k] != v by {
            if k < s.len() - 1 {
                assert(s.drop_last()[k] != v);
            }
        }
    }
}

/// In an ascending sequence, an element other than the unique mode can only
/// drive the scan counter to a value strictly below the mode's score.
proof fn lemma_competitor_bound(s: Seq<i32>, u: i32, j: int)
    requires
        s.len() >= 2,
        is_ascending(s),
        is_unique_mode(s, u),
        u == s[0] || occ(s, s[0]) == 1 || occ(s, u) > occ(s, s[0]) + 1,
        1 <= j < s.len(),
        s[j] != u,
    ensures
        occ(s.take(j + 1), s[j]) - (if s[j] == s[0] {
            0int
        } else {
            1int
        }) < mode_score(s, u),
{
    lemma_occ_take_bound(s, j + 1, s[j]);
    lemma_occ_at_index(s, 0);
    if s[j] == s[0] {
        if occ(s, s[0]) == 1 {
            lemma_occ_take_step(s, j, s[j]);
            lemma_occ_take_step(s, 0, s[j]);
            lemma_occ_take_zero(s, s[j]);
            lemma_occ_take_mono(s, 1, j, s[j]);
            assert(occ(s.take(j + 1), s[j]) >= 2);
            assert(false);
        }
    } else {
        assert(occ(s, s[j]) < occ(s, u));
    }
}

/// The sorted scan, run over an ascending sequence whose most frequent value
/// `u` is unique and whose score beats every competitor, reaches `u`'s last
/// occurrence `l` with the mode's score as its maximum and keeps `u` as the
/// recorded element from then on.
proof fn lemma_scan_tracks_unique_mode(s: Seq<i32>, u: i32, l: int, i: int)
    requires
        s.len() >= 2,
        is_ascending(s),
        is_unique_mode(s, u),
        u == s[0] || occ(s, s[0]) == 1 || occ(s, u) > occ(s, s[0]) + 1,
        1 <= l < s.len(),
        s[l] == u,
        forall|k: int| l < k < s.len() ==> s[k] != u,
        occ(s.take(l + 1), u) == occ(s, u),
        mode_score(s, u) >= 1,
        0 <= i < s.len(),
    ensures
        scan_state(s, i).0 == occ(s.take(i + 1), s[i]) - (if s[i] == s[0] {
            0int
        } else {
            1int
        }),
        i < l ==> scan_state(s, i).1 < mode_score(s, u),
        i >= l ==> scan_state(s, i).1 == mode_score(s, u) && scan_state(s, i).2 == u,
    decreases i,
{
    if i == 0 {
        lemma_occ_take_zero(s, s[0]);
        lemma_occ_take_step(s, 0, s[0]);
    } else {
        lemma_scan_tracks_unique_mode(s, u, l, i - 1);
        assert(s[i - 1] <= s[i]);
        lemma_occ_take_step(s, i, s[i]);
        if s[i] == s[i - 1] {
            lemma_occ_take_step(s, i, s[i - 1]);
        } else {
            // a strictly greater element starts a new run: it has not
            // occurred before, and it is not the first element
            assert(occ(s.take(i), s[i]) == 0) by {
                if occ(s.take(i), s[i]) >= 1 {
                    lemma_occ_to_index(s.take(i), s[i]);
                    let k = choose|k: int|
                        0 <= k < s.take(i).len() && s.take(i)[k] == s[i];
                    assert(s[k] == s[i]);
                    assert(s[k] <= s[i - 1]);
                }
            }
            assert(s[0] <= s[i - 1]);
            assert(s[i] != s[0]);
        }
        let cnt = scan_state(s, i).0;
        if i < l {
            if s[i] == u {
                // u's run is not finished: at least one more occurrence at l
                lemma_occ_take_mono(s, i + 1, l, u);
                lemma_occ_take_step(s, l, u);
                lemma_occ_take_bound(s, l + 1, u);
                assert(occ(s.take(i + 1), u) < occ(s, u));
            } else {
                lemma_competitor_bound(s, u, i);
            }
            assert(cnt < mode_score(s, u));
        } else if i == l {
            assert(cnt == mode_score(s, u));
        } else {
            assert(s[i] != u);
            lemma_competitor_bound(s, u, i);
            assert(cnt < mode_score(s, u));
        }
    }
}

/// For a genuinely sorted list whose most frequent value `u` is unique, the
/// sorted run-scanning strategy and the frequency-counting strategy return
/// the same value, namely `u`.
///
/// The third premise keeps out the inputs on which the sorted scan's
/// first-run quirk makes the strategies disagree: the first element's run
/// competes with its full length while every later run competes with its
/// length minus one, so a unique mode elsewhere must beat the first run's
/// length by at least two (as in `[1, 1, 2, 2, 2]`, where the scan reports 1
/// although the unique most frequent value is 2).
pub proof fn lemma_mode_strategies_agree(s: Seq<i32>, u: i32, r: i32)
    requires
        s.len() >= 1,
        is_ascending(s),
        is_unique_mode(s, u),
        u == s[0] || occ(s, s[0]) == 1 || occ(s, u) > occ(s, s[0]) + 1,
        is_mode_of(s, r),
    ensures
        r == u,
        sorted_mode_spec(s) == u,
{
    assert(r == u) by {
        if r != u {
            let k = choose|k: int| 0 <= k < s.len() && s[k] == r;
            let m = choose|m: int| 0 <= m < s.len() && s[m] == u;
            assert(occ(s, s[k]) < occ(s, u));
            assert(occ(s, s[m]) <= occ(s, r));
        }
    }
    if s.len() == 1 {
        let m = choose|m: int| 0 <= m < s.len() && s[m] == u;
        assert(u == s[0]);
    } else {
        // the unique mode occurs at least twice
        assert(occ(s, u) >= 2) by {
            lemma_occ_at_index(s, 1);
            if s[1] != u {
                assert(occ(s, s[1]) < occ(s, u));
            } else if u == s[0] {
                lemma_occ_take_zero(s, u);
                lemma_occ_take_step(s, 0, u);
                lemma_occ_take_step(s, 1, u);
                lemma_occ_take_bound(s, 2, u);
            } else {
                lemma_occ_at_index(s, 0);
                assert(occ(s, s[0]) < occ(s, u));
            }
        }
        lemma_last_index_of(s, u);
        let l = last_index_of(s, u);
        lemma_occ_no_more(s, l + 1, u);
        assert(l >= 1) by {
            if l == 0 {
                lemma_occ_take_zero(s, u);
                lemma_occ_take_step(s, 0, u);
                assert(occ(s, u) == 1);
            }
        }
        lemma_scan_tracks_unique_mode(s, u, l, s.len() - 1);
    }
}

} // verus!
