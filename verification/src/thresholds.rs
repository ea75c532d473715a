//! Quantile cut points for the color buckets.
//!
//! From the multiset of daily counts, four nearest-rank quintile cut
//! points are selected: sort the counts ascending and take the entries
//! at ranks `k * n / 5` for `k` in 1..=4. An empty collection yields
//! four zero cut points. The result depends only on the multiset of
//! counts, never on their order.

use vstd::prelude::*;
use vstd::arithmetic::div_mod::lemma_div_is_ordered;
use vstd::arithmetic::div_mod::lemma_fundamental_div_mod;
use vstd::arithmetic::div_mod::lemma_fundamental_div_mod_converse;
use vstd::arithmetic::div_mod::lemma_mod_bound;
use vstd::relations::sorted_by;
use vstd::relations::total_ordering;
use vstd::seq_lib::lemma_sorted_unique;
use vstd::slice::slice_to_vec;

verus! {

/// The ordering by which counts are ranked.
pub open spec fn count_le() -> spec_fn(u32, u32) -> bool {
    |a: u32, b: u32| a <= b
}

pub proof fn lemma_count_le_total_ordering()
    ensures
        total_ordering(count_le()),
{
    assert(vstd::relations::reflexive(count_le()));
    assert(vstd::relations::antisymmetric(count_le()));
    assert(vstd::relations::transitive(count_le()));
    assert(vstd::relations::strongly_connected(count_le()));
}

/// The four quintile cut points of a count collection.
pub open spec fn spec_thresholds(counts: Seq<u32>) -> Seq<u32> {
    if counts.len() == 0 {
        seq![0u32, 0u32, 0u32, 0u32]
    } else {
        let sorted = counts.sort_by(count_le());
        let n = counts.len() as int;
        seq![sorted[n / 5], sorted[2 * n / 5], sorted[3 * n / 5], sorted[4 * n / 5]]
    }
}

/// Each rank `k * n / 5` for `k` in 1..=4 is a valid index of a
/// non-empty collection, and the ranks are non-decreasing.
pub proof fn lemma_rank_indices(n: int)
    requires
        1 <= n,
    ensures
        0 <= n / 5 <= 2 * n / 5 <= 3 * n / 5 <= 4 * n / 5 < n,
{
    lemma_fundamental_div_mod(n, 5);
    lemma_fundamental_div_mod(4 * n, 5);
    lemma_div_is_ordered(n, 2 * n, 5);
    lemma_div_is_ordered(2 * n, 3 * n, 5);
    lemma_div_is_ordered(3 * n, 4 * n, 5);
}

/// Insert one count into an already sorted vector, keeping it sorted.
fn insert_sorted(v: &mut Vec<u32>, x: u32)
    requires
        sorted_by(old(v)@, count_le()),
    ensures
        sorted_by(final(v)@, count_le()),
        final(v)@.to_multiset() == old(v)@.to_multiset().insert(x),
        final(v)@.len() == old(v)@.len() + 1,
{
    let mut j: usize = 0;
    while j < v.len() && v[j] <= x
        invariant
            0 <= j <= v@.len(),
            forall|k: int| 0 <= k < j ==> v@[k] <= x,
            sorted_by(v@, count_le()),
            v == old(v),
        decreases v@.len() - j,
    {
        j = j + 1;
    }
    v.insert(j, x);
    proof {
        let s = old(v)@;
        let t = v@;
        assert forall|a: int, b: int| 0 <= a < b < t.len() implies count_le()(t[a], t[b]) by {
            if a < j && b == j {
                assert(t[a] == s[a]);
            } else if a == j && b > j {
                assert(t[b] == s[b - 1]);
                if j < s.len() {
                    assert(count_le()(s[j as int], s[b - 1]) || j == b - 1);
                }
            } else if b < j {
                assert(t[a] == s[a] && t[b] == s[b]);
            } else if a > j {
                assert(t[a] == s[a - 1] && t[b] == s[b - 1]);
            } else {
                assert(a < j && b > j);
                assert(t[a] == s[a] && t[b] == s[b - 1]);
                if j < s.len() && b - 1 > j {
                    assert(count_le()(s[j as int], s[b - 1]));
                }
            }
        }
        vstd::seq_lib::to_multiset_insert(s, j as int, x);
    }
}

/// A sorted copy of the input.
fn sort_counts(data: &[u32]) -> (r: Vec<u32>)
    ensures
        sorted_by(r@, count_le()),
        r@.to_multiset() == data@.to_multiset(),
        r@.len() == data@.len(),
{
    let mut r: Vec<u32> = Vec::new();
    let mut i: usize = 0;
    proof {
        assert(data@.take(0) =~= Seq::<u32>::empty());
        r@.to_multiset_ensures();
        data@.take(0).to_multiset_ensures();
    }
    while i < data.len()
        invariant
            0 <= i <= data@.len(),
            sorted_by(r@, count_le()),
            r@.to_multiset() == data@.take(i as int).to_multiset(),
            r@.len() == i,
        decreases data@.len() - i,
    {
        let x = data[i];
        insert_sorted(&mut r, x);
        proof {
            assert(data@.take(i + 1) =~= data@.take(i as int).push(x));
            vstd::seq_lib::to_multiset_build(data@.take(i as int), x);
            r@.to_multiset_ensures();
        }
        i = i + 1;
    }
    proof {
        assert(data@.take(data@.len() as int) =~= data@);
        r@.to_multiset_ensures();
        data@.to_multiset_ensures();
    }
    r
}

/// The four color cut points of the observed count distribution.
///
/// Returns the nearest-rank quintiles of `data`, sorted ascending; an
/// empty `data` yields all zeros. The four results are non-decreasing.
pub fn determine_color_thresholds(data: &[u32]) -> (r: Vec<u32>)
    ensures
        r@ == spec_thresholds(data@),
        r@.len() == 4,
        r@[0] <= r@[1] <= r@[2] <= r@[3],
{
    if data.len() == 0 {
        let r: Vec<u32> = vec![0, 0, 0, 0];
        proof {
            assert(r@ =~= spec_thresholds(data@));
        }
        return r;
    }
    let sorted = sort_counts(data);
    proof {
        lemma_count_le_total_ordering();
        data@.lemma_sort_by_ensures(count_le());
        lemma_sorted_unique(sorted@, data@.sort_by(count_le()), count_le());
        lemma_rank_indices(data@.len() as int);
    }
    let n = sorted.len();
    // Computing `k * n` directly could overflow, so each rank
    // `k * n / 5` is assembled from the quotient and remainder of `n`.
    let nq = n / 5;
    let nr = n % 5;
    proof {
        let ni = n as int;
        let q = ni / 5;
        let r = ni % 5;
        lemma_mod_bound(ni, 5);
        lemma_mod_bound(2 * r, 5);
        lemma_mod_bound(3 * r, 5);
        lemma_mod_bound(4 * r, 5);
        lemma_fundamental_div_mod(ni, 5);
        lemma_fundamental_div_mod(2 * r, 5);
        lemma_fundamental_div_mod(3 * r, 5);
        lemma_fundamental_div_mod(4 * r, 5);
        lemma_fundamental_div_mod_converse(2 * ni, 5, 2 * q + (2 * r) / 5, (2 * r) % 5);
        lemma_fundamental_div_mod_converse(3 * ni, 5, 3 * q + (3 * r) / 5, (3 * r) % 5);
        lemma_fundamental_div_mod_converse(4 * ni, 5, 4 * q + (4 * r) / 5, (4 * r) % 5);
    }
    let q1 = sorted[nq];
    let q2 = sorted[2 * nq + (2 * nr) / 5];
    let q3 = sorted[3 * nq + (3 * nr) / 5];
    let q4 = sorted[4 * nq + (4 * nr) / 5];
    let r: Vec<u32> = vec![q1, q2, q3, q4];
    proof {
        assert(r@ =~= spec_thresholds(data@));
        let srt = sorted@;
        let ni = n as int;
        let ia = ni / 5;
        let ib = 2 * ni / 5;
        let ic = 3 * ni / 5;
        let id = 4 * ni / 5;
        if ia < ib {
            assert(count_le()(srt[ia], srt[ib]));
        }
        if ib < ic {
            assert(count_le()(srt[ib], srt[ic]));
        }
        if ic < id {
            assert(count_le()(srt[ic], srt[id]));
        }
    }
    r
}

/// The cut points depend only on the multiset of counts: any two
/// orderings of the same counts yield identical thresholds.
pub proof fn lemma_thresholds_order_independent(a: Seq<u32>, b: Seq<u32>)
    requires
        a.to_multiset() == b.to_multiset(),
    ensures
        spec_thresholds(a) == spec_thresholds(b),
{
    a.to_multiset_ensures();
    b.to_multiset_ensures();
    if a.len() == 0 {
        assert(spec_thresholds(a) =~= spec_thresholds(b));
    } else {
        lemma_count_le_total_ordering();
        a.lemma_sort_by_ensures(count_le());
        b.lemma_sort_by_ensures(count_le());
        lemma_sorted_unique(a.sort_by(count_le()), b.sort_by(count_le()), count_le());
        assert(spec_thresholds(a) =~= spec_thresholds(b));
    }
}

} // verus!
