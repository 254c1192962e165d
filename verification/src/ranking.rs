//! The order of a list of distances, and the choice of its nearest places.
//!
//! A place is a position in the list. One place comes before another when its
//! distance is smaller, or the same and the place earlier in the list. This
//! is the order in which a stable sort by distance leaves the list.

use crate::distance::least;
use vstd::prelude::*;
use vstd::set_lib::{lemma_int_range, lemma_subset_equality, set_int_range};

verus! {

/// Whether place `i` comes before place `j`: it is nearer, or as near and
/// earlier in the list.
pub open spec fn comes_before(dists: Seq<nat>, i: int, j: int) -> bool {
    dists[i] < dists[j] || (dists[i] == dists[j] && i < j)
}

/// Whether `chosen` lists the `k` nearest places of `dists`, or all of them
/// where there are fewer than `k`: each place of `chosen` is a place of the
/// list, each comes before the ones that follow it in `chosen`, and each comes
/// before every place that was left out.
pub open spec fn is_nearest(dists: Seq<nat>, k: nat, chosen: Seq<int>) -> bool {
    &&& chosen.len() == least(k, dists.len())
    &&& forall|r: int| 0 <= r < chosen.len() ==> 0 <= #[trigger] chosen[r] < dists.len()
    &&& forall|r: int, s: int|
        0 <= r < s < chosen.len() ==> comes_before(dists, #[trigger] chosen[r], #[trigger] chosen[s])
    &&& forall|r: int, p: int|
        0 <= r < chosen.len() && 0 <= p < dists.len() && !chosen.contains(p) ==> #[trigger] comes_before(
            dists,
            chosen[r],
            p,
        )
}

/// Where two choices of the nearest places agree below `r`, the place that
/// the first has at `r` does not come before the one that the second has.
proof fn lemma_nearest_not_earlier(
    dists: Seq<nat>,
    k: nat,
    first: Seq<int>,
    second: Seq<int>,
    r: int,
)
    requires
        is_nearest(dists, k, first),
        is_nearest(dists, k, second),
        0 <= r < first.len(),
        forall|s: int| 0 <= s < r ==> first[s] == second[s],
    ensures
        !comes_before(dists, first[r], second[r]),
{
    let p = first[r];
    if comes_before(dists, p, second[r]) {
        if second.contains(p) {
            let s = choose|s: int| 0 <= s < second.len() && second[s] == p;
            if s < r {
                assert(comes_before(dists, first[s], first[r]));
            } else if s > r {
                assert(comes_before(dists, second[r], second[s]));
            }
        } else {
            assert(comes_before(dists, second[r], p));
        }
    }
}

proof fn lemma_nearest_agree(dists: Seq<nat>, k: nat, first: Seq<int>, second: Seq<int>, upto: nat)
    requires
        is_nearest(dists, k, first),
        is_nearest(dists, k, second),
        upto <= first.len(),
    ensures
        forall|r: int| 0 <= r < upto ==> first[r] == second[r],
    decreases upto,
{
    if upto > 0 {
        let r = upto - 1;
        lemma_nearest_agree(dists, k, first, second, r as nat);
        lemma_nearest_not_earlier(dists, k, first, second, r);
        lemma_nearest_not_earlier(dists, k, second, first, r);
    }
}

/// A list of distances has one choice of its `k` nearest places, and no
/// other.
pub proof fn lemma_nearest_unique(dists: Seq<nat>, k: nat, first: Seq<int>, second: Seq<int>)
    requires
        is_nearest(dists, k, first),
        is_nearest(dists, k, second),
    ensures
        first == second,
{
    lemma_nearest_agree(dists, k, first, second, first.len());
    assert(first =~= second);
}

/// The nearest places stand by ascending distance, and places at the same
/// distance stand in the order of the list.
pub proof fn lemma_nearest_ordered(dists: Seq<nat>, k: nat, chosen: Seq<int>, r: int, s: int)
    requires
        is_nearest(dists, k, chosen),
        0 <= r < s < chosen.len(),
    ensures
        dists[chosen[r]] <= dists[chosen[s]],
        dists[chosen[r]] == dists[chosen[s]] ==> chosen[r] < chosen[s],
{
    assert(comes_before(dists, chosen[r], chosen[s]));
}

/// The distances of a vector as numbers.
pub open spec fn keys(dists: Seq<usize>) -> Seq<nat> {
    dists.map_values(|d: usize| d as nat)
}

/// The places of a vector as numbers.
pub open spec fn places(order: Seq<usize>) -> Seq<int> {
    order.map_values(|p: usize| p as int)
}

/// Whether each place of `order` comes before the ones that follow it.
spec fn in_order(dists: Seq<nat>, order: Seq<usize>) -> bool {
    forall|r: int, s: int|
        0 <= r < s < order.len() ==> comes_before(
            dists,
            #[trigger] order[r] as int,
            #[trigger] order[s] as int,
        )
}

/// Whether every place of `order` is one from `lo` up to `hi`, the latter
/// left out.
spec fn within(order: Seq<usize>, lo: int, hi: int) -> bool {
    forall|r: int| 0 <= r < order.len() ==> lo <= #[trigger] order[r] < hi
}

/// Whether `order` holds each place from `lo` up to `hi`, the latter left
/// out, with each place before the ones that follow it.
spec fn is_ranking(dists: Seq<nat>, order: Seq<usize>, lo: int, hi: int) -> bool {
    &&& order.len() == hi - lo
    &&& within(order, lo, hi)
    &&& in_order(dists, order)
}

/// A ranking of the places below `n` holds every one of them.
proof fn lemma_ranking_complete(dists: Seq<nat>, order: Seq<usize>, n: int)
    requires
        0 <= n,
        is_ranking(dists, order, 0, n),
    ensures
        forall|p: int| 0 <= p < n ==> places(order).contains(p),
{
    let listed = places(order);
    assert(listed.no_duplicates()) by {
        assert forall|r: int, s: int|
            0 <= r < listed.len() && 0 <= s < listed.len() && r != s implies listed[r]
            != listed[s] by {
            if r < s {
                assert(comes_before(dists, order[r] as int, order[s] as int));
            } else {
                assert(comes_before(dists, order[s] as int, order[r] as int));
            }
        }
    }
    listed.unique_seq_to_set();
    lemma_int_range(0, n);
    assert(listed.to_set().subset_of(set_int_range(0, n))) by {
        assert forall|p: int| listed.to_set().contains(p) implies set_int_range(0, n).contains(
            p,
        ) by {
            let r = choose|r: int| 0 <= r < listed.len() && listed[r] == p;
            assert(0 <= order[r] < n);
        }
    }
    vstd::set_lib::lemma_len_subset(listed.to_set(), set_int_range(0, n));
    lemma_subset_equality(listed.to_set(), set_int_range(0, n));
    assert forall|p: int| 0 <= p < n implies listed.contains(p) by {
        assert(set_int_range(0, n).contains(p));
        assert(listed.to_set().contains(p));
    }
}

/// Tells whether place `i` comes before place `j`.
fn precedes(dists: &Vec<usize>, i: usize, j: usize) -> (b: bool)
    requires
        i < dists.len(),
        j < dists.len(),
    ensures
        b == comes_before(keys(dists@), i as int, j as int),
{
    dists[i] < dists[j] || (dists[i] == dists[j] && i < j)
}

/// Joins the ranking of the places from `lo` to `mid` and the ranking of
/// those from `mid` to `hi` into the ranking of the places from `lo` to `hi`.
fn merge(
    dists: &Vec<usize>,
    left: &Vec<usize>,
    right: &Vec<usize>,
    Ghost(lo): Ghost<int>,
    Ghost(mid): Ghost<int>,
    Ghost(hi): Ghost<int>,
) -> (merged: Vec<usize>)
    requires
        0 <= lo <= mid <= hi <= dists.len(),
        is_ranking(keys(dists@), left@, lo, mid),
        is_ranking(keys(dists@), right@, mid, hi),
    ensures
        is_ranking(keys(dists@), merged@, lo, hi),
{
    let ghost d = keys(dists@);
    let mut merged: Vec<usize> = Vec::new();
    let mut i: usize = 0;
    let mut j: usize = 0;
    while i < left.len() || j < right.len()
        invariant
            d == keys(dists@),
            0 <= lo <= mid <= hi <= dists.len(),
            is_ranking(d, left@, lo, mid),
            is_ranking(d, right@, mid, hi),
            i <= left.len(),
            j <= right.len(),
            merged.len() == i + j,
            within(merged@, lo, hi),
            in_order(d, merged@),
            forall|r: int|
                0 <= r < merged.len() && i < left.len() ==> comes_before(
                    d,
                    #[trigger] merged[r] as int,
                    left[i as int] as int,
                ),
            forall|r: int|
                0 <= r < merged.len() && j < right.len() ==> comes_before(
                    d,
                    #[trigger] merged[r] as int,
                    right[j as int] as int,
                ),
        decreases left.len() - i + right.len() - j,
    {
        let from_left = if i == left.len() {
            false
        } else if j == right.len() {
            true
        } else {
            precedes(dists, left[i], right[j])
        };
        if from_left {
            proof {
                if i + 1 < left.len() {
                    assert(comes_before(d, left[i as int] as int, left[i + 1] as int));
                }
            }
            merged.push(left[i]);
            i += 1;
        } else {
            proof {
                if j + 1 < right.len() {
                    assert(comes_before(d, right[j as int] as int, right[j + 1] as int));
                }
            }
            merged.push(right[j]);
            j += 1;
        }
    }
    merged
}

/// Ranks the places from `lo` up to `hi`, the latter left out.
fn rank(dists: &Vec<usize>, lo: usize, hi: usize) -> (order: Vec<usize>)
    requires
        lo <= hi <= dists.len(),
    ensures
        is_ranking(keys(dists@), order@, lo as int, hi as int),
    decreases hi - lo,
{
    if hi - lo <= 1 {
        let mut order: Vec<usize> = Vec::new();
        if lo < hi {
            order.push(lo);
        }
        order
    } else {
        let mid: usize = lo + (hi - lo) / 2;
        let left = rank(dists, lo, mid);
        let right = rank(dists, mid, hi);
        merge(dists, &left, &right, Ghost(lo as int), Ghost(mid as int), Ghost(hi as int))
    }
}

/// Chooses the `k` nearest places of a list of distances, nearest first.
pub fn nearest_places(dists: &Vec<usize>, k: usize) -> (chosen: Vec<usize>)
    ensures
        is_nearest(keys(dists@), k as nat, places(chosen@)),
{
    let mut order = rank(dists, 0, dists.len());
    let ghost full = order@;
    order.truncate(k);
    proof {
        let d = keys(dists@);
        let chosen = places(order@);
        lemma_ranking_complete(d, full, dists.len() as int);
        assert(forall|r: int| 0 <= r < chosen.len() ==> chosen[r] == full[r]);
        assert forall|r: int, p: int|
            0 <= r < chosen.len() && 0 <= p < d.len() && !chosen.contains(p) implies comes_before(
            d,
            chosen[r],
            p,
        ) by {
            assert(places(full).contains(p));
            let s = choose|s: int| 0 <= s < places(full).len() && places(full)[s] == p;
            if s < chosen.len() {
                assert(chosen[s] == p);
            } else {
                assert(comes_before(d, full[r] as int, full[s] as int));
            }
        }
        assert forall|r: int, s: int| 0 <= r < s < chosen.len() implies comes_before(
            d,
            chosen[r],
            chosen[s],
        ) by {
            assert(comes_before(d, full[r] as int, full[s] as int));
        }
    }
    order
}

} // verus!
