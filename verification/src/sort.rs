//! In-place selection: partitioning, single-rank and multi-rank quickselect.

use crate::ordered_map::{rank_map_entries, rank_map_insert, rank_map_new};
use indexmap::IndexMap;
use std::hash::RandomState;
use vstd::prelude::*;
use vstd::relations::*;
use vstd::seq_lib::*;
use vstd::multiset::*;

verus! {

/// The order by which lanes are sorted.
pub open spec fn leq() -> spec_fn(i64, i64) -> bool {
    |a: i64, b: i64| a <= b
}

/// The lane's elements in ascending order.
pub open spec fn sorted(s: Seq<i64>) -> Seq<i64> {
    s.sort_by(leq())
}

/// No element is followed by a smaller one.
pub open spec fn ascending(s: Seq<i64>) -> bool {
    forall|i: int, j: int| 0 <= i <= j < s.len() ==> s[i] <= s[j]
}

/// Every element before position `m` is at most every element from `m` on.
pub open spec fn split_at(s: Seq<i64>, m: int) -> bool {
    forall|i: int, j: int| 0 <= i < m <= j < s.len() ==> s[i] <= s[j]
}

/// `sorted(s)` is an ascending rearrangement of `s`.
pub proof fn lemma_sorted_properties(s: Seq<i64>)
    ensures
        sorted(s).to_multiset() == s.to_multiset(),
        sorted(s).len() == s.len(),
        ascending(sorted(s)),
        forall|x: i64| sorted(s).contains(x) <==> s.contains(x),
{
    broadcast use group_to_multiset_ensures;

    assert(total_ordering(leq()));
    s.lemma_sort_by_ensures(leq());
    let t = sorted(s);
    s.to_multiset_ensures();
    t.to_multiset_ensures();
    assert forall|i: int, j: int| 0 <= i <= j < t.len() implies t[i] <= t[j] by {
        if i < j {
            assert(leq()(t[i], t[j]));
        }
    }
    assert forall|x: i64| t.contains(x) <==> s.contains(x) by {
        assert(t.contains(x) <==> t.to_multiset().count(x) > 0);
        assert(s.contains(x) <==> s.to_multiset().count(x) > 0);
    }
}

/// An ascending rearrangement of `s` is `sorted(s)`.
pub proof fn lemma_sorted_unique_of(t: Seq<i64>, s: Seq<i64>)
    requires
        ascending(t),
        t.to_multiset() == s.to_multiset(),
    ensures
        t == sorted(s),
{
    assert(total_ordering(leq()));
    lemma_sorted_properties(s);
    assert(sorted_by(t, leq()));
    assert(sorted_by(sorted(s), leq())) by {
        s.lemma_sort_by_ensures(leq());
    }
    lemma_sorted_unique(t, sorted(s), leq());
}

/// A rearrangement of `orig` whose element at `k` has nothing larger before it
/// and nothing smaller after it holds at `k` what the sorted lane holds there.
pub proof fn lemma_selected(s: Seq<i64>, orig: Seq<i64>, k: int)
    requires
        0 <= k < s.len(),
        s.to_multiset() == orig.to_multiset(),
        split_at(s, k),
        split_at(s, k + 1),
    ensures
        s[k] == sorted(orig)[k],
{
    broadcast use group_to_multiset_ensures;

    let left = s.subrange(0, k);
    let right = s.subrange(k + 1, s.len() as int);
    let mid = seq![s[k]];
    lemma_sorted_properties(left);
    lemma_sorted_properties(right);
    let sl = sorted(left);
    let sr = sorted(right);
    let t = sl + mid + sr;
    assert(s =~= left + mid + right);
    lemma_multiset_commutative(left, mid);
    lemma_multiset_commutative(left + mid, right);
    lemma_multiset_commutative(sl, mid);
    lemma_multiset_commutative(sl + mid, sr);
    assert(t.to_multiset() == s.to_multiset());
    assert forall|i: int, j: int| 0 <= i <= j < t.len() implies t[i] <= t[j] by {
        if i < k {
            assert(sl.contains(t[i]));
            assert(left.contains(t[i]));
            let a = choose|a: int| 0 <= a < left.len() && left[a] == t[i];
            assert(s[a] == t[i]);
        }
        if j > k {
            assert(sr[j - k - 1] == t[j]);
            assert(sr.contains(t[j]));
            assert(right.contains(t[j]));
            let b = choose|b: int| 0 <= b < right.len() && right[b] == t[j];
            assert(s[b + k + 1] == t[j]);
        }
    }
    lemma_sorted_unique_of(t, orig);
    assert(t[k] == s[k]);
}

/// Exchanging two elements keeps what the lane holds.
pub proof fn lemma_swap_multiset(s: Seq<i64>, i: int, j: int)
    requires
        0 <= i < s.len(),
        0 <= j < s.len(),
    ensures
        s.update(i, s[j]).update(j, s[i]).to_multiset() == s.to_multiset(),
{
    broadcast use group_to_multiset_ensures;
    broadcast use group_multiset_axioms;

    let s1 = s.update(i, s[j]);
    let s2 = s1.update(j, s[i]);
    to_multiset_update(s, i, s[j]);
    to_multiset_update(s1, j, s[i]);
    assert(s.to_multiset().count(s[i]) > 0);
    assert(s.to_multiset().count(s[j]) > 0);
    assert(s2.to_multiset() =~= s.to_multiset());
}

/// Exchanges the elements at `i` and `j`, both inside `lo..hi`.
fn swap_within(v: &mut Vec<i64>, lo: usize, hi: usize, i: usize, j: usize)
    requires
        lo <= i < hi <= old(v).len(),
        lo <= j < hi,
    ensures
        final(v)@ == old(v)@.update(i as int, old(v)@[j as int]).update(j as int, old(v)@[i as int]),
        final(v)@.subrange(lo as int, hi as int).to_multiset() == old(v)@.subrange(
            lo as int,
            hi as int,
        ).to_multiset(),
{
    let a: i64 = v[i];
    let b: i64 = v[j];
    v.set(i, b);
    v.set(j, a);
    proof {
        let before = old(v)@.subrange(lo as int, hi as int);
        lemma_swap_multiset(before, i - lo, j - lo);
        assert(v@.subrange(lo as int, hi as int) =~= before.update(i - lo, before[j - lo]).update(
            j - lo,
            before[i - lo],
        ));
    }
}

/// The value `x` stands somewhere in `a..b`.
pub open spec fn held_in(s: Seq<i64>, a: int, b: int, x: i64) -> bool {
    exists|y: int| a <= y < b && s[y] == x
}

/// Rearranging a lane inside `a..b` keeps what it holds and the splits at `a` and `b`.
pub proof fn lemma_rearranged_range(before: Seq<i64>, after: Seq<i64>, a: int, b: int)
    requires
        0 <= a <= b <= before.len(),
        after.len() == before.len(),
        forall|i: int| 0 <= i < a || b <= i < before.len() ==> after[i] == before[i],
        after.subrange(a, b).to_multiset() == before.subrange(a, b).to_multiset(),
    ensures
        after.to_multiset() == before.to_multiset(),
        split_at(before, a) ==> split_at(after, a),
        split_at(before, b) ==> split_at(after, b),
{
    broadcast use group_to_multiset_ensures;

    let n = before.len() as int;
    assert(after =~= after.subrange(0, a) + after.subrange(a, b) + after.subrange(b, n));
    assert(before =~= before.subrange(0, a) + before.subrange(a, b) + before.subrange(b, n));
    assert(after.subrange(0, a) =~= before.subrange(0, a));
    assert(after.subrange(b, n) =~= before.subrange(b, n));
    lemma_multiset_commutative(after.subrange(0, a), after.subrange(a, b));
    lemma_multiset_commutative(after.subrange(0, a) + after.subrange(a, b), after.subrange(b, n));
    lemma_multiset_commutative(before.subrange(0, a), before.subrange(a, b));
    lemma_multiset_commutative(
        before.subrange(0, a) + before.subrange(a, b),
        before.subrange(b, n),
    );
    assert forall|x: int| a <= x < b implies #[trigger] held_in(before, a, b, after[x]) by {
        let inner = after.subrange(a, b);
        let outer = before.subrange(a, b);
        inner.to_multiset_ensures();
        outer.to_multiset_ensures();
        assert(inner[x - a] == after[x]);
        assert(inner.contains(after[x]));
        assert(inner.to_multiset().count(after[x]) > 0);
        assert(outer.to_multiset().count(after[x]) > 0);
        assert(outer.contains(after[x]));
        let y = choose|y: int| 0 <= y < outer.len() && outer[y] == after[x];
        assert(before[y + a] == after[x]);
    }
    if split_at(before, a) {
        assert forall|i: int, j: int| 0 <= i < a <= j < after.len() implies after[i] <= after[j] by {
            if j < b {
                assert(held_in(before, a, b, after[j]));
                let y = choose|y: int| a <= y < b && before[y] == after[j];
                assert(before[i] <= before[y]);
            }
        }
    }
    if split_at(before, b) {
        assert forall|i: int, j: int| 0 <= i < b <= j < after.len() implies after[i] <= after[j] by {
            if a <= i {
                assert(held_in(before, a, b, after[i]));
                let y = choose|y: int| a <= y < b && before[y] == after[i];
                assert(before[y] <= before[j]);
            }
        }
    }
}

/// Partitions `lo..hi` around the value at `pivot_index` by a scan from both ends.
pub fn partition_range(v: &mut Vec<i64>, lo: usize, hi: usize, pivot_index: usize) -> (m: usize)
    requires
        lo <= pivot_index < hi <= old(v).len(),
    ensures
        lo <= m < hi,
        final(v)@.len() == old(v)@.len(),
        final(v)@[m as int] == old(v)@[pivot_index as int],
        forall|i: int| lo <= i < m ==> final(v)@[i] < final(v)@[m as int],
        forall|i: int| m < i < hi ==> final(v)@[i] >= final(v)@[m as int],
        forall|i: int| 0 <= i < lo || hi <= i < old(v)@.len() ==> final(v)@[i] == old(v)@[i],
        final(v)@.subrange(lo as int, hi as int).to_multiset() == old(v)@.subrange(
            lo as int,
            hi as int,
        ).to_multiset(),
{
    let ghost orig = v@;
    let pivot: i64 = v[pivot_index];
    swap_within(v, lo, hi, pivot_index, lo);
    let mut i: usize = lo + 1;
    let mut j: usize = hi;
    while i < j
        invariant
            lo + 1 <= i <= j <= hi <= v@.len(),
            v@.len() == orig.len(),
            v@[lo as int] == pivot,
            forall|x: int| lo < x < i ==> v@[x] < pivot,
            forall|x: int| j <= x < hi ==> v@[x] >= pivot,
            forall|x: int| 0 <= x < lo || hi <= x < orig.len() ==> v@[x] == orig[x],
            v@.subrange(lo as int, hi as int).to_multiset() == orig.subrange(
                lo as int,
                hi as int,
            ).to_multiset(),
        decreases j - i,
    {
        if v[i] < pivot {
            i += 1;
        } else if v[j - 1] >= pivot {
            j -= 1;
        } else {
            swap_within(v, lo, hi, i, j - 1);
            i += 1;
            j -= 1;
        }
    }
    swap_within(v, lo, hi, lo, i - 1);
    i - 1
}

/// Partitions the lane around the value at `pivot_index` and returns where that
/// value then stands: smaller elements before it, all others after it.
pub fn partition_mut(v: &mut Vec<i64>, pivot_index: usize) -> (m: usize)
    requires
        pivot_index < old(v).len(),
    ensures
        m < final(v)@.len(),
        final(v)@.len() == old(v)@.len(),
        final(v)@.to_multiset() == old(v)@.to_multiset(),
        final(v)@[m as int] == old(v)@[pivot_index as int],
        forall|i: int| 0 <= i < m ==> final(v)@[i] < final(v)@[m as int],
        forall|i: int| m < i < final(v)@.len() ==> final(v)@[i] >= final(v)@[m as int],
{
    let n: usize = v.len();
    let m: usize = partition_range(v, 0, n, pivot_index);
    proof {
        assert(v@.subrange(0, n as int) =~= v@);
        assert(old(v)@.subrange(0, n as int) =~= old(v)@);
    }
    m
}

/// Quickselect inside `lo..hi`, with the range's last element as the pivot of
/// each round: brings to position `k` the element that belongs there.
pub fn select_range(v: &mut Vec<i64>, lo: usize, hi: usize, k: usize) -> (r: i64)
    requires
        lo <= k < hi <= old(v).len(),
        split_at(old(v)@, lo as int),
        split_at(old(v)@, hi as int),
    ensures
        final(v)@.len() == old(v)@.len(),
        final(v)@.to_multiset() == old(v)@.to_multiset(),
        forall|i: int| 0 <= i < lo || hi <= i < old(v)@.len() ==> final(v)@[i] == old(v)@[i],
        split_at(final(v)@, k as int),
        split_at(final(v)@, k + 1),
        r == final(v)@[k as int],
{
    let ghost orig = v@;
    let mut a: usize = lo;
    let mut b: usize = hi;
    loop
        invariant
            orig == old(v)@,
            lo <= a <= k < b <= hi <= v@.len(),
            v@.len() == orig.len(),
            v@.to_multiset() == orig.to_multiset(),
            forall|i: int| 0 <= i < lo || hi <= i < orig.len() ==> v@[i] == orig[i],
            split_at(v@, a as int),
            split_at(v@, b as int),
        decreases b - a,
    {
        let ghost before = v@;
        let m: usize = partition_range(v, a, b, b - 1);
        proof {
            lemma_rearranged_range(before, v@, a as int, b as int);
        }
        if m == k {
            return v[k];
        } else if k < m {
            b = m;
        } else {
            a = m + 1;
        }
    }
}

/// The element that would stand at rank `k` if the lane were sorted. The lane is
/// rearranged in place: nothing larger stays before position `k`, nothing
/// smaller after it.
pub fn get_from_sorted_mut(v: &mut Vec<i64>, k: usize) -> (r: i64)
    requires
        k < old(v).len(),
    ensures
        r == sorted(old(v)@)[k as int],
        final(v)@.len() == old(v)@.len(),
        final(v)@.to_multiset() == old(v)@.to_multiset(),
        final(v)@[k as int] == r,
        split_at(final(v)@, k as int),
        split_at(final(v)@, k + 1),
{
    let n: usize = v.len();
    let r: i64 = select_range(v, 0, n, k);
    proof {
        lemma_selected(v@, old(v)@, k as int);
    }
    r
}

/// Each rank is larger than the one before it.
pub open spec fn strictly_ascending(s: Seq<usize>) -> bool {
    forall|i: int, j: int| 0 <= i < j < s.len() ==> s[i] < s[j]
}

/// The ranks of `indexes`, each once, in ascending order.
pub fn sorted_unique(indexes: &[usize]) -> (r: Vec<usize>)
    ensures
        strictly_ascending(r@),
        forall|x: usize| r@.contains(x) <==> indexes@.contains(x),
{
    let mut out: Vec<usize> = Vec::new();
    let mut n: usize = 0;
    while n < indexes.len()
        invariant
            n <= indexes@.len(),
            strictly_ascending(out@),
            forall|x: usize| out@.contains(x) <==> indexes@.subrange(0, n as int).contains(x),
        decreases indexes@.len() - n,
    {
        let x: usize = indexes[n];
        let mut p: usize = 0;
        while p < out.len() && out[p] < x
            invariant
                p <= out@.len(),
                n < indexes@.len(),
                x == indexes@[n as int],
                strictly_ascending(out@),
                forall|x: usize| out@.contains(x) <==> indexes@.subrange(0, n as int).contains(x),
                forall|i: int| 0 <= i < p ==> out@[i] < x,
            decreases out@.len() - p,
        {
            p += 1;
        }
        let ghost seen = indexes@.subrange(0, n as int);
        let ghost grown = indexes@.subrange(0, n + 1);
        let ghost prev = out@;
        proof {
            assert(grown =~= seen.push(x));
        }
        if p == out.len() || out[p] != x {
            out.insert(p, x);
            proof {
                assert(out@ =~= prev.subrange(0, p as int).push(x) + prev.subrange(
                    p as int,
                    prev.len() as int,
                ));
                assert forall|i: int, j: int| 0 <= i < j < out@.len() implies out@[i] < out@[j] by {
                    if i < p && j > p {
                        assert(prev[i] < prev[j - 1]);
                    }
                }
                assert forall|y: usize| out@.contains(y) <==> grown.contains(y) by {
                    if out@.contains(y) {
                        let i = choose|i: int| 0 <= i < out@.len() && out@[i] == y;
                        if i != p {
                            let c = if i < p { i } else { i - 1 };
                            assert(prev[c] == y);
                            assert(prev.contains(y));
                            assert(seen.contains(y));
                            let d = choose|d: int| 0 <= d < seen.len() && seen[d] == y;
                            assert(grown[d] == y);
                        } else {
                            assert(grown[n as int] == y);
                        }
                    }
                    if grown.contains(y) {
                        let i = choose|i: int| 0 <= i < grown.len() && grown[i] == y;
                        if i < n {
                            assert(seen[i] == y);
                            assert(seen.contains(y));
                            assert(prev.contains(y));
                            let c = choose|c: int| 0 <= c < prev.len() && prev[c] == y;
                            if c < p {
                                assert(out@[c] == y);
                            } else {
                                assert(out@[c + 1] == y);
                            }
                        } else {
                            assert(out@[p as int] == y);
                        }
                    }
                }
            }
        } else {
            proof {
                assert forall|y: usize| out@.contains(y) <==> grown.contains(y) by {
                    if out@.contains(y) {
                        assert(seen.contains(y));
                        let i = choose|i: int| 0 <= i < seen.len() && seen[i] == y;
                        assert(grown[i] == y);
                    }
                    if grown.contains(y) {
                        let i = choose|i: int| 0 <= i < grown.len() && grown[i] == y;
                        if i < n {
                            assert(seen[i] == y);
                            assert(seen.contains(y));
                        } else {
                            assert(out@[p as int] == y);
                        }
                    }
                }
            }
        }
        n += 1;
    }
    proof {
        assert(indexes@.subrange(0, n as int) =~= indexes@);
    }
    out
}

/// What multi-rank selection hands out for the ascending ranks `ranks` of the
/// lane `lane`: one entry per rank, in that order, each with the element that
/// the sorted lane holds at the rank.
pub open spec fn selected_entries(lane: Seq<i64>, ranks: Seq<usize>) -> Seq<(usize, i64)> {
    Seq::new(ranks.len(), |i: int| (ranks[i], sorted(lane)[ranks[i] as int]))
}

/// Among the entries for `ranks`, each rank has its entry: the rank with the
/// element that the sorted lane holds there.
pub proof fn lemma_selected_entry(lane: Seq<i64>, ranks: Seq<usize>, x: usize)
    requires
        ranks.contains(x),
    ensures
        selected_entries(lane, ranks).contains((x, sorted(lane)[x as int])),
{
    let i = choose|i: int| 0 <= i < ranks.len() && ranks[i] == x;
    assert(selected_entries(lane, ranks)[i] == (x, sorted(lane)[x as int]));
}

/// Multi-rank selection for ranks that are already ascending without repeats:
/// after a rank is resolved, the next one is searched only above its position.
pub fn get_many_from_sorted_mut_unchecked(v: &mut Vec<i64>, indexes: &[usize]) -> (r: IndexMap<
    usize,
    i64,
    RandomState,
>)
    requires
        strictly_ascending(indexes@),
        forall|i: int| 0 <= i < indexes@.len() ==> indexes@[i] < old(v)@.len(),
    ensures
        final(v)@.len() == old(v)@.len(),
        final(v)@.to_multiset() == old(v)@.to_multiset(),
        rank_map_entries(r) == selected_entries(old(v)@, indexes@),
{
    let ghost orig = v@;
    let mut values = rank_map_new();
    let mut lo: usize = 0;
    let mut n: usize = 0;
    let len: usize = v.len();
    while n < indexes.len()
        invariant
            n <= indexes@.len(),
            len == v@.len() == orig.len(),
            v@.to_multiset() == orig.to_multiset(),
            strictly_ascending(indexes@),
            forall|i: int| 0 <= i < indexes@.len() ==> indexes@[i] < len,
            lo <= len,
            split_at(v@, lo as int),
            n == 0 ==> lo == 0,
            n > 0 ==> lo == indexes@[n - 1] + 1,
            rank_map_entries(values) == selected_entries(orig, indexes@.subrange(0, n as int)),
        decreases indexes@.len() - n,
    {
        let k: usize = indexes[n];
        proof {
            if n > 0 {
                assert(indexes@[n - 1] < indexes@[n as int]);
            }
        }
        let x: i64 = select_range(v, lo, len, k);
        proof {
            lemma_selected(v@, orig, k as int);
        }
        let ghost entries = rank_map_entries(values);
        let prev = rank_map_insert(&mut values, k, x);
        proof {
            if prev.is_some() {
                let i = choose|i: int|
                    0 <= i < entries.len() && #[trigger] entries[i] == (k, prev.unwrap());
                assert(indexes@[i] < indexes@[n as int]);
            }
            assert(rank_map_entries(values) =~= selected_entries(
                orig,
                indexes@.subrange(0, n + 1),
            ));
        }
        lo = k + 1;
        n += 1;
    }
    proof {
        assert(indexes@.subrange(0, n as int) =~= indexes@);
    }
    values
}

/// Multi-rank selection for any ranks, in any order and with repeats: the ranks
/// are put in ascending order without repeats before the lane is searched.
pub fn get_many_from_sorted_mut(v: &mut Vec<i64>, indexes: &[usize]) -> (r: IndexMap<
    usize,
    i64,
    RandomState,
>)
    requires
        forall|i: int| 0 <= i < indexes@.len() ==> indexes@[i] < old(v)@.len(),
    ensures
        final(v)@.len() == old(v)@.len(),
        final(v)@.to_multiset() == old(v)@.to_multiset(),
        exists|ranks: Seq<usize>|
            {
                &&& strictly_ascending(ranks)
                &&& forall|x: usize| ranks.contains(x) <==> indexes@.contains(x)
                &&& rank_map_entries(r) == #[trigger] selected_entries(old(v)@, ranks)
            },
{
    let ranks = sorted_unique(indexes);
    proof {
        assert forall|i: int| 0 <= i < ranks@.len() implies ranks@[i] < v@.len() by {
            assert(ranks@.contains(ranks@[i]));
            assert(indexes@.contains(ranks@[i]));
        }
    }
    get_many_from_sorted_mut_unchecked(v, ranks.as_slice())
}

} // verus!
