//! Quantiles of a lane: one level or many, sharing one pass of selection.

use crate::interpolate::{
    fraction_of, linear_exact, weighted, Fraction, higher_index_of, interpolated, lemma_below_transitive, lemma_index_at_one,
    lemma_index_at_zero, lemma_index_bounds, lemma_level_trichotomy, lemma_lower_index_monotone,
    lemma_same_level_same_index, lemma_same_level_same_interpolated, lower_index_of,
    needs_higher_of, needs_lower_of, Higher, Interpolate, Linear, Lower, Midpoint, Nearest,
    QuantileLevel, Strategy,
};
use crate::ordered_map::{
    rank_map_entries, rank_map_get, rank_set_insert, rank_set_into_vec, rank_set_items,
    rank_set_new,
};
use crate::sort::{
    get_many_from_sorted_mut_unchecked, lemma_selected_entry, lemma_sorted_properties,
    lemma_sorted_unique_of,
    selected_entries, sorted, sorted_unique, strictly_ascending,
};
use vstd::arithmetic::div_mod::lemma_basic_div;
use vstd::prelude::*;

verus! {

/// Why a quantile query is refused.
#[derive(Clone, Copy, Debug, PartialEq, Eq, Structural)]
pub enum QuantileError {
    /// A level lies outside the closed interval from 0 to 1.
    InvalidQuantileLevel,
    /// The array has no axis of that number.
    AxisOutOfRange,
    /// The array's shape is not one of an array of as many elements as it has.
    InvalidShape,
}

/// The quantile of a lane that is not empty at a valid level: the strategy's
/// combination of the sorted lane's elements at the floor and the ceiling of
/// the fractional index.
pub open spec fn quantile_of(lane: Seq<i64>, q: QuantileLevel, strategy: Strategy) -> int {
    let len = lane.len() as usize;
    interpolated(
        strategy,
        Some(sorted(lane)[lower_index_of(q, len)]),
        Some(sorted(lane)[higher_index_of(q, len)]),
        q,
        len,
    )
}

/// The quantile at level 0 is the lane's smallest element, whatever the strategy.
pub proof fn lemma_quantile_at_zero(lane: Seq<i64>, q: QuantileLevel, strategy: Strategy)
    requires
        0 < lane.len() <= usize::MAX,
        q.num == 0,
        q.den > 0,
    ensures
        quantile_of(lane, q, strategy) == sorted(lane)[0],
        is_least(lane, quantile_of(lane, q, strategy)),
{
    let len = lane.len() as usize;
    let t = sorted(lane);
    lemma_index_at_zero(q, len);
    lemma_sorted_properties(lane);
    lemma_basic_div(0, q.den as int);
    assert(0 * (t[0] - t[0]) == 0);
    assert(t.contains(t[0]));
    assert(lane.contains(t[0]));
    assert forall|i: int| 0 <= i < lane.len() implies t[0] <= lane[i] by {
        assert(lane.contains(lane[i]));
        assert(t.contains(lane[i]));
        let j = choose|j: int| 0 <= j < t.len() && t[j] == lane[i];
        assert(t[0] <= t[j]);
    }
}

/// The quantile at level 1 is the lane's largest element, whatever the strategy.
pub proof fn lemma_quantile_at_one(lane: Seq<i64>, q: QuantileLevel, strategy: Strategy)
    requires
        0 < lane.len() <= usize::MAX,
        q.num == q.den,
        q.den > 0,
    ensures
        quantile_of(lane, q, strategy) == sorted(lane)[lane.len() - 1],
        is_greatest(lane, quantile_of(lane, q, strategy)),
{
    let len = lane.len() as usize;
    let t = sorted(lane);
    let top = lane.len() - 1;
    lemma_index_at_one(q, len);
    lemma_sorted_properties(lane);
    lemma_basic_div(0, q.den as int);
    assert(0 * (t[top] - t[top]) == 0);
    assert(t.contains(t[top]));
    assert(lane.contains(t[top]));
    assert forall|i: int| 0 <= i < lane.len() implies t[top] >= lane[i] by {
        assert(lane.contains(lane[i]));
        assert(t.contains(lane[i]));
        let j = choose|j: int| 0 <= j < t.len() && t[j] == lane[i];
        assert(t[j] <= t[top]);
    }
}

/// Two lanes that hold the same elements, in whatever order, have the same
/// quantiles.
pub proof fn lemma_quantile_of_rearranged(
    a: Seq<i64>,
    b: Seq<i64>,
    q: QuantileLevel,
    strategy: Strategy,
)
    requires
        a.to_multiset() == b.to_multiset(),
    ensures
        quantile_of(a, q, strategy) == quantile_of(b, q, strategy),
{
    lemma_sorted_properties(a);
    lemma_sorted_properties(b);
    lemma_sorted_unique_of(sorted(a), b);
}

/// Two levels that are the same number give the same quantile: a bulk query
/// answers for each requested level what a query for that level alone answers.
pub proof fn lemma_same_level_same_quantile(
    lane: Seq<i64>,
    a: QuantileLevel,
    b: QuantileLevel,
    strategy: Strategy,
)
    requires
        0 < lane.len() <= usize::MAX,
        a.is_valid(),
        b.is_valid(),
        a.same(b),
    ensures
        quantile_of(lane, a, strategy) == quantile_of(lane, b, strategy),
{
    let len = lane.len() as usize;
    let t = sorted(lane);
    lemma_sorted_properties(lane);
    lemma_index_bounds(a, len);
    lemma_same_level_same_index(a, b, len);
    let lo = lower_index_of(a, len);
    let hi = higher_index_of(a, len);
    assert(t[lo] <= t[hi]);
    lemma_same_level_same_interpolated(strategy, t[lo], t[hi], a, b, len);
}

/// The test for a value below `v`.
pub open spec fn is_below(v: i64) -> spec_fn(i64) -> bool {
    |x: i64| x < v
}

/// The test for a value that is at least `v`.
pub open spec fn is_at_least(v: i64) -> spec_fn(i64) -> bool {
    |x: i64| x >= v
}

/// How many elements of the lane are below `v`.
pub open spec fn count_below(lane: Seq<i64>, v: i64) -> nat {
    lane.to_multiset().filter(is_below(v)).len()
}

/// How many elements of the lane are at least `v`.
pub open spec fn count_at_least(lane: Seq<i64>, v: i64) -> nat {
    lane.to_multiset().filter(is_at_least(v)).len()
}

/// Of the element that the sorted lane holds at rank `k`: at most `k`
/// elements of the lane are below it, and all but at most `k` are at least it.
pub proof fn lemma_rank_counts(lane: Seq<i64>, k: int)
    requires
        0 <= k < lane.len(),
    ensures
        count_below(lane, sorted(lane)[k]) <= k,
        count_at_least(lane, sorted(lane)[k]) >= lane.len() - k,
{
    broadcast use vstd::multiset::group_multiset_axioms;

    lemma_sorted_properties(lane);
    let t = sorted(lane);
    let v = t[k];
    let a = t.subrange(0, k);
    let b = t.subrange(k, t.len() as int);
    assert(t =~= a + b);
    vstd::seq_lib::lemma_multiset_commutative(a, b);
    a.to_multiset_ensures();
    b.to_multiset_ensures();
    let (ma, mb) = (a.to_multiset(), b.to_multiset());
    let (lt, ge) = (is_below(v), is_at_least(v));
    assert forall|x: i64| lt(x) implies mb.count(x) == 0 by {
        if b.contains(x) {
            let j = choose|j: int| 0 <= j < b.len() && b[j] == x;
            assert(t[k] <= t[j + k]);
        }
    }
    assert(ma.add(mb).filter(lt) =~= ma.filter(lt).add(mb.filter(lt)));
    assert(mb.filter(lt) =~= vstd::multiset::Multiset::<i64>::empty());
    assert(ma.filter(lt).add(ma.filter(ge)) =~= ma);
    assert(ma.add(mb).filter(ge) =~= ma.filter(ge).add(mb.filter(ge)));
    assert(mb.filter(ge) =~= mb);
}

/// Of the quantile that `Lower` selects at level `q`: at most as many
/// elements of the lane as the floor of the fractional index are below it, and
/// all the others are at least it.
pub proof fn lemma_lower_quantile_counts(lane: Seq<i64>, q: QuantileLevel)
    requires
        0 < lane.len() <= usize::MAX,
        q.is_valid(),
    ensures
        quantile_of(lane, q, Strategy::Lower) == sorted(lane)[lower_index_of(
            q,
            lane.len() as usize,
        )],
        count_below(lane, sorted(lane)[lower_index_of(q, lane.len() as usize)]) <= lower_index_of(
            q,
            lane.len() as usize,
        ),
        count_at_least(lane, sorted(lane)[lower_index_of(q, lane.len() as usize)]) >= lane.len()
            - lower_index_of(q, lane.len() as usize),
{
    lemma_index_bounds(q, lane.len() as usize);
    lemma_rank_counts(lane, lower_index_of(q, lane.len() as usize));
}

/// Every level lies between 0 and 1.
pub open spec fn all_valid(qs: Seq<QuantileLevel>) -> bool {
    forall|i: int| 0 <= i < qs.len() ==> (#[trigger] qs[i]).is_valid()
}

/// Whether every level lies between 0 and 1.
pub fn all_in_unit_interval(qs: &[QuantileLevel]) -> (r: bool)
    ensures
        r == all_valid(qs@),
{
    let mut n: usize = 0;
    while n < qs.len()
        invariant
            n <= qs@.len(),
            forall|i: int| 0 <= i < n ==> (#[trigger] qs@[i]).is_valid(),
        decreases qs@.len() - n,
    {
        if !qs[n].in_unit_interval() {
            return false;
        }
        n += 1;
    }
    true
}

/// Some level among `levels` is the same number as `q`.
pub open spec fn has_same(levels: Seq<QuantileLevel>, q: QuantileLevel) -> bool {
    exists|i: int| 0 <= i < levels.len() && #[trigger] levels[i].same(q)
}

/// The levels ascend, none twice; each is one of `qs`, and each of `qs` is
/// among them as a number.
pub open spec fn is_level_set(levels: Seq<QuantileLevel>, qs: Seq<QuantileLevel>) -> bool {
    &&& forall|i: int, j: int|
        0 <= i < j < levels.len() ==> #[trigger] levels[i].below(levels[j])
    &&& forall|i: int| 0 <= i < levels.len() ==> #[trigger] qs.contains(levels[i])
    &&& forall|k: int| 0 <= k < qs.len() ==> #[trigger] has_same(levels, qs[k])
}

/// A level set stays one when a new level takes its place in the order.
pub proof fn lemma_level_inserted(
    prev: Seq<QuantileLevel>,
    seen: Seq<QuantileLevel>,
    x: QuantileLevel,
    p: int,
)
    requires
        is_level_set(prev, seen),
        all_valid(prev),
        x.is_valid(),
        0 <= p <= prev.len(),
        forall|i: int| 0 <= i < p ==> (#[trigger] prev[i]).below(x),
        p == prev.len() || x.below(prev[p]),
    ensures
        is_level_set(prev.insert(p, x), seen.push(x)),
        all_valid(prev.insert(p, x)),
{
    let out = prev.insert(p, x);
    let grown = seen.push(x);
    assert forall|i: int| 0 <= i < out.len() implies (#[trigger] out[i]).is_valid()
        && grown.contains(out[i]) by {
        if i != p {
            let c = if i < p {
                i
            } else {
                i - 1
            };
            assert(out[i] == prev[c]);
            assert(seen.contains(prev[c]));
            let d = choose|d: int| 0 <= d < seen.len() && seen[d] == prev[c];
            assert(grown[d] == prev[c]);
        } else {
            assert(grown[seen.len() as int] == x);
        }
    }
    assert forall|i: int, j: int| 0 <= i < j < out.len() implies #[trigger] out[i].below(
        out[j],
    ) by {
        if j < p {
            assert(prev[i].below(prev[j]));
        } else if j == p {
            assert(prev[i].below(x));
        } else if i == p {
            if j - 1 > p {
                assert(prev[p].below(prev[j - 1]));
                lemma_below_transitive(x, prev[p], prev[j - 1]);
            }
        } else if i < p {
            assert(prev[i].below(prev[j - 1]));
        } else {
            assert(prev[i - 1].below(prev[j - 1]));
        }
    }
    assert forall|k: int| 0 <= k < grown.len() implies has_same(out, #[trigger] grown[k]) by {
        if k < seen.len() {
            assert(has_same(prev, seen[k]));
            let c = choose|c: int| 0 <= c < prev.len() && #[trigger] prev[c].same(seen[k]);
            if c < p {
                assert(out[c].same(grown[k]));
            } else {
                assert(out[c + 1].same(grown[k]));
            }
        } else {
            lemma_level_trichotomy(x, x);
            assert(out[p].same(grown[k]));
        }
    }
}

/// A level set covers one more level that is the same number as one of its own.
pub proof fn lemma_level_present(
    prev: Seq<QuantileLevel>,
    seen: Seq<QuantileLevel>,
    x: QuantileLevel,
    p: int,
)
    requires
        is_level_set(prev, seen),
        0 <= p < prev.len(),
        prev[p].same(x),
    ensures
        is_level_set(prev, seen.push(x)),
{
    let grown = seen.push(x);
    assert forall|i: int| 0 <= i < prev.len() implies grown.contains(#[trigger] prev[i]) by {
        assert(seen.contains(prev[i]));
        let d = choose|d: int| 0 <= d < seen.len() && seen[d] == prev[i];
        assert(grown[d] == prev[i]);
    }
    assert forall|k: int| 0 <= k < grown.len() implies has_same(prev, #[trigger] grown[k]) by {
        if k < seen.len() {
            assert(has_same(prev, seen[k]));
        }
    }
}

/// The levels of `qs` in ascending order, each number once.
pub fn sorted_levels(qs: &[QuantileLevel]) -> (r: Vec<QuantileLevel>)
    requires
        all_valid(qs@),
    ensures
        is_level_set(r@, qs@),
        all_valid(r@),
{
    let mut out: Vec<QuantileLevel> = Vec::new();
    let mut n: usize = 0;
    while n < qs.len()
        invariant
            n <= qs@.len(),
            all_valid(qs@),
            all_valid(out@),
            is_level_set(out@, qs@.subrange(0, n as int)),
        decreases qs@.len() - n,
    {
        let x: QuantileLevel = qs[n];
        let ghost seen = qs@.subrange(0, n as int);
        let ghost prev = out@;
        proof {
            assert(qs@.subrange(0, n + 1) =~= seen.push(x));
            assert(x.is_valid());
        }
        let mut p: usize = 0;
        while p < out.len() && out[p].is_below(&x)
            invariant
                p <= out@.len(),
                out@ == prev,
                x.is_valid(),
                all_valid(out@),
                forall|i: int| 0 <= i < p ==> (#[trigger] out@[i]).below(x),
            decreases out@.len() - p,
        {
            p += 1;
        }
        if p == out.len() || x.is_below(&out[p]) {
            out.insert(p, x);
            proof {
                lemma_level_inserted(prev, seen, x, p as int);
            }
        } else {
            proof {
                lemma_level_trichotomy(prev[p as int], x);
                lemma_level_present(prev, seen, x, p as int);
            }
        }
        n += 1;
    }
    proof {
        assert(qs@.subrange(0, n as int) =~= qs@);
    }
    out
}

/// The level `q` reads the order statistic at rank `x` of a lane of `len` elements.
pub open spec fn needs_rank(strategy: Strategy, q: QuantileLevel, len: usize, x: usize) -> bool {
    ||| needs_lower_of(strategy, q, len) && x == lower_index_of(q, len)
    ||| needs_higher_of(strategy, q, len) && x == higher_index_of(q, len)
}

/// Some level among `levels` reads rank `x`.
pub open spec fn needed(strategy: Strategy, levels: Seq<QuantileLevel>, len: usize, x: usize) -> bool {
    exists|k: int| 0 <= k < levels.len() && needs_rank(strategy, #[trigger] levels[k], len, x)
}

/// A sequence with one more item holds what it held and the item.
pub proof fn lemma_push_contains(s: Seq<usize>, item: usize)
    ensures
        forall|x: usize| s.push(item).contains(x) <==> s.contains(x) || x == item,
{
    assert forall|x: usize| s.push(item).contains(x) <==> s.contains(x) || x == item by {
        if s.push(item).contains(x) {
            let i = choose|i: int| 0 <= i < s.push(item).len() && s.push(item)[i] == x;
            if i < s.len() {
                assert(s[i] == x);
            }
        }
        if s.contains(x) {
            let i = choose|i: int| 0 <= i < s.len() && s[i] == x;
            assert(s.push(item)[i] == x);
        }
        assert(s.push(item)[s.len() as int] == item);
    }
}

/// The levels up to `levels[n]` read what the levels before it read and what
/// that level reads.
pub proof fn lemma_needed_grows(
    strategy: Strategy,
    levels: Seq<QuantileLevel>,
    n: int,
    len: usize,
)
    requires
        0 <= n < levels.len(),
    ensures
        forall|x: usize|
            needed(strategy, levels.subrange(0, n + 1), len, x) <==> needed(
                strategy,
                levels.subrange(0, n),
                len,
                x,
            ) || needs_rank(strategy, levels[n], len, x),
{
    let seen = levels.subrange(0, n);
    let grown = levels.subrange(0, n + 1);
    assert forall|x: usize|
        needed(strategy, grown, len, x) <==> needed(strategy, seen, len, x) || needs_rank(
            strategy,
            levels[n],
            len,
            x,
        ) by {
        if needed(strategy, grown, len, x) {
            let k = choose|k: int|
                0 <= k < grown.len() && needs_rank(strategy, #[trigger] grown[k], len, x);
            if k < n {
                assert(needs_rank(strategy, seen[k], len, x));
            }
        }
        if needed(strategy, seen, len, x) {
            let k = choose|k: int|
                0 <= k < seen.len() && needs_rank(strategy, #[trigger] seen[k], len, x);
            assert(needs_rank(strategy, grown[k], len, x));
        }
        if needs_rank(strategy, levels[n], len, x) {
            assert(needs_rank(strategy, grown[n], len, x));
        }
    }
}

/// The ranks that the levels read in a lane of `len` elements, in ascending
/// order, each once. The ranks are collected in a set that keeps each once,
/// then put in order.
pub fn searched_indexes<I: Interpolate>(levels: &Vec<QuantileLevel>, len: usize) -> (r: Vec<usize>)
    requires
        all_valid(levels@),
        len > 0,
    ensures
        strictly_ascending(r@),
        forall|x: usize| r@.contains(x) <==> needed(I::strategy(), levels@, len, x),
        forall|i: int| 0 <= i < r@.len() ==> r@[i] < len,
{
    let mut wanted = rank_set_new();
    let mut n: usize = 0;
    while n < levels.len()
        invariant
            n <= levels@.len(),
            all_valid(levels@),
            len > 0,
            forall|x: usize|
                rank_set_items(wanted).contains(x) <==> needed(
                    I::strategy(),
                    levels@.subrange(0, n as int),
                    len,
                    x,
                ),
        decreases levels@.len() - n,
    {
        let q: QuantileLevel = levels[n];
        proof {
            assert(q.is_valid());
            lemma_needed_grows(I::strategy(), levels@, n as int, len);
        }
        let ghost s = I::strategy();
        let ghost before = rank_set_items(wanted);
        if I::needs_lower(q, len) {
            let k: usize = I::lower_index(q, len);
            proof {
                lemma_push_contains(before, k);
            }
            rank_set_insert(&mut wanted, k);
        }
        let ghost between = rank_set_items(wanted);
        proof {
            assert forall|x: usize|
                between.contains(x) <==> before.contains(x) || (needs_lower_of(s, q, len) && x
                    == lower_index_of(q, len)) by {}
        }
        if I::needs_higher(q, len) {
            let k: usize = I::higher_index(q, len);
            proof {
                lemma_push_contains(between, k);
            }
            rank_set_insert(&mut wanted, k);
        }
        proof {
            let after = rank_set_items(wanted);
            assert forall|x: usize|
                after.contains(x) <==> between.contains(x) || (needs_higher_of(s, q, len) && x
                    == higher_index_of(q, len)) by {}
            assert forall|x: usize|
                after.contains(x) <==> needed(s, levels@.subrange(0, n + 1), len, x) by {
                assert(before.contains(x) <==> needed(s, levels@.subrange(0, n as int), len, x));
                assert(needs_rank(s, levels@[n as int], len, x) <==> (needs_lower_of(s, q, len)
                    && x == lower_index_of(q, len)) || (needs_higher_of(s, q, len) && x
                    == higher_index_of(q, len)));
            }
        }
        n += 1;
    }
    proof {
        assert(levels@.subrange(0, n as int) =~= levels@);
    }
    let collected = rank_set_into_vec(wanted);
    let r = sorted_unique(collected.as_slice());
    proof {
        let s = I::strategy();
        assert forall|i: int| 0 <= i < r@.len() implies r@[i] < len by {
            assert(r@.contains(r@[i]));
            assert(needed(s, levels@, len, r@[i]));
            let k = choose|k: int|
                0 <= k < levels@.len() && needs_rank(s, #[trigger] levels@[k], len, r@[i]);
            lemma_index_bounds(levels@[k], len);
        }
    }
    r
}

/// The quantiles of one lane at each of `levels`, from one pass of selection
/// over `ranks`, the ranks that the levels read.
pub fn lane_quantiles<I: Interpolate>(
    lane: &mut Vec<i64>,
    levels: &Vec<QuantileLevel>,
    ranks: &Vec<usize>,
) -> (r: Vec<i64>)
    requires
        old(lane)@.len() > 0,
        all_valid(levels@),
        strictly_ascending(ranks@),
        forall|i: int| 0 <= i < ranks@.len() ==> ranks@[i] < old(lane)@.len(),
        forall|x: usize|
            needed(I::strategy(), levels@, old(lane)@.len() as usize, x) ==> ranks@.contains(x),
    ensures
        final(lane)@.len() == old(lane)@.len(),
        final(lane)@.to_multiset() == old(lane)@.to_multiset(),
        r@.len() == levels@.len(),
        forall|k: int|
            0 <= k < levels@.len() ==> r@[k] == quantile_of(
                old(lane)@,
                #[trigger] levels@[k],
                I::strategy(),
            ),
{
    let ghost orig = lane@;
    let len: usize = lane.len();
    let values = get_many_from_sorted_mut_unchecked(lane, ranks.as_slice());
    let mut out: Vec<i64> = Vec::new();
    let mut n: usize = 0;
    while n < levels.len()
        invariant
            n <= levels@.len(),
            len == orig.len(),
            len > 0,
            all_valid(levels@),
            rank_map_entries(values) == selected_entries(orig, ranks@),
            forall|x: usize| needed(I::strategy(), levels@, len, x) ==> ranks@.contains(x),
            out@.len() == n,
            forall|k: int|
                0 <= k < n ==> out@[k] == quantile_of(orig, #[trigger] levels@[k], I::strategy()),
        decreases levels@.len() - n,
    {
        let q: QuantileLevel = levels[n];
        proof {
            assert(q.is_valid());
        }
        let lower: Option<i64> = if I::needs_lower(q, len) {
            let k: usize = I::lower_index(q, len);
            proof {
                assert(needs_rank(I::strategy(), levels@[n as int], len, k));
                lemma_selected_entry(orig, ranks@, k);
            }
            rank_map_get(&values, k)
        } else {
            None
        };
        let higher: Option<i64> = if I::needs_higher(q, len) {
            let k: usize = I::higher_index(q, len);
            proof {
                assert(needs_rank(I::strategy(), levels@[n as int], len, k));
                lemma_selected_entry(orig, ranks@, k);
            }
            rank_map_get(&values, k)
        } else {
            None
        };
        let value: i64 = I::interpolate(lower, higher, q, len);
        out.push(value);
        n += 1;
    }
    out
}

/// `v` is an element of `s`, and no element of `s` is smaller.
pub open spec fn is_least(s: Seq<i64>, v: int) -> bool {
    &&& exists|i: int| 0 <= i < s.len() && s[i] == v
    &&& forall|i: int| 0 <= i < s.len() ==> v <= s[i]
}

/// `v` is an element of `s`, and no element of `s` is larger.
pub open spec fn is_greatest(s: Seq<i64>, v: int) -> bool {
    &&& exists|i: int| 0 <= i < s.len() && s[i] == v
    &&& forall|i: int| 0 <= i < s.len() ==> v >= s[i]
}

/// The smallest element, or `None` where there is none.
pub fn least(s: &[i64]) -> (r: Option<i64>)
    ensures
        match r {
            Some(v) => is_least(s@, v as int),
            None => s@.len() == 0,
        },
{
    if s.len() == 0 {
        return None;
    }
    let mut best: i64 = s[0];
    let mut n: usize = 1;
    while n < s.len()
        invariant
            1 <= n <= s@.len(),
            exists|i: int| 0 <= i < n && s@[i] == best,
            forall|i: int| 0 <= i < n ==> best <= s@[i],
        decreases s@.len() - n,
    {
        if s[n] < best {
            best = s[n];
        }
        n += 1;
    }
    Some(best)
}

/// The largest element, or `None` where there is none.
pub fn greatest(s: &[i64]) -> (r: Option<i64>)
    ensures
        match r {
            Some(v) => is_greatest(s@, v as int),
            None => s@.len() == 0,
        },
{
    if s.len() == 0 {
        return None;
    }
    let mut best: i64 = s[0];
    let mut n: usize = 1;
    while n < s.len()
        invariant
            1 <= n <= s@.len(),
            exists|i: int| 0 <= i < n && s@[i] == best,
            forall|i: int| 0 <= i < n ==> best >= s@[i],
        decreases s@.len() - n,
    {
        if s[n] > best {
            best = s[n];
        }
        n += 1;
    }
    Some(best)
}

/// The elements that are present, in their order, without the missing ones.
pub open spec fn present(s: Seq<Option<i64>>) -> Seq<i64>
    decreases s.len(),
{
    if s.len() == 0 {
        Seq::empty()
    } else {
        match s.last() {
            Some(v) => present(s.drop_last()).push(v),
            None => present(s.drop_last()),
        }
    }
}

/// No element is missing.
pub open spec fn all_present(s: Seq<Option<i64>>) -> bool {
    forall|i: int| 0 <= i < s.len() ==> (#[trigger] s[i]).is_some()
}

/// As many elements are present as there are elements exactly when none is
/// missing.
pub proof fn lemma_present_length(s: Seq<Option<i64>>)
    ensures
        present(s).len() <= s.len(),
        present(s).len() == s.len() <==> all_present(s),
    decreases s.len(),
{
    if s.len() > 0 {
        let rest = s.drop_last();
        lemma_present_length(rest);
        if all_present(s) {
            assert forall|i: int| 0 <= i < rest.len() implies (#[trigger] rest[i]).is_some() by {
                assert(s[i].is_some());
            }
        }
        if present(s).len() == s.len() {
            assert(s.last().is_some());
            assert forall|i: int| 0 <= i < s.len() implies (#[trigger] s[i]).is_some() by {
                if i < rest.len() {
                    assert(rest[i].is_some());
                }
            }
        }
    }
}

/// The elements that are present, without the missing ones.
pub fn keep_present(s: &[Option<i64>]) -> (r: Vec<i64>)
    ensures
        r@ == present(s@),
{
    let mut out: Vec<i64> = Vec::new();
    let mut n: usize = 0;
    while n < s.len()
        invariant
            n <= s@.len(),
            out@ == present(s@.subrange(0, n as int)),
        decreases s@.len() - n,
    {
        proof {
            assert(s@.subrange(0, n + 1).drop_last() =~= s@.subrange(0, n as int));
        }
        match s[n] {
            Some(v) => {
                out.push(v);
            },
            None => {},
        }
        n += 1;
    }
    proof {
        assert(s@.subrange(0, n as int) =~= s@);
    }
    out
}

/// `value` is the quantile of the elements of `lane` that are present, or
/// `None`, the mark of a missing value, where none is present.
pub open spec fn is_skipnan_quantile(
    value: Option<i64>,
    lane: Seq<Option<i64>>,
    q: QuantileLevel,
    strategy: Strategy,
) -> bool {
    match value {
        Some(v) => present(lane).len() > 0 && v == quantile_of(present(lane), q, strategy),
        None => present(lane).len() == 0,
    }
}

/// The quantile at a valid level `q` of a lane of values that are all
/// present, or `None`, the mark of a missing value, for an empty lane. The
/// lane is rearranged in place.
pub fn present_value<I: Interpolate>(kept: &mut Vec<i64>, q: QuantileLevel) -> (r: Option<i64>)
    requires
        q.is_valid(),
    ensures
        final(kept)@.len() == old(kept)@.len(),
        final(kept)@.to_multiset() == old(kept)@.to_multiset(),
        match r {
            Some(v) => old(kept)@.len() > 0 && v == quantile_of(old(kept)@, q, I::strategy()),
            None => old(kept)@.len() == 0,
        },
{
    let len: usize = kept.len();
    if len == 0 {
        return None;
    }
    let mut levels: Vec<QuantileLevel> = Vec::new();
    levels.push(q);
    let ranks = searched_indexes::<I>(&levels, len);
    let values = lane_quantiles::<I>(kept, &levels, &ranks);
    proof {
        assert(levels@[0] == q);
    }
    Some(values[0])
}

/// The quantile at a valid level `q` of the elements that are present, or
/// `None`, the mark of a missing value, where none is.
pub fn skipnan_value<I: Interpolate>(lane: &[Option<i64>], q: QuantileLevel) -> (r: Option<i64>)
    requires
        q.is_valid(),
    ensures
        is_skipnan_quantile(r, lane@, q, I::strategy()),
{
    let mut kept = keep_present(lane);
    present_value::<I>(&mut kept, q)
}

/// A lane of `len` elements that holds the values of `kept` first, in their
/// order, and missing values after them.
pub fn present_first(kept: &Vec<i64>, len: usize) -> (r: Vec<Option<i64>>)
    requires
        kept@.len() <= len,
    ensures
        r@.len() == len,
        present(r@) == kept@,
{
    let mut out: Vec<Option<i64>> = Vec::new();
    let mut j: usize = 0;
    while j < kept.len()
        invariant
            j <= kept@.len(),
            out@.len() == j,
            present(out@) == kept@.subrange(0, j as int),
        decreases kept@.len() - j,
    {
        let ghost before = out@;
        out.push(Some(kept[j]));
        proof {
            assert(out@.drop_last() =~= before);
            assert(kept@.subrange(0, j + 1) =~= kept@.subrange(0, j as int).push(kept@[j as int]));
        }
        j += 1;
    }
    proof {
        assert(kept@.subrange(0, j as int) =~= kept@);
    }
    while j < len
        invariant
            kept@.len() <= j <= len,
            out@.len() == j,
            present(out@) == kept@,
        decreases len - j,
    {
        let ghost before = out@;
        out.push(None);
        proof {
            assert(out@.drop_last() =~= before);
        }
        j += 1;
    }
    out
}

/// The quantile at level `q` of the elements that are present. Where none is,
/// the result is `Ok(None)`, the mark of a missing value; a level outside of 0
/// to 1 is an error.
pub fn quantile_skipnan<I: Interpolate>(lane: &[Option<i64>], q: QuantileLevel) -> (r: Result<
    Option<i64>,
    QuantileError,
>)
    ensures
        match r {
            Ok(value) => q.is_valid() && is_skipnan_quantile(value, lane@, q, I::strategy()),
            Err(e) => !q.is_valid() && e == QuantileError::InvalidQuantileLevel,
        },
{
    if !q.in_unit_interval() {
        return Err(QuantileError::InvalidQuantileLevel);
    }
    Ok(skipnan_value::<I>(lane, q))
}

/// The levels of a bulk result, in its order.
pub open spec fn levels_of(entries: Seq<(QuantileLevel, i64)>) -> Seq<QuantileLevel> {
    Seq::new(entries.len(), |i: int| entries[i].0)
}

/// The entries hold the quantiles of `lane` at the levels of `qs`: in
/// ascending order of level, each number once.
pub open spec fn is_bulk_result(
    entries: Seq<(QuantileLevel, i64)>,
    lane: Seq<i64>,
    qs: Seq<QuantileLevel>,
    strategy: Strategy,
) -> bool {
    &&& is_level_set(levels_of(entries), qs)
    &&& forall|i: int|
        0 <= i < entries.len() ==> (#[trigger] entries[i]).1 == quantile_of(
            lane,
            entries[i].0,
            strategy,
        )
}

/// Quantiles of a one-dimensional array.
pub trait Quantile1dExt {
    /// The array's elements, in their order.
    spec fn elements(&self) -> Seq<i64>;

    /// The quantile at level `q`: the element that would stand at index
    /// `(N - 1) q` if the `N` elements were sorted, or what the strategy `I`
    /// makes of its two neighbours where that is no whole number. `None` for
    /// an empty array; an error, with the array untouched, for a level outside
    /// of 0 to 1. The elements are rearranged in place.
    fn quantile_mut<I: Interpolate>(&mut self, q: QuantileLevel) -> (r: Result<
        Option<i64>,
        QuantileError,
    >)
        ensures
            final(self).elements().to_multiset() == old(self).elements().to_multiset(),
            match r {
                Ok(Some(value)) => q.is_valid() && old(self).elements().len() > 0 && value
                    == quantile_of(old(self).elements(), q, I::strategy()),
                Ok(None) => q.is_valid() && old(self).elements().len() == 0,
                Err(e) => !q.is_valid() && e == QuantileError::InvalidQuantileLevel && final(self).elements() == old(self).elements(),
            },
    ;

    /// The quantiles at all the levels `qs`, found in one pass: pairs of level
    /// and quantile in ascending order of level, a level that occurs twice
    /// taken once. `None` for an empty array; an error, with the array
    /// untouched, where any level lies outside of 0 to 1.
    fn quantiles_mut<I: Interpolate>(&mut self, qs: &[QuantileLevel]) -> (r: Result<
        Option<Vec<(QuantileLevel, i64)>>,
        QuantileError,
    >)
        ensures
            final(self).elements().to_multiset() == old(self).elements().to_multiset(),
            match r {
                Ok(Some(entries)) => all_valid(qs@) && old(self).elements().len() > 0
                    && is_bulk_result(entries@, old(self).elements(), qs@, I::strategy()),
                Ok(None) => all_valid(qs@) && old(self).elements().len() == 0,
                Err(e) => !all_valid(qs@) && e == QuantileError::InvalidQuantileLevel && final(self).elements() == old(self).elements(),
            },
    ;
}

/// The ranks rise: each is above the one before it.
pub open spec fn ranks_rise(f: Seq<int>) -> bool {
    forall|i: int, j: int| 0 <= i < j < f.len() ==> #[trigger] f[i] < #[trigger] f[j]
}

/// Each of the first `n` ranks is among the ranks.
pub open spec fn ranks_cover(f: Seq<int>, n: int) -> bool {
    forall|r: int| 0 <= r < n ==> #[trigger] f.contains(r)
}

/// Ranks that rise from a rank that is not negative are each at least their
/// position.
pub proof fn lemma_rising_at_least(f: Seq<int>, i: int)
    requires
        ranks_rise(f),
        0 <= i < f.len(),
        f[0] >= 0,
    ensures
        f[i] >= i,
    decreases i,
{
    if i > 0 {
        lemma_rising_at_least(f, i - 1);
        assert(f[i - 1] < f[i]);
    }
}

/// Ranks that rise and cover the first `n` ranks are each at most their
/// position.
pub proof fn lemma_covering_at_most(f: Seq<int>, n: int, i: int)
    requires
        ranks_rise(f),
        ranks_cover(f, n),
        0 <= i < f.len(),
        i < n,
    ensures
        f[i] <= i,
    decreases i,
{
    assert(f.contains(i));
    let m = choose|m: int| 0 <= m < f.len() && f[m] == i;
    if m < i {
        lemma_covering_at_most(f, n, m);
    } else if m > i {
        assert(f[i] < f[m]);
    }
}

/// By `Lower`, one of the levels reads rank `r` of a lane of `len` elements.
pub open spec fn reads_rank(qs: Seq<QuantileLevel>, len: usize, r: int) -> bool {
    exists|k: int| 0 <= k < qs.len() && lower_index_of(#[trigger] qs[k], len) == r
}

/// Where the levels of a bulk query by `Lower` read each rank of the lane,
/// and no two of them the same rank, the quantiles, taken by ascending level,
/// are the sorted lane.
pub proof fn lemma_one_level_per_rank(
    entries: Seq<(QuantileLevel, i64)>,
    lane: Seq<i64>,
    qs: Seq<QuantileLevel>,
)
    requires
        0 < lane.len() <= usize::MAX,
        all_valid(qs),
        is_bulk_result(entries, lane, qs, Strategy::Lower),
        forall|r: int| 0 <= r < lane.len() ==> #[trigger] reads_rank(qs, lane.len() as usize, r),
        forall|k: int, l: int|
            0 <= k < l < qs.len() ==> lower_index_of(#[trigger] qs[k], lane.len() as usize)
                != lower_index_of(#[trigger] qs[l], lane.len() as usize),
    ensures
        entries.len() == lane.len(),
        forall|i: int| 0 <= i < entries.len() ==> (#[trigger] entries[i]).1 == sorted(lane)[i],
{
    let len = lane.len() as usize;
    let n = lane.len() as int;
    let levels = levels_of(entries);
    let f = Seq::new(entries.len(), |i: int| lower_index_of(entries[i].0, len));
    assert forall|i: int| 0 <= i < levels.len() implies (#[trigger] levels[i]).is_valid() && 0
        <= f[i] < n by {
        assert(qs.contains(levels[i]));
        let k = choose|k: int| 0 <= k < qs.len() && qs[k] == levels[i];
        assert(qs[k].is_valid());
        lemma_index_bounds(levels[i], len);
    }
    assert forall|i: int, j: int| 0 <= i < j < f.len() implies #[trigger] f[i] < #[trigger] f[j] by {
        assert(levels[i].below(levels[j]));
        assert(levels[i].is_valid() && levels[j].is_valid());
        lemma_lower_index_monotone(levels[i], levels[j], len);
        assert(qs.contains(levels[i]));
        assert(qs.contains(levels[j]));
        let k = choose|k: int| 0 <= k < qs.len() && qs[k] == levels[i];
        let l = choose|l: int| 0 <= l < qs.len() && qs[l] == levels[j];
        lemma_level_trichotomy(levels[i], levels[i]);
        lemma_level_trichotomy(levels[i], levels[j]);
        if k < l {
            assert(lower_index_of(qs[k], len) != lower_index_of(qs[l], len));
        } else if l < k {
            assert(lower_index_of(qs[l], len) != lower_index_of(qs[k], len));
        }
    }
    assert forall|r: int| 0 <= r < n implies #[trigger] f.contains(r) by {
        assert(reads_rank(qs, len, r));
        let k = choose|k: int| 0 <= k < qs.len() && lower_index_of(#[trigger] qs[k], len) == r;
        assert(has_same(levels, qs[k]));
        let i = choose|i: int| 0 <= i < levels.len() && #[trigger] levels[i].same(qs[k]);
        assert(levels[i].is_valid());
        lemma_same_level_same_index(levels[i], qs[k], len);
        assert(f[i] == r);
    }
    assert(f.contains(n - 1));
    assert(f.len() > 0);
    assert forall|i: int| 0 <= i < f.len() implies #[trigger] f[i] == i by {
        assert(levels[0].is_valid() && 0 <= f[0] < n);
        lemma_rising_at_least(f, i);
        assert(levels[i].is_valid() && 0 <= f[i] < n);
        lemma_covering_at_most(f, n, i);
    }
    let top = choose|m: int| 0 <= m < f.len() && f[m] == n - 1;
    assert(f[top] == top);
    assert(levels.len() == entries.len() && f.len() == entries.len());
    if f.len() > n {
        assert(0 <= n < levels.len());
        assert(levels[n].is_valid() && 0 <= f[n] < n);
        assert(f[n] == n);
    }
    assert forall|i: int| 0 <= i < entries.len() implies (#[trigger] entries[i]).1 == sorted(
        lane,
    )[i] by {
        assert(f[i] == i);
        assert(entries[i].1 == quantile_of(lane, entries[i].0, Strategy::Lower));
    }
}

/// Pairs each level with its quantile.
pub fn pair_up(levels: &Vec<QuantileLevel>, values: &Vec<i64>) -> (r: Vec<(QuantileLevel, i64)>)
    requires
        levels@.len() == values@.len(),
    ensures
        r@.len() == levels@.len(),
        forall|i: int| 0 <= i < r@.len() ==> r@[i] == (levels@[i], values@[i]),
{
    let mut out: Vec<(QuantileLevel, i64)> = Vec::new();
    let mut n: usize = 0;
    while n < levels.len()
        invariant
            n <= levels@.len(),
            levels@.len() == values@.len(),
            out@.len() == n,
            forall|i: int| 0 <= i < n ==> out@[i] == (levels@[i], values@[i]),
        decreases levels@.len() - n,
    {
        out.push((levels[n], values[n]));
        n += 1;
    }
    out
}

impl Quantile1dExt for Vec<i64> {
    open spec fn elements(&self) -> Seq<i64> {
        self@
    }

    fn quantile_mut<I: Interpolate>(&mut self, q: QuantileLevel) -> (r: Result<
        Option<i64>,
        QuantileError,
    >) {
        if !q.in_unit_interval() {
            return Err(QuantileError::InvalidQuantileLevel);
        }
        let len: usize = self.len();
        if len == 0 {
            return Ok(None);
        }
        let mut levels: Vec<QuantileLevel> = Vec::new();
        levels.push(q);
        let ranks = searched_indexes::<I>(&levels, len);
        let values = lane_quantiles::<I>(self, &levels, &ranks);
        proof {
            assert(levels@[0] == q);
        }
        Ok(Some(values[0]))
    }

    fn quantiles_mut<I: Interpolate>(&mut self, qs: &[QuantileLevel]) -> (r: Result<
        Option<Vec<(QuantileLevel, i64)>>,
        QuantileError,
    >) {
        if !all_in_unit_interval(qs) {
            return Err(QuantileError::InvalidQuantileLevel);
        }
        let len: usize = self.len();
        if len == 0 {
            return Ok(None);
        }
        let levels = sorted_levels(qs);
        let ranks = searched_indexes::<I>(&levels, len);
        let values = lane_quantiles::<I>(self, &levels, &ranks);
        let entries = pair_up(&levels, &values);
        proof {
            assert(levels_of(entries@) =~= levels@);
        }
        Ok(Some(entries))
    }
}

/// The quantile of a lane at level `q` by the strategy chosen at run time:
/// `None` for an empty lane; an error, with the lane untouched, for a level
/// outside of 0 to 1. The lane is rearranged in place.
pub fn quantile(lane: &mut Vec<i64>, q: QuantileLevel, strategy: Strategy) -> (r: Result<
    Option<i64>,
    QuantileError,
>)
    ensures
        final(lane)@.to_multiset() == old(lane)@.to_multiset(),
        match r {
            Ok(Some(value)) => q.is_valid() && old(lane)@.len() > 0 && value == quantile_of(
                old(lane)@,
                q,
                strategy,
            ),
            Ok(None) => q.is_valid() && old(lane)@.len() == 0,
            Err(e) => !q.is_valid() && e == QuantileError::InvalidQuantileLevel && final(lane)@
                == old(lane)@,
        },
{
    match strategy {
        Strategy::Higher => lane.quantile_mut::<Higher>(q),
        Strategy::Lower => lane.quantile_mut::<Lower>(q),
        Strategy::Nearest => lane.quantile_mut::<Nearest>(q),
        Strategy::Midpoint => lane.quantile_mut::<Midpoint>(q),
        Strategy::Linear => lane.quantile_mut::<Linear>(q),
    }
}

/// The quantiles of a lane at all the levels `qs` by the strategy chosen at
/// run time, as `quantiles_mut` gives them.
pub fn quantiles(lane: &mut Vec<i64>, qs: &[QuantileLevel], strategy: Strategy) -> (r: Result<
    Option<Vec<(QuantileLevel, i64)>>,
    QuantileError,
>)
    ensures
        final(lane)@.to_multiset() == old(lane)@.to_multiset(),
        match r {
            Ok(Some(entries)) => all_valid(qs@) && old(lane)@.len() > 0 && is_bulk_result(
                entries@,
                old(lane)@,
                qs@,
                strategy,
            ),
            Ok(None) => all_valid(qs@) && old(lane)@.len() == 0,
            Err(e) => !all_valid(qs@) && e == QuantileError::InvalidQuantileLevel && final(lane)@
                == old(lane)@,
        },
{
    match strategy {
        Strategy::Higher => lane.quantiles_mut::<Higher>(qs),
        Strategy::Lower => lane.quantiles_mut::<Lower>(qs),
        Strategy::Nearest => lane.quantiles_mut::<Nearest>(qs),
        Strategy::Midpoint => lane.quantiles_mut::<Midpoint>(qs),
        Strategy::Linear => lane.quantiles_mut::<Linear>(qs),
    }
}

/// The sorted lane's elements at the floor and at the ceiling of the
/// fractional index of a valid level. The lane is rearranged in place.
pub fn order_statistics(lane: &mut Vec<i64>, q: QuantileLevel) -> (r: (i64, i64))
    requires
        q.is_valid(),
        old(lane)@.len() > 0,
    ensures
        final(lane)@.len() == old(lane)@.len(),
        final(lane)@.to_multiset() == old(lane)@.to_multiset(),
        r.0 == sorted(old(lane)@)[lower_index_of(q, old(lane)@.len() as usize)],
        r.1 == sorted(old(lane)@)[higher_index_of(q, old(lane)@.len() as usize)],
{
    let len: usize = lane.len();
    let mut levels: Vec<QuantileLevel> = Vec::new();
    levels.push(q);
    let low_ranks = searched_indexes::<Lower>(&levels, len);
    let low = lane_quantiles::<Lower>(lane, &levels, &low_ranks);
    let ghost between = lane@;
    let high_ranks = searched_indexes::<Higher>(&levels, len);
    let high = lane_quantiles::<Higher>(lane, &levels, &high_ranks);
    proof {
        assert(levels@[0] == q);
        lemma_quantile_of_rearranged(between, old(lane)@, q, Strategy::Higher);
    }
    (low[0], high[0])
}

/// The linearly interpolated quantile of a lane without rounding, times
/// `q.den`: the sorted lane's element at the floor of the fractional index and
/// the one at its ceiling, weighted by the fractional part.
pub open spec fn linear_quantile_of(lane: Seq<i64>, q: QuantileLevel) -> int {
    let len = lane.len() as usize;
    weighted(
        sorted(lane)[lower_index_of(q, len)] as int,
        sorted(lane)[higher_index_of(q, len)] as int,
        fraction_of(q, len),
        q.den as int,
    )
}

/// The linearly interpolated quantile of a lane at level `q` without
/// rounding, as a fraction over `q.den`: `None` for an empty lane; an error,
/// with the lane untouched, for a level outside of 0 to 1. The lane is
/// rearranged in place.
pub fn linear_quantile(lane: &mut Vec<i64>, q: QuantileLevel) -> (r: Result<
    Option<Fraction>,
    QuantileError,
>)
    ensures
        final(lane)@.to_multiset() == old(lane)@.to_multiset(),
        match r {
            Ok(Some(value)) => q.is_valid() && old(lane)@.len() > 0 && value.den == q.den
                && value.num == linear_quantile_of(old(lane)@, q),
            Ok(None) => q.is_valid() && old(lane)@.len() == 0,
            Err(e) => !q.is_valid() && e == QuantileError::InvalidQuantileLevel && final(lane)@
                == old(lane)@,
        },
{
    if !q.in_unit_interval() {
        return Err(QuantileError::InvalidQuantileLevel);
    }
    let len: usize = lane.len();
    if len == 0 {
        return Ok(None);
    }
    let (low, high) = order_statistics(lane, q);
    proof {
        lemma_index_bounds(q, len);
    }
    let frac: i64 = Linear::float_quantile_index_fraction(q, len);
    Ok(Some(linear_exact(low, high, frac, q.den)))
}

/// The midpoint quantile of a lane without rounding, times 2: the sum of the
/// sorted lane's elements at the floor and the ceiling of the fractional
/// index.
pub open spec fn midpoint_quantile_of(lane: Seq<i64>, q: QuantileLevel) -> int {
    let len = lane.len() as usize;
    sorted(lane)[lower_index_of(q, len)] + sorted(lane)[higher_index_of(q, len)]
}

/// The midpoint quantile of a lane at level `q` without rounding, as a
/// fraction over 2: `None` for an empty lane; an error, with the lane
/// untouched, for a level outside of 0 to 1. The lane is rearranged in place.
pub fn midpoint_quantile(lane: &mut Vec<i64>, q: QuantileLevel) -> (r: Result<
    Option<Fraction>,
    QuantileError,
>)
    ensures
        final(lane)@.to_multiset() == old(lane)@.to_multiset(),
        match r {
            Ok(Some(value)) => q.is_valid() && old(lane)@.len() > 0 && value.den == 2
                && value.num == midpoint_quantile_of(old(lane)@, q),
            Ok(None) => q.is_valid() && old(lane)@.len() == 0,
            Err(e) => !q.is_valid() && e == QuantileError::InvalidQuantileLevel && final(lane)@
                == old(lane)@,
        },
{
    if !q.in_unit_interval() {
        return Err(QuantileError::InvalidQuantileLevel);
    }
    if lane.len() == 0 {
        return Ok(None);
    }
    let (low, high) = order_statistics(lane, q);
    Ok(Some(Fraction { num: (low as i128) + (high as i128), den: 2 }))
}

/// The entries hold the linearly interpolated quantiles of `lane` without
/// rounding at the levels of `qs`: in ascending order of level, each number
/// once, each quantile as a fraction over its level's denominator.
pub open spec fn is_linear_bulk_result(
    entries: Seq<(QuantileLevel, Fraction)>,
    lane: Seq<i64>,
    qs: Seq<QuantileLevel>,
) -> bool {
    &&& is_level_set(Seq::new(entries.len(), |i: int| entries[i].0), qs)
    &&& forall|i: int|
        0 <= i < entries.len() ==> (#[trigger] entries[i]).1.den == entries[i].0.den
            && entries[i].1.num == linear_quantile_of(lane, entries[i].0)
}

/// The linearly interpolated quantiles of a lane without rounding at all the
/// levels `qs`: pairs of level and quantile in ascending order of level, a
/// level that occurs twice taken once. `None` for an empty lane; an error,
/// with the lane untouched, where any level lies outside of 0 to 1. The lane
/// is rearranged in place.
pub fn linear_quantiles(lane: &mut Vec<i64>, qs: &[QuantileLevel]) -> (r: Result<
    Option<Vec<(QuantileLevel, Fraction)>>,
    QuantileError,
>)
    ensures
        final(lane)@.to_multiset() == old(lane)@.to_multiset(),
        match r {
            Ok(Some(entries)) => all_valid(qs@) && old(lane)@.len() > 0 && is_linear_bulk_result(
                entries@,
                old(lane)@,
                qs@,
            ),
            Ok(None) => all_valid(qs@) && old(lane)@.len() == 0,
            Err(e) => !all_valid(qs@) && e == QuantileError::InvalidQuantileLevel && final(lane)@
                == old(lane)@,
        },
{
    if !all_in_unit_interval(qs) {
        return Err(QuantileError::InvalidQuantileLevel);
    }
    let len: usize = lane.len();
    if len == 0 {
        return Ok(None);
    }
    let ghost orig = lane@;
    let levels = sorted_levels(qs);
    let mut entries: Vec<(QuantileLevel, Fraction)> = Vec::new();
    let mut n: usize = 0;
    while n < levels.len()
        invariant
            n <= levels@.len(),
            all_valid(levels@),
            len == orig.len(),
            len > 0,
            lane@.len() == len,
            lane@.to_multiset() == orig.to_multiset(),
            entries@.len() == n,
            forall|i: int|
                0 <= i < n ==> (#[trigger] entries@[i]).0 == levels@[i] && entries@[i].1.den
                    == levels@[i].den && entries@[i].1.num == linear_quantile_of(
                    orig,
                    levels@[i],
                ),
        decreases levels@.len() - n,
    {
        let q: QuantileLevel = levels[n];
        proof {
            assert(q.is_valid());
            lemma_sorted_properties(lane@);
            lemma_sorted_unique_of(sorted(lane@), orig);
            lemma_index_bounds(q, len);
        }
        let (low, high) = order_statistics(lane, q);
        let frac: i64 = Linear::float_quantile_index_fraction(q, len);
        entries.push((q, linear_exact(low, high, frac, q.den)));
        n += 1;
    }
    proof {
        assert(Seq::new(entries@.len(), |i: int| entries@[i].0) =~= levels@);
    }
    Ok(Some(entries))
}

} // verus!
