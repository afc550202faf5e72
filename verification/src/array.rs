//! Quantiles along an axis of a dense n-dimensional array.

use crate::interpolate::{Interpolate, QuantileLevel, Strategy};
use crate::quantile::{
    all_in_unit_interval, all_valid, greatest, is_greatest, is_least, is_level_set, all_present,
    is_skipnan_quantile, keep_present, lane_quantiles, least, lemma_present_length, present,
    present_first, present_value, quantile_of, searched_indexes, sorted_levels, QuantileError,
};
use vstd::arithmetic::div_mod::*;
use vstd::prelude::*;

verus! {

/// A dense array: the lengths of its axes and its elements in row-major order.
pub struct Grid<T> {
    pub shape: Vec<usize>,
    pub data: Vec<T>,
}

/// The number of elements of an array of shape `shape`: the product of the
/// lengths of its axes.
pub open spec fn size_of(shape: Seq<usize>) -> int
    decreases shape.len(),
{
    if shape.len() == 0 {
        1
    } else {
        size_of(shape.drop_last()) * shape.last()
    }
}

/// The product of the lengths of the axes that are not empty.
pub open spec fn nonzero_size_of(shape: Seq<usize>) -> int
    decreases shape.len(),
{
    if shape.len() == 0 {
        1
    } else if shape.last() == 0 {
        nonzero_size_of(shape.drop_last())
    } else {
        nonzero_size_of(shape.drop_last()) * shape.last()
    }
}

/// The shape is one of an array of `n` elements: the lengths of its axes
/// multiply to `n`, and those that are not zero to no more than `isize::MAX`.
pub open spec fn shape_fits(shape: Seq<usize>, n: nat) -> bool {
    nonzero_size_of(shape) <= isize::MAX && size_of(shape) == n
}

/// The product of the lengths of the axes before `axis`.
pub open spec fn outer_size(shape: Seq<usize>, axis: usize) -> int {
    size_of(shape.subrange(0, axis as int))
}

/// The product of the lengths of the axes after `axis`.
pub open spec fn inner_size(shape: Seq<usize>, axis: usize) -> int {
    size_of(shape.subrange(axis + 1, shape.len() as int))
}

/// Where element `j` of lane `i` along `axis` stands in row-major data.
pub open spec fn place_of(shape: Seq<usize>, axis: usize, i: int, j: int) -> int {
    let inner = inner_size(shape, axis);
    ((i / inner) * shape[axis as int] + j) * inner + i % inner
}

/// The lanes along `axis` of the row-major array of shape `shape` over `data`,
/// in row-major order of the other axes: one lane for each choice of indexes
/// on the other axes, each as long as the axis.
pub open spec fn array_lanes(shape: Seq<usize>, data: Seq<usize>, axis: usize) -> Seq<
    Seq<usize>,
> {
    Seq::new(
        (outer_size(shape, axis) * inner_size(shape, axis)) as nat,
        |i: int| Seq::new(shape[axis as int] as nat, |j: int| data[place_of(shape, axis, i, j)]),
    )
}

/// The size of a shape is not negative.
pub proof fn lemma_size_of_nonnegative(shape: Seq<usize>)
    ensures
        size_of(shape) >= 0,
    decreases shape.len(),
{
    if shape.len() > 0 {
        lemma_size_of_nonnegative(shape.drop_last());
        assert(size_of(shape.drop_last()) * shape.last() >= 0) by (nonlinear_arith)
            requires
                size_of(shape.drop_last()) >= 0,
                shape.last() >= 0,
        ;
    }
}

/// The size of two shapes put together is the product of their sizes.
pub proof fn lemma_size_of_concat(a: Seq<usize>, b: Seq<usize>)
    ensures
        size_of(a + b) == size_of(a) * size_of(b),
    decreases b.len(),
{
    if b.len() == 0 {
        assert(a + b =~= a);
    } else {
        assert((a + b).drop_last() =~= a + b.drop_last());
        assert((a + b).last() == b.last());
        lemma_size_of_concat(a, b.drop_last());
        assert(size_of(a) * size_of(b.drop_last()) * b.last() == size_of(a) * (size_of(
            b.drop_last(),
        ) * b.last())) by (nonlinear_arith);
    }
}

/// The size of a shape is the product of the lengths before an axis, the
/// length of the axis and the lengths after it.
pub proof fn lemma_size_of_split(shape: Seq<usize>, axis: usize)
    requires
        axis < shape.len(),
    ensures
        size_of(shape) == outer_size(shape, axis) * shape[axis as int] * inner_size(shape, axis),
        outer_size(shape, axis) >= 0,
        inner_size(shape, axis) >= 0,
{
    let before = shape.subrange(0, axis as int);
    let after = shape.subrange(axis + 1, shape.len() as int);
    let mid = seq![shape[axis as int]];
    assert(shape =~= before + mid + after);
    lemma_size_of_concat(before + mid, after);
    lemma_size_of_concat(before, mid);
    assert(mid.drop_last().len() == 0);
    assert(size_of(mid.drop_last()) == 1);
    assert(size_of(mid) == 1 * mid.last());
    lemma_size_of_nonnegative(before);
    lemma_size_of_nonnegative(after);
}

/// The place of element `j` of lane `i` is a place of the array, and tells
/// both the lane and the element.
pub proof fn lemma_place_of(shape: Seq<usize>, axis: usize, i: int, j: int)
    requires
        axis < shape.len(),
        0 <= i < outer_size(shape, axis) * inner_size(shape, axis),
        0 <= j < shape[axis as int],
    ensures
        0 <= place_of(shape, axis, i, j) < size_of(shape),
        inner_size(shape, axis) > 0,
        place_of(shape, axis, i, j) % inner_size(shape, axis) == i % inner_size(shape, axis),
        (place_of(shape, axis, i, j) / inner_size(shape, axis)) % (shape[axis as int] as int) == j,
        (place_of(shape, axis, i, j) / inner_size(shape, axis)) / (shape[axis as int] as int) == i
            / inner_size(shape, axis),
{
    lemma_size_of_split(shape, axis);
    let outer = outer_size(shape, axis);
    let inner = inner_size(shape, axis);
    let len = shape[axis as int] as int;
    assert(inner > 0 && outer > 0) by (nonlinear_arith)
        requires
            0 <= i < outer * inner,
            outer >= 0,
            inner >= 0,
    ;
    let o = i / inner;
    let r = i % inner;
    lemma_fundamental_div_mod(i, inner);
    lemma_mod_bound(i, inner);
    lemma_div_pos_is_pos(i, inner);
    assert(o < outer) by (nonlinear_arith)
        requires
            i == inner * o + r,
            0 <= r,
            i < outer * inner,
            inner > 0,
    ;
    let w = o * len + j;
    let p = w * inner + r;
    assert(0 <= w <= outer * len - 1) by (nonlinear_arith)
        requires
            0 <= o < outer,
            0 <= j < len,
            w == o * len + j,
    ;
    assert(0 <= p < outer * len * inner) by (nonlinear_arith)
        requires
            0 <= w <= outer * len - 1,
            0 <= r < inner,
            p == w * inner + r,
    ;
    lemma_fundamental_div_mod_converse(p, inner, w, r);
    lemma_fundamental_div_mod_converse(w, len, o, j);
}

/// No place stands in two lanes, nor twice in one.
pub open spec fn lanes_apart(lanes: Seq<Seq<usize>>) -> bool {
    forall|a: int, j: int, b: int, k: int|
        0 <= a < lanes.len() && 0 <= j < lanes[a].len() && 0 <= b < lanes.len() && 0 <= k
            < lanes[b].len() && (a != b || j != k) ==> #[trigger] lanes[a][j]
            != #[trigger] lanes[b][k]
}

/// The lanes of an array's places have as many places as the axis is long,
/// all of them places of the array, and no place twice.
pub proof fn lemma_lanes_of_places(shape: Seq<usize>, n: nat, axis: usize)
    requires
        axis < shape.len(),
        size_of(shape) == n,
        n <= usize::MAX,
    ensures
        lanes_fit(array_lanes(shape, positions(n), axis), shape[axis as int], n),
        lanes_apart(array_lanes(shape, positions(n), axis)),
{
    let lanes = array_lanes(shape, positions(n), axis);
    let inner = inner_size(shape, axis);
    lemma_size_of_split(shape, axis);
    assert(outer_size(shape, axis) * inner >= 0) by (nonlinear_arith)
        requires
            outer_size(shape, axis) >= 0,
            inner >= 0,
    ;
    assert forall|i: int, j: int| 0 <= i < lanes.len() && 0 <= j < lanes[i].len() implies (
    #[trigger] lanes[i][j]) < n by {
        lemma_place_of(shape, axis, i, j);
    }
    assert forall|a: int, j: int, b: int, k: int|
        0 <= a < lanes.len() && 0 <= j < lanes[a].len() && 0 <= b < lanes.len() && 0 <= k
            < lanes[b].len() && (a != b || j != k) implies #[trigger] lanes[a][j]
        != #[trigger] lanes[b][k] by {
        lemma_place_of(shape, axis, a, j);
        lemma_place_of(shape, axis, b, k);
        lemma_fundamental_div_mod(a, inner);
        lemma_fundamental_div_mod(b, inner);
    }
}

/// Along an axis that is not empty every place of the array stands in a lane.
pub proof fn lemma_lanes_cover(shape: Seq<usize>, n: nat, axis: usize, p: int)
    requires
        axis < shape.len(),
        size_of(shape) == n,
        n <= usize::MAX,
        0 <= p < n,
    ensures
        exists|i: int, j: int|
            0 <= i < array_lanes(shape, positions(n), axis).len() && 0 <= j < shape[axis as int]
                && #[trigger] array_lanes(shape, positions(n), axis)[i][j] == p,
{
    lemma_size_of_split(shape, axis);
    let outer = outer_size(shape, axis);
    let inner = inner_size(shape, axis);
    let len = shape[axis as int] as int;
    assert(inner > 0 && len > 0 && outer > 0) by (nonlinear_arith)
        requires
            0 <= p < outer * len * inner,
            outer >= 0,
            inner >= 0,
            len >= 0,
    ;
    let w = p / inner;
    let r = p % inner;
    lemma_fundamental_div_mod(p, inner);
    lemma_mod_bound(p, inner);
    lemma_div_pos_is_pos(p, inner);
    let o = w / len;
    let j = w % len;
    lemma_fundamental_div_mod(w, len);
    lemma_mod_bound(w, len);
    lemma_div_pos_is_pos(w, len);
    assert(w < outer * len) by (nonlinear_arith)
        requires
            p == inner * w + r,
            0 <= r,
            p < outer * len * inner,
            inner > 0,
    ;
    assert(o < outer) by (nonlinear_arith)
        requires
            w == len * o + j,
            0 <= j,
            w < outer * len,
            len > 0,
    ;
    let i = o * inner + r;
    assert(0 <= i < outer * inner) by (nonlinear_arith)
        requires
            0 <= o < outer,
            0 <= r < inner,
            i == o * inner + r,
    ;
    lemma_fundamental_div_mod_converse(i, inner, o, r);
    assert(place_of(shape, axis, i, j) == p) by (nonlinear_arith)
        requires
            place_of(shape, axis, i, j) == ((i / inner) * len + j) * inner + i % inner,
            i / inner == o,
            i % inner == r,
            w == len * o + j,
            p == inner * w + r,
    ;
    assert(array_lanes(shape, positions(n), axis)[i][j] == p);
}

/// An array without one of its axes has as many elements as the array has
/// lanes along that axis.
pub proof fn lemma_lanes_count(shape: Seq<usize>, data: Seq<usize>, axis: usize)
    requires
        axis < shape.len(),
    ensures
        array_lanes(shape, data, axis).len() == size_of(shape.remove(axis as int)),
{
    let before = shape.subrange(0, axis as int);
    let after = shape.subrange(axis + 1, shape.len() as int);
    assert(shape.remove(axis as int) =~= before + after);
    lemma_size_of_concat(before, after);
    lemma_size_of_nonnegative(before);
    lemma_size_of_nonnegative(after);
    assert(size_of(before) * size_of(after) >= 0) by (nonlinear_arith)
        requires
            size_of(before) >= 0,
            size_of(after) >= 0,
    ;
}

/// The lanes as sequences.
pub open spec fn lanes_view(lanes: Seq<Vec<usize>>) -> Seq<Seq<usize>> {
    Seq::new(lanes.len(), |i: int| lanes[i]@)
}

/// Calls `ndarray::ArrayD::from_shape_vec` and walks `lanes(axis)` of the
/// array. `from_shape_vec` returns an error, and the result is `None`, unless
/// the shape is one of an array of as many elements as `data` has. The lanes
/// are those of the row-major array, in row-major order of the other axes.
#[verifier::external_body]
pub(crate) fn lanes_along(shape: &Vec<usize>, data: &Vec<usize>, axis: usize) -> (r: Option<
    Vec<Vec<usize>>,
>)
    requires
        axis < shape@.len(),
    ensures
        r.is_some() == shape_fits(shape@, data@.len() as nat),
        match r {
            Some(lanes) => lanes_view(lanes@) == array_lanes(shape@, data@, axis),
            None => true,
        },
{
    let array = ndarray::ArrayD::from_shape_vec(ndarray::IxDyn(shape), data.clone()).ok()?;
    Some(array.lanes(ndarray::Axis(axis)).into_iter().map(|lane| lane.to_vec()).collect())
}

/// The places `0, 1, ..` of `n` elements.
pub open spec fn positions(n: nat) -> Seq<usize> {
    Seq::new(n, |i: int| i as usize)
}

/// The places of the lanes along `axis` in the data of an array of shape
/// `shape` with `n` elements.
pub open spec fn lane_places(shape: Seq<usize>, n: nat, axis: usize) -> Seq<Seq<usize>> {
    array_lanes(shape, positions(n), axis)
}

/// The elements of `data` at the places `places`, in that order.
pub open spec fn lane_elements<T>(data: Seq<T>, places: Seq<usize>) -> Seq<T> {
    Seq::new(places.len(), |j: int| data[places[j] as int])
}

/// Every lane has `len` places, each a place of one of `n` elements.
pub open spec fn lanes_fit(lanes: Seq<Seq<usize>>, len: usize, n: nat) -> bool {
    &&& forall|i: int| 0 <= i < lanes.len() ==> (#[trigger] lanes[i]).len() == len
    &&& forall|i: int, j: int|
        0 <= i < lanes.len() && 0 <= j < lanes[i].len() ==> (#[trigger] lanes[i][j]) < n
}

/// The places `0, 1, ..` of `n` elements.
pub fn all_positions(n: usize) -> (r: Vec<usize>)
    ensures
        r@ == positions(n as nat),
{
    let mut out: Vec<usize> = Vec::new();
    let mut i: usize = 0;
    while i < n
        invariant
            i <= n,
            out@.len() == i,
            forall|k: int| 0 <= k < i ==> out@[k] == k,
        decreases n - i,
    {
        out.push(i);
        i += 1;
    }
    proof {
        assert(out@ =~= positions(n as nat));
    }
    out
}

/// The lanes of places along `axis`, or `None` where the shape is not one of
/// an array of `n` elements. No place stands in two lanes.
pub fn places_along(shape: &Vec<usize>, n: usize, axis: usize) -> (r: Option<Vec<Vec<usize>>>)
    requires
        axis < shape@.len(),
    ensures
        r.is_some() == shape_fits(shape@, n as nat),
        match r {
            Some(lanes) => {
                &&& lane_places(shape@, n as nat, axis) == lanes_view(lanes@)
                &&& lanes_fit(lanes_view(lanes@), shape@[axis as int], n as nat)
                &&& lanes_apart(lanes_view(lanes@))
            },
            None => true,
        },
{
    let places = all_positions(n);
    let found = lanes_along(shape, &places, axis);
    proof {
        if found.is_some() {
            lemma_lanes_of_places(shape@, n as nat, axis);
        }
    }
    found
}

/// The elements of `data` at the places `places`.
pub fn gather<T: Copy>(data: &Vec<T>, places: &Vec<usize>) -> (r: Vec<T>)
    requires
        forall|j: int| 0 <= j < places@.len() ==> places@[j] < data@.len(),
    ensures
        r@ == lane_elements(data@, places@),
{
    let mut out: Vec<T> = Vec::new();
    let mut j: usize = 0;
    while j < places.len()
        invariant
            j <= places@.len(),
            forall|k: int| 0 <= k < places@.len() ==> places@[k] < data@.len(),
            out@.len() == j,
            forall|k: int| 0 <= k < j ==> out@[k] == data@[places@[k] as int],
        decreases places@.len() - j,
    {
        out.push(data[places[j]]);
        j += 1;
    }
    proof {
        assert(out@ =~= lane_elements(data@, places@));
    }
    out
}

/// The shape without the axis `axis`.
pub fn remove_axis(shape: &Vec<usize>, axis: usize) -> (r: Vec<usize>)
    requires
        axis < shape@.len(),
    ensures
        r@ == shape@.remove(axis as int),
{
    let mut out: Vec<usize> = Vec::new();
    let mut i: usize = 0;
    while i < shape.len()
        invariant
            i <= shape@.len(),
            axis < shape@.len(),
            out@.len() == if i <= axis {
                i as int
            } else {
                i - 1
            },
            forall|k: int| 0 <= k < out@.len() ==> out@[k] == shape@.remove(axis as int)[k],
        decreases shape@.len() - i,
    {
        if i != axis {
            out.push(shape[i]);
        }
        i += 1;
    }
    proof {
        assert(out@ =~= shape@.remove(axis as int));
    }
    out
}

/// What each lane yields at each level: row `i` holds the quantiles of lane `i`.
pub open spec fn is_quantile_rows(
    rows: Seq<Vec<i64>>,
    data: Seq<i64>,
    lanes: Seq<Seq<usize>>,
    levels: Seq<QuantileLevel>,
    strategy: Strategy,
) -> bool {
    &&& rows.len() == lanes.len()
    &&& forall|i: int| 0 <= i < rows.len() ==> (#[trigger] rows[i])@.len() == levels.len()
    &&& forall|i: int, k: int|
        0 <= i < rows.len() && 0 <= k < levels.len() ==> (#[trigger] rows[i]@[k]) == quantile_of(
            lane_elements(data, lanes[i]),
            levels[k],
            strategy,
        )
}

/// Puts the elements of `lane` at the places `places` of `data`.
pub fn scatter<T: Copy>(data: &mut Vec<T>, places: &Vec<usize>, lane: &Vec<T>)
    requires
        places@.len() == lane@.len(),
        forall|j: int| 0 <= j < places@.len() ==> places@[j] < old(data)@.len(),
        forall|j: int, k: int| 0 <= j < k < places@.len() ==> places@[j] != places@[k],
    ensures
        final(data)@.len() == old(data)@.len(),
        lane_elements(final(data)@, places@) == lane@,
        forall|p: int|
            0 <= p < old(data)@.len() && !places@.contains(p as usize) ==> final(data)@[p] == old(
                data,
            )@[p],
{
    let ghost orig = data@;
    let mut j: usize = 0;
    while j < places.len()
        invariant
            j <= places@.len(),
            places@.len() == lane@.len(),
            data@.len() == orig.len(),
            forall|k: int| 0 <= k < places@.len() ==> places@[k] < orig.len(),
            forall|a: int, b: int| 0 <= a < b < places@.len() ==> places@[a] != places@[b],
            forall|k: int| 0 <= k < j ==> data@[places@[k] as int] == lane@[k],
            forall|p: int|
                0 <= p < orig.len() && !places@.contains(p as usize) ==> data@[p] == orig[p],
        decreases places@.len() - j,
    {
        let ghost before = data@;
        data.set(places[j], lane[j]);
        proof {
            assert forall|k: int| 0 <= k < j + 1 implies data@[places@[k] as int] == lane@[k] by {
                if k < j {
                    assert(places@[k] != places@[j as int]);
                    assert(before[places@[k] as int] == lane@[k]);
                }
            }
            assert forall|p: int|
                0 <= p < orig.len() && !places@.contains(p as usize) implies data@[p]
                == orig[p] by {
                assert(places@[j as int] != p);
            }
        }
        j += 1;
    }
    proof {
        assert(lane_elements(data@, places@) =~= lane@);
    }
}

/// Each lane holds after what it held before, in whatever order.
pub open spec fn lanes_rearranged(before: Seq<i64>, after: Seq<i64>, lanes: Seq<Seq<usize>>) -> bool {
    &&& after.len() == before.len()
    &&& forall|i: int|
        0 <= i < lanes.len() ==> (#[trigger] lane_elements(after, lanes[i])).to_multiset()
            == lane_elements(before, lanes[i]).to_multiset()
}

/// The quantiles of every lane at every level, each lane searched once and
/// rearranged in place.
pub fn quantile_lanes<I: Interpolate>(
    data: &mut Vec<i64>,
    lanes: &Vec<Vec<usize>>,
    len: usize,
    levels: &Vec<QuantileLevel>,
) -> (r: Vec<Vec<i64>>)
    requires
        len > 0,
        lanes_fit(lanes_view(lanes@), len, old(data)@.len() as nat),
        lanes_apart(lanes_view(lanes@)),
        all_valid(levels@),
    ensures
        is_quantile_rows(r@, old(data)@, lanes_view(lanes@), levels@, I::strategy()),
        lanes_rearranged(old(data)@, final(data)@, lanes_view(lanes@)),
{
    let ghost orig = data@;
    let ranks = searched_indexes::<I>(levels, len);
    let mut rows: Vec<Vec<i64>> = Vec::new();
    let mut i: usize = 0;
    let ghost view = lanes_view(lanes@);
    while i < lanes.len()
        invariant
            i <= lanes@.len(),
            len > 0,
            view == lanes_view(lanes@),
            data@.len() == orig.len(),
            lanes_fit(view, len, orig.len() as nat),
            lanes_apart(view),
            all_valid(levels@),
            crate::sort::strictly_ascending(ranks@),
            forall|x: usize|
                ranks@.contains(x) <==> crate::quantile::needed(I::strategy(), levels@, len, x),
            forall|k: int| 0 <= k < ranks@.len() ==> ranks@[k] < len,
            is_quantile_rows(rows@, orig, view.subrange(0, i as int), levels@, I::strategy()),
            forall|a: int|
                0 <= a < i ==> (#[trigger] lane_elements(data@, view[a])).to_multiset()
                    == lane_elements(orig, view[a]).to_multiset(),
            forall|a: int|
                i <= a < view.len() ==> #[trigger] lane_elements(data@, view[a]) == lane_elements(
                    orig,
                    view[a],
                ),
        decreases lanes@.len() - i,
    {
        let ghost held = data@;
        proof {
            assert(view[i as int] == lanes@[i as int]@);
            assert(view[i as int].len() == len);
            assert forall|j: int| 0 <= j < lanes@[i as int]@.len() implies lanes@[i as int]@[j]
                < data@.len() by {
                assert(view[i as int][j] < data@.len());
            }
            assert forall|j: int, k: int|
                0 <= j < k < lanes@[i as int]@.len() implies lanes@[i as int]@[j]
                != lanes@[i as int]@[k] by {
                assert(view[i as int][j] != view[i as int][k]);
            }
            assert(lane_elements(held, view[i as int]) == lane_elements(orig, view[i as int]));
        }
        let mut lane = gather(data, &lanes[i]);
        let ghost before = rows@;
        let row = lane_quantiles::<I>(&mut lane, levels, &ranks);
        rows.push(row);
        scatter(data, &lanes[i], &lane);
        proof {
            let grown = view.subrange(0, i + 1);
            assert forall|a: int, k: int|
                0 <= a < rows@.len() && 0 <= k < levels@.len() implies (#[trigger] rows@[a]@[k])
                == quantile_of(lane_elements(orig, grown[a]), levels@[k], I::strategy()) by {
                if a < i {
                    assert(rows@[a] == before[a]);
                    assert(grown[a] == view.subrange(0, i as int)[a]);
                    assert(before[a]@[k] == quantile_of(
                        lane_elements(orig, view.subrange(0, i as int)[a]),
                        levels@[k],
                        I::strategy(),
                    ));
                }
            }
            assert forall|a: int| 0 <= a < rows@.len() implies (#[trigger] rows@[a])@.len()
                == levels@.len() by {
                if a < i {
                    assert(rows@[a] == before[a]);
                }
            }
            assert forall|a: int| 0 <= a < view.len() && a != i implies lane_elements(
                data@,
                view[a],
            ) == lane_elements(held, view[a]) by {
                assert forall|j: int| 0 <= j < view[a].len() implies data@[view[a][j] as int]
                    == held[view[a][j] as int] by {
                    let p = view[a][j];
                    assert(p < held.len());
                    if lanes@[i as int]@.contains(p) {
                        let k = choose|k: int|
                            0 <= k < lanes@[i as int]@.len() && lanes@[i as int]@[k] == p;
                        assert(view[i as int][k] != view[a][j]);
                    }
                }
                assert(lane_elements(data@, view[a]) =~= lane_elements(held, view[a]));
            }
            assert forall|a: int| 0 <= a < i + 1 implies (#[trigger] lane_elements(
                data@,
                view[a],
            )).to_multiset() == lane_elements(orig, view[a]).to_multiset() by {
                if a < i {
                    assert(lane_elements(held, view[a]).to_multiset() == lane_elements(
                        orig,
                        view[a],
                    ).to_multiset());
                }
            }
            assert forall|a: int| i + 1 <= a < view.len() implies #[trigger] lane_elements(
                data@,
                view[a],
            ) == lane_elements(orig, view[a]) by {
                assert(lane_elements(held, view[a]) == lane_elements(orig, view[a]));
            }
        }
        i += 1;
    }
    proof {
        assert(view.subrange(0, i as int) =~= view);
    }
    rows
}

/// What every lane yields at level `k`: entry `k` of each row.
pub fn values_at_level(rows: &Vec<Vec<i64>>, k: usize) -> (r: Vec<i64>)
    requires
        forall|i: int| 0 <= i < rows@.len() ==> k < (#[trigger] rows@[i])@.len(),
    ensures
        r@.len() == rows@.len(),
        forall|i: int| 0 <= i < rows@.len() ==> r@[i] == rows@[i]@[k as int],
{
    let mut out: Vec<i64> = Vec::new();
    let mut i: usize = 0;
    while i < rows.len()
        invariant
            i <= rows@.len(),
            forall|a: int| 0 <= a < rows@.len() ==> k < (#[trigger] rows@[a])@.len(),
            out@.len() == i,
            forall|a: int| 0 <= a < i ==> out@[a] == rows@[a]@[k as int],
        decreases rows@.len() - i,
    {
        out.push(rows[i][k]);
        i += 1;
    }
    out
}

/// The array holds, for each lane of `lanes`, the quantile of the lane's
/// elements at level `q`; its shape is `shape` without the axis, and it has
/// as many elements as that shape asks for. Each lane has as many places as
/// the axis is long, all of them places of `data`.
pub open spec fn is_axis_quantile(
    result: Grid<i64>,
    shape: Seq<usize>,
    data: Seq<i64>,
    lanes: Seq<Seq<usize>>,
    axis: usize,
    q: QuantileLevel,
    strategy: Strategy,
) -> bool {
    &&& result.shape@ == shape.remove(axis as int)
    &&& result.data@.len() == size_of(result.shape@)
    &&& result.data@.len() == lanes.len()
    &&& lanes_fit(lanes, shape[axis as int], data.len())
    &&& forall|i: int|
        0 <= i < lanes.len() ==> (#[trigger] result.data@[i]) == quantile_of(
            lane_elements(data, lanes[i]),
            q,
            strategy,
        )
}

/// Why a query along `axis` at the levels `qs` is refused, if it is: a level
/// outside of 0 to 1 first, then an axis that the shape does not have, then,
/// for an axis that is not empty, a shape that is not one of an array of `n`
/// elements.
pub open spec fn refusal(shape: Seq<usize>, n: nat, axis: usize, qs: Seq<QuantileLevel>) -> Option<
    QuantileError,
> {
    if !all_valid(qs) {
        Some(QuantileError::InvalidQuantileLevel)
    } else if axis >= shape.len() {
        Some(QuantileError::AxisOutOfRange)
    } else if shape[axis as int] != 0 && !shape_fits(shape, n) {
        Some(QuantileError::InvalidShape)
    } else {
        None
    }
}

/// The levels of a bulk result along an axis, in its order.
pub open spec fn axis_levels_of(entries: Seq<(QuantileLevel, Grid<i64>)>) -> Seq<QuantileLevel> {
    Seq::new(entries.len(), |i: int| entries[i].0)
}

/// Quantile methods for n-dimensional arrays.
pub trait QuantileExt {
    /// The lengths of the array's axes.
    spec fn axes(&self) -> Seq<usize>;

    /// The array's elements in row-major order.
    spec fn items(&self) -> Seq<i64>;

    /// The smallest element of the array; `None` where it has none.
    fn min(&self) -> (r: Option<i64>)
        ensures
            match r {
                Some(v) => is_least(self.items(), v as int),
                None => self.items().len() == 0,
            },
    ;

    /// The largest element of the array; `None` where it has none.
    fn max(&self) -> (r: Option<i64>)
        ensures
            match r {
                Some(v) => is_greatest(self.items(), v as int),
                None => self.items().len() == 0,
            },
    ;

    /// The quantile at level `q` of every lane along `axis`, as an array
    /// without that axis; `None` where the axis is empty. Each lane is
    /// rearranged in place; a query that is refused leaves the array as it is.
    fn quantile_axis_mut<I: Interpolate>(&mut self, axis: usize, q: QuantileLevel) -> (r: Result<
        Option<Grid<i64>>,
        QuantileError,
    >)
        ensures
            final(self).axes() == old(self).axes(),
            !(r matches Ok(Some(_))) ==> final(self).items() == old(self).items(),
            r matches Ok(Some(_)) ==> lanes_rearranged(
                old(self).items(),
                final(self).items(),
                lane_places(old(self).axes(), old(self).items().len(), axis),
            ),
            match r {
                Err(e) => refusal(old(self).axes(), old(self).items().len(), axis, seq![q]) == Some(e),
                Ok(None) => refusal(old(self).axes(), old(self).items().len(), axis, seq![q]).is_none()
                    && old(self).axes()[axis as int] == 0,
                Ok(Some(result)) => refusal(old(self).axes(), old(self).items().len(), axis, seq![q]).is_none()
                    && old(self).axes()[axis as int] != 0 && is_axis_quantile(
                    result,
                    old(self).axes(),
                    old(self).items(),
                    lane_places(old(self).axes(), old(self).items().len(), axis),
                    axis,
                    q,
                    I::strategy(),
                ),
            },
    ;

    /// The quantiles at all the levels `qs` of every lane along `axis`, each
    /// lane searched once: pairs of level and array in ascending order of
    /// level, a level that occurs twice taken once. `None` where the axis is
    /// empty. Each lane is rearranged in place; a query that is refused
    /// leaves the array as it is.
    fn quantiles_axis_mut<I: Interpolate>(&mut self, axis: usize, qs: &[QuantileLevel]) -> (r:
        Result<Option<Vec<(QuantileLevel, Grid<i64>)>>, QuantileError>)
        ensures
            final(self).axes() == old(self).axes(),
            !(r matches Ok(Some(_))) ==> final(self).items() == old(self).items(),
            r matches Ok(Some(_)) ==> lanes_rearranged(
                old(self).items(),
                final(self).items(),
                lane_places(old(self).axes(), old(self).items().len(), axis),
            ),
            match r {
                Err(e) => refusal(old(self).axes(), old(self).items().len(), axis, qs@) == Some(e),
                Ok(None) => refusal(old(self).axes(), old(self).items().len(), axis, qs@).is_none()
                    && old(self).axes()[axis as int] == 0,
                Ok(Some(entries)) => {
                    &&& refusal(old(self).axes(), old(self).items().len(), axis, qs@).is_none()
                    &&& old(self).axes()[axis as int] != 0
                    &&& is_level_set(axis_levels_of(entries@), qs@)
                    &&& forall|k: int|
                        0 <= k < entries@.len() ==> is_axis_quantile(
                            (#[trigger] entries@[k]).1,
                            old(self).axes(),
                            old(self).items(),
                            lane_places(old(self).axes(), old(self).items().len(), axis),
                            axis,
                            entries@[k].0,
                            I::strategy(),
                        )
                },
            },
    ;
}

impl QuantileExt for Grid<i64> {
    open spec fn axes(&self) -> Seq<usize> {
        self.shape@
    }

    open spec fn items(&self) -> Seq<i64> {
        self.data@
    }

    fn min(&self) -> (r: Option<i64>)
    {
        least(self.data.as_slice())
    }

    fn max(&self) -> (r: Option<i64>)
    {
        greatest(self.data.as_slice())
    }

    fn quantile_axis_mut<I: Interpolate>(&mut self, axis: usize, q: QuantileLevel) -> (r: Result<
        Option<Grid<i64>>,
        QuantileError,
    >)
    {
        let ghost held = self.data@;
        proof {
            assert(seq![q][0] == q);
            assert(all_valid(seq![q]) == q.is_valid());
        }
        if !q.in_unit_interval() {
            return Err(QuantileError::InvalidQuantileLevel);
        }
        if axis >= self.shape.len() {
            return Err(QuantileError::AxisOutOfRange);
        }
        let len: usize = self.shape[axis];
        if len == 0 {
            return Ok(None);
        }
        match places_along(&self.shape, self.data.len(), axis) {
            None => Err(QuantileError::InvalidShape),
            Some(lanes) => {
                let mut levels: Vec<QuantileLevel> = Vec::new();
                levels.push(q);
                let rows = quantile_lanes::<I>(&mut self.data, &lanes, len, &levels);
                let values = values_at_level(&rows, 0);
                let shape = remove_axis(&self.shape, axis);
                proof {
                    assert(levels@[0] == q);
                    lemma_lanes_count(self.shape@, positions(held.len() as nat), axis);
                }
                Ok(Some(Grid { shape, data: values }))
            },
        }
    }

    fn quantiles_axis_mut<I: Interpolate>(&mut self, axis: usize, qs: &[QuantileLevel]) -> (r:
        Result<Option<Vec<(QuantileLevel, Grid<i64>)>>, QuantileError>)
    {
        let ghost held = self.data@;
        if !all_in_unit_interval(qs) {
            return Err(QuantileError::InvalidQuantileLevel);
        }
        if axis >= self.shape.len() {
            return Err(QuantileError::AxisOutOfRange);
        }
        let len: usize = self.shape[axis];
        if len == 0 {
            return Ok(None);
        }
        match places_along(&self.shape, self.data.len(), axis) {
            None => Err(QuantileError::InvalidShape),
            Some(lanes) => {
                let levels = sorted_levels(qs);
                let rows = quantile_lanes::<I>(&mut self.data, &lanes, len, &levels);
                proof {
                    lemma_lanes_count(self.shape@, positions(held.len() as nat), axis);
                }
                let mut entries: Vec<(QuantileLevel, Grid<i64>)> = Vec::new();
                let mut k: usize = 0;
                while k < levels.len()
                    invariant
                        k <= levels@.len(),
                        axis < self.shape@.len(),
                        lanes_fit(
                            lanes_view(lanes@),
                            self.shape@[axis as int],
                            held.len() as nat,
                        ),
                        lanes_view(lanes@).len() == size_of(self.shape@.remove(axis as int)),
                        is_quantile_rows(
                            rows@,
                            held,
                            lanes_view(lanes@),
                            levels@,
                            I::strategy(),
                        ),
                        entries@.len() == k,
                        forall|a: int| 0 <= a < k ==> (#[trigger] entries@[a]).0 == levels@[a],
                        forall|a: int|
                            0 <= a < k ==> is_axis_quantile(
                                (#[trigger] entries@[a]).1,
                                self.shape@,
                                held,
                                lanes_view(lanes@),
                                axis,
                                levels@[a],
                                I::strategy(),
                            ),
                    decreases levels@.len() - k,
                {
                    let values = values_at_level(&rows, k);
                    let shape = remove_axis(&self.shape, axis);
                    entries.push((levels[k], Grid { shape, data: values }));
                    k += 1;
                }
                proof {
                    assert(axis_levels_of(entries@) =~= levels@);
                }
                Ok(Some(entries))
            },
        }
    }
}

/// The array holds, for each lane of `lanes`, the quantile at level `q` of the
/// lane's elements that are present, or the mark of a missing value where
/// none is; its shape is `shape` without the axis, and it has as many
/// elements as that shape asks for. Each lane has as many places as the axis
/// is long, all of them places of `data`.
pub open spec fn is_axis_skipnan_quantile(
    result: Grid<Option<i64>>,
    shape: Seq<usize>,
    data: Seq<Option<i64>>,
    lanes: Seq<Seq<usize>>,
    axis: usize,
    q: QuantileLevel,
    strategy: Strategy,
) -> bool {
    &&& result.shape@ == shape.remove(axis as int)
    &&& result.data@.len() == size_of(result.shape@)
    &&& result.data@.len() == lanes.len()
    &&& lanes_fit(lanes, shape[axis as int], data.len())
    &&& forall|i: int|
        0 <= i < lanes.len() ==> is_skipnan_quantile(
            #[trigger] result.data@[i],
            lane_elements(data, lanes[i]),
            q,
            strategy,
        )
}

/// Why a query along `axis` at level `q` that skips missing values is
/// refused, if it is: a level outside of 0 to 1 first, then an axis that the
/// shape does not have, then a shape that is not one of an array of `n`
/// elements.
pub open spec fn refusal_skipping(shape: Seq<usize>, n: nat, axis: usize, q: QuantileLevel) -> Option<
    QuantileError,
> {
    if !q.is_valid() {
        Some(QuantileError::InvalidQuantileLevel)
    } else if axis >= shape.len() {
        Some(QuantileError::AxisOutOfRange)
    } else if !shape_fits(shape, n) {
        Some(QuantileError::InvalidShape)
    } else {
        None
    }
}

impl Grid<Option<i64>> {
    /// The smallest of the elements that are present; `None`, the mark of a
    /// missing value, where none is.
    pub fn min_skipnan(&self) -> (r: Option<i64>)
        ensures
            match r {
                Some(v) => is_least(present(self.data@), v as int),
                None => present(self.data@).len() == 0,
            },
    {
        let kept = keep_present(self.data.as_slice());
        least(kept.as_slice())
    }

    /// The largest of the elements that are present; `None`, the mark of a
    /// missing value, where none is.
    pub fn max_skipnan(&self) -> (r: Option<i64>)
        ensures
            match r {
                Some(v) => is_greatest(present(self.data@), v as int),
                None => present(self.data@).len() == 0,
            },
    {
        let kept = keep_present(self.data.as_slice());
        greatest(kept.as_slice())
    }

    /// The smallest element; `None` where the array is empty or an element is
    /// missing.
    pub fn min(&self) -> (r: Option<i64>)
        ensures
            match r {
                Some(v) => all_present(self.data@) && is_least(present(self.data@), v as int),
                None => self.data@.len() == 0 || !all_present(self.data@),
            },
    {
        let kept = keep_present(self.data.as_slice());
        proof {
            lemma_present_length(self.data@);
        }
        if kept.len() < self.data.len() {
            return None;
        }
        least(kept.as_slice())
    }

    /// The largest element; `None` where the array is empty or an element is
    /// missing.
    pub fn max(&self) -> (r: Option<i64>)
        ensures
            match r {
                Some(v) => all_present(self.data@) && is_greatest(present(self.data@), v as int),
                None => self.data@.len() == 0 || !all_present(self.data@),
            },
    {
        let kept = keep_present(self.data.as_slice());
        proof {
            lemma_present_length(self.data@);
        }
        if kept.len() < self.data.len() {
            return None;
        }
        greatest(kept.as_slice())
    }

    /// The quantile at level `q` of every lane along `axis`, missing values
    /// skipped, as an array without that axis. A lane without a value that is
    /// present yields the mark of a missing value; along an empty axis every
    /// lane does. The result is never `Ok(None)`. Each lane is rearranged in
    /// place, the values that are present first; a query that is refused
    /// leaves the array as it is.
    pub fn quantile_axis_skipnan_mut<I: Interpolate>(&mut self, axis: usize, q: QuantileLevel) -> (r:
        Result<Option<Grid<Option<i64>>>, QuantileError>)
        ensures
            final(self).shape@ == old(self).shape@,
            r is Err ==> final(self).data@ == old(self).data@,
            r is Ok ==> lanes_present_kept(
                old(self).data@,
                final(self).data@,
                lane_places(old(self).shape@, old(self).data@.len(), axis),
            ),
            match r {
                Err(e) => refusal_skipping(old(self).shape@, old(self).data@.len(), axis, q)
                    == Some(e),
                Ok(None) => false,
                Ok(Some(result)) => refusal_skipping(
                    old(self).shape@,
                    old(self).data@.len(),
                    axis,
                    q,
                ).is_none() && is_axis_skipnan_quantile(
                    result,
                    old(self).shape@,
                    old(self).data@,
                    lane_places(old(self).shape@, old(self).data@.len(), axis),
                    axis,
                    q,
                    I::strategy(),
                ),
            },
    {
        let ghost held = self.data@;
        if !q.in_unit_interval() {
            return Err(QuantileError::InvalidQuantileLevel);
        }
        if axis >= self.shape.len() {
            return Err(QuantileError::AxisOutOfRange);
        }
        match places_along(&self.shape, self.data.len(), axis) {
            None => Err(QuantileError::InvalidShape),
            Some(lanes) => {
                let ghost view = lanes_view(lanes@);
                let mut values: Vec<Option<i64>> = Vec::new();
                let mut i: usize = 0;
                while i < lanes.len()
                    invariant
                        i <= lanes@.len(),
                        q.is_valid(),
                        axis < self.shape@.len(),
                        self.shape@ == old(self).shape@,
                        held == old(self).data@,
                        shape_fits(self.shape@, held.len() as nat),
                        view == lanes_view(lanes@),
                        view == lane_places(self.shape@, held.len() as nat, axis),
                        self.data@.len() == held.len(),
                        lanes_fit(view, self.shape@[axis as int], held.len() as nat),
                        lanes_apart(view),
                        values@.len() == i,
                        forall|a: int|
                            0 <= a < i ==> is_skipnan_quantile(
                                #[trigger] values@[a],
                                lane_elements(held, view[a]),
                                q,
                                I::strategy(),
                            ),
                        forall|a: int|
                            0 <= a < i ==> present(
                                #[trigger] lane_elements(self.data@, view[a]),
                            ).to_multiset() == present(lane_elements(held, view[a])).to_multiset(),
                        forall|a: int|
                            i <= a < view.len() ==> #[trigger] lane_elements(self.data@, view[a])
                                == lane_elements(held, view[a]),
                    decreases lanes@.len() - i,
                {
                    let ghost was = self.data@;
                    proof {
                        assert(view[i as int] == lanes@[i as int]@);
                        assert forall|j: int|
                            0 <= j < lanes@[i as int]@.len() implies lanes@[i as int]@[j]
                            < self.data@.len() by {
                            assert(view[i as int][j] < self.data@.len());
                        }
                        assert forall|j: int, k: int|
                            0 <= j < k < lanes@[i as int]@.len() implies lanes@[i as int]@[j]
                            != lanes@[i as int]@[k] by {
                            assert(view[i as int][j] != view[i as int][k]);
                        }
                        assert(lane_elements(was, view[i as int]) == lane_elements(
                            held,
                            view[i as int],
                        ));
                    }
                    let lane = gather(&self.data, &lanes[i]);
                    let mut kept = keep_present(lane.as_slice());
                    proof {
                        lemma_present_length(lane@);
                    }
                    let value = present_value::<I>(&mut kept, q);
                    let back = present_first(&kept, lane.len());
                    scatter(&mut self.data, &lanes[i], &back);
                    values.push(value);
                    proof {
                        assert forall|a: int| 0 <= a < view.len() && a != i implies lane_elements(
                            self.data@,
                            view[a],
                        ) == lane_elements(was, view[a]) by {
                            assert forall|j: int|
                                0 <= j < view[a].len() implies self.data@[view[a][j] as int]
                                == was[view[a][j] as int] by {
                                let p = view[a][j];
                                assert(p < was.len());
                                if lanes@[i as int]@.contains(p) {
                                    let k = choose|k: int|
                                        0 <= k < lanes@[i as int]@.len() && lanes@[i as int]@[k]
                                            == p;
                                    assert(view[i as int][k] != view[a][j]);
                                }
                            }
                            assert(lane_elements(self.data@, view[a]) =~= lane_elements(
                                was,
                                view[a],
                            ));
                        }
                        assert forall|a: int| 0 <= a < i + 1 implies present(
                            #[trigger] lane_elements(self.data@, view[a]),
                        ).to_multiset() == present(lane_elements(held, view[a])).to_multiset() by {
                            if a < i {
                                assert(present(lane_elements(was, view[a])).to_multiset()
                                    == present(lane_elements(held, view[a])).to_multiset());
                            }
                        }
                        assert forall|a: int|
                            i + 1 <= a < view.len() implies #[trigger] lane_elements(
                            self.data@,
                            view[a],
                        ) == lane_elements(held, view[a]) by {
                            assert(lane_elements(was, view[a]) == lane_elements(held, view[a]));
                        }
                    }
                    i += 1;
                }
                let shape = remove_axis(&self.shape, axis);
                proof {
                    lemma_lanes_count(self.shape@, positions(held.len() as nat), axis);
                }
                Ok(Some(Grid { shape, data: values }))
            },
        }
    }
}

/// Each lane holds after the values that it held before, in whatever order,
/// and as many missing values.
pub open spec fn lanes_present_kept(
    before: Seq<Option<i64>>,
    after: Seq<Option<i64>>,
    lanes: Seq<Seq<usize>>,
) -> bool {
    &&& after.len() == before.len()
    &&& forall|i: int|
        0 <= i < lanes.len() ==> present(#[trigger] lane_elements(after, lanes[i])).to_multiset()
            == present(lane_elements(before, lanes[i])).to_multiset()
}

} // verus!
