use ndarray_stats::array::{
    all_positions, gather, places_along, quantile_lanes, remove_axis, scatter, values_at_level,
    Grid, QuantileExt,
};
use ndarray_stats::interpolate::{Higher, Linear, Lower, Midpoint, Nearest, QuantileLevel};
use ndarray_stats::quantile::QuantileError;

fn level(num: i64, den: i64) -> QuantileLevel {
    QuantileLevel::new(num, den)
}

fn grid(shape: &[usize], data: &[i64]) -> Grid<i64> {
    Grid { shape: shape.to_vec(), data: data.to_vec() }
}

#[test]
fn lanes_of_a_three_dimensional_array() {
    // [[[0, 1, 2], [3, 4, 5]], [[6, 7, 8], [9, 10, 11]]]
    let shape = vec![2, 2, 3];
    assert_eq!(
        places_along(&shape, 12, 0),
        Some(vec![vec![0, 6], vec![1, 7], vec![2, 8], vec![3, 9], vec![4, 10], vec![5, 11]])
    );
    assert_eq!(
        places_along(&shape, 12, 1),
        Some(vec![vec![0, 3], vec![1, 4], vec![2, 5], vec![6, 9], vec![7, 10], vec![8, 11]])
    );
    assert_eq!(
        places_along(&shape, 12, 2),
        Some(vec![vec![0, 1, 2], vec![3, 4, 5], vec![6, 7, 8], vec![9, 10, 11]])
    );
}

#[test]
fn lanes_of_a_shape_that_does_not_fit() {
    assert_eq!(places_along(&vec![2, 3], 5, 0), None);
    assert_eq!(places_along(&vec![2, 3], 7, 1), None);
    // The lengths that are not zero multiply to more than an array can hold.
    assert_eq!(places_along(&vec![usize::MAX, 0], 0, 0), None);
    assert_eq!(places_along(&vec![usize::MAX, 2, 0], 0, 1), None);
}

#[test]
fn shape_too_large_is_refused() {
    let mut a = grid(&[usize::MAX, 0], &[]);
    assert!(matches!(
        a.quantile_axis_mut::<Lower>(0, level(1, 2)),
        Err(QuantileError::InvalidShape)
    ));
    assert!(matches!(a.quantile_axis_mut::<Lower>(1, level(1, 2)), Ok(None)));
}

#[test]
fn lanes_of_a_one_dimensional_array() {
    assert_eq!(places_along(&vec![4], 4, 0), Some(vec![vec![0, 1, 2, 3]]));
}

#[test]
fn helpers_on_places() {
    assert_eq!(all_positions(4), vec![0, 1, 2, 3]);
    assert_eq!(all_positions(0), Vec::<usize>::new());
    assert_eq!(gather(&vec![10i64, 20, 30, 40], &vec![3, 0, 3]), vec![40, 10, 40]);
    assert_eq!(remove_axis(&vec![2, 3, 4], 0), vec![3, 4]);
    assert_eq!(remove_axis(&vec![2, 3, 4], 1), vec![2, 4]);
    assert_eq!(remove_axis(&vec![2, 3, 4], 2), vec![2, 3]);
    assert_eq!(values_at_level(&vec![vec![1, 2], vec![3, 4], vec![5, 6]], 1), vec![2, 4, 6]);
}

#[test]
fn quantile_rows_per_lane() {
    let mut data: Vec<i64> = vec![1, 3, 2, 10, 2, 4, 3, 11];
    let lanes = vec![vec![0, 1, 2, 3], vec![4, 5, 6, 7]];
    let levels = vec![level(0, 1), level(1, 2), level(1, 1)];
    assert_eq!(
        quantile_lanes::<Lower>(&mut data, &lanes, 4, &levels),
        vec![vec![1, 2, 10], vec![2, 3, 11]]
    );
}

#[test]
fn quantile_along_the_first_axis_with_odd_length() {
    let mut a = grid(&[3, 4], &[1, 3, 2, 10, 2, 4, 3, 11, 3, 5, 6, 12]);
    let p = a.quantile_axis_mut::<Lower>(0, level(1, 2)).unwrap().unwrap();
    assert_eq!(p.shape, vec![4]);
    assert_eq!(p.data, vec![2, 4, 3, 11]);
}

#[test]
fn quantile_along_the_first_axis_with_even_length() {
    let mut a = grid(&[4, 4], &[1, 3, 2, 10, 2, 4, 3, 11, 3, 5, 6, 12, 4, 6, 7, 13]);
    let p = a.quantile_axis_mut::<Lower>(0, level(1, 2)).unwrap().unwrap();
    assert_eq!(p.data, vec![2, 4, 3, 11]);
    let p = a.quantile_axis_mut::<Higher>(0, level(1, 2)).unwrap().unwrap();
    assert_eq!(p.data, vec![3, 5, 6, 12]);
    let p = a.quantile_axis_mut::<Midpoint>(0, level(1, 2)).unwrap().unwrap();
    assert_eq!(p.data, vec![2, 4, 4, 11]);
}

#[test]
fn quantile_along_the_last_axis() {
    let mut a = grid(&[2, 3], &[1, 2, 5, 3, 4, 6]);
    let p = a.quantile_axis_mut::<Lower>(1, level(0, 1)).unwrap().unwrap();
    assert_eq!(p.shape, vec![2]);
    assert_eq!(p.data, vec![1, 3]);
    let p = a.quantile_axis_mut::<Lower>(1, level(1, 1)).unwrap().unwrap();
    assert_eq!(p.data, vec![5, 6]);
    let mut a = grid(&[2, 3], &[1, 2, 5, 3, 4, 6]);
    let p = a.quantile_axis_mut::<Nearest>(0, level(1, 2)).unwrap().unwrap();
    assert_eq!(p.shape, vec![3]);
    assert_eq!(p.data, vec![3, 4, 6]);
}

#[test]
fn quantile_in_three_dimensions() {
    let data: Vec<i64> = vec![11, 10, 9, 8, 7, 6, 5, 4, 3, 2, 1, 0];
    let mut a = grid(&[2, 2, 3], &data);
    let p = a.quantile_axis_mut::<Lower>(1, level(0, 1)).unwrap().unwrap();
    assert_eq!(p.shape, vec![2, 3]);
    assert_eq!(p.data, vec![8, 7, 6, 2, 1, 0]);
    let mut a = grid(&[2, 2, 3], &data);
    let p = a.quantile_axis_mut::<Linear>(2, level(1, 2)).unwrap().unwrap();
    assert_eq!(p.shape, vec![2, 2]);
    assert_eq!(p.data, vec![10, 7, 4, 1]);
}

#[test]
fn quantile_of_a_one_dimensional_array() {
    let mut a = grid(&[4], &[10, 20, 30, 40]);
    let p = a.quantile_axis_mut::<Linear>(0, level(1, 2)).unwrap().unwrap();
    assert_eq!(p.shape, Vec::<usize>::new());
    assert_eq!(p.data, vec![25]);
}

#[test]
fn empty_axis_yields_absence() {
    let mut a = grid(&[0, 3], &[]);
    assert!(matches!(a.quantile_axis_mut::<Lower>(0, level(1, 2)), Ok(None)));
    assert!(matches!(a.quantiles_axis_mut::<Lower>(0, &[level(1, 2), level(0, 1)]), Ok(None)));
    let mut b = grid(&[3, 0], &[]);
    assert!(matches!(b.quantile_axis_mut::<Linear>(1, level(1, 2)), Ok(None)));
    assert!(matches!(b.quantiles_axis_mut::<Linear>(1, &[]), Ok(None)));
    let mut c = grid(&[0], &[]);
    assert!(matches!(c.quantile_axis_mut::<Midpoint>(0, level(1, 1)), Ok(None)));
}

#[test]
fn axis_without_lanes_yields_an_empty_array() {
    let mut a = grid(&[0, 3], &[]);
    let p = a.quantile_axis_mut::<Lower>(1, level(1, 2)).unwrap().unwrap();
    assert_eq!(p.shape, vec![0]);
    assert_eq!(p.data, Vec::<i64>::new());
}

#[test]
fn axis_queries_refuse_bad_arguments() {
    let mut a = grid(&[2, 3], &[1, 2, 5, 3, 4, 6]);
    assert!(matches!(
        a.quantile_axis_mut::<Lower>(2, level(1, 2)),
        Err(QuantileError::AxisOutOfRange)
    ));
    assert!(matches!(
        a.quantile_axis_mut::<Lower>(0, level(3, 2)),
        Err(QuantileError::InvalidQuantileLevel)
    ));
    assert!(matches!(
        a.quantile_axis_mut::<Lower>(7, level(3, 2)),
        Err(QuantileError::InvalidQuantileLevel)
    ));
    assert!(matches!(
        a.quantiles_axis_mut::<Lower>(0, &[level(1, 2), level(-1, 2)]),
        Err(QuantileError::InvalidQuantileLevel)
    ));
    assert!(matches!(
        a.quantiles_axis_mut::<Lower>(5, &[level(1, 2)]),
        Err(QuantileError::AxisOutOfRange)
    ));
    let mut bad = grid(&[2, 3], &[1, 2, 5, 3, 4]);
    assert!(matches!(
        bad.quantile_axis_mut::<Lower>(0, level(1, 2)),
        Err(QuantileError::InvalidShape)
    ));
    assert!(matches!(
        bad.quantiles_axis_mut::<Lower>(1, &[level(1, 2)]),
        Err(QuantileError::InvalidShape)
    ));
}

#[test]
fn bulk_along_an_axis() {
    let mut a = grid(&[2, 4], &[40, 10, 30, 20, 4, 3, 2, 1]);
    let qs = [level(9, 10), level(1, 10), level(1, 10), level(1, 2)];
    let got = a.quantiles_axis_mut::<Nearest>(1, &qs).unwrap().unwrap();
    assert_eq!(got.len(), 3);
    let levels: Vec<QuantileLevel> = got.iter().map(|e| e.0).collect();
    assert_eq!(levels, vec![level(1, 10), level(1, 2), level(9, 10)]);
    assert_eq!(got[0].1.data, vec![10, 1]);
    assert_eq!(got[1].1.data, vec![30, 3]);
    assert_eq!(got[2].1.data, vec![40, 4]);
    for (q, values) in got.iter() {
        assert_eq!(values.shape, vec![2]);
        let single = a.quantile_axis_mut::<Nearest>(1, *q).unwrap().unwrap();
        assert_eq!(single.data, values.data);
    }
}

#[test]
fn smallest_and_largest_element() {
    let mut a = grid(&[2, 3], &[1, 5, 3, 2, 0, 6]);
    assert_eq!(a.min(), Some(0));
    assert_eq!(a.max(), Some(6));
    let mut e = grid(&[0, 3], &[]);
    assert_eq!(e.min(), None);
    assert_eq!(e.max(), None);
}

#[test]
fn smallest_and_largest_element_with_missing_values() {
    let mut a: Grid<Option<i64>> =
        Grid { shape: vec![2, 3], data: vec![Some(1), None, Some(3), Some(2), None, Some(6)] };
    assert_eq!(a.min_skipnan(), Some(1));
    assert_eq!(a.max_skipnan(), Some(6));
    let mut b: Grid<Option<i64>> = Grid { shape: vec![2], data: vec![None, None] };
    assert_eq!(b.min_skipnan(), None);
    assert_eq!(b.max_skipnan(), None);
    let mut e: Grid<Option<i64>> = Grid { shape: vec![0], data: vec![] };
    assert_eq!(e.min_skipnan(), None);
    assert_eq!(e.max_skipnan(), None);
}

#[test]
fn quantile_along_an_axis_with_missing_values() {
    let mut a: Grid<Option<i64>> = Grid {
        shape: vec![2, 5],
        data: vec![Some(1), None, Some(3), None, Some(5), None, None, None, None, None],
    };
    let p = a.quantile_axis_skipnan_mut::<Linear>(1, level(1, 2)).unwrap().unwrap();
    assert_eq!(p.shape, vec![2]);
    assert_eq!(p.data, vec![Some(3), None]);
    let mut a: Grid<Option<i64>> = Grid {
        shape: vec![2, 5],
        data: vec![Some(1), None, Some(3), None, Some(5), None, None, None, None, None],
    };
    let p = a.quantile_axis_skipnan_mut::<Lower>(0, level(1, 1)).unwrap().unwrap();
    assert_eq!(p.shape, vec![5]);
    assert_eq!(p.data, vec![Some(1), None, Some(3), None, Some(5)]);
}

#[test]
fn missing_value_queries_refuse_bad_arguments() {
    let mut a: Grid<Option<i64>> = Grid { shape: vec![1, 2], data: vec![Some(1), None] };
    assert!(matches!(
        a.quantile_axis_skipnan_mut::<Lower>(2, level(1, 2)),
        Err(QuantileError::AxisOutOfRange)
    ));
    assert!(matches!(
        a.quantile_axis_skipnan_mut::<Lower>(0, level(3, 2)),
        Err(QuantileError::InvalidQuantileLevel)
    ));
    let mut bad: Grid<Option<i64>> = Grid { shape: vec![3], data: vec![Some(1)] };
    assert!(matches!(
        bad.quantile_axis_skipnan_mut::<Lower>(0, level(1, 2)),
        Err(QuantileError::InvalidShape)
    ));
}

#[test]
fn empty_axis_with_missing_values_skipped_yields_the_mark_for_every_lane() {
    let mut e: Grid<Option<i64>> = Grid { shape: vec![2, 0], data: vec![] };
    let p = e.quantile_axis_skipnan_mut::<Lower>(1, level(1, 2)).unwrap().unwrap();
    assert_eq!(p.shape, vec![2]);
    assert_eq!(p.data, vec![None, None]);
    let p = e.quantile_axis_skipnan_mut::<Linear>(0, level(1, 2)).unwrap().unwrap();
    assert_eq!(p.shape, vec![0]);
    assert_eq!(p.data, Vec::<Option<i64>>::new());
    let mut f: Grid<Option<i64>> = Grid { shape: vec![0, 3], data: vec![] };
    let p = f.quantile_axis_skipnan_mut::<Midpoint>(0, level(0, 1)).unwrap().unwrap();
    assert_eq!(p.shape, vec![3]);
    assert_eq!(p.data, vec![None, None, None]);
    let mut g: Grid<Option<i64>> = Grid { shape: vec![0], data: vec![] };
    let p = g.quantile_axis_skipnan_mut::<Higher>(0, level(1, 1)).unwrap().unwrap();
    assert_eq!(p.shape, Vec::<usize>::new());
    assert_eq!(p.data, vec![None]);
    let mut bad: Grid<Option<i64>> = Grid { shape: vec![0, 3], data: vec![Some(1)] };
    assert!(matches!(
        bad.quantile_axis_skipnan_mut::<Lower>(0, level(1, 2)),
        Err(QuantileError::InvalidShape)
    ));
}

#[test]
fn lanes_along_an_empty_axis() {
    let none: Vec<usize> = vec![];
    assert_eq!(places_along(&vec![0, 3], 0, 0), Some(vec![none.clone(), none.clone(), none.clone()]));
    assert_eq!(places_along(&vec![2, 0], 0, 1), Some(vec![none.clone(), none.clone()]));
    assert_eq!(places_along(&vec![0], 0, 0), Some(vec![none]));
}

#[test]
fn result_has_as_many_elements_as_its_shape_asks_for() {
    let mut a = grid(&[2, 3, 4], &(0..24).collect::<Vec<i64>>());
    for axis in 0..3 {
        let p = a.quantile_axis_mut::<Lower>(axis, level(1, 2)).unwrap().unwrap();
        assert_eq!(p.data.len(), p.shape.iter().product::<usize>());
    }
    // Lane `o * inner + r` holds at `j` the element at `(o * len + j) * inner + r`.
    let mut a = grid(&[2, 3, 4], &(0..24).collect::<Vec<i64>>());
    let p = a.quantile_axis_mut::<Lower>(1, level(1, 1)).unwrap().unwrap();
    assert_eq!(p.data, vec![8, 9, 10, 11, 20, 21, 22, 23]);
}

#[test]
fn smallest_and_largest_element_undefined_with_a_missing_value() {
    let mut a: Grid<Option<i64>> = Grid { shape: vec![3], data: vec![Some(4), Some(-1), Some(9)] };
    assert_eq!(a.min(), Some(-1));
    assert_eq!(a.max(), Some(9));
    let mut b: Grid<Option<i64>> = Grid { shape: vec![3], data: vec![Some(4), None, Some(9)] };
    assert_eq!(b.min(), None);
    assert_eq!(b.max(), None);
    let mut e: Grid<Option<i64>> = Grid { shape: vec![0], data: vec![] };
    assert_eq!(e.min(), None);
    assert_eq!(e.max(), None);
}

#[test]
fn axis_query_rearranges_each_lane_in_place() {
    let data: Vec<i64> = vec![9, 1, 8, 2, 7, 3, 6, 4, 5, 0, 11, 10];
    let mut a = grid(&[3, 4], &data);
    let _ = a.quantile_axis_mut::<Midpoint>(1, level(1, 3)).unwrap().unwrap();
    assert_eq!(a.shape, vec![3, 4]);
    for row in 0..3 {
        let mut before = data[row * 4..row * 4 + 4].to_vec();
        let mut after = a.data[row * 4..row * 4 + 4].to_vec();
        before.sort();
        after.sort();
        assert_eq!(before, after);
    }
    let mut b = grid(&[3, 4], &data);
    let _ = b.quantiles_axis_mut::<Linear>(0, &[level(1, 4), level(3, 4)]).unwrap().unwrap();
    for col in 0..4 {
        let mut before: Vec<i64> = (0..3).map(|r| data[r * 4 + col]).collect();
        let mut after: Vec<i64> = (0..3).map(|r| b.data[r * 4 + col]).collect();
        before.sort();
        after.sort();
        assert_eq!(before, after);
    }
}

#[test]
fn refused_axis_query_leaves_the_array_as_it_is() {
    let data: Vec<i64> = vec![3, 1, 2, 6, 5, 4];
    let mut a = grid(&[2, 3], &data);
    assert!(a.quantile_axis_mut::<Lower>(0, level(3, 2)).is_err());
    assert!(a.quantile_axis_mut::<Lower>(2, level(1, 2)).is_err());
    assert!(a.quantiles_axis_mut::<Lower>(1, &[level(1, 2), level(-1, 2)]).is_err());
    assert_eq!(a.data, data);
    let mut e = grid(&[0, 2], &[]);
    assert!(matches!(e.quantile_axis_mut::<Lower>(0, level(1, 2)), Ok(None)));
    assert_eq!(e.data, Vec::<i64>::new());
}

#[test]
fn scatter_puts_a_lane_back() {
    let mut data: Vec<i64> = vec![0, 1, 2, 3, 4, 5];
    scatter(&mut data, &vec![4, 0, 2], &vec![40, 10, 20]);
    assert_eq!(data, vec![10, 1, 20, 3, 40, 5]);
}

#[test]
fn skipping_query_rearranges_each_lane_in_place() {
    let data = vec![None, Some(9), Some(1), None, Some(5), None, None, Some(2)];
    let mut a: Grid<Option<i64>> = Grid { shape: vec![2, 4], data: data.clone() };
    let p = a.quantile_axis_skipnan_mut::<Higher>(1, level(1, 2)).unwrap().unwrap();
    assert_eq!(p.data, vec![Some(9), Some(5)]);
    assert_eq!(a.shape, vec![2, 4]);
    for row in 0..2 {
        let mut before = data[row * 4..row * 4 + 4].to_vec();
        let mut after = a.data[row * 4..row * 4 + 4].to_vec();
        before.sort();
        after.sort();
        assert_eq!(before, after);
    }
    let mut b: Grid<Option<i64>> = Grid { shape: vec![2, 4], data: data.clone() };
    assert!(b.quantile_axis_skipnan_mut::<Higher>(1, level(3, 2)).is_err());
    assert!(b.quantile_axis_skipnan_mut::<Higher>(2, level(1, 2)).is_err());
    assert_eq!(b.data, data);
}
