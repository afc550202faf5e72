use ndarray_stats::sort::{
    get_from_sorted_mut, get_many_from_sorted_mut, get_many_from_sorted_mut_unchecked,
    partition_mut, sorted_unique,
};

fn assert_partitioned(mut a: Vec<i64>, pivot_index: usize) {
    let n = a.len();
    let mut expected = a.clone();
    expected.sort();
    let pivot_value = a[pivot_index];
    let partition_index = partition_mut(&mut a, pivot_index);
    for i in 0..partition_index {
        assert!(a[i] < pivot_value);
    }
    assert_eq!(a[partition_index], pivot_value);
    for j in (partition_index + 1)..n {
        assert!(pivot_value <= a[j]);
    }
    let mut after = a.clone();
    after.sort();
    assert_eq!(after, expected);
}

#[test]
fn test_partition_mut() {
    let mut l: Vec<Vec<i64>> = vec![
        vec![1, 1, 1, 1, 1],
        vec![1, 3, 2, 10, 10],
        vec![2, 3, 4, 1],
        vec![
            355, 453, 452, 391, 289, 343, 44, 154, 271, 44, 314, 276, 160, 469, 191, 138, 163, 308,
            395, 3, 416, 391, 210, 354, 200,
        ],
        vec![
            84, 192, 216, 159, 89, 296, 35, 213, 456, 278, 98, 52, 308, 418, 329, 173, 286, 106,
            366, 129, 125, 450, 23, 463, 151,
        ],
    ];
    for a in l.iter_mut() {
        let n = a.len();
        let pivot_index = n - 1;
        let pivot_value = a[pivot_index].clone();
        let partition_index = partition_mut(a, pivot_index);
        for i in 0..partition_index {
            assert!(a[i] < pivot_value);
        }
        assert_eq!(a[partition_index], pivot_value);
        for j in (partition_index + 1)..n {
            assert!(pivot_value <= a[j]);
        }
    }
}

#[test]
fn test_sorted_get_mut() {
    let a: Vec<i64> = vec![1, 3, 2, 10];
    let j = get_from_sorted_mut(&mut a.clone(), 2);
    assert_eq!(j, 3);
    let j = get_from_sorted_mut(&mut a.clone(), 1);
    assert_eq!(j, 2);
    let j = get_from_sorted_mut(&mut a.clone(), 3);
    assert_eq!(j, 10);
}

#[test]
fn partition_every_pivot_with_duplicates_and_sorted_input() {
    let lanes: Vec<Vec<i64>> = vec![
        vec![7],
        vec![5, 5],
        vec![1, 2, 3, 4, 5, 6],
        vec![6, 5, 4, 3, 2, 1],
        vec![3, 1, 3, 1, 3, 1, 2],
        vec![i64::MIN, 0, i64::MAX, -1, 1],
    ];
    for lane in lanes {
        for p in 0..lane.len() {
            assert_partitioned(lane.clone(), p);
        }
    }
}

#[test]
fn partition_returns_the_count_of_smaller_elements() {
    let mut a: Vec<i64> = vec![4, 9, 4, 1, 7, 4];
    let m = partition_mut(&mut a, 0);
    assert_eq!(m, 1);
    assert_eq!(a[1], 4);
}

#[test]
fn selection_equals_sort_then_index() {
    let lanes: Vec<Vec<i64>> = vec![
        vec![42],
        vec![2, 1],
        vec![5, -3, 5, 0, 12, -3, 8, 8, 1],
        vec![9, 8, 7, 6, 5, 4, 3, 2, 1, 0],
        vec![0, 0, 0, 0],
    ];
    for lane in lanes {
        let mut expected = lane.clone();
        expected.sort();
        for k in 0..lane.len() {
            let mut work = lane.clone();
            assert_eq!(get_from_sorted_mut(&mut work, k), expected[k]);
            assert_eq!(work[k], expected[k]);
            let mut after = work.clone();
            after.sort();
            assert_eq!(after, expected);
        }
    }
}

#[test]
fn selection_as_sorting_algorithm() {
    let xs: Vec<i64> = vec![13, -7, 0, 99, 13, 5, -7, 21, 3];
    let mut v = xs.clone();
    let mut sorted_v = vec![];
    for i in 0..xs.len() {
        sorted_v.push(get_from_sorted_mut(&mut v, i));
    }
    let mut expected = xs.clone();
    expected.sort();
    assert_eq!(sorted_v, expected);
}

#[test]
fn sorted_unique_orders_and_drops_repeats() {
    assert_eq!(sorted_unique(&[3, 1, 3, 0, 1]), vec![0, 1, 3]);
    assert_eq!(sorted_unique(&[]), Vec::<usize>::new());
    assert_eq!(sorted_unique(&[2, 2, 2]), vec![2]);
}

#[test]
fn many_ranks_all_of_them() {
    let xs: Vec<i64> = vec![8, -2, 14, 3, 3, 0, 27, -9];
    let mut v = xs.clone();
    let indexes: Vec<usize> = (0..xs.len()).collect();
    let got: Vec<i64> = get_many_from_sorted_mut(&mut v, &indexes)
        .into_iter()
        .map(|x| x.1)
        .collect();
    let mut expected = xs.clone();
    expected.sort();
    assert_eq!(got, expected);
}

#[test]
fn many_ranks_with_repeats_in_any_order() {
    let xs: Vec<i64> = vec![50, 10, 40, 20, 30, 20];
    let mut expected = xs.clone();
    expected.sort();
    let mut v = xs.clone();
    let got = get_many_from_sorted_mut(&mut v, &[4, 0, 4, 2, 0]);
    let keys: Vec<usize> = got.keys().cloned().collect();
    assert_eq!(keys, vec![0, 2, 4]);
    assert_eq!(got.len(), 3);
    for k in keys {
        assert_eq!(got[&k], expected[k]);
    }
    let mut after = v.clone();
    after.sort();
    assert_eq!(after, expected);
}

#[test]
fn many_ranks_none_requested() {
    let mut v: Vec<i64> = vec![3, 2, 1];
    assert!(get_many_from_sorted_mut(&mut v, &[]).is_empty());
    let mut empty: Vec<i64> = vec![];
    assert!(get_many_from_sorted_mut_unchecked(&mut empty, &[]).is_empty());
}

#[test]
fn many_ranks_ascending_input() {
    let mut v: Vec<i64> = vec![9, 7, 5, 3, 1];
    let got = get_many_from_sorted_mut_unchecked(&mut v, &[1, 3, 4]);
    let pairs: Vec<(usize, i64)> = got.into_iter().collect();
    assert_eq!(pairs, vec![(1, 3), (3, 7), (4, 9)]);
}
