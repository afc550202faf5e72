use ndarray_stats::interpolate::{
    linear, linear_exact, midpoint, Fraction, split_index, under_half, Higher, Interpolate, Linear, Lower, Midpoint,
    Nearest, QuantileLevel,
};

fn level(num: i64, den: i64) -> QuantileLevel {
    QuantileLevel::new(num, den)
}

#[test]
fn level_validity() {
    assert!(level(0, 1).in_unit_interval());
    assert!(level(1, 1).in_unit_interval());
    assert!(level(9, 10).in_unit_interval());
    assert!(!level(11, 10).in_unit_interval());
    assert!(!level(-1, 10).in_unit_interval());
    assert!(!level(0, 0).in_unit_interval());
    assert!(!level(1, -2).in_unit_interval());
}

#[test]
fn level_order_is_that_of_the_numbers() {
    assert!(level(1, 10).is_below(&level(1, 2)));
    assert!(!level(1, 2).is_below(&level(1, 10)));
    assert!(!level(1, 2).is_below(&level(2, 4)));
    assert!(!level(2, 4).is_below(&level(1, 2)));
    assert!(level(i64::MAX - 1, i64::MAX).is_below(&level(1, 1)));
}

#[test]
fn indexes_of_a_fractional_position() {
    // 0.9 * 3 = 2.7
    let q = level(9, 10);
    assert_eq!(split_index(q, 4), (2, 7));
    assert_eq!(<Linear as Interpolate>::lower_index(q, 4), 2);
    assert_eq!(<Linear as Interpolate>::higher_index(q, 4), 3);
    assert_eq!(<Linear as Interpolate>::float_quantile_index_fraction(q, 4), 7);
}

#[test]
fn indexes_of_a_whole_position() {
    // 0.5 * 2 = 1
    let q = level(1, 2);
    assert_eq!(<Lower as Interpolate>::lower_index(q, 3), 1);
    assert_eq!(<Higher as Interpolate>::higher_index(q, 3), 1);
    assert_eq!(<Nearest as Interpolate>::float_quantile_index_fraction(q, 3), 0);
}

#[test]
fn indexes_at_the_ends() {
    for len in [1usize, 2, 5, 1000] {
        assert_eq!(<Lower as Interpolate>::lower_index(level(0, 7), len), 0);
        assert_eq!(<Lower as Interpolate>::higher_index(level(0, 7), len), 0);
        assert_eq!(<Lower as Interpolate>::lower_index(level(7, 7), len), len - 1);
        assert_eq!(<Lower as Interpolate>::higher_index(level(7, 7), len), len - 1);
    }
}

#[test]
fn indexes_with_large_numbers() {
    let q = level(i64::MAX - 1, i64::MAX);
    let len = usize::MAX;
    let lower = <Lower as Interpolate>::lower_index(q, len);
    let higher = <Lower as Interpolate>::higher_index(q, len);
    assert!(lower < len);
    assert!(higher < len);
    assert!(lower <= higher);
}

#[test]
fn which_order_statistics_are_needed() {
    let q = level(9, 10);
    assert!(!<Higher as Interpolate>::needs_lower(q, 4));
    assert!(<Higher as Interpolate>::needs_higher(q, 4));
    assert!(<Lower as Interpolate>::needs_lower(q, 4));
    assert!(!<Lower as Interpolate>::needs_higher(q, 4));
    assert!(<Midpoint as Interpolate>::needs_lower(q, 4));
    assert!(<Midpoint as Interpolate>::needs_higher(q, 4));
    assert!(<Linear as Interpolate>::needs_lower(q, 4));
    assert!(<Linear as Interpolate>::needs_higher(q, 4));
    // fractional part 0.7
    assert!(!<Nearest as Interpolate>::needs_lower(q, 4));
    assert!(<Nearest as Interpolate>::needs_higher(q, 4));
    // 0.1 * 3 = 0.3
    assert!(<Nearest as Interpolate>::needs_lower(level(1, 10), 4));
    assert!(!<Nearest as Interpolate>::needs_higher(level(1, 10), 4));
}

#[test]
fn nearest_takes_the_higher_at_one_half() {
    // 0.5 * 3 = 1.5
    let q = level(1, 2);
    assert!(!under_half(q, 4));
    assert!(<Nearest as Interpolate>::needs_higher(q, 4));
    assert_eq!(<Nearest as Interpolate>::interpolate(None, Some(30), q, 4), 30);
    assert!(under_half(level(49, 100), 2));
}

#[test]
fn interpolate_by_each_strategy() {
    // 0.25 * 3 = 0.75
    let q = level(1, 4);
    assert_eq!(<Lower as Interpolate>::interpolate(Some(10), None, q, 4), 10);
    assert_eq!(<Higher as Interpolate>::interpolate(None, Some(20), q, 4), 20);
    assert_eq!(<Nearest as Interpolate>::interpolate(None, Some(20), q, 4), 20);
    assert_eq!(<Midpoint as Interpolate>::interpolate(Some(10), Some(20), q, 4), 15);
    assert_eq!(<Linear as Interpolate>::interpolate(Some(10), Some(20), q, 4), 17);
    assert_eq!(<Linear as Interpolate>::interpolate(Some(100), Some(200), q, 4), 175);
}

#[test]
fn midpoint_rounds_toward_zero() {
    assert_eq!(midpoint(2, 3), 2);
    assert_eq!(midpoint(-2, -3), -2);
    assert_eq!(midpoint(-3, 2), 0);
    assert_eq!(midpoint(i64::MAX, i64::MAX), i64::MAX);
    assert_eq!(midpoint(i64::MIN, i64::MIN), i64::MIN);
    assert_eq!(midpoint(i64::MIN, i64::MAX), 0);
}

#[test]
fn linear_steps_toward_the_second_value() {
    assert_eq!(linear(2, 3, 1, 2), 2);
    assert_eq!(linear(20, 30, 1, 2), 25);
    assert_eq!(linear(30, 20, 1, 4), 28);
    assert_eq!(linear(3, 2, 1, 2), 3);
    assert_eq!(linear(-10, 10, 3, 4), 5);
    assert_eq!(linear(5, 9, 0, 3), 5);
    assert_eq!(linear(i64::MIN, i64::MAX, 1, 2), -1);
    assert_eq!(linear(i64::MAX, i64::MIN, i64::MAX - 1, i64::MAX), i64::MIN + 3);
}

#[test]
fn linear_exact_keeps_the_fraction() {
    assert_eq!(linear_exact(2, 3, 1, 2), Fraction { num: 5, den: 2 });
    assert_eq!(linear_exact(3, 2, 1, 4), Fraction { num: 11, den: 4 });
    assert_eq!(linear_exact(-10, 10, 3, 4), Fraction { num: 20, den: 4 });
    assert_eq!(linear_exact(5, 9, 0, 3), Fraction { num: 15, den: 3 });
    let big = linear_exact(i64::MIN, i64::MIN, i64::MAX - 1, i64::MAX);
    assert_eq!(big.num, (i64::MIN as i128) * (i64::MAX as i128));
}
