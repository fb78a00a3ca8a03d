use statistics::stats::{internal_unsorted_mode, list_sum, median_values, mode, sort_list, StatsError};

#[test]
fn mean_3_elements() {
    let v = vec![1, 3, 8];
    let mean = list_sum(&v) as f32 / v.len() as f32;
    assert_eq!(mean, 4.0);
}

#[test]
fn median_3_elements() {
    let mut v = vec![1, 3, 8];
    let (lo, hi) = median_values(&mut v);
    let median = if v.len() % 2 == 0 {
        (lo as f32 + hi as f32) / 2.0
    } else {
        lo as f32
    };
    assert_eq!(median, 3.0);
}

#[test]
fn median_2_elements() {
    let mut v = vec![1, 4];
    let (lo, hi) = median_values(&mut v);
    let median = if v.len() % 2 == 0 {
        (lo as f32 + hi as f32) / 2.0
    } else {
        lo as f32
    };
    assert_eq!(median, 2.5);
}

#[test]
fn mode_sorted_panic() {
    assert_eq!(mode(&vec![1, 4, 4, 3, 3, 4], true), Err(StatsError::NotSorted));
}

#[test]
fn mode_sorted() {
    assert_eq!(mode(&vec![1, 3, 3, 3, 4, 4], true), Ok(3));
}

#[test]
fn mode_unsorted() {
    assert_eq!(mode(&vec![1, 4, 4, 3, 3, 4], false), Ok(4));
}

#[test]
fn mode_single_element() {
    assert_eq!(mode(&vec![7], true), Ok(7));
    assert_eq!(mode(&vec![7], false), Ok(7));
}

#[test]
fn mode_strategies_agree_on_sorted_unique() {
    let v = vec![1, 3, 3, 3, 4, 4];
    assert_eq!(mode(&v, true).unwrap(), internal_unsorted_mode(&v));
}

#[test]
fn mode_sorted_first_run_quirk() {
    // The run counter restarts at 0 after the first run, so the first run
    // competes with its full length and wins against a later run that is
    // only one element longer.
    assert_eq!(mode(&vec![1, 1, 2, 2, 2], true), Ok(1));
    assert_eq!(mode(&vec![1, 1, 2, 2, 2], false), Ok(2));
}

#[test]
fn unsorted_mode_direct() {
    assert_eq!(internal_unsorted_mode(&vec![1, 4, 4, 3, 3, 4]), 4);
    assert_eq!(internal_unsorted_mode(&vec![-5, -5, 9]), -5);
}

#[test]
fn median_is_permutation_invariant() {
    let mut a = vec![1, 3, 8];
    let mut b = vec![8, 1, 3];
    assert_eq!(median_values(&mut a), median_values(&mut b));
    assert_eq!(a, b);
}

#[test]
fn median_sorts_in_place() {
    let mut v = vec![30, 10, 1, 15];
    let (lo, hi) = median_values(&mut v);
    assert_eq!(v, vec![1, 10, 15, 30]);
    assert_eq!((lo, hi), (10, 15));
}

#[test]
fn mean_is_permutation_invariant() {
    let a = vec![2, -7, 40, 40];
    let b = vec![40, 2, 40, -7];
    assert_eq!(list_sum(&a), list_sum(&b));
    let mean_a = list_sum(&a) as f32 / a.len() as f32;
    let mean_b = list_sum(&b) as f32 / b.len() as f32;
    assert_eq!(mean_a, mean_b);
}

#[test]
fn sum_of_values() {
    assert_eq!(list_sum(&vec![]), 0);
    assert_eq!(list_sum(&vec![1, 3, 8]), 12);
    assert_eq!(list_sum(&vec![i32::MIN, i32::MIN, i32::MAX]), -2147483649);
}

#[test]
fn sort_list_orders_and_keeps_elements() {
    let mut v = vec![10, 1, 15, 30, 15, 15, 10, 3];
    sort_list(&mut v);
    assert_eq!(v, vec![1, 3, 10, 10, 15, 15, 15, 30]);
}

#[test]
fn median_single_element() {
    let mut v = vec![42];
    assert_eq!(median_values(&mut v), (42, 42));
}
