use array_vis_bench::batteries::{assert_merges, assert_partitions, assert_rotations, assert_sorts};
use array_vis_bench::rotations::{rotate, rotate_2};
use array_vis_bench::abi::NoOpLogger;

#[test]
fn sort_battery_passes_a_sort_and_names_the_first_failure() {
    let good = |mut v: Vec<usize>| {
        v.sort();
        v
    };
    assert!(assert_sorts(&good).is_ok());
    let none = |v: Vec<usize>| v;
    assert_eq!(assert_sorts(&none).unwrap_err(), "not sorted at n=2");
}

#[test]
fn partition_battery_checks_order_around_the_pivot() {
    let good = |mut v: Vec<usize>, p: usize| {
        let pivot = v[p];
        v.sort();
        let q = v.iter().position(|&x| x == pivot).unwrap();
        (v, q)
    };
    assert!(assert_partitions(&good).is_ok());
    let out_of_range = |v: Vec<usize>, _p: usize| (v, 500);
    assert_eq!(assert_partitions(&out_of_range).unwrap_err(), "pivot index 500 out of bounds at n=1");
    let untouched = |v: Vec<usize>, p: usize| (v, p);
    assert_eq!(assert_partitions(&untouched).unwrap_err(), "left of pivot not ≤ pivot at n=2");
    let last = |v: Vec<usize>, _p: usize| (v, 0);
    assert_eq!(assert_partitions(&last).unwrap_err(), "right of pivot not ≥ pivot at n=2");
}

#[test]
fn merge_battery_wants_the_sorted_permutation() {
    let good = |mut v: Vec<usize>, _m: usize| {
        v.sort();
        v
    };
    assert!(assert_merges(&good).is_ok());
    let none = |v: Vec<usize>, _m: usize| v;
    assert_eq!(
        assert_merges(&none).unwrap_err(),
        "merge did not produce a sorted permutation at n=33"
    );
}

#[test]
fn rotation_battery_accepts_rotate_and_names_where_rotate_2_strays() {
    let r1 = |mut v: Vec<usize>, m: usize| {
        if !v.is_empty() {
            let n = v.len();
            rotate(&mut v, m % n, &mut NoOpLogger);
        }
        v
    };
    assert!(assert_rotations(&r1).is_ok());
    let r2 = |mut v: Vec<usize>, m: usize| {
        if !v.is_empty() {
            rotate_2(&mut v, m, &mut NoOpLogger);
        }
        v
    };
    // the block-swap variant misplaces the tail whenever the split does not divide the length
    assert_eq!(assert_rotations(&r2).unwrap_err(), "rotation by 2 wrong at n=7");
    let none = |v: Vec<usize>, _m: usize| v;
    assert_eq!(assert_rotations(&none).unwrap_err(), "rotation by 1 wrong at n=2");
}
