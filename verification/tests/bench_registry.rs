use array_vis_bench::bench_registry::{
    check_cases, check_sort, check_sort_stable, check_stable_output, correctness_battery, get_arr,
    get_rand_arr, get_rand_arr_in_range, get_reversed_arr, max_n_for_tests, permutations, CheckCase,
};
use array_vis_bench::sorting::{hand_heapsort, hand_insertion_sort, hand_mergesort, hand_quicksort};

fn by_u64(f: fn(&mut [u64])) -> impl Fn(Vec<usize>) -> Vec<usize> {
    move |v: Vec<usize>| {
        let mut a: Vec<u64> = v.iter().map(|&x| x as u64).collect();
        f(&mut a);
        a.into_iter().map(|x| x as usize).collect()
    }
}

/// The library's sorts, with whether each keeps equal keys in order.
fn registered() -> Vec<(&'static str, bool, fn(&mut [u64]))> {
    vec![
        ("insertion sort", true, hand_insertion_sort),
        ("merge sort", true, hand_mergesort),
        ("quick sort", false, hand_quicksort),
        ("heap sort", false, hand_heapsort),
    ]
}

#[test]
fn all_stable_sorts_are_stable() {
    for (name, stable, run) in registered() {
        check_sort_stable(name, stable, &by_u64(run)).unwrap();
    }
}

#[test]
fn every_library_sort_passes_the_battery() {
    for (name, _, run) in registered() {
        check_sort(name, None, &by_u64(run)).unwrap();
    }
}

#[test]
fn caps_are_looked_up_by_name_first_declaration_wins() {
    let caps = [("bad heap sort", 1000usize), ("stooge", 50), ("bad heap sort", 7)];
    assert_eq!(max_n_for_tests(&caps, "bad heap sort"), Some(1000));
    assert_eq!(max_n_for_tests(&caps, "stooge"), Some(50));
    assert_eq!(max_n_for_tests(&caps, "merge sort"), None);
    assert_eq!(max_n_for_tests(&[], "merge sort"), None);
}

#[test]
fn permutations_cover_every_arrangement_once() {
    let ps = permutations(&[0, 1, 2, 3]);
    assert_eq!(ps.len(), 24);
    let mut sorted = ps.clone();
    sorted.sort();
    sorted.dedup();
    assert_eq!(sorted.len(), 24);
    assert_eq!(permutations(&[]).len(), 1);
    assert_eq!(permutations(&[9]), vec![vec![9]]);
}

#[test]
fn battery_has_the_documented_shape() {
    let b = correctness_battery();
    assert_eq!(b.len(), 189);
    assert_eq!(b[0].label, "empty");
    assert!(b[0].input.is_empty());
    assert_eq!(b[3].label, "reversed pair");
    assert_eq!(b[3].input, vec![2, 1]);
    assert_eq!(b[5].label, "perm(n=0)");
    assert_eq!(b[158].label, "perm(n=5)");
    assert_eq!(b[159].label, "sorted 16");
    assert_eq!(b[159].input, get_arr(16));
    assert_eq!(b[160].label, "reversed 16");
    assert_eq!(b[160].input, get_reversed_arr(16));
    assert_eq!(b[173].label, "all-same 128");
    assert_eq!(b[173].input, vec![42; 128]);
    assert_eq!(b[175].label, "pipe organ 199");
    assert_eq!(b[175].input[99], 99);
    assert_eq!(b[175].input[100], 98);
    assert_eq!(b[178].label, "sorted + reversed tail 500");
    assert_eq!(b[178].input[400], 499);
    assert!(b[180].input.iter().all(|&x| x < 2));
    assert_eq!(b[188].label, "random 5000");
    assert_eq!(b[188].input.len(), 5000);
}

#[test]
fn a_broken_sort_fails_with_the_case_label() {
    let reverse = |mut v: Vec<usize>| {
        v.sort();
        v.reverse();
        v
    };
    let err = check_sort("backwards", None, &reverse).unwrap_err();
    assert_eq!(err, "backwards: failed on 'sorted pair' (n=2)");
}

#[test]
fn cap_skips_longer_inputs() {
    let cases = vec![
        CheckCase { label: "short".to_string(), input: vec![3, 1, 2] },
        CheckCase { label: "long".to_string(), input: (0..50).rev().collect() },
    ];
    // A sort that only handles three elements passes when longer inputs are capped out.
    let small_only = |mut v: Vec<usize>| {
        if v.len() <= 3 {
            v.sort();
        }
        v
    };
    assert!(check_cases("small", &cases, 3, &small_only).is_ok());
    assert_eq!(
        check_cases("small", &cases, 100, &small_only).unwrap_err(),
        "small: failed on 'long' (n=50)"
    );
}

#[test]
fn stability_violations_are_reported_at_their_position() {
    let enc = |v: usize, i: usize| (v << 32) | i;
    assert!(check_stable_output("s", "ok", &vec![enc(0, 1), enc(0, 4), enc(2, 0)]).is_ok());
    assert_eq!(
        check_stable_output("s", "case", &vec![enc(1, 0), enc(0, 1)]).unwrap_err(),
        "s: stability 'case' — not sorted at position 1"
    );
    assert_eq!(
        check_stable_output("s", "case", &vec![enc(0, 0), enc(3, 5), enc(3, 2)]).unwrap_err(),
        "s: stability 'case' — order violated at position 2 (value=3, indices 5 then 2)"
    );
    // A sort that claims no stability is not checked.
    let reverse = |mut v: Vec<usize>| {
        v.reverse();
        v
    };
    assert!(check_sort_stable("r", false, &reverse).is_ok());
    assert!(check_sort_stable("r", true, &reverse).is_err());
}

#[test]
fn random_generators_stay_in_range() {
    let v = get_rand_arr_in_range(300, 5, 9);
    assert_eq!(v.len(), 300);
    assert!(v.iter().all(|&x| (5..9).contains(&x)));
    let w = get_rand_arr(40);
    assert!(w.iter().all(|&x| x < 40));
    assert!(get_rand_arr(0).is_empty());
}

#[test]
fn quick_cases_are_the_small_labelled_inputs() {
    let cases = array_vis_bench::bench_registry::quick_cases();
    let labels: Vec<&str> = cases.iter().map(|c| c.label.as_str()).collect();
    assert_eq!(
        labels,
        vec![
            "empty",
            "single",
            "reversed pair",
            "sorted pair",
            "reversed 32",
            "sorted 32",
            "all-same 32",
            "alternating 33",
            "reversed 100"
        ]
    );
    assert_eq!(cases[7].input[..5], [0, 32, 2, 30, 4]);
    assert_eq!(cases[6].input, vec![5; 32]);
    assert_eq!(cases[8].input[0], 99);
}

#[test]
fn sorts_each_flags_the_cases_a_sort_gets_wrong() {
    let cases = array_vis_bench::bench_registry::quick_cases();
    let good = |mut v: Vec<usize>| {
        v.sort();
        v
    };
    assert!(array_vis_bench::bench_registry::sorts_each(&cases, &good).iter().all(|&b| b));
    // A "sort" that only fixes the first two entries fails from the 32-long inputs on,
    // except where the input is already sorted.
    let partial = |mut v: Vec<usize>| {
        if v.len() >= 2 && v[0] > v[1] {
            v.swap(0, 1);
        }
        v
    };
    let r = array_vis_bench::bench_registry::sorts_each(&cases, &partial);
    assert_eq!(r, vec![true, true, true, true, false, true, true, false, false]);
}

#[test]
fn structured_inputs_run_whatever_the_cap() {
    // Sorts everything except inputs of exactly 16 elements.
    let flawed = |mut v: Vec<usize>| {
        if v.len() != 16 {
            v.sort();
        }
        v
    };
    assert_eq!(
        check_sort("flawed", Some(10), &flawed).unwrap_err(),
        "flawed: failed on 'reversed 16' (n=16)"
    );
    // Random inputs above the cap are skipped: a sort that fails only on
    // 5000 elements passes under a cap of 1000.
    let big_flaw = |mut v: Vec<usize>| {
        if v.len() != 5000 {
            v.sort();
        }
        v
    };
    assert!(check_sort("big", Some(1000), &big_flaw).is_ok());
}
