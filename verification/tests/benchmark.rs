use std::time::Duration;

use array_vis_bench::benchmark::{
    convert_sort_name_to_choice, generate_fast_int_array, generate_variable_cost_array, get_duplicate_heavy_arr,
    get_seesaw_arr, slow_compare_payload, swap_random_pairs, zero_pad, AdaptiveBenchmarkResults, AdaptiveRun, BenchmarkMetrics, BenchmarkResult, DataTypeBenchmarkResults,
    DataTypeCategory, DistributionBenchmarkResults, DistributionPattern, FastInt, SortLog, VariableCost,
};

#[test]
fn seesaw_alternates_ends() {
    assert_eq!(get_seesaw_arr(1), vec![0]);
    assert_eq!(get_seesaw_arr(5), vec![0, 4, 1, 3, 2]);
    assert_eq!(get_seesaw_arr(6), vec![0, 5, 1, 4, 2, 3]);
}

#[test]
fn pattern_and_category_names() {
    let names: Vec<&str> = DistributionPattern::standard_patterns().iter().map(|p| p.name()).collect();
    assert_eq!(
        names,
        vec!["Random", "Ascending", "Descending", "Seesaw", "Partially Sorted", "Duplicate Heavy", "Nearly Sorted"]
    );
    assert_eq!(DistributionPattern::standard_patterns()[4], DistributionPattern::PartiallySorted(80));
    let cats = DataTypeCategory::standard_categories();
    assert_eq!(cats.len(), 5);
    assert_eq!(cats[4].name(), "Variable Cost (String)");
    assert_eq!(DataTypeCategory::FastSmall.name(), "Fast Small (u8)");
}

#[test]
fn metrics_count_the_log() {
    let logs = vec![
        SortLog::Mark,
        SortLog::CmpInArr,
        SortLog::CmpData,
        SortLog::Swap,
        SortLog::CreateAuxArr { length: 4 },
        SortLog::WriteInArr,
        SortLog::CreateAuxArrT { length: 2 },
        SortLog::FreeAuxArr,
        SortLog::CmpAcrossArrs,
    ];
    let m = BenchmarkMetrics::from_logs(&logs, Duration::from_millis(3));
    let w = std::mem::size_of::<usize>();
    assert_eq!(m.comparisons, 3);
    assert_eq!(m.swaps, 1);
    assert_eq!(m.auxiliary_allocations, 2);
    assert_eq!(m.auxiliary_deallocations, 1);
    assert_eq!(m.auxiliary_memory_bytes, 6 * w);
    assert_eq!(m.peak_memory_bytes, 6 * w);
    assert_eq!(m.duration, Duration::from_millis(3));
    let d = BenchmarkMetrics::default();
    assert_eq!(d.comparisons + d.swaps + d.peak_memory_bytes, 0);
}

#[test]
fn results_and_summary() {
    let ok = BenchmarkResult::success("quick".to_string(), 100, BenchmarkMetrics::default());
    let bad = BenchmarkResult::failure("quick".to_string(), 150, "too slow".to_string());
    assert!(ok.success && ok.error.is_none());
    assert!(!bad.success);
    assert_eq!(bad.error.as_deref(), Some("too slow"));
    let r = AdaptiveBenchmarkResults {
        sort_name: "quick".to_string(),
        results: vec![ok, bad],
        max_successful_size: Some(100),
        first_failure_size: Some(150),
    };
    assert_eq!(r.summary(), "Sort: quick, Max Size: 100, First Failure: 150, Successful Runs: 1/2");
    let none = AdaptiveBenchmarkResults {
        sort_name: "x".to_string(),
        results: vec![],
        max_successful_size: None,
        first_failure_size: None,
    };
    assert_eq!(none.summary(), "Sort: x, Max Size: 0, First Failure: 0, Successful Runs: 0/0");
}

#[test]
fn recording_results_replaces_per_key() {
    let mut d = DistributionBenchmarkResults::new();
    d.add_pattern_results(DistributionPattern::Seesaw, vec![]);
    d.add_pattern_results(
        DistributionPattern::Random,
        vec![BenchmarkResult::failure("a".to_string(), 1, "e".to_string())],
    );
    d.add_pattern_results(DistributionPattern::Seesaw, vec![BenchmarkResult::success(
        "b".to_string(),
        2,
        BenchmarkMetrics::default(),
    )]);
    assert_eq!(d.pattern_results.len(), 2);
    let seesaw = d.pattern_results.iter().find(|(p, _)| *p == DistributionPattern::Seesaw).unwrap();
    assert_eq!(seesaw.1.len(), 1);
    assert_eq!(seesaw.1[0].sort_name, "b");
    let mut c = DataTypeBenchmarkResults::new();
    c.add_category_results(DataTypeCategory::FastLarge, vec![]);
    c.add_category_results(DataTypeCategory::FastLarge, vec![]);
    assert_eq!(c.category_results.len(), 1);
}

#[test]
fn sort_names_map_to_menu_paths() {
    assert_eq!(convert_sort_name_to_choice("my quick sort"), vec!["quick_sorts", "quick_sort_left_right_pointers_static_pivot"]);
    assert_eq!(convert_sort_name_to_choice("bubble merge"), vec!["bubble_sorts", "bubble_sort"]);
    assert_eq!(convert_sort_name_to_choice("stooge"), vec!["fun_sorts", "stooge_sort"]);
    assert_eq!(convert_sort_name_to_choice("radix"), vec!["bubble_sorts", "bubble_sort"]);
}

#[test]
fn element_generators() {
    assert_eq!(zero_pad(7, 3), "007");
    assert_eq!(zero_pad(1234, 2), "1234");
    assert_eq!(zero_pad(0, 1), "0");
    let v = generate_variable_cost_array(30);
    assert_eq!(v.len(), 30);
    for (i, VariableCost(s)) in v.iter().enumerate() {
        assert!(s.len() >= 1 && s.len() <= 20.max(i.to_string().len()));
        assert_eq!(s.parse::<usize>().unwrap(), i);
    }
    assert_eq!(generate_fast_int_array(17).len(), 17);
    assert!(FastInt(3) < FastInt(9));
    assert!(VariableCost("010".to_string()) < VariableCost("10".to_string()));
}

#[test]
fn random_swaps_keep_the_entries() {
    let input: Vec<usize> = (0..50).collect();
    let mut out = swap_random_pairs(input.clone(), 200);
    assert_eq!(out.len(), 50);
    out.sort();
    assert_eq!(out, input);
    assert_eq!(swap_random_pairs(vec![3, 1, 2], 0), vec![3, 1, 2]);
    assert_eq!(swap_random_pairs(Vec::new(), 0), Vec::<usize>::new());
}

#[test]
fn duplicate_heavy_values_stay_below_the_bound() {
    let arr = get_duplicate_heavy_arr(500, 4);
    assert_eq!(arr.len(), 500);
    assert!(arr.iter().all(|&v| v < 4));
    assert_eq!(get_duplicate_heavy_arr(7, 1), vec![0; 7]);
    assert!(get_duplicate_heavy_arr(0, 0).is_empty());
}

#[test]
fn slow_compare_payload_bytes_and_checksum() {
    let (bytes, sum) = slow_compare_payload(0);
    assert_eq!(bytes.len(), 64);
    assert_eq!(bytes[0], 0);
    assert_eq!(bytes[63], 63);
    assert_eq!(sum, (0..64u64).sum::<u64>());
    let (bytes, sum) = slow_compare_payload(250);
    assert_eq!(bytes[0], 250);
    assert_eq!(bytes[5], 255);
    assert_eq!(bytes[6], 0);
    assert_eq!(sum, (250..314u64).map(|x| x % 256).sum::<u64>());
}

#[test]
fn adaptive_run_grows_until_the_first_failure() {
    let mut run = AdaptiveRun::start("quick".to_string(), 10, 100);
    assert_eq!(run.next_size(), Some(10));
    run.record(Ok(BenchmarkResult::success("quick".to_string(), 10, BenchmarkMetrics::default())), 15);
    assert_eq!(run.next_size(), Some(15));
    run.record(Ok(BenchmarkResult::success("quick".to_string(), 15, BenchmarkMetrics::default())), 22);
    assert_eq!(run.next_size(), Some(22));
    run.record(Ok(BenchmarkResult::failure("quick".to_string(), 22, "too slow".to_string())), 33);
    assert_eq!(run.next_size(), None);
    let r = run.finish();
    assert_eq!(r.results.len(), 3);
    assert_eq!(r.max_successful_size, Some(15));
    assert_eq!(r.first_failure_size, Some(22));
}

#[test]
fn adaptive_run_caps_at_the_largest_size_and_stops_there() {
    let mut run = AdaptiveRun::start("heap".to_string(), 60, 100);
    run.record(Ok(BenchmarkResult::success("heap".to_string(), 60, BenchmarkMetrics::default())), 90);
    assert_eq!(run.next_size(), Some(90));
    run.record(Ok(BenchmarkResult::success("heap".to_string(), 90, BenchmarkMetrics::default())), 135);
    assert_eq!(run.next_size(), Some(100));
    run.record(Ok(BenchmarkResult::success("heap".to_string(), 100, BenchmarkMetrics::default())), 150);
    assert_eq!(run.next_size(), None);
    let r = run.finish();
    assert_eq!(r.max_successful_size, Some(100));
    assert_eq!(r.first_failure_size, None);
    assert_eq!(r.results.len(), 3);
}

#[test]
fn adaptive_run_error_records_a_failure() {
    let mut run = AdaptiveRun::start("shell".to_string(), 5, 50);
    run.record(Err("crashed".to_string()), 7);
    assert_eq!(run.next_size(), None);
    let r = run.finish();
    assert_eq!(r.results.len(), 1);
    assert_eq!(r.results[0].sort_name, "shell");
    assert_eq!(r.results[0].array_size, 5);
    assert!(!r.results[0].success);
    assert_eq!(r.results[0].error, Some("crashed".to_string()));
    assert_eq!(r.first_failure_size, Some(5));
    assert_eq!(r.max_successful_size, None);
    let empty = AdaptiveRun::start("x".to_string(), 200, 100);
    assert_eq!(empty.next_size(), None);
}
