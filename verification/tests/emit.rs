use array_vis_bench::emit::{AbiPaths, ArrayBackend, EmitBackend, EntryCtx};
use array_vis_bench::resolve::AxisNode;

fn sort_body(label: &str) -> String {
    // A slot-less variant: its template equals its label (no holes).
    ArrayBackend::default()
        .entry_body(&EntryCtx { label, category: Some("Sort"), adaptive: false, nondeterministic: false, max_input: None, axes: &[], menu: &[], label_template: label })
        .unwrap()
}

#[test]
fn dispatches_through_the_inherent_method_not_sortalgo() {
    let b = sort_body("shell sort<sequence: ciura>");
    // both adapters call the inherent `<Ty>::sort` …
    assert_eq!(b.matches("<Ty>::sort(arr, logger);").count(), 2, "expected a noop + a dyn adapter");
    // … and crucially NOT the legacy SortAlgo trait (Sized U won't take dyn).
    assert!(!b.contains("SortAlgo"), "must not route through the legacy SortAlgo trait");
}

#[test]
fn emits_two_distinct_adapters() {
    let b = sort_body("x");
    assert!(b.contains("fn sort_noop(arr: &mut [usize], logger: &mut sort_logger::NoOpLogger)"));
    assert!(b.contains("fn sort_dyn(arr: &mut [usize], logger: &mut dyn sort_logger::SortLogger<usize>)"));
}

#[test]
fn vis_path_uses_run_sort_with_input_with_the_dyn_adapter() {
    let b = sort_body("x");
    assert!(b.contains("array_vis_bench_core::bench_registry::run_sort_with_input(input_name, config, sort_dyn, logger);"));
}

#[test]
fn correctness_path_uses_the_real_batteries_with_the_noop_adapter() {
    let b = sort_body("x");
    assert!(b.contains("array_vis_bench_core::bench_registry::correctness::sort_battery(sort_noop, NAME);"));
    assert!(b.contains("correctness::sort_stability_battery(sort_noop, NAME, <Ty as array_vis_bench_traits::composable::HasStability>::STABLE)"));
    // the stub's invented assert_sorts must be gone.
    assert!(!b.contains("assert_sorts"));
}

#[test]
fn registers_into_real_algorithms_with_inherited_complexity() {
    let b = sort_body("x");
    assert!(b.contains("#[linkme::distributed_slice(array_vis_bench_core::bench_registry::ALGORITHMS)]"));
    assert!(b.contains("static ENTRY: array_vis_bench_core::bench_registry::AlgorithmEntry"));
    assert!(b.contains("worst: <Ty as array_vis_bench_traits::composable::HasTimeBounds>::WORST,"));
    assert!(b.contains("space: <Ty as array_vis_bench_traits::composable::HasSpace>::SPACE,"));
    assert!(b.contains("category: array_vis_bench_core::bench_registry::Category::Sort,"));
}

#[test]
fn menu_registration_targets_sort_registry_core() {
    // The flat default: no catalog `menu`, no slots → register at the
    // "sorts" root with no facets (same as before menu/axes existed).
    let b = sort_body("shell sort<sequence: knuth>");
    assert!(b.contains(
        r#"sort_registry_core::register_sort_variant_structured(NAME, &["sorts"], &[], "shell sort<sequence: knuth>")"#
    ));
    assert!(b.contains(r#"const NAME: &str = "shell sort<sequence: knuth>";"#));
}

#[test]
fn menu_path_and_axes_emit_for_faceted_navigation() {
    // A catalog `menu` sub-path nests the entry under the "sorts" root, and
    // each resolved top-level slot becomes a faceted (role, value) axis.
    let b = ArrayBackend::default()
        .entry_body(&EntryCtx {
            label: "spec::quick sort<part: left-left, pivot: first>",
            category: Some("Sort"),
            adaptive: false,
            nondeterministic: false,
            max_input: None,
            axes: &[
                AxisNode { role: "Partition".into(), value: "left-left".into(), path: "partition".into() },
                AxisNode { role: "Pivot".into(), value: "first".into(), path: "pivot".into() },
            ],
            menu: &["spec".to_string(), "quick sorts".to_string()],
            label_template: "spec::quick sort<part: {Partition}, pivot: {Pivot}>",
        })
        .unwrap();
    assert!(b.contains(r#"register_sort_variant_structured(NAME, &["sorts", "spec", "quick sorts"], &["#));
    assert!(b.contains(r#"("Partition", "left-left", "partition")"#));
    assert!(b.contains(r#"("Pivot", "first", "pivot")"#));
    // The role-tagged template is registered verbatim so the picker can
    // render the partial type in the catalog's label syntax.
    assert!(b.contains(r#""spec::quick sort<part: {Partition}, pivot: {Pivot}>")"#));
}

#[test]
fn catalog_facets_thread_through() {
    let b = ArrayBackend::default()
        .entry_body(&EntryCtx { label: "x", category: None, adaptive: true, nondeterministic: false, max_input: Some(32), axes: &[], menu: &[], label_template: "x" })
        .unwrap();
    // category=None defaults to Sort in the backend, not the compiler.
    assert!(b.contains("category: array_vis_bench_core::bench_registry::Category::Sort,"));
    assert!(b.contains("adaptive: true,"));
    assert!(b.contains("max_input_size: Some(32),"));
}

#[test]
fn declared_max_input_also_caps_the_correctness_battery() {
    // A ceiling caps both the picker (`max_input_size`) AND the battery
    // (a `SORT_TEST_CAPS` static) — emitting only the former would leave a
    // bounded sort uncapped under test.
    let capped = ArrayBackend::default()
        .entry_body(&EntryCtx { label: "slow", category: Some("Sort"), adaptive: false, nondeterministic: false, max_input: Some(64), axes: &[], menu: &[], label_template: "slow" })
        .unwrap();
    assert!(capped.contains("max_input_size: Some(64),"));
    assert!(capped
        .contains("#[linkme::distributed_slice(array_vis_bench_core::bench_registry::SORT_TEST_CAPS)]"));
    assert!(capped.contains("static TEST_CAP: (&'static str, usize) = (NAME, 64);"));

    // No ceiling → no test cap registered (matches `sort_family!`).
    let uncapped = sort_body("fast");
    assert!(uncapped.contains("max_input_size: None,"));
    assert!(!uncapped.contains("SORT_TEST_CAPS"));
}

#[test]
fn nondeterministic_flag_registers_the_determinism_opt_out() {
    let nd = ArrayBackend::default()
        .entry_body(&EntryCtx { label: "random shell sort<uniform>", category: Some("Sort"), adaptive: false, nondeterministic: true, max_input: Some(1000), axes: &[], menu: &[], label_template: "random shell sort<uniform>" })
        .unwrap();
    assert!(nd.contains(
        "#[linkme::distributed_slice(array_vis_bench_core::bench_registry::NONDETERMINISTIC_ALGOS)]"
    ));
    assert!(nd.contains("static NONDET: &'static str = NAME;"));

    // A deterministic sort emits no opt-out.
    assert!(!sort_body("classic").contains("NONDETERMINISTIC_ALGOS"));
}

#[test]
fn non_sort_categories_are_not_wired_yet() {
    // QuickSelect is now wired (see `quick_select_*` tests); the remaining
    // kinds still error loudly until each gets a body + `CorrectnessSuite`.
    for cat in ["Partition", "Merge", "Rotation", "SmallSort"] {
        let err = ArrayBackend::default()
            .entry_body(&EntryCtx { label: "x", category: Some(cat), adaptive: false, nondeterministic: false, max_input: None, axes: &[], menu: &[], label_template: "x" })
            .unwrap_err();
        assert!(err.contains(&format!("category `{cat}`")));
    }
}

fn quick_select_body(label: &str) -> String {
    ArrayBackend::default()
        .entry_body(&EntryCtx { label, category: Some("QuickSelect"), adaptive: false, nondeterministic: false, max_input: None, axes: &[], menu: &["recursive".to_string()], label_template: label })
        .unwrap()
}

#[test]
fn quick_select_dispatches_through_the_role_trait_select() {
    let b = quick_select_body("quick select: recursive<left-left pointer, first>");
    // the dyn adapter calls the QuickSelect role trait with the clamped target …
    assert!(b.contains("<Ty as array_vis_bench_traits::QuickSelect>::select(arr, logger, t);"));
    assert!(b.contains("let t = target.min(arr.len() - 1);"));
    // … the vis path uses the quick-select runner …
    assert!(b.contains("array_vis_bench_core::bench_registry::run_quick_select_with_input(input_name, config, select_dyn, logger);"));
    // … and never the sort inherent method or sort battery.
    assert!(!b.contains("<Ty>::sort"));
    assert!(!b.contains("sort_battery"));
}

#[test]
fn quick_select_correctness_goes_through_the_suite_trait() {
    let b = quick_select_body("quick select: iterative<dual pivot, first / first>");
    assert!(b.contains(
        "<array_vis_bench_core::suites::SelectSuite<Ty> as array_vis_bench_core::suites::CorrectnessSuite>::verify(NAME);"
    ));
}

#[test]
fn quick_select_registers_with_the_quick_select_category_under_its_root() {
    let b = quick_select_body("quick select: recursive<block, ninther>");
    assert!(b.contains("category: array_vis_bench_core::bench_registry::Category::QuickSelect,"));
    // nests under the "quick selects" picker root + the driver's menu sub-path.
    assert!(b.contains(r#"register_sort_variant_structured(NAME, &["quick selects", "recursive"], "#));
    // complexity still inherited from the type.
    assert!(b.contains("worst: <Ty as array_vis_bench_traits::composable::HasTimeBounds>::WORST,"));
}

#[test]
fn abi_paths_are_configurable() {
    let backend = ArrayBackend {
        paths: AbiPaths { core: "c".into(), traits: "t".into(), nav: "n".into(), logger: "l".into(), suites: "s".into() },
    };
    let b = backend
        .entry_body(&EntryCtx { label: "x", category: Some("Sort"), adaptive: false, nondeterministic: false, max_input: None, axes: &[], menu: &[], label_template: "x" })
        .unwrap();
    assert!(b.contains("&mut l::NoOpLogger"));
    assert!(b.contains("c::run_sort_with_input"));
    assert!(b.contains("<Ty as t::composable::HasTimeBounds>::WORST"));
    assert!(b.contains("n::register_sort_variant"));
}
