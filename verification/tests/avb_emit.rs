use array_vis_bench::avb_emit::{ArrayBackend, EmitBackend, EntryCtx};

#[test]
fn entry_body_wraps_driver_with_inherited_consts_and_category() {
    let body = ArrayBackend::default()
        .entry_body(&EntryCtx {
            label: "shell[knuth]",
            category: Some("Sort"),
            adaptive: false,
            max_input: None,
        })
        .unwrap();
    // structural: registers into ALGORITHMS, inherits complexity from `Ty`
    assert!(body.contains("#[linkme::distributed_slice(avb_abi::ALGORITHMS)]"));
    assert!(body.contains("worst: <Ty as avb_abi::HasTimeBounds>::WORST"));
    assert!(body.contains("stable: <Ty as avb_abi::HasStability>::STABLE"));
    // catalog-supplied facets thread through verbatim
    assert!(body.contains("category: avb_abi::Category::Sort"));
    assert!(body.contains("max_input_size: None"));
    // the Sort driver body + the menu path for the category
    assert!(body.contains("run_sort_with_input"));
    assert!(body.contains(r#"register_sort_variant("shell[knuth]", &["sorts"], &[])"#));
}

#[test]
fn missing_category_defaults_to_sort_in_the_domain_not_the_compiler() {
    let body = ArrayBackend::default()
        .entry_body(&EntryCtx { label: "x", category: None, adaptive: true, max_input: Some(32) })
        .unwrap();
    assert!(body.contains("category: avb_abi::Category::Sort"));
    assert!(body.contains("adaptive: true"));
    assert!(body.contains("max_input_size: Some(32)"));
}

#[test]
fn non_sort_categories_select_their_driver_and_menu() {
    let be = ArrayBackend::default();
    let part = be
        .entry_body(&EntryCtx { label: "partition[lomuto]", category: Some("Partition"), adaptive: false, max_input: None })
        .unwrap();
    assert!(part.contains("run_partition_with_input"));
    assert!(part.contains(r#"&["partitions"]"#));

    let mrg = be
        .entry_body(&EntryCtx { label: "merge-op[two-finger]", category: Some("Merge"), adaptive: false, max_input: None })
        .unwrap();
    assert!(mrg.contains("run_merge_with_input"));
    assert!(mrg.contains(r#"&["merges"]"#));

    let rot = be
        .entry_body(&EntryCtx { label: "rotation[reversal]", category: Some("Rotation"), adaptive: false, max_input: None })
        .unwrap();
    assert!(rot.contains("run_rotation_with_input"));
    assert!(rot.contains(r#"&["rotations"]"#));
}

#[test]
fn an_unmapped_category_is_the_backends_error_not_the_compilers() {
    let err = ArrayBackend::default()
        .entry_body(&EntryCtx { label: "x", category: Some("Galaxy"), adaptive: false, max_input: None })
        .unwrap_err();
    assert!(err.contains("no emit driver for category `Galaxy`"));
}
