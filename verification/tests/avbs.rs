use array_vis_bench::avbs::{
    lower, lower_program, parse, AArg, ADirective, AHole, AProgram, ATerm, AValue, ConsumerDecl,
    NamedSet,
};
use array_vis_bench::registry::Registry;
use array_vis_bench::resolve::resolve;
use array_vis_bench::solve::{solve, SolveOutput};
use array_vis_bench::spec_lang::{
    parse_query, Binding, QArg, QValue, Quant, Query, Refinement, DEFAULT_DEPTH,
};

const REG: &str = "# The sort catalog the tests run against: quick sorts over partitions,
# pivot selectors and small sorts; merge, shell, heap and recursive families.
component quick_sort
  type QuickSort<{partition}, {pivot}, {small_sort}>
  label quick[{partition}/{pivot}/{small_sort}]
  provides Sort
  uses crate::quick_sort_lib::quick_sort::QuickSort
  category Sort
  slot partition Partition
  slot pivot Pivot
  slot small_sort SmallSort
end

component LL_partition
  type LeftLeftPartition
  label LL
  provides Partition
  uses crate::partition_lomuto::LeftLeftPartition
  project pivot PivotSingle
end

component dual_pivot_partition
  type DualPivotPartition
  label dual
  provides Partition
  uses crate::quick_sort_lib::yaroslavskiy::DualPivotPartition
  project pivot PivotDual
end

component first_element
  type FirstElement
  label first
  provides Pivot PivotSingle
  uses crate::pivots::FirstElement
end

component middle_element
  type MiddleElement
  label mid
  provides Pivot PivotSingle
  uses crate::pivots::MiddleElement
end

component ninther_dual
  type NintherDualPivot
  label ninther
  provides Pivot PivotDual
  uses crate::quick_sort_lib::pivot_selectors::NintherDualPivot
end

component combined
  type CombinedSelector<{a}, {b}>
  label combined<{a},{b}>
  provides Pivot PivotDual
  uses crate::quick_sort_lib::pivot_selectors::CombinedSelector
  slot a PivotSingle
  slot b PivotSingle
end

component no_small_sort
  type NoSmallSort
  label none
  provides SmallSort
  uses crate::small_sorts::NoSmallSort
end

component insertion
  type InsertionSmallSort<{strategy}, {N}>
  label ins:{strategy}:{N}
  provides SmallSort
  uses crate::small_sort_insertion::InsertionSmallSort
  slot strategy InsertionStrategy linear
  const N 16
end

component linear
  type LinearInsertion
  label lin
  provides InsertionStrategy
  uses crate::small_sort_insertion_strategy::LinearInsertion
end

component binary
  type BinaryInsertion
  label bin
  provides InsertionStrategy
  uses crate::small_sort_insertion_strategy::BinaryInsertion
end

component top_down_merge
  type TopDownMergeSort<{small_sort}, {ping_pong}, {early_exit}>
  label merge[{small_sort}/pp={ping_pong}/ee={early_exit}]
  provides Sort
  uses crate::merge_sort_lib::top_down::TopDownMergeSort
  category Sort
  slot small_sort SmallSort no_small_sort
  const ping_pong false
  const early_exit true
end

component shell_sort
  type ShellSort<{seq}>
  label shell[{seq}]
  provides Sort
  uses crate::shell_sort_lib::shell_sort::ShellSort
  category Sort
  slot seq GapSequence classic
end

component classic
  type Classic
  label classic
  provides GapSequence
  uses crate::shell_sort_lib::sequences::Classic
end

component knuth
  type Knuth
  label knuth
  provides GapSequence
  uses crate::shell_sort_lib::sequences::Knuth
end

component ciura
  type Ciura
  label ciura
  provides GapSequence
  uses crate::shell_sort_lib::sequences::Ciura
end

component heap_sort
  type HeapSort<{arity}>
  label heap[d={arity}]
  provides Sort
  uses crate::heap_sort_lib::HeapSort
  category Sort
  const arity 2 values 2 3 4
end

component recursive_sort
  type RecursiveSort<{inner}>
  label rec[{inner}]
  provides RecSort
  uses crate::recursive_sort_lib::RecursiveSort
  slot inner RecSort
end

component leaf_sort
  type BaseCase
  label leaf
  provides RecSort
  uses crate::recursive_sort_lib::BaseCase
end
";

fn fixture() -> Registry {
    Registry::parse(REG).expect("registry parses")
}

fn type_exprs(out: &SolveOutput, reg: &Registry) -> Vec<String> {
    let mut v: Vec<String> = out.sorts.iter().map(|n| resolve(n, reg).unwrap().type_expr).collect();
    v.sort();
    v
}

fn ok(src: &str) {
    if let Err(e) = parse(src) {
        panic!("expected `{src}` to parse, got:\n{e}");
    }
}

fn err(src: &str) {
    assert!(parse(src).is_err(), "expected `{src}` to FAIL to parse");
}

/// Parse `x: T = <src>` and list the grammar constructs found under the value,
/// outermost first.
fn value_rules(src: &str) -> Vec<String> {
    let prog = format!("x: T = {src}");
    let p: AProgram = parse(&prog).unwrap_or_else(|e| panic!("`{src}` should parse:\n{e}"));
    let mut out = Vec::new();
    walk_value(&p.bindings[0].value, &mut out);
    out
}

fn walk_value(v: &AValue, out: &mut Vec<String>) {
    out.push("value".to_string());
    for t in &v.terms {
        walk_term(t, out);
    }
    if v.capture.is_some() {
        out.push("capture".to_string());
    }
    if let Some(alts) = &v.alts {
        out.push("where_clause".to_string());
        for a in alts {
            walk_value(a, out);
        }
    }
}

fn walk_term(t: &ATerm, out: &mut Vec<String>) {
    match t {
        ATerm::Hole(h) => {
            out.push("hole".to_string());
            match h {
                AHole::Exhaustive => out.push("exhaustive".to_string()),
                AHole::SampleOne { seed } => {
                    out.push("sample_one".to_string());
                    if seed.is_some() {
                        out.push("seed".to_string());
                    }
                }
                AHole::SampleN { seed, .. } => {
                    out.push("sample_n".to_string());
                    out.push("integer".to_string());
                    if seed.is_some() {
                        out.push("seed".to_string());
                    }
                }
            }
        }
        ATerm::Literal(_) => out.push("literal".to_string()),
        ATerm::Group(v) => {
            out.push("group".to_string());
            walk_value(v, out);
        }
        ATerm::SetLit(vs) => {
            out.push("set_lit".to_string());
            for v in vs {
                walk_value(v, out);
            }
        }
        ATerm::ListLit(vs) => {
            out.push("list_lit".to_string());
            for v in vs {
                walk_value(v, out);
            }
        }
        ATerm::App { args, .. } => {
            out.push("application".to_string());
            out.push("ident".to_string());
            if let Some(args) = args {
                out.push("generic_args".to_string());
                for a in args {
                    match a {
                        AArg::Named { value, .. } => {
                            out.push("named_arg".to_string());
                            walk_value(value, out);
                        }
                        AArg::Pos(value) => walk_value(value, out),
                    }
                }
            }
        }
    }
}

fn has(rules: &[String], rule: &str) -> bool {
    rules.iter().any(|r| r == rule)
}

// ── each binding form parses on its own ──────────────────────────────────────

#[test]
fn simple_shellsorts_binding() {
    ok("ShellSorts: SortingAlgorithm = SortingAlgorithm<ShellSort<_>>");
}

#[test]
fn complex_quicksorts_binding_with_where_union_and_set_diff() {
    ok(r#"
        QuickSorts: _ = SortingAlgorithm<QuickSort<
            partition = _ as p where (
                StandardPartition<pivot = _ as pp>
              | DualPivotPartition<pivot = (_ - {Combined<_, _>}) as pp>
              | HeapExtractionPartition<>
            ),
            pivot     = pp,
            smallSort = _ - {Insertion<16>},
        >>
    "#);
}

#[test]
fn list_typed_binding() {
    ok("Sorts: List<SortingAlgorithm> = [ShellSorts, QuickSorts]");
}

#[test]
fn consumers_over_mains() {
    ok("consumers: List<Mains<Sorts>> = [visualiser, correctness, benchmark]");
}

#[test]
fn full_north_star_program() {
    ok(r#"
        // the family of every shell sort
        ShellSorts: SortingAlgorithm = SortingAlgorithm<ShellSort<_>>

        QuickSorts: _ = SortingAlgorithm<QuickSort<
            partition = _ as p where (
                StandardPartition<pivot = _ as pp>
              | DualPivotPartition<pivot = (_ - {Combined<_, _>}) as pp>
              | HeapExtractionPartition<>
            ),
            pivot     = pp,
            smallSort = _ - {Insertion<16>},
        >>

        Sorts:     List<SortingAlgorithm> = [ShellSorts, QuickSorts]
        consumers: List<Mains<Sorts>>     = [visualiser, correctness, benchmark]
    "#);
}

#[test]
fn directives_holes_and_intersections() {
    ok("depth 3\nr: RecSort = recursive_sort(inner = _)");
    ok("g: GapSequence = ?2@7");
    ok("p: Pivot = *");
    ok("x: Sort & HasTimeBounds & HasStability = ShellSort<Classic>");
    ok("3 of @1\ns: Sort = quick_sort(partition = _, pivot = _, small_sort = _)");
    ok("ins: SmallSort = Insertion<16>");
    ok("dual: Pivot = Combined<_, _>");
    ok("# comment line\ns: Sort = foo  // trailing\n/* block */");
}

#[test]
fn rejects_malformed() {
    err("foo bar");
    err("x: = _");
    err("x: Sort =");
    err("x: Sort = (unclosed");
    err("x: Sort = SortingAlgorithm<ShellSort<_>");
    err("");
}

#[test]
fn comments_and_whitespace() {
    ok("# hash comment\nx: T = a");
    ok("// line comment\nx: T = a");
    ok("/* block */ x: T = a");
    ok("x: T = a // trailing\n");
    ok("/* multi\n   line\n   block */\nx: T = a");
    // free-form: a binding spanning many lines parses like a tight one.
    let loose = parse("x : T =\n   Foo<\n     a = _ ,\n     b = _ ,\n   >\n").unwrap();
    let tight = parse("x:T=Foo<a=_,b=_>").unwrap();
    assert_eq!(format!("{loose:?}"), format!("{tight:?}"));
}

#[test]
fn all_hole_quantifiers_parse() {
    for q in ["_", "*", "?", "?5", "?5@9", "?@9"] {
        ok(&format!("x: T = {q}"));
    }
    assert!(has(&value_rules("_"), "exhaustive"));
    assert!(has(&value_rules("?5@9"), "sample_n"));
    assert!(has(&value_rules("?@9"), "sample_one"));
    assert!(has(&value_rules("?5@9"), "seed"));
}

#[test]
fn set_difference_shapes() {
    assert!(has(&value_rules("_ - {a}"), "set_lit"));
    ok("x: T = _ - {a} - {b}");
    ok("x: T = _ - {a, b, c}");
    ok("x: T = _ - {a, b,}");
    let r = value_rules("(_ - {Combined<_, _>}) as pp");
    assert!(has(&r, "group"));
    assert!(has(&r, "set_lit"));
    assert!(has(&r, "capture"));
}

#[test]
fn where_union_shapes() {
    let r = value_rules("_ as p where ( a | b | c )");
    assert!(has(&r, "capture"));
    assert!(has(&r, "where_clause"));
    ok("x: T = _ as p where ( a )");
    ok("x: T = _ as p where ( Foo<k = _ as q> | Bar<m = (_ - {z}) as q> )");
}

#[test]
fn lists_and_type_annotations() {
    ok("x: T = []");
    ok("x: T = [a]");
    ok("x: T = [a, b, c]");
    ok("x: T = [a, b,]");
    assert!(has(&value_rules("[a, b]"), "list_lit"));
    ok("x: SortingAlgorithm = a");
    ok("x: _ = a");
    ok("x: List<SortingAlgorithm> = a");
    ok("x: List<Mains<Sorts>> = a");
    ok("x: Sort & HasTimeBounds & HasStability = a");
}

#[test]
fn generic_arg_forms() {
    ok("x: T = Foo<a = _, b = _>");
    ok("x: T = Foo<_, _>");
    ok("x: T = Foo<a = _, _>");
    ok("x: T = Foo<>");
    ok("x: T = Foo()");
    ok("x: T = Foo(a = _, _)");
    ok("x: T = A<B<C<_>>>");
    ok("x: T = Foo<a = _,>");
}

#[test]
fn directives_parse_in_position() {
    ok("depth 3\nx: T = a");
    ok("3 of\nx: T = a");
    ok("3 of @7\nx: T = a");
    ok("depth 2\n5 of @1\nx: T = a");
    let p = parse("depth 3\nx: T = a").unwrap();
    assert!(matches!(p.directives.first(), Some(ADirective::Depth(n)) if n == "3"));
}

#[test]
fn more_malformed_inputs_rejected() {
    err("x: T = a where ( )");
    err("x: T = a where ( a | )");
    err("x: T = _ as");
    err("x: T = _ -");
    err("x: T = {a, b");
    err("x: T = [a, b");
    err("x: T = Foo<a = >");
    err("x = a");
    err("depth\nx: T = a");
}

// ── lowering onto the query language, then solving ───────────────────────────

#[test]
fn wrapper_and_positional_lowering() {
    let reg = fixture();
    let qs = lower_program("X: SortingAlgorithm = SortingAlgorithm<ShellSort<_>>", &reg).unwrap();
    assert_eq!(qs.len(), 1);
    let b = &qs[0].bindings[0];
    assert_eq!(b.role, "Sort");
    match &b.value {
        QValue::App { name, args } => {
            assert_eq!(name, "shell_sort");
            assert_eq!(args.len(), 1);
            match &args[0] {
                QArg::Named { name, value } => {
                    assert_eq!(name, "seq");
                    assert!(matches!(value, QValue::Hole(Quant::Exhaustive)));
                }
                other => panic!("expected named seq arg, got {other:?}"),
            }
        }
        other => panic!("expected App, got {other:?}"),
    }
}

#[test]
fn shell_slice_matches_existing_query() {
    let reg = fixture();
    let new_qs =
        lower_program("ShellSorts: SortingAlgorithm = SortingAlgorithm<ShellSort<_>>", &reg).unwrap();
    let new_out = solve(&new_qs[0], &reg).unwrap();
    let old_out = solve(&parse_query("let s: Sort = shell_sort(seq = .);").unwrap(), &reg).unwrap();
    assert_eq!(type_exprs(&new_out, &reg), type_exprs(&old_out, &reg));
    let exprs = type_exprs(&new_out, &reg);
    assert_eq!(exprs.len(), 3);
    assert!(exprs.iter().all(|e| e.starts_with("ShellSort<")));
}

#[test]
fn explicit_named_sequence_resolves_by_type_head() {
    let reg = fixture();
    let qs = lower_program("X: SortingAlgorithm = SortingAlgorithm<ShellSort<Classic>>", &reg).unwrap();
    let out = solve(&qs[0], &reg).unwrap();
    assert_eq!(type_exprs(&out, &reg), vec!["ShellSort<Classic>".to_string()]);
}

#[test]
fn random_quantifier_lowers() {
    let reg = fixture();
    let qs = lower_program("X: SortingAlgorithm = SortingAlgorithm<ShellSort<?2@7>>", &reg).unwrap();
    let out = solve(&qs[0], &reg).unwrap();
    assert_eq!(out.sorts.len(), 2);
}

#[test]
fn unsupported_constructs_error_clearly() {
    let reg = fixture();
    assert!(lower_program("X: _ = ShellSort<_>", &reg).is_err());
    assert!(lower_program("p: Pivot = {first_element}", &reg).is_err());
    assert!(lower_program("xs: List<Pivot> = [first_element]", &reg).is_err());
}

#[test]
fn set_diff_lowers_to_diff_node() {
    let reg = fixture();
    let qs = lower_program("P: Pivot = _ - {middle_element}", &reg).unwrap();
    match &qs[0].bindings[0].value {
        QValue::Diff { base, subtrahends } => {
            assert_eq!(**base, QValue::Hole(Quant::Exhaustive));
            assert_eq!(subtrahends.len(), 1);
            assert_eq!(
                subtrahends[0],
                QValue::SetLit(vec![QValue::Ident("middle_element".into())])
            );
        }
        other => panic!("expected Diff, got {other:?}"),
    }
}

#[test]
fn set_diff_removes_named_members() {
    let reg = fixture();
    let qs = lower_program("P: Pivot = _ - {middle_element}", &reg).unwrap();
    let exprs = type_exprs(&solve(&qs[0], &reg).unwrap(), &reg);
    assert_eq!(exprs.len(), 6);
    assert!(!exprs.contains(&"MiddleElement".to_string()));
    assert!(exprs.contains(&"FirstElement".to_string()));
}

#[test]
fn set_diff_multiple_members_and_chaining_agree() {
    let reg = fixture();
    let multi = lower_program("P: Pivot = _ - {first_element, middle_element}", &reg).unwrap();
    let chain = lower_program("P: Pivot = _ - {first_element} - {middle_element}", &reg).unwrap();
    let m = type_exprs(&solve(&multi[0], &reg).unwrap(), &reg);
    let c = type_exprs(&solve(&chain[0], &reg).unwrap(), &reg);
    assert_eq!(m, c);
    assert_eq!(m.len(), 5);
    assert!(!m.contains(&"FirstElement".to_string()));
    assert!(!m.contains(&"MiddleElement".to_string()));
}

#[test]
fn set_diff_subtracting_all_is_empty() {
    let reg = fixture();
    let qs = lower_program("P: Pivot = _ - _", &reg).unwrap();
    assert_eq!(solve(&qs[0], &reg).unwrap().sorts.len(), 0);
}

#[test]
fn set_diff_removes_a_specific_nested_shape() {
    let reg = fixture();
    let qs = lower_program(
        "P: Pivot = _ - {CombinedSelector<a = first_element, b = first_element>}",
        &reg,
    )
    .unwrap();
    let exprs = type_exprs(&solve(&qs[0], &reg).unwrap(), &reg);
    assert_eq!(exprs.len(), 6);
    assert!(!exprs.contains(&"CombinedSelector<FirstElement, FirstElement>".to_string()));
    assert!(exprs.contains(&"CombinedSelector<MiddleElement, MiddleElement>".to_string()));
}

#[test]
fn set_diff_composes_with_capture() {
    let reg = fixture();
    let qs =
        lower_program("P: Pivot = CombinedSelector<a = _ - {middle_element} as x, b = x>", &reg)
            .unwrap();
    let exprs = type_exprs(&solve(&qs[0], &reg).unwrap(), &reg);
    assert_eq!(exprs, vec!["CombinedSelector<FirstElement, FirstElement>".to_string()]);
}

#[test]
fn set_diff_subtracts_before_sampling() {
    let reg = fixture();
    for seed in 0..8u64 {
        let qs = lower_program(&format!("P: Pivot = ?2@{seed} - {{first_element}}"), &reg).unwrap();
        let exprs = type_exprs(&solve(&qs[0], &reg).unwrap(), &reg);
        assert_eq!(exprs.len(), 2, "seed {seed}");
        assert!(!exprs.contains(&"FirstElement".to_string()), "seed {seed}");
    }
}

#[test]
fn set_diff_over_a_recursive_role() {
    let reg = fixture();
    let qs = lower_program("depth 3\nr: RecSort = _ - {BaseCase}", &reg).unwrap();
    let exprs = type_exprs(&solve(&qs[0], &reg).unwrap(), &reg);
    assert_eq!(exprs.len(), 3);
    assert!(!exprs.contains(&"BaseCase".to_string()));
}

// ── capture across union branches, on a small catalog that can express it ────

const XCAT: &str = "\
component box
  type Box<{main}, {echo}>
  provides Top
  slot main Inner
  slot echo Leaf
end
component wrap_a
  type WrapA<{x}>
  provides Inner
  slot x Leaf
end
component wrap_b
  type WrapB<{x}>
  provides Inner
  slot x Leaf
end
component wrap_none
  type WrapNone
  provides Inner
end
component leaf1
  type Leaf1
  provides Leaf
end
component leaf2
  type Leaf2
  provides Leaf
end
";

fn xcat() -> Registry {
    Registry::parse(XCAT).expect("probe catalog parses")
}

#[test]
fn probe_xbranch_capture_couples_across_branches() {
    let reg = xcat();
    let qs = lower_program(
        "b: Top = Box< main = _ where ( WrapA<x = _ as shared> | WrapB<x = _ as shared> ), echo = shared >",
        &reg,
    )
    .unwrap();
    let exprs = type_exprs(&solve(&qs[0], &reg).unwrap(), &reg);
    assert_eq!(
        exprs,
        vec![
            "Box<WrapA<Leaf1>, Leaf1>".to_string(),
            "Box<WrapA<Leaf2>, Leaf2>".to_string(),
            "Box<WrapB<Leaf1>, Leaf1>".to_string(),
            "Box<WrapB<Leaf2>, Leaf2>".to_string(),
        ]
    );
}

#[test]
fn probe_set_diff_subtrahend_references_earlier_capture() {
    let reg = xcat();
    let qs = lower_program("b: Top = Box< main = WrapA<x = _ as shared>, echo = _ - {shared} >", &reg)
        .unwrap();
    let exprs = type_exprs(&solve(&qs[0], &reg).unwrap(), &reg);
    assert_eq!(
        exprs,
        vec!["Box<WrapA<Leaf1>, Leaf2>".to_string(), "Box<WrapA<Leaf2>, Leaf1>".to_string()]
    );
}

#[test]
fn unbound_branch_reference_is_pruned() {
    let reg = xcat();
    let qs = lower_program(
        "b: Top = Box< main = _ where ( WrapA<x = _ as shared> | WrapNone ), echo = shared >",
        &reg,
    )
    .unwrap();
    let exprs = type_exprs(&solve(&qs[0], &reg).unwrap(), &reg);
    assert_eq!(
        exprs,
        vec!["Box<WrapA<Leaf1>, Leaf1>".to_string(), "Box<WrapA<Leaf2>, Leaf2>".to_string()]
    );
}

#[test]
fn forward_reference_is_a_clear_error() {
    let reg = xcat();
    let qs = lower_program("b: Top = Box< echo = shared, main = WrapA<x = _ as shared> >", &reg).unwrap();
    let err = solve(&qs[0], &reg).unwrap_err();
    assert!(err.contains("before it is captured"), "got: {err}");
}

#[test]
fn forward_reference_in_subtrahend_is_a_clear_error() {
    let reg = xcat();
    let qs = lower_program("b: Top = Box< echo = _ - {shared}, main = WrapA<x = _ as shared> >", &reg)
        .unwrap();
    let err = solve(&qs[0], &reg).unwrap_err();
    assert!(err.contains("before it is captured"), "got: {err}");
}

// ── `where ( A | B | C )` unions ──────────────────────────────────────────────

#[test]
fn where_union_lowers_to_where_node() {
    let reg = fixture();
    let qs = lower_program("P: Partition = _ where ( LeftLeftPartition | DualPivotPartition )", &reg)
        .unwrap();
    match &qs[0].bindings[0].value {
        QValue::Where { quant, alts } => {
            assert_eq!(*quant, Quant::Exhaustive);
            assert_eq!(alts.len(), 2);
            assert_eq!(alts[0], QValue::Ident("LL_partition".into()));
            assert_eq!(alts[1], QValue::Ident("dual_pivot_partition".into()));
        }
        other => panic!("expected Where, got {other:?}"),
    }
}

#[test]
fn where_union_is_the_union_of_alternatives() {
    let reg = fixture();
    let qs = lower_program("P: Pivot = _ where ( first_element | CombinedSelector<a = _, b = _> )", &reg)
        .unwrap();
    let out = solve(&qs[0], &reg).unwrap();
    let exprs = type_exprs(&out, &reg);
    assert_eq!(exprs.len(), 5);
    assert!(exprs.contains(&"FirstElement".to_string()));
    assert!(!exprs.contains(&"MiddleElement".to_string()));
    assert!(exprs.iter().filter(|e| e.starts_with("CombinedSelector<")).count() == 4);
}

#[test]
fn where_union_respects_the_base_quantifier() {
    let reg = fixture();
    let qs =
        lower_program("P: Pivot = ?2@1 where ( first_element | middle_element | ninther_dual )", &reg)
            .unwrap();
    let out = solve(&qs[0], &reg).unwrap();
    assert_eq!(out.sorts.len(), 2);
}

#[test]
fn where_union_result_can_be_captured() {
    let reg = fixture();
    let qs = lower_program(
        "P: Pivot = CombinedSelector<a = _ as x where ( first_element | middle_element ), b = x>",
        &reg,
    )
    .unwrap();
    let out = solve(&qs[0], &reg).unwrap();
    let exprs = type_exprs(&out, &reg);
    assert_eq!(exprs.len(), 2);
    assert!(exprs.iter().all(|t| {
        let inner = t.trim_start_matches("CombinedSelector<").trim_end_matches('>');
        let (a, b) = inner.split_once(", ").unwrap();
        a == b
    }));
}

#[test]
fn where_requires_a_hole_base() {
    let reg = fixture();
    assert!(lower_program("P: Pivot = first_element where ( middle_element )", &reg).is_err());
}

// ── capture (`as p`) ─────────────────────────────────────────────────────────

#[test]
fn capture_lowers_to_capture_node() {
    let reg = fixture();
    let qs = lower_program("P: Pivot = CombinedSelector<a = _ as x, b = x>", &reg).unwrap();
    let b = &qs[0].bindings[0];
    match &b.value {
        QValue::App { name, args } => {
            assert_eq!(name, "combined");
            match &args[0] {
                QArg::Named { name, value } => {
                    assert_eq!(name, "a");
                    assert!(matches!(value, QValue::Capture { name, .. } if name == "x"));
                }
                other => panic!("expected named `a`, got {other:?}"),
            }
            match &args[1] {
                QArg::Named { name, value } => {
                    assert_eq!(name, "b");
                    assert!(matches!(value, QValue::Ident(n) if n == "x"));
                }
                other => panic!("expected named `b`, got {other:?}"),
            }
        }
        other => panic!("expected App, got {other:?}"),
    }
}

#[test]
fn sibling_capture_yields_the_diagonal() {
    let reg = fixture();
    let captured = lower_program("P: Pivot = CombinedSelector<a = _ as x, b = x>", &reg).unwrap();
    let cap_out = solve(&captured[0], &reg).unwrap();
    let cap = type_exprs(&cap_out, &reg);
    let cross = lower_program("P: Pivot = CombinedSelector<a = _, b = _>", &reg).unwrap();
    let cross_out = solve(&cross[0], &reg).unwrap();
    assert_eq!(cap.len(), 2);
    assert_eq!(cross_out.sorts.len(), 4);
    assert!(cap.iter().all(|t| {
        let inner = t.trim_start_matches("CombinedSelector<").trim_end_matches('>');
        let (a, b) = inner.split_once(", ").unwrap();
        a == b
    }));
}

#[test]
fn capture_escapes_to_a_later_binding() {
    let reg = fixture();
    let q = Query {
        depth: DEFAULT_DEPTH,
        take: None,
        bindings: vec![
            Binding {
                name: "x".into(),
                role: "Pivot".into(),
                refinements: vec![],
                value: QValue::App {
                    name: "combined".into(),
                    args: vec![
                        QArg::Named {
                            name: "a".into(),
                            value: QValue::Capture {
                                name: "shared".into(),
                                inner: Box::new(QValue::Hole(Quant::Exhaustive)),
                            },
                        },
                        QArg::Named {
                            name: "b".into(),
                            value: QValue::Ident("first_element".into()),
                        },
                    ],
                },
            },
            Binding {
                name: "y".into(),
                role: "Pivot".into(),
                refinements: vec![],
                value: QValue::Ident("shared".into()),
            },
        ],
    };
    let out = solve(&q, &reg).unwrap();
    let exprs = type_exprs(&out, &reg);
    assert_eq!(exprs, vec!["FirstElement".to_string(), "MiddleElement".to_string()]);
}

// ── consumers / List / Mains: whole-program lowering ─────────────────────────

#[test]
fn lowers_a_full_consumers_program() {
    let reg = fixture();
    let prog = lower(
        r#"
        ShellSorts: SortingAlgorithm = SortingAlgorithm<ShellSort<_>>
        Sorts:      List<SortingAlgorithm> = [ShellSorts]
        consumers:  List<Mains<Sorts>> = [visualiser, correctness, benchmark]
        "#,
        &reg,
    )
    .unwrap();
    assert_eq!(prog.algos.len(), 1);
    assert_eq!(prog.algos[0].name, "ShellSorts");
    assert_eq!(prog.sets, vec![NamedSet { name: "Sorts".into(), members: vec!["ShellSorts".into()] }]);
    assert_eq!(
        prog.consumers,
        vec![ConsumerDecl {
            name: "consumers".into(),
            target: "Sorts".into(),
            mains: vec!["visualiser".into(), "correctness".into(), "benchmark".into()],
        }]
    );
}

#[test]
fn resolve_algos_flattens_sets_transitively() {
    let reg = fixture();
    let prog = lower(
        r#"
        A:     SortingAlgorithm = SortingAlgorithm<ShellSort<Classic>>
        B:     SortingAlgorithm = SortingAlgorithm<ShellSort<Knuth>>
        Inner: List<SortingAlgorithm> = [A]
        Sorts: List<SortingAlgorithm> = [Inner, B]
        consumers: List<Mains<Sorts>> = [correctness]
        "#,
        &reg,
    )
    .unwrap();
    assert_eq!(prog.resolve_algos("Sorts").unwrap(), vec!["A".to_string(), "B".to_string()]);
    assert_eq!(prog.resolve_algos("A").unwrap(), vec!["A".to_string()]);
    assert!(prog.resolve_algos("missing").is_err());
}

#[test]
fn resolve_consumers_yields_concrete_labels() {
    let reg = fixture();
    let prog = lower(
        r#"
        ShellSorts: SortingAlgorithm = SortingAlgorithm<ShellSort<_>>
        Sorts:      List<SortingAlgorithm> = [ShellSorts]
        consumers:  List<Mains<Sorts>> = [visualiser, correctness]
        "#,
        &reg,
    )
    .unwrap();
    let resolved = prog.resolve_consumers(&reg).unwrap();
    assert_eq!(resolved.len(), 1);
    assert_eq!(resolved[0].name, "consumers");
    assert_eq!(resolved[0].mains, vec!["visualiser".to_string(), "correctness".to_string()]);
    assert_eq!(resolved[0].algo_labels.len(), 3);
    assert!(resolved[0].algo_labels.iter().all(|l| l.starts_with("shell[")));
}

#[test]
fn lower_rejects_duplicate_binding_names() {
    let reg = fixture();
    let err = lower(
        r#"
        A: SortingAlgorithm = SortingAlgorithm<ShellSort<Classic>>
        A: SortingAlgorithm = SortingAlgorithm<ShellSort<Knuth>>
        "#,
        &reg,
    )
    .unwrap_err();
    assert!(err.contains("duplicate binding name `A`"), "got: {err}");
}

// ── refinement syntax (`Role[param = value]`) ────────────────────────────────

#[test]
fn refinement_syntax_parses_and_lowers() {
    let reg = fixture();
    ok("part: Partition[pivot = p] = _");
    ok("part: Partition[pivot = p, small = q] = _");
    ok("part: Partition[pivot = p,] = _");
    let qs = lower_program("part: Partition[pivot = p] = _", &reg).unwrap();
    let b = &qs[0].bindings[0];
    assert_eq!(b.role, "Partition");
    assert_eq!(
        b.refinements,
        vec![Refinement { param: "pivot".into(), value: QValue::Ident("p".into()) }]
    );
    assert_eq!(b.value, QValue::Hole(Quant::Exhaustive));
}

#[test]
fn helper_bindings_accumulate_into_the_family_query() {
    let reg = fixture();
    let prog = lower(
        r#"
        p:    Pivot = _
        part: Partition[pivot = p] = _
        QuickSorts: SortingAlgorithm = SortingAlgorithm<QuickSort<partition = part, pivot = p, small_sort = _>>
        "#,
        &reg,
    )
    .unwrap();
    assert_eq!(prog.algos.len(), 1);
    let q = &prog.algos[0].query;
    assert_eq!(q.bindings.len(), 3);
    assert_eq!(q.bindings[0].name, "p");
    assert_eq!(q.bindings[1].name, "part");
    assert_eq!(q.bindings[2].name, "QuickSorts");
    let out = solve(q, &reg).unwrap();
    assert_eq!(out.sorts.len(), 21);
}

#[test]
fn helpers_are_shared_across_multiple_families() {
    let reg = fixture();
    let prog = lower(
        r#"
        p:    Pivot = _
        part: Partition[pivot = p] = _
        A: SortingAlgorithm = SortingAlgorithm<QuickSort<partition = part, pivot = p, small_sort = _>>
        B: SortingAlgorithm = SortingAlgorithm<QuickSort<partition = part, pivot = p, small_sort = no_small_sort>>
        "#,
        &reg,
    )
    .unwrap();
    assert_eq!(prog.algos.len(), 2);
    assert_eq!(prog.algos[0].query.bindings.len(), 3);
    assert_eq!(prog.algos[1].query.bindings.len(), 3);
}

#[test]
fn lower_program_still_rejects_lists() {
    let reg = fixture();
    assert!(lower_program("xs: List<Pivot> = [first_element]", &reg).is_err());
}

#[test]
fn parser_type_parses_like_the_function() {
    let a = array_vis_bench::avbs::AvbsParser::parse("x: T = Foo<a = _>").unwrap();
    let b = parse("x: T = Foo<a = _>").unwrap();
    assert_eq!(format!("{a:?}"), format!("{b:?}"));
    assert!(array_vis_bench::avbs::AvbsParser::parse("x = a").is_err());
}
