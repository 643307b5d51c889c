use array_vis_bench::cardinality::{
    card_role, check_size, estimate, recursive_roles, Card, SizeEstimate, DEFAULT_MAX_GROUND,
};
use array_vis_bench::codegen::compile;
use array_vis_bench::demo::{
    BinaryInsertion, Ciura, CombinedSelector, DualPivotPartition, FirstElement, InsertionSmallSort,
    LeftLeftPartition, LinearInsertion, MiddleElement, NoSmallSort, QuickSort, ShellSort,
    TopDownMergeSort,
};
use array_vis_bench::enumerate::enumerate;
use array_vis_bench::registry::Registry;
use array_vis_bench::resolve::{head_label, resolve};
use array_vis_bench::solve::{solve, solve_within};
use array_vis_bench::spec_lang::{
    parse_query, parse_spec, Binding, QArg, QValue, Quant, Query, Take, DEFAULT_DEPTH,
};

const REG: &str = "# The sort catalog the tests run against: quick sorts over partitions,
# pivot selectors and small sorts; merge, shell, heap and recursive families.
component quick_sort
  type QuickSort<{partition}, {pivot}, {small_sort}>
  label quick[{partition}/{pivot}/{small_sort}]
  provides Sort
  uses crate::quick_sort_lib::quick_sort::QuickSort
  category Sort
  slot partition Partition
  slot pivot Pivot
  slot small_sort SmallSort
end

component LL_partition
  type LeftLeftPartition
  label LL
  provides Partition
  uses crate::partition_lomuto::LeftLeftPartition
  project pivot PivotSingle
end

component dual_pivot_partition
  type DualPivotPartition
  label dual
  provides Partition
  uses crate::quick_sort_lib::yaroslavskiy::DualPivotPartition
  project pivot PivotDual
end

component first_element
  type FirstElement
  label first
  provides Pivot PivotSingle
  uses crate::pivots::FirstElement
end

component middle_element
  type MiddleElement
  label mid
  provides Pivot PivotSingle
  uses crate::pivots::MiddleElement
end

component ninther_dual
  type NintherDualPivot
  label ninther
  provides Pivot PivotDual
  uses crate::quick_sort_lib::pivot_selectors::NintherDualPivot
end

component combined
  type CombinedSelector<{a}, {b}>
  label combined<{a},{b}>
  provides Pivot PivotDual
  uses crate::quick_sort_lib::pivot_selectors::CombinedSelector
  slot a PivotSingle
  slot b PivotSingle
end

component no_small_sort
  type NoSmallSort
  label none
  provides SmallSort
  uses crate::small_sorts::NoSmallSort
end

component insertion
  type InsertionSmallSort<{strategy}, {N}>
  label ins:{strategy}:{N}
  provides SmallSort
  uses crate::small_sort_insertion::InsertionSmallSort
  slot strategy InsertionStrategy linear
  const N 16
end

component linear
  type LinearInsertion
  label lin
  provides InsertionStrategy
  uses crate::small_sort_insertion_strategy::LinearInsertion
end

component binary
  type BinaryInsertion
  label bin
  provides InsertionStrategy
  uses crate::small_sort_insertion_strategy::BinaryInsertion
end

component top_down_merge
  type TopDownMergeSort<{small_sort}, {ping_pong}, {early_exit}>
  label merge[{small_sort}/pp={ping_pong}/ee={early_exit}]
  provides Sort
  uses crate::merge_sort_lib::top_down::TopDownMergeSort
  category Sort
  slot small_sort SmallSort no_small_sort
  const ping_pong false
  const early_exit true
end

component shell_sort
  type ShellSort<{seq}>
  label shell[{seq}]
  provides Sort
  uses crate::shell_sort_lib::shell_sort::ShellSort
  category Sort
  slot seq GapSequence classic
end

component classic
  type Classic
  label classic
  provides GapSequence
  uses crate::shell_sort_lib::sequences::Classic
end

component knuth
  type Knuth
  label knuth
  provides GapSequence
  uses crate::shell_sort_lib::sequences::Knuth
end

component ciura
  type Ciura
  label ciura
  provides GapSequence
  uses crate::shell_sort_lib::sequences::Ciura
end

component heap_sort
  type HeapSort<{arity}>
  label heap[d={arity}]
  provides Sort
  uses crate::heap_sort_lib::HeapSort
  category Sort
  const arity 2 values 2 3 4
end

component recursive_sort
  type RecursiveSort<{inner}>
  label rec[{inner}]
  provides RecSort
  uses crate::recursive_sort_lib::RecursiveSort
  slot inner RecSort
end

component leaf_sort
  type BaseCase
  label leaf
  provides RecSort
  uses crate::recursive_sort_lib::BaseCase
end
";

fn fixture() -> Registry {
    Registry::parse(REG).expect("registry parses")
}

fn reg() -> Registry {
    fixture()
}

// ── cardinality ──────────────────────────────────────────────────────────────


fn fin(c: Card) -> u128 {
    match c {
        Card::Finite(n) => n,
        Card::Huge => panic!("expected Finite, got Huge"),
    }
}

// ── card_role is faithful to enumerate (the load-bearing invariant) ────────

#[test]
fn card_role_matches_enumerate_count() {
    let reg = fixture();
    for role in ["Sort", "Pivot", "PivotSingle", "Partition", "GapSequence", "SmallSort"] {
        for depth in 0..6usize {
            let counted = card_role(&reg, role, depth);
            let enumerated = enumerate(&reg, role, depth).len() as u128;
            assert_eq!(
                fin(counted),
                enumerated,
                "role {role} @ depth {depth}: counted {} vs enumerated {enumerated}",
                counted.describe()
            );
        }
    }
}

// ── per-construct estimates ────────────────────────────────────────────────

fn est_of(src: &str, reg: &Registry) -> SizeEstimate {
    estimate(&parse_query(src).unwrap(), reg)
}

#[test]
fn shell_hole_estimate() {
    let reg = fixture();
    // fixture has 3 gap sequences.
    let e = est_of("s: Sort = shell_sort(seq = .);", &reg);
    assert_eq!(fin(e.ground), 3);
    assert_eq!(fin(e.peak), 3);
}

#[test]
fn product_rule_over_an_application() {
    let reg = fixture();
    // uncoupled cross-product: 2 single pivots × 2 = 4 (legacy `parse_query`
    // syntax: component name + parens). Capture-coupling (→ 2) is exercised
    // via the avbs frontend tests.
    let cross = est_of("p: Pivot = combined(a = ., b = .);", &reg);
    assert_eq!(fin(cross.ground), 4);
}

#[test]
fn sample_caps_output_but_not_peak() {
    let reg = fixture();
    let e = est_of("p: Pivot = ?2@1;", &reg);
    assert_eq!(fin(e.ground), 2, "output capped to the sample size");
    assert_eq!(fin(e.peak), 7, "but the full 7-pivot population is materialized first");
}

#[test]
fn multi_binding_peak_accounts_for_repeated_materialization() {
    let reg = fixture();
    // b1 ranges over 7 pivots; b2 materializes the 3-sequence population once
    // PER pivot environment (solve calls eval_binding per env), so the real
    // peak is 7 × 3 = 21 — not just max(7, 3). ground stays 7 × 1 = 7.
    let q = parse_query("let p: Pivot = .; let g: GapSequence = ?1@0;").unwrap();
    let e = estimate(&q, &reg);
    assert_eq!(fin(e.ground), 7, "7 pivots × 1 sampled sequence");
    assert_eq!(fin(e.peak), 21, "the sequence population is built once per pivot env");
    assert_eq!(e.worst_binding.as_ref().map(|(n, _)| n.as_str()), Some("g"));
}

#[test]
fn take_caps_ground_but_not_peak() {
    let reg = fixture();
    let e = est_of("3 of let s: Sort = quick_sort(partition = ., pivot = ., small_sort = .);", &reg);
    assert_eq!(fin(e.ground), 3, "`N of` caps the emitted count");
    // peak is the full pre-take cross-product (42 quick combos), unprotected.
    assert_eq!(fin(e.peak), 42);
}

#[test]
fn set_diff_cost_is_the_base_population() {
    let reg = fixture();
    // The base (all 7 pivots) is the materialized cost; subtraction can only
    // shrink the output, so the bound stays at the base size (upper bound).
    let q = Query {
        depth: DEFAULT_DEPTH,
        take: None,
        bindings: vec![Binding {
            name: "p".into(),
            role: "Pivot".into(),
            refinements: vec![],
            value: QValue::Diff {
                base: Box::new(QValue::Hole(Quant::Exhaustive)),
                subtrahends: vec![QValue::SetLit(vec![QValue::Ident("middle_element".into())])],
            },
        }],
    };
    let e = estimate(&q, &reg);
    assert_eq!(fin(e.peak), 7);
}

#[test]
fn where_union_is_the_sum_of_alternatives() {
    let reg = fixture();
    // union population = first(1) + combined a×b(4) = 5.
    let q = Query {
        depth: DEFAULT_DEPTH,
        take: None,
        bindings: vec![Binding {
            name: "p".into(),
            role: "Pivot".into(),
            refinements: vec![],
            value: QValue::Where {
                quant: Quant::Exhaustive,
                alts: vec![
                    QValue::Ident("first_element".into()),
                    QValue::App {
                        name: "combined".into(),
                        args: vec![
                            QArg::Named { name: "a".into(), value: QValue::Hole(Quant::Exhaustive) },
                            QArg::Named { name: "b".into(), value: QValue::Hole(Quant::Exhaustive) },
                        ],
                    },
                ],
            },
        }],
    };
    let e = estimate(&q, &reg);
    assert_eq!(fin(e.ground), 5);
}

// ── recursion detection ────────────────────────────────────────────────────

#[test]
fn detects_recursive_roles() {
    let reg = fixture();
    // registry.spec's RecSort is self-recursive (recursive_sort has a RecSort slot).
    assert!(recursive_roles(&reg).contains(&"RecSort".to_string()));
    // Sort/Pivot/etc. are not.
    assert!(!recursive_roles(&reg).contains(&"Pivot".to_string()));
}

#[test]
fn recursive_role_count_grows_with_depth_but_stays_finite() {
    let reg = fixture();
    // matches the existing solve test: 1, 2, 3, 4 at depths 0..3.
    assert_eq!(fin(card_role(&reg, "RecSort", 0)), 1);
    assert_eq!(fin(card_role(&reg, "RecSort", 3)), 4);
}

// ── the blow-up catalog: a binary tree explodes super-exponentially ─────────

const TREE: &str = "\
component node
  type Node<{l}, {r}>
  provides Tree
  slot l Tree
  slot r Tree
end
component leaf
  type Leaf
  provides Tree
end
";

fn tree() -> Registry {
    Registry::parse(TREE).unwrap()
}

#[test]
fn tree_cardinality_is_super_exponential() {
    let reg = tree();
    // T(d) = 1 + T(d-1)^2 : 1, 2, 5, 26, 677, 458330, ...
    assert_eq!(fin(card_role(&reg, "Tree", 0)), 1);
    assert_eq!(fin(card_role(&reg, "Tree", 1)), 2);
    assert_eq!(fin(card_role(&reg, "Tree", 2)), 5);
    assert_eq!(fin(card_role(&reg, "Tree", 3)), 26);
    assert_eq!(fin(card_role(&reg, "Tree", 4)), 677);
    assert_eq!(fin(card_role(&reg, "Tree", 5)), 458_330);
    assert!(recursive_roles(&reg).contains(&"Tree".to_string()));
}

#[test]
fn deep_recursion_saturates_to_huge_cheaply() {
    let reg = tree();
    // By depth ~8 the count overflows u128 — the analysis returns Huge in a
    // handful of steps instead of computing a 45-digit number (and never
    // hangs, which is the whole point).
    assert!(card_role(&reg, "Tree", 12).is_huge());
}

#[test]
fn solve_warns_when_approaching_the_budget() {
    let reg = fixture();
    let q = parse_query("let p: Pivot = .;").unwrap();
    // 7 pivots, budget 20 → 20/4 = 5, and 7 > 5: under budget but flagged.
    let out = solve_within(&q, &reg, 20).unwrap();
    assert_eq!(out.sorts.len(), 7);
    assert!(
        out.warnings.iter().any(|w| w.contains("large build")),
        "expected a heads-up warning, got: {:?}",
        out.warnings
    );
    // Under the default (million) budget there is no such warning.
    let quiet = solve(&q, &reg).unwrap();
    assert!(!quiet.warnings.iter().any(|w| w.contains("large build")));
}

#[test]
fn check_size_passes_under_budget_and_rejects_over() {
    let reg = tree();
    let q = |d: usize| Query {
        depth: d,
        take: None,
        bindings: vec![Binding {
            name: "t".into(),
            role: "Tree".into(),
            refinements: vec![],
            value: QValue::Hole(Quant::Exhaustive),
        }],
    };
    // depth 5 → 458_330, under the default million → OK.
    let ok = check_size(&q(5), &reg, DEFAULT_MAX_GROUND).unwrap();
    assert_eq!(fin(ok.ground), 458_330);

    // depth 6 → ~2.1e11, over budget → a clear, actionable error.
    let err = check_size(&q(6), &reg, DEFAULT_MAX_GROUND).unwrap_err();
    assert!(err.contains("too large"), "got: {err}");
    assert!(err.contains("Tree"), "names the recursive role: {err}");

    // `N of` does NOT save it — the peak cross-product is still built.
    let mut sampled = q(6);
    sampled.take = Some(Take { n: 5, seed: 0 });
    assert!(check_size(&sampled, &reg, DEFAULT_MAX_GROUND).is_err());
}

// ── resolve ──────────────────────────────────────────────────────────────────

fn axes_of(spec: &str) -> Vec<(String, String, String)> {
    let reg = Registry::parse(REG).unwrap();
    let (_, node) = parse_spec(spec).unwrap();
    resolve(&node, &reg)
        .unwrap()
        .axes
        .into_iter()
        .map(|a| (a.role, a.value, a.path))
        .collect()
}

#[test]
fn nested_filler_becomes_child_axes_with_prefixed_paths() {
    // A quick_sort whose pivot is the composite `combined<first, middle>`:
    // the pivot node carries the HEAD `combined`, then its a/b sub-slots
    // appear as `pivot/a`, `pivot/b` — the structural nesting.
    let axes = axes_of(
        "quick_sort< partition = LL_partition, \
                     pivot = combined< a = first_element, b = middle_element >, \
                     small_sort = no_small_sort >",
    );
    assert_eq!(
        axes,
        vec![
            ("Partition".into(), "LL".into(), "partition".into()),
            ("Pivot".into(), "combined".into(), "pivot".into()),
            ("PivotSingle".into(), "first".into(), "pivot/a".into()),
            ("PivotSingle".into(), "mid".into(), "pivot/b".into()),
            ("SmallSort".into(), "none".into(), "small_sort".into()),
        ]
    );
}

#[test]
fn leaf_filler_is_a_single_flat_axis() {
    // A single (non-composite) pivot → one `pivot` node, no children.
    let axes = axes_of(
        "quick_sort< partition = LL_partition, pivot = first_element, small_sort = no_small_sort >",
    );
    assert_eq!(
        axes,
        vec![
            ("Partition".into(), "LL".into(), "partition".into()),
            ("Pivot".into(), "first".into(), "pivot".into()),
            ("SmallSort".into(), "none".into(), "small_sort".into()),
        ]
    );
}

#[test]
fn head_label_trims_to_the_component_head() {
    let reg = Registry::parse(REG).unwrap();
    // composite → head only
    assert_eq!(head_label(reg.get("combined").unwrap(), "combined<first, mid>"), "combined");
    // leaf → full resolved label
    assert_eq!(head_label(reg.get("first_element").unwrap(), "first"), "first");
}

// ── the catalog pipeline ─────────────────────────────────────────────────────


#[test]
fn registry_parses_with_imports() {
    let r = reg();
    let qs = r.get("quick_sort").unwrap();
    assert_eq!(qs.uses, vec!["crate::quick_sort_lib::quick_sort::QuickSort"]);
    assert_eq!(r.providing("Pivot").len(), 4); // first, mid, ninther, combined
}

#[test]
fn type_plus_const_resolves_and_collects_uses() {
    // insertion is a TYPE slot (strategy) + a positional CONST (threshold).
    let (_, node) = parse_spec(
        "quick_sort< partition = LL_partition, pivot = middle_element, small_sort = insertion< strategy = binary, 32 > >",
    )
    .unwrap();
    let r = resolve(&node, &reg()).unwrap();
    assert_eq!(
        r.type_expr,
        "QuickSort<LeftLeftPartition, MiddleElement, InsertionSmallSort<BinaryInsertion, 32>>"
    );
    // imports unioned from every nested component
    assert!(r.uses.contains(&"crate::quick_sort_lib::quick_sort::QuickSort".to_string()));
    assert!(r.uses.contains(&"crate::small_sort_insertion::InsertionSmallSort".to_string()));
    assert!(r.uses.contains(&"crate::small_sort_insertion_strategy::BinaryInsertion".to_string()));
}

#[test]
fn bool_consts_named_and_positional() {
    let (_, node) =
        parse_spec("top_down_merge< small_sort = no_small_sort, ping_pong = true, early_exit = false >").unwrap();
    let r = resolve(&node, &reg()).unwrap();
    assert_eq!(r.type_expr, "TopDownMergeSort<NoSmallSort, true, false>");
}

#[test]
fn const_defaults_apply() {
    let (_, node) = parse_spec("insertion<>").unwrap();
    let r = resolve(&node, &reg()).unwrap();
    // strategy -> linear (default), N -> 16 (default)
    assert_eq!(r.type_expr, "InsertionSmallSort<LinearInsertion, 16>");
}

// ── THE HIDDEN ISSUE: flat layout cannot pre-check cross-slot arity ───────
#[test]
fn flat_quicksort_accepts_arity_mismatch_at_registry_level() {
    // single-pivot partition + DUAL selector. Each slot is individually
    // role-valid (LL provides Partition, ninther provides Pivot), so the
    // per-slot role check PASSES — the registry emits a type that only
    // rustc rejects (via `V: PivotInput<Arity = P::Arity>`). The nested
    // layout would have made arity local; the flat layout cannot.
    let (_, node) = parse_spec(
        "quick_sort< partition = LL_partition, pivot = ninther_dual, small_sort = no_small_sort >",
    )
    .unwrap();
    let r = resolve(&node, &reg()).expect("registry accepts it (the gap)");
    assert_eq!(r.type_expr, "QuickSort<LeftLeftPartition, NintherDualPivot, NoSmallSort>");
}

#[test]
fn unknown_component_and_slot_error() {
    let (_, n1) = parse_spec("banana<>").unwrap();
    assert!(resolve(&n1, &reg()).unwrap_err().contains("unknown component"));
    let (_, n2) = parse_spec("LL_partition< pivt = first_element >").unwrap();
    assert!(resolve(&n2, &reg()).unwrap_err().contains("no slot named"));
}

#[test]
fn enumeration_overproduces_quicksort_arity_combos() {
    let specs = enumerate(&reg(), "Sort", 5);
    let quick: Vec<_> = specs.iter().filter(|s| s.name == "quick_sort").collect();
    // partitions(2) × pivots(7: first, mid, ninther, combined{first,mid}×{first,mid}=4) × small(3) = 42
    assert_eq!(quick.len(), 42);
    // ...and some are arity-illegal — e.g. LL partition with the dual ninther.
    let labels: Vec<String> = quick.iter().map(|s| resolve(s, &reg()).unwrap().label).collect();
    assert!(labels.iter().any(|l| l == "quick[LL/ninther/none]"));
}

// ── the inline front end, end to end ───────────────────────────────────────

#[test]
fn bool_consts_resolve() {
    let out = compile(
        REG,
        "MergePP = top_down_merge<\n    small_sort = insertion< 64 >\n    ping_pong  = true\n    early_exit = false\n>",
    )
    .unwrap();
    assert!(out.contains("pub const NAME: &str = \"merge[ins:lin:64/pp=true/ee=false]\";"));
    assert!(out.contains("pub use __MergePP_impl::NAME as MergePP_NAME;"));
}

#[test]
fn all_inline_sorts_run() {
    let runs: [fn(&mut [usize]); 4] = [
        QuickSort::<LeftLeftPartition, MiddleElement, InsertionSmallSort<BinaryInsertion, 32>>::sort,
        QuickSort::<DualPivotPartition, CombinedSelector<FirstElement, MiddleElement>, NoSmallSort>::sort,
        TopDownMergeSort::<InsertionSmallSort<LinearInsertion, 64>, true, false>::sort,
        ShellSort::<Ciura>::sort,
    ];
    for run in runs {
        let mut a = [5usize, 3, 8, 1, 2];
        run(&mut a);
        assert_eq!(a, [1, 2, 3, 5, 8]);
    }
}

#[test]
fn registry_errors_name_the_line() {
    assert_eq!(
        Registry::parse("type Foo").unwrap_err(),
        "registry line 1: field outside a component".to_string()
    );
    assert_eq!(
        Registry::parse("component a\nend\nend").unwrap_err(),
        "registry line 3: `end` outside a component".to_string()
    );
    assert_eq!(
        Registry::parse("component a\n  foo bar").unwrap_err(),
        "registry line 2: unknown keyword `foo`".to_string()
    );
    assert_eq!(
        Registry::parse("component a\nmax_input x").unwrap_err(),
        "registry line 2: max_input needs an integer".to_string()
    );
    assert_eq!(
        Registry::parse("# header\n\ncomponent a\n  slot").unwrap_err(),
        "registry line 4: slot needs a name".to_string()
    );
}

#[test]
fn large_build_warning_comes_first_and_names_the_budget() {
    let reg = fixture();
    let q = parse_query("let p: Pivot = .;").unwrap();
    let out = solve_within(&q, &reg, 20).unwrap();
    assert_eq!(
        out.warnings[0],
        "large build: estimated peak materialization ~7 of a 20 budget — sample with `?N` or narrow the query if this is unintended"
    );
}

#[test]
fn solve_is_solve_within_at_the_default_budget() {
    let reg = fixture();
    let q = parse_query("let p: Pivot = .;").unwrap();
    let a = solve(&q, &reg).unwrap();
    let b = solve_within(&q, &reg, DEFAULT_MAX_GROUND).unwrap();
    assert_eq!(a.sorts, b.sorts);
    assert_eq!(a.warnings, b.warnings);
}

#[test]
fn resolve_errors_name_what_failed() {
    let (_, n) = parse_spec("banana<>").unwrap();
    assert_eq!(resolve(&n, &reg()).unwrap_err(), "unknown component `banana`");
    let (_, n) = parse_spec("LL_partition< pivt = first_element >").unwrap();
    assert_eq!(resolve(&n, &reg()).unwrap_err(), "`LL_partition` has no slot named `pivt`");
    let (_, n) = parse_spec("quick_sort< partition = LL_partition, pivot = first_element >").unwrap();
    assert_eq!(resolve(&n, &reg()).unwrap_err(), "`quick_sort` requires slot `small_sort` (role SmallSort)");
    let (_, n) = parse_spec(
        "quick_sort< partition = first_element, pivot = first_element, small_sort = no_small_sort >",
    )
    .unwrap();
    assert_eq!(
        resolve(&n, &reg()).unwrap_err(),
        "slot `partition` of `quick_sort` needs role `Partition`, but `first_element` provides [\"Pivot\", \"PivotSingle\"]"
    );
    let (_, n) = parse_spec(
        "quick_sort< partition = LL_partition, pivot = first_element, small_sort = mango >",
    )
    .unwrap();
    assert_eq!(resolve(&n, &reg()).unwrap_err(), "unknown component `mango`");
}

#[test]
fn ground_never_exceeds_peak() {
    let reg = fixture();
    for src in [
        "s: Sort = shell_sort(seq = .);",
        "p: Pivot = combined(a = ., b = .);",
        "p: Pivot = ?2@1;",
        "let p: Pivot = .; let g: GapSequence = ?1@0;",
        "3 of let s: Sort = quick_sort(partition = ., pivot = ., small_sort = .);",
    ] {
        let e = est_of(src, &reg);
        assert!(fin(e.ground) <= fin(e.peak), "{src}: ground {} peak {}", e.ground.describe(), e.peak.describe());
    }
}

#[test]
fn an_empty_query_under_a_zero_budget_is_refused_as_too_large() {
    let reg = fixture();
    let q = Query { depth: DEFAULT_DEPTH, take: None, bindings: vec![] };
    let err = solve_within(&q, &reg, 0).unwrap_err();
    assert!(err.starts_with("query is too large to compile: estimated peak materialization of 1 trees exceeds the budget of 0."), "got: {err}");
}

#[test]
fn enumeration_lists_each_tree_once_headed_by_a_provider() {
    let reg = fixture();
    for role in ["Sort", "Pivot", "PivotSingle", "Partition", "SmallSort"] {
        for depth in 0..4usize {
            let trees = enumerate(&reg, role, depth);
            for (i, a) in trees.iter().enumerate() {
                for b in trees.iter().skip(i + 1) {
                    assert_ne!(a, b, "role {role} @ depth {depth} lists a tree twice");
                }
                assert!(reg.providing(role).iter().any(|c| c.name == a.name));
            }
        }
    }
}
