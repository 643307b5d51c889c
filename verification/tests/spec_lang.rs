use array_vis_bench::spec_lang::{
    parse_query, parse_spec, Arg, Binding, QArg, QValue, Quant, Refinement, SpecNode, Take,
    DEFAULT_DEPTH,
};
// ── parse_spec — the angle-bracket spec-tree form ──────────────────────────

fn node(name: &str, args: Vec<Arg>) -> SpecNode {
    SpecNode { name: name.to_string(), args }
}

#[test]
fn spec_bare_nullary() {
    assert_eq!(parse_spec("first_element").unwrap(), (None, node("first_element", vec![])));
}

#[test]
fn spec_alias_prefix() {
    let (alias, n) = parse_spec("Q = quick_sort< partition = LL >").unwrap();
    assert_eq!(alias, Some("Q".to_string()));
    assert_eq!(n, node("quick_sort", vec![Arg::Slot { name: "partition".into(), value: node("LL", vec![]) }]));
}

#[test]
fn spec_positional_const() {
    assert_eq!(parse_spec("insertion<32>").unwrap(), (None, node("insertion", vec![Arg::Const("32".into())])));
}

#[test]
fn spec_named_slot_and_nested_const() {
    let (_, n) = parse_spec("insertion< strategy = binary, 32 >").unwrap();
    assert_eq!(
        n,
        node(
            "insertion",
            vec![
                Arg::Slot { name: "strategy".into(), value: node("binary", vec![]) },
                Arg::Const("32".into()),
            ]
        )
    );
}

#[test]
fn spec_bool_named_const() {
    let (_, n) = parse_spec("m< ping_pong = true, early_exit = false >").unwrap();
    assert_eq!(
        n,
        node(
            "m",
            vec![
                Arg::NamedConst { name: "ping_pong".into(), value: "true".into() },
                Arg::NamedConst { name: "early_exit".into(), value: "false".into() },
            ]
        )
    );
}

#[test]
fn spec_deeply_nested() {
    let (_, n) = parse_spec("a< x = b< y = c<> > >").unwrap();
    assert_eq!(
        n,
        node("a", vec![Arg::Slot {
            name: "x".into(),
            value: node("b", vec![Arg::Slot { name: "y".into(), value: node("c", vec![]) }]),
        }])
    );
}

#[test]
fn spec_commas_are_optional() {
    // whitespace-separated args parse the same as comma-separated.
    let a = parse_spec("combined< a = first  b = mid >").unwrap().1;
    let b = parse_spec("combined< a = first, b = mid >").unwrap().1;
    assert_eq!(a, b);
}

#[test]
fn spec_errors() {
    assert!(parse_spec("insertion<").is_err()); // unterminated `<`
    assert!(parse_spec("LL_partition< pivt first >").is_err()); // slot without `=`
    assert!(parse_spec("foo bar").is_err()); // trailing tokens
    assert!(parse_spec("foo< $ >").is_err()); // bad character
}

// ── parse_query — the let-binding constraint language ───────────────────────

fn hole(value: QValue) -> Binding {
    Binding { name: "s".into(), role: "Sort".into(), refinements: vec![], value }
}

#[test]
fn query_compact_and_let_forms_agree() {
    let compact = parse_query("s: Sort = shell_sort(seq = .);").unwrap();
    let letform = parse_query("let s: Sort = shell_sort(seq = .);").unwrap();
    assert_eq!(compact, letform);
    assert_eq!(
        compact.bindings[0].value,
        QValue::App {
            name: "shell_sort".into(),
            args: vec![QArg::Named { name: "seq".into(), value: QValue::Hole(Quant::Exhaustive) }],
        }
    );
}

#[test]
fn query_all_hole_quantifiers() {
    let q = |src: &str| parse_query(src).unwrap().bindings[0].value.clone();
    assert_eq!(q("s: Sort = .;"), QValue::Hole(Quant::Exhaustive));
    assert_eq!(q("s: Sort = *;"), QValue::Hole(Quant::Exhaustive));
    assert_eq!(q("s: Sort = ?;"), QValue::Hole(Quant::One { seed: 0 }));
    assert_eq!(q("s: Sort = ?@7;"), QValue::Hole(Quant::One { seed: 7 }));
    assert_eq!(q("s: Sort = ?3;"), QValue::Hole(Quant::N { n: 3, seed: 0 }));
    assert_eq!(q("s: Sort = ?3@7;"), QValue::Hole(Quant::N { n: 3, seed: 7 }));
}

#[test]
fn query_refinements() {
    let q = parse_query("let part: Partition[pivot = p] = .;").unwrap();
    assert_eq!(q.bindings[0].role, "Partition");
    assert_eq!(
        q.bindings[0].refinements,
        vec![Refinement { param: "pivot".into(), value: QValue::Ident("p".into()) }]
    );
}

#[test]
fn query_multiple_bindings_in_order() {
    let q = parse_query("let p: Pivot = .; let s: Sort = quick_sort(pivot = p);").unwrap();
    assert_eq!(q.bindings.len(), 2);
    assert_eq!(q.bindings[0].name, "p");
    assert_eq!(q.bindings[1].name, "s");
}

#[test]
fn query_app_named_and_positional_args() {
    let q = parse_query("s: Sort = insertion(strategy = binary, 32);").unwrap();
    assert_eq!(
        q.bindings[0].value,
        QValue::App {
            name: "insertion".into(),
            args: vec![
                QArg::Named { name: "strategy".into(), value: QValue::Ident("binary".into()) },
                QArg::Pos(QValue::Const("32".into())),
            ],
        }
    );
}

#[test]
fn query_const_and_bool_values() {
    assert_eq!(parse_query("n: Num = 32;").unwrap().bindings[0].value, QValue::Const("32".into()));
    assert_eq!(parse_query("b: Flag = true;").unwrap().bindings[0].value, QValue::Const("true".into()));
    // a non-bool identifier is an Ident (a var/nullary ref), not a const.
    assert_eq!(parse_query("x: R = foo;").unwrap().bindings[0].value, QValue::Ident("foo".into()));
}

#[test]
fn query_depth_and_take_directives() {
    let q = parse_query("depth 3; let s: Sort = .;").unwrap();
    assert_eq!(q.depth, 3);
    assert_eq!(q.take, None);

    let q = parse_query("3 of @7 let s: Sort = .;").unwrap();
    assert_eq!(q.take, Some(Take { n: 3, seed: 7 }));

    let q = parse_query("5 of let s: Sort = .;").unwrap();
    assert_eq!(q.take, Some(Take { n: 5, seed: 0 }));

    // default depth when omitted
    assert_eq!(parse_query("s: Sort = .;").unwrap().depth, DEFAULT_DEPTH);
}

#[test]
fn query_line_comments_ignored() {
    let q = parse_query("# pick a shell sort\nlet s: Sort = .; # done\n").unwrap();
    assert_eq!(q.bindings.len(), 1);
    let _ = hole(QValue::Hole(Quant::Exhaustive)); // (helper kept used)
}

#[test]
fn query_errors() {
    assert!(parse_query("").is_err()); // no bindings
    assert!(parse_query("s Sort = .;").is_err()); // missing colon
    assert!(parse_query("s: Sort = .").is_err()); // missing terminating `;`
    assert!(parse_query("s: Sort = $;").is_err()); // bad character
    assert!(parse_query("s: Sort = quick_sort(pivot = .;").is_err()); // unterminated `(`
}

#[test]
fn empty_query_names_the_missing_target() {
    assert_eq!(
        parse_query("").unwrap_err(),
        "a query needs at least one binding (the target)".to_string()
    );
    assert_eq!(
        parse_query("depth 3;\n# nothing else\n").unwrap_err(),
        "a query needs at least one binding (the target)".to_string()
    );
}
