//! Emission of Rust source from resolved specs: one spec to an import-scoped
//! type alias with its label and dispatch function, or many specs to one
//! module with a dispatch table.
use vstd::prelude::*;
use crate::text::{debug_quoted, debug_str, decimal, owned, push_decimal, push_str, string_views};
use crate::registry::{insert_sorted_string, reg_parse, strictly_sorted, GComponent, Registry};
use crate::resolve::{res_node, resolve, resolved_view, GResolved, Resolved};
use crate::spec_lang::{parse_spec, spec_parse, SpecNode};
use crate::enumerate::nodes_view;

verus! {

/// `{indent}use {u};` per path, one per line.
pub open spec fn use_lines_s(uses: Seq<Seq<char>>, indent: Seq<char>) -> Seq<char>
    decreases uses.len(),
{
    if uses.len() == 0 {
        seq![]
    } else {
        use_lines_s(uses.drop_last(), indent) + indent + "use "@ + uses.last() + ";\n"@
    }
}

fn use_lines(uses: &Vec<String>, indent: &str) -> (r: String)
    ensures
        r@ == use_lines_s(string_views(uses@), indent@),
{
    let mut out = String::new();
    let mut i: usize = 0;
    assert(string_views(uses@).take(0) =~= seq![]);
    while i < uses.len()
        invariant
            i <= uses@.len(),
            out@ == use_lines_s(string_views(uses@).take(i as int), indent@),
        decreases uses@.len() - i,
    {
        let ghost sv = string_views(uses@);
        assert(sv.take(i + 1).drop_last() =~= sv.take(i as int));
        assert(sv.take(i + 1).last() == uses@[i as int]@);
        push_str(&mut out, indent);
        push_str(&mut out, "use ");
        push_str(&mut out, uses[i].as_str());
        push_str(&mut out, ";\n");
        i = i + 1;
    }
    assert(string_views(uses@).take(i as int) =~= string_views(uses@));
    out
}

/// One resolved spec as an import-scoped module exposing its type, label and
/// dispatch function under `alias`.
pub open spec fn emit_one_s(alias: Seq<char>, r: GResolved) -> Seq<char> {
    "#[allow(non_snake_case)]\nmod __"@ + alias + "_impl {\n    #[allow(unused_imports)] use super::*;\n"@ + use_lines_s(r.uses, "    "@) + "    pub type Ty = "@ + r.type_expr + ";\n    pub const NAME: &str = "@ + debug_str(r.label) + ";\n    pub fn run(arr: &mut [usize]) { <Ty>::sort(arr); }\n}\npub use __"@ + alias + "_impl::Ty as "@ + alias + ";\n#[allow(non_upper_case_globals)] pub use __"@ + alias + "_impl::NAME as "@ + alias + "_NAME;\n#[allow(non_snake_case)] pub use __"@ + alias + "_impl::run as "@ + alias + "_run;\n"@
}

/// One spec: a named type alias, its label and a dispatch function. The
/// imports are scoped inside a private module so overlapping `uses` of two
/// specs never collide.
pub fn emit_one(alias: &str, r: &Resolved) -> (out: String)
    ensures
        out@ == emit_one_s(alias@, resolved_view(*r)),
{
    let mut out = String::new();
    push_str(&mut out, "#[allow(non_snake_case)]\nmod __");
    push_str(&mut out, alias);
    push_str(&mut out, "_impl {\n    #[allow(unused_imports)] use super::*;\n");
    push_str(&mut out, use_lines(&r.uses, "    ").as_str());
    push_str(&mut out, "    pub type Ty = ");
    push_str(&mut out, r.type_expr.as_str());
    push_str(&mut out, ";\n    pub const NAME: &str = ");
    push_str(&mut out, debug_quoted(r.label.as_str()).as_str());
    push_str(&mut out, ";\n    pub fn run(arr: &mut [usize]) { <Ty>::sort(arr); }\n}\npub use __");
    push_str(&mut out, alias);
    push_str(&mut out, "_impl::Ty as ");
    push_str(&mut out, alias);
    push_str(&mut out, ";\n#[allow(non_upper_case_globals)] pub use __");
    push_str(&mut out, alias);
    push_str(&mut out, "_impl::NAME as ");
    push_str(&mut out, alias);
    push_str(&mut out, "_NAME;\n#[allow(non_snake_case)] pub use __");
    push_str(&mut out, alias);
    push_str(&mut out, "_impl::run as ");
    push_str(&mut out, alias);
    push_str(&mut out, "_run;\n");
    out
}

/// The alias lines of the table's `i`-th row.
pub open spec fn alias_lines_s(i: nat, ty: Seq<char>) -> Seq<char> {
    "    pub type S"@ + decimal(i) + " = "@ + ty + ";\n    pub fn s"@ + decimal(i) + "(arr: &mut [usize]) { <S"@ + decimal(i) + ">::sort(arr); }\n"@
}

/// The table's `i`-th row.
pub open spec fn row_s(i: nat, label: Seq<char>) -> Seq<char> {
    "        ("@ + debug_str(label) + ", s"@ + decimal(i) + "),\n"@
}

pub open spec fn aliases_s(rs: Seq<GResolved>) -> Seq<char>
    decreases rs.len(),
{
    if rs.len() == 0 {
        seq![]
    } else {
        aliases_s(rs.drop_last()) + alias_lines_s((rs.len() - 1) as nat, rs.last().type_expr)
    }
}

pub open spec fn rows_s(rs: Seq<GResolved>) -> Seq<char>
    decreases rs.len(),
{
    if rs.len() == 0 {
        seq![]
    } else {
        rows_s(rs.drop_last()) + row_s((rs.len() - 1) as nat, rs.last().label)
    }
}

/// The whole table module over resolutions `rs`, with imports `uses`.
pub open spec fn table_s(module: Seq<char>, uses: Seq<Seq<char>>, rs: Seq<GResolved>) -> Seq<char> {
    let aliases = aliases_s(rs);
    let rows = rows_s(rs);
    "pub mod "@ + module + " {\n    #[allow(unused_imports)] use super::*;\n"@ + use_lines_s(uses, "    "@) + aliases + "\n    pub const SORTS: &[(&str, fn(&mut [usize]))] = &[\n"@ + rows + "    ];\n}\n"@
}

/// `text` is the table over `rs` with their imports sorted and without
/// repeats.
pub open spec fn is_table(module: Seq<char>, rs: Seq<GResolved>, text: Seq<char>) -> bool {
    exists|u: Seq<Seq<char>>|
        #![trigger table_s(module, u, rs)]
        strictly_sorted(u) && (forall|x: Seq<char>|
            u.contains(x) <==> exists|i: int| 0 <= i < rs.len() && #[trigger] rs[i].uses.contains(x))
            && text == table_s(module, u, rs)
}

/// The resolutions of `specs`, or `None` if any fails to resolve.
pub open spec fn resolve_all(reg: Seq<GComponent>, specs: Seq<crate::spec_lang::GNode>) -> Option<Seq<GResolved>>
    decreases specs.len(),
{
    if specs.len() == 0 {
        Some(seq![])
    } else {
        match resolve_all(reg, specs.drop_last()) {
            Some(rs) => match res_node(reg, specs.last(), reg.len()) {
                Some(r) => Some(rs.push(r)),
                None => None,
            },
            None => None,
        }
    }
}

proof fn lemma_resolve_all_none(reg: Seq<GComponent>, ns: Seq<crate::spec_lang::GNode>, k: int)
    requires
        0 <= k <= ns.len(),
        resolve_all(reg, ns.take(k)) is None,
    ensures
        resolve_all(reg, ns) is None,
    decreases ns.len(),
{
    if k == ns.len() {
        assert(ns.take(k) =~= ns);
    } else {
        assert(ns.drop_last().take(k) =~= ns.take(k));
        lemma_resolve_all_none(reg, ns.drop_last(), k);
    }
}

/// `pat` occurs somewhere in `text`.
pub open spec fn occurs(text: Seq<char>, pat: Seq<char>) -> bool {
    exists|p: int| 0 <= p && p + pat.len() <= text.len() && #[trigger] text.subrange(p, p + pat.len()) == pat
}

proof fn lemma_occurs_left(a: Seq<char>, b: Seq<char>, pat: Seq<char>)
    requires
        occurs(a, pat),
    ensures
        occurs(a + b, pat),
{
    let p = choose|p: int| 0 <= p && p + pat.len() <= a.len() && #[trigger] a.subrange(p, p + pat.len()) == pat;
    assert((a + b).subrange(p, p + pat.len()) =~= a.subrange(p, p + pat.len()));
}

proof fn lemma_occurs_right(a: Seq<char>, b: Seq<char>, pat: Seq<char>)
    requires
        occurs(b, pat),
    ensures
        occurs(a + b, pat),
{
    let p = choose|p: int| 0 <= p && p + pat.len() <= b.len() && #[trigger] b.subrange(p, p + pat.len()) == pat;
    assert((a + b).subrange(a.len() + p, a.len() + p + pat.len()) =~= b.subrange(p, p + pat.len()));
}

/// The row for the `i`-th resolution occurs in the rows.
proof fn lemma_row_occurs(rs: Seq<GResolved>, i: int)
    requires
        0 <= i < rs.len(),
    ensures
        occurs(rows_s(rs), "        ("@ + debug_str(rs[i].label) + ", s"@ + decimal(i as nat) + "),\n"@),
    decreases rs.len(),
{
    if i == rs.len() - 1 {
        let pat = "        ("@ + debug_str(rs[i].label) + ", s"@ + decimal(i as nat) + "),\n"@;
        assert(rows_s(rs) == rows_s(rs.drop_last()) + pat);
        assert(occurs(pat, pat)) by {
            assert(pat.subrange(0int, 0int + pat.len()) =~= pat);
        }
        lemma_occurs_right(rows_s(rs.drop_last()), pat, pat);
    } else {
        lemma_row_occurs(rs.drop_last(), i);
        assert(rs.drop_last()[i] == rs[i]);
        lemma_occurs_left(rows_s(rs.drop_last()), row_s((rs.len() - 1) as nat, rs.last().label), "        ("@
            + debug_str(rs[i].label) + ", s"@ + decimal(i as nat) + "),\n"@);
    }
}

/// The alias lines for the `i`-th resolution occur in the aliases.
proof fn lemma_alias_occurs(rs: Seq<GResolved>, i: int)
    requires
        0 <= i < rs.len(),
    ensures
        occurs(aliases_s(rs), "    pub type S"@ + decimal(i as nat) + " = "@ + rs[i].type_expr + ";\n    pub fn s"@ + decimal(i as nat)
            + "(arr: &mut [usize]) { <S"@ + decimal(i as nat) + ">::sort(arr); }\n"@),
    decreases rs.len(),
{
    let pat = "    pub type S"@ + decimal(i as nat) + " = "@ + rs[i].type_expr + ";\n    pub fn s"@ + decimal(i as nat)
        + "(arr: &mut [usize]) { <S"@ + decimal(i as nat) + ">::sort(arr); }\n"@;
    if i == rs.len() - 1 {
        assert(aliases_s(rs) == aliases_s(rs.drop_last()) + pat);
        assert(occurs(pat, pat)) by {
            assert(pat.subrange(0int, 0int + pat.len()) =~= pat);
        }
        lemma_occurs_right(aliases_s(rs.drop_last()), pat, pat);
    } else {
        lemma_alias_occurs(rs.drop_last(), i);
        assert(rs.drop_last()[i] == rs[i]);
        lemma_occurs_left(aliases_s(rs.drop_last()), alias_lines_s((rs.len() - 1) as nat, rs.last().type_expr), pat);
    }
}

/// Every row of the dispatch table runs its own spec: the `i`-th row pairs
/// the `i`-th label with `s<i>`, `s<i>` sorts with `S<i>`, and `S<i>` is the
/// `i`-th type.
pub proof fn table_rows_run_their_own_sort(module: Seq<char>, u: Seq<Seq<char>>, rs: Seq<GResolved>, i: int)
    requires
        0 <= i < rs.len(),
    ensures
        occurs(table_s(module, u, rs), "        ("@ + debug_str(rs[i].label) + ", s"@ + decimal(i as nat) + "),\n"@),
        occurs(
            table_s(module, u, rs),
            "    pub type S"@ + decimal(i as nat) + " = "@ + rs[i].type_expr + ";\n    pub fn s"@ + decimal(i as nat)
                + "(arr: &mut [usize]) { <S"@ + decimal(i as nat) + ">::sort(arr); }\n"@,
        ),
{
    let row = "        ("@ + debug_str(rs[i].label) + ", s"@ + decimal(i as nat) + "),\n"@;
    let al = "    pub type S"@ + decimal(i as nat) + " = "@ + rs[i].type_expr + ";\n    pub fn s"@ + decimal(i as nat)
        + "(arr: &mut [usize]) { <S"@ + decimal(i as nat) + ">::sort(arr); }\n"@;
    let head = "pub mod "@ + module + " {\n    #[allow(unused_imports)] use super::*;\n"@ + use_lines_s(u, "    "@);
    let aliases = aliases_s(rs);
    let mid = "\n    pub const SORTS: &[(&str, fn(&mut [usize]))] = &[\n"@;
    let rows = rows_s(rs);
    let tail = "    ];\n}\n"@;
    assert(table_s(module, u, rs) == head + aliases + mid + rows + tail);
    lemma_row_occurs(rs, i);
    lemma_occurs_right(head + aliases + mid, rows, row);
    lemma_occurs_left(head + aliases + mid + rows, tail, row);
    lemma_alias_occurs(rs, i);
    lemma_occurs_right(head, aliases, al);
    lemma_occurs_left(head + aliases, mid, al);
    lemma_occurs_left(head + aliases + mid, rows, al);
    lemma_occurs_left(head + aliases + mid + rows, tail, al);
}

/// Many specs to one module with a `SORTS` dispatch table; the union of all
/// imports is emitted once, sorted and without repeats.
pub fn generate_table(reg: &Registry, specs: &Vec<SpecNode>, module: &str) -> (r: Result<String, String>)
    ensures
        match resolve_all(reg@, nodes_view(specs@)) {
            None => r is Err,
            Some(rs) => r is Ok && is_table(module@, rs, r->Ok_0@),
        },
        r matches Ok(t) ==> forall|i: int|
            0 <= i < specs@.len() ==> #[trigger] occurs(
                t@,
                "        ("@ + debug_str(resolve_all(reg@, nodes_view(specs@))->0[i].label) + ", s"@ + decimal(i as nat) + "),\n"@,
            ) && occurs(
                t@,
                "    pub type S"@ + decimal(i as nat) + " = "@ + resolve_all(reg@, nodes_view(specs@))->0[i].type_expr
                    + ";\n    pub fn s"@ + decimal(i as nat) + "(arr: &mut [usize]) { <S"@ + decimal(i as nat)
                    + ">::sort(arr); }\n"@,
            ),
{
    let ghost ns = nodes_view(specs@);
    let mut all_uses: Vec<String> = Vec::new();
    let mut aliases = String::new();
    let mut rows = String::new();
    let ghost mut rs: Seq<GResolved> = seq![];
    let mut i: usize = 0;
    assert(ns.take(0) =~= seq![]);
    while i < specs.len()
        invariant
            i <= specs@.len(),
            ns == nodes_view(specs@),
            resolve_all(reg@, ns.take(i as int)) == Some(rs),
            rs.len() == i,
            aliases@ == aliases_s(rs),
            rows@ == rows_s(rs),
            strictly_sorted(string_views(all_uses@)),
            forall|x: Seq<char>|
                string_views(all_uses@).contains(x) <==> exists|k: int|
                    0 <= k < rs.len() && #[trigger] rs[k].uses.contains(x),
        decreases specs@.len() - i,
    {
        assert(ns.take(i + 1).drop_last() =~= ns.take(i as int));
        assert(ns[i as int] == crate::spec_lang::node_view(specs@[i as int]));
        let r = match resolve(&specs[i], reg) {
            Ok(r) => r,
            Err(e) => {
                proof {
                    lemma_resolve_all_none(reg@, ns, i + 1);
                }
                return Err(e);
            },
        };
        let ghost rv = resolved_view(r);
        let ghost before = string_views(all_uses@);
        assert(forall|x: Seq<char>|
            before.contains(x) <==> exists|q: int| 0 <= q < rs.len() && #[trigger] rs[q].uses.contains(x));
        let mut k: usize = 0;
        while k < r.uses.len()
            invariant
                k <= r.uses@.len(),
                rv == resolved_view(r),
                strictly_sorted(string_views(all_uses@)),
                forall|x: Seq<char>|
                    string_views(all_uses@).contains(x) <==> (before.contains(x) || string_views(r.uses@).take(k as int).contains(x)),
            decreases r.uses@.len() - k,
        {
            let ghost tk = string_views(r.uses@).take(k as int);
            let ghost xk = r.uses@[k as int]@;
            let ghost cur = string_views(all_uses@);
            assert(forall|x: Seq<char>| cur.contains(x) <==> (before.contains(x) || tk.contains(x)));
            assert(string_views(r.uses@).take(k + 1) =~= tk.push(xk));
            if !crate::resolve::contains_string(&all_uses, &r.uses[k]) {
                insert_sorted_string(&mut all_uses, crate::text::copy_string(&r.uses[k]));
            }
            proof {
                broadcast use vstd::seq_lib::group_seq_properties;
                assert forall|x: Seq<char>|
                    string_views(all_uses@).contains(x) <==> (before.contains(x) || tk.push(xk).contains(x)) by {
                    assert(tk.push(xk).contains(x) <==> (tk.contains(x) || x == xk));
                }
            }
            k = k + 1;
        }
        assert(string_views(r.uses@).take(k as int) =~= string_views(r.uses@));
        assert(forall|x: Seq<char>|
            string_views(all_uses@).contains(x) <==> (before.contains(x) || rv.uses.contains(x)));
        push_str(&mut aliases, "    pub type S");
        push_decimal(&mut aliases, i as u128);
        push_str(&mut aliases, " = ");
        push_str(&mut aliases, r.type_expr.as_str());
        push_str(&mut aliases, ";\n    pub fn s");
        push_decimal(&mut aliases, i as u128);
        push_str(&mut aliases, "(arr: &mut [usize]) { <S");
        push_decimal(&mut aliases, i as u128);
        push_str(&mut aliases, ">::sort(arr); }\n");
        push_str(&mut rows, "        (");
        push_str(&mut rows, debug_quoted(r.label.as_str()).as_str());
        push_str(&mut rows, ", s");
        push_decimal(&mut rows, i as u128);
        push_str(&mut rows, "),\n");
        proof {
            let rs2 = rs.push(rv);
            assert(rs2.drop_last() =~= rs);
            assert forall|x: Seq<char>|
                string_views(all_uses@).contains(x) <==> exists|q: int|
                    0 <= q < rs2.len() && #[trigger] rs2[q].uses.contains(x) by {
                if exists|q: int| 0 <= q < rs2.len() && #[trigger] rs2[q].uses.contains(x) {
                    let q = choose|q: int| 0 <= q < rs2.len() && #[trigger] rs2[q].uses.contains(x);
                    if q < rs.len() {
                        assert(rs[q] == rs2[q]);
                    }
                }
                if before.contains(x) {
                    let q = choose|q: int| 0 <= q < rs.len() && #[trigger] rs[q].uses.contains(x);
                    assert(rs2[q] == rs[q]);
                }
                if rv.uses.contains(x) {
                    assert(rs2[rs.len() as int] == rv);
                }
            }
            rs = rs2;
        }
        i = i + 1;
    }
    assert(ns.take(i as int) =~= ns);
    let mut out = String::new();
    push_str(&mut out, "pub mod ");
    push_str(&mut out, module);
    push_str(&mut out, " {\n    #[allow(unused_imports)] use super::*;\n");
    push_str(&mut out, use_lines(&all_uses, "    ").as_str());
    push_str(&mut out, aliases.as_str());
    push_str(&mut out, "\n    pub const SORTS: &[(&str, fn(&mut [usize]))] = &[\n");
    push_str(&mut out, rows.as_str());
    push_str(&mut out, "    ];\n}\n");
    assert(out@ == table_s(module@, string_views(all_uses@), rs));
    assert(strictly_sorted(string_views(all_uses@)));
    assert(resolve_all(reg@, nodes_view(specs@)) == Some(rs));
    assert(forall|x: Seq<char>|
        string_views(all_uses@).contains(x) <==> exists|q: int| 0 <= q < rs.len() && #[trigger] rs[q].uses.contains(x));
    assert(is_table(module@, rs, out@));
    proof {
        assert forall|i: int| 0 <= i < specs@.len() implies #[trigger] occurs(
            out@,
            "        ("@ + debug_str(rs[i].label) + ", s"@ + decimal(i as nat) + "),\n"@,
        ) && occurs(
            out@,
            "    pub type S"@ + decimal(i as nat) + " = "@ + rs[i].type_expr + ";\n    pub fn s"@ + decimal(i as nat)
                + "(arr: &mut [usize]) { <S"@ + decimal(i as nat) + ">::sort(arr); }\n"@,
        ) by {
            table_rows_run_their_own_sort(module@, string_views(all_uses@), rs, i);
        }
    }
    Ok(out)
}


/// What the inline front end produces for `Alias = <spec tree>` against a
/// catalog text: the emitted module of the resolved spec, or `None` when the
/// catalog or the spec does not parse, the alias is missing, or the tree does
/// not resolve.
pub open spec fn compile_s(registry: Seq<char>, input: Seq<char>) -> Option<Seq<char>> {
    match reg_parse(registry) {
        None => None,
        Some(reg) => match spec_parse(input) {
            None => None,
            Some((alias, node)) => match alias {
                None => None,
                Some(a) => match res_node(reg, node, reg.len()) {
                    None => None,
                    Some(g) => Some(emit_one_s(a, g)),
                },
            },
        },
    }
}

/// The inline front end's whole pipeline: load the catalog, parse one aliased
/// spec tree, resolve it and emit its module.
pub fn compile(registry: &str, input: &str) -> (r: Result<String, String>)
    requires
        input@.len() < usize::MAX - 2,
    ensures
        match compile_s(registry@, input@) {
            Some(out) => r is Ok && r->Ok_0@ == out,
            None => r is Err,
        },
{
    let reg = match Registry::parse(registry) {
        Ok(reg) => reg,
        Err(e) => return Err(e),
    };
    let (alias, node) = match parse_spec(input) {
        Ok(p) => p,
        Err(e) => return Err(e),
    };
    let alias = match alias {
        Some(a) => a,
        None => return Err(owned("expected `Alias = <spec tree>`")),
    };
    let resolved = match resolve(&node, &reg) {
        Ok(r) => r,
        Err(e) => return Err(e),
    };
    Ok(emit_one(alias.as_str(), &resolved))
}

} // verus!
