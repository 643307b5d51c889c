//! Resolution of a [`SpecNode`] against the [`Registry`]: defaults filled in,
//! slot roles and arity checked, imports collected, and the concrete Rust type
//! expression, label, label template and navigation axes produced.
use vstd::prelude::*;
use crate::text::{
    chars_of, chars_eq, copy_string, hole, is_ws, is_whitespace, make_hole, matches_at, owned,
    push_str, replace, replace_string, starts_with_at, string_of, string_views,
    lemma_string_views_push,
};
use crate::registry::{
    comp_view, find, find_param, kind_view, param_view, params_view, Component, GComponent,
    GParam, GParamKind, ParamKind, Registry,
};
use crate::spec_lang::{arg_view, args_view, node_view, Arg, GArg, GNode, SpecNode};

verus! {

/// One faceted navigation axis: a slot's `role`, the chosen filler's head
/// label `value`, and a `/`-separated `path` encoding the nesting.
#[derive(Debug, Clone, PartialEq)]
pub struct AxisNode {
    pub role: String,
    pub value: String,
    pub path: String,
}

/// A spec tree resolved to a concrete type.
#[derive(Debug, Clone)]
pub struct Resolved {
    pub type_expr: String,
    pub label: String,
    /// Unioned module paths this concrete type needs in scope.
    pub uses: Vec<String>,
    /// Structural axes in pre-order: each direct type slot's node, followed by
    /// its filler's own axes with paths prefixed by `"<slot>/"`.
    pub axes: Vec<AxisNode>,
    /// `label` with each direct type slot replaced by a `{Role}` hole.
    pub label_template: String,
}

// ───────────────────────────── abstract views ─────────────────────────────

pub ghost struct GAxis {
    pub role: Seq<char>,
    pub value: Seq<char>,
    pub path: Seq<char>,
}

pub ghost struct GResolved {
    pub type_expr: Seq<char>,
    pub label: Seq<char>,
    pub uses: Seq<Seq<char>>,
    pub axes: Seq<GAxis>,
    pub label_template: Seq<char>,
}

pub open spec fn axis_view(a: AxisNode) -> GAxis {
    GAxis { role: a.role@, value: a.value@, path: a.path@ }
}

pub open spec fn axes_view(s: Seq<AxisNode>) -> Seq<GAxis> {
    s.map_values(|a: AxisNode| axis_view(a))
}

pub open spec fn resolved_view(r: Resolved) -> GResolved {
    GResolved {
        type_expr: r.type_expr@,
        label: r.label@,
        uses: string_views(r.uses@),
        axes: axes_view(r.axes@),
        label_template: r.label_template@,
    }
}

// ───────────────────────────── the model ─────────────────────────────

/// A size for a spec tree that strictly shrinks into every slot value.
pub open spec fn node_size(n: GNode) -> nat
    decreases n,
{
    1 + args_size(n.args)
}

pub open spec fn args_size(a: Seq<GArg>) -> nat
    decreases a,
{
    if a.len() == 0 {
        0
    } else {
        args_size(a.drop_last()) + match a.last() {
            GArg::Slot { value, .. } => node_size(value),
            _ => 0,
        }
    }
}

/// The value of the last `name = <tree>` slot argument (a later one wins).
pub open spec fn last_slot(a: Seq<GArg>, name: Seq<char>) -> Option<GNode>
    decreases a.len(),
{
    if a.len() == 0 {
        None
    } else {
        match a.last() {
            GArg::Slot { name: n, value } => if n == name {
                Some(value)
            } else {
                last_slot(a.drop_last(), name)
            },
            _ => last_slot(a.drop_last(), name),
        }
    }
}

/// The value of the last `name = <literal>` const argument.
pub open spec fn last_named_const(a: Seq<GArg>, name: Seq<char>) -> Option<Seq<char>>
    decreases a.len(),
{
    if a.len() == 0 {
        None
    } else {
        match a.last() {
            GArg::NamedConst { name: n, value } => if n == name {
                Some(value)
            } else {
                last_named_const(a.drop_last(), name)
            },
            _ => last_named_const(a.drop_last(), name),
        }
    }
}

/// The positional const literals, in order.
pub open spec fn pos_consts(a: Seq<GArg>) -> Seq<Seq<char>>
    decreases a.len(),
{
    if a.len() == 0 {
        seq![]
    } else {
        match a.last() {
            GArg::Const(v) => pos_consts(a.drop_last()).push(v),
            _ => pos_consts(a.drop_last()),
        }
    }
}

pub open spec fn has_type_param(ps: Seq<GParam>, name: Seq<char>) -> bool {
    exists|i: int| 0 <= i < ps.len() && ps[i].name == name && ps[i].kind is Type
}

pub open spec fn has_const_param(ps: Seq<GParam>, name: Seq<char>) -> bool {
    exists|i: int| 0 <= i < ps.len() && ps[i].name == name && ps[i].kind is Const
}

/// Every named argument names a parameter of the right kind.
pub open spec fn args_ok(ps: Seq<GParam>, a: Seq<GArg>) -> bool {
    forall|i: int|
        0 <= i < a.len() ==> match #[trigger] a[i] {
            GArg::Slot { name, .. } => has_type_param(ps, name),
            GArg::NamedConst { name, .. } => has_const_param(ps, name),
            GArg::Const(_) => true,
        }
}

/// The first position of `p` in `s` at or after `i`.
pub open spec fn find_sub_from(s: Seq<char>, p: Seq<char>, i: int) -> Option<int>
    decreases s.len() + 1 - i,
{
    if i < 0 || i + p.len() > s.len() {
        None
    } else if starts_with_at(s, i, p) {
        Some(i)
    } else {
        find_sub_from(s, p, i + 1)
    }
}

pub open spec fn min_opt(a: Option<int>, b: Option<int>) -> Option<int> {
    match (a, b) {
        (Some(x), Some(y)) => Some(if x <= y { x } else { y }),
        (Some(x), None) => Some(x),
        (None, y) => y,
    }
}

/// The earliest position in `t` of a type-slot hole `{name}`.
pub open spec fn first_hole(t: Seq<char>, ps: Seq<GParam>) -> Option<int>
    decreases ps.len(),
{
    if ps.len() == 0 {
        None
    } else {
        min_opt(
            first_hole(t, ps.drop_last()),
            if ps.last().kind is Type {
                find_sub_from(t, hole(ps.last().name), 0)
            } else {
                None
            },
        )
    }
}

pub open spec fn is_head_trim(c: char) -> bool {
    c == '<' || c == '(' || c == '[' || is_ws(c)
}

pub open spec fn head_trim(s: Seq<char>) -> Seq<char>
    decreases s.len(),
{
    if s.len() > 0 && is_head_trim(s.last()) {
        head_trim(s.drop_last())
    } else {
        s
    }
}

/// The navigation head label of a filler: a composite's label template up to
/// its first type-slot hole (trailing bracket/space trimmed), else the full
/// resolved label.
pub open spec fn head_label_of(c: GComponent, resolved_label: Seq<char>) -> Seq<char> {
    match first_hole(c.label_tmpl, c.params) {
        Some(i) => head_trim(c.label_tmpl.take(i)),
        None => resolved_label,
    }
}

/// `acc` extended by each of `add` not already present.
pub open spec fn union_into(acc: Seq<Seq<char>>, add: Seq<Seq<char>>) -> Seq<Seq<char>>
    decreases add.len(),
{
    if add.len() == 0 {
        acc
    } else {
        union_into(
            if acc.contains(add[0]) {
                acc
            } else {
                acc.push(add[0])
            },
            add.drop_first(),
        )
    }
}

pub proof fn lemma_union_into_contains(acc: Seq<Seq<char>>, add: Seq<Seq<char>>)
    ensures
        forall|x: Seq<char>|
            #[trigger] union_into(acc, add).contains(x) <==> (acc.contains(x) || add.contains(x)),
    decreases add.len(),
{
    broadcast use vstd::seq_lib::group_seq_properties;
    if add.len() > 0 {
        let acc2 = if acc.contains(add[0]) {
            acc
        } else {
            acc.push(add[0])
        };
        lemma_union_into_contains(acc2, add.drop_first());
        assert(union_into(acc, add) == union_into(acc2, add.drop_first()));
        assert forall|x: Seq<char>| #[trigger] union_into(acc, add).contains(x) <==> (acc.contains(x) || add.contains(x)) by {
            assert(union_into(acc2, add.drop_first()).contains(x) <==> (acc2.contains(x) || add.drop_first().contains(x)));
            assert(acc2.contains(x) <==> (acc.contains(x) || x == add[0]));
            assert(add[0] == add[0] && add.contains(add[0]));
            if add.contains(x) && x != add[0] {
                let q = choose|q: int| 0 <= q < add.len() && add[q] == x;
                assert(add.drop_first()[q - 1] == x);
            }
            if add.drop_first().contains(x) {
                let q = choose|q: int| 0 <= q < add.drop_first().len() && add.drop_first()[q] == x;
                assert(add[q + 1] == x);
            }
        }
    }
}

pub open spec fn prefix_axes(axes: Seq<GAxis>, slot: Seq<char>) -> Seq<GAxis> {
    axes.map_values(
        |a: GAxis| GAxis { role: a.role, value: a.value, path: slot + seq!['/'] + a.path },
    )
}

pub open spec fn start_of(c: GComponent) -> GResolved {
    GResolved {
        type_expr: c.type_tmpl,
        label: c.label_tmpl,
        uses: c.uses,
        axes: seq![],
        label_template: c.label_tmpl,
    }
}

/// The resolution of `node` in catalog `reg`; `fuel` bounds how many defaults
/// may be expanded along one path (`None` on any error).
pub open spec fn res_node(reg: Seq<GComponent>, node: GNode, fuel: nat) -> Option<GResolved>
    decreases fuel, node_size(node), 1nat, 0nat,
{
    match find(reg, node.name) {
        None => None,
        Some(ci) => if 0 <= ci < reg.len() && args_ok(reg[ci].params, node.args) {
            res_params(reg, node, reg[ci], fuel, 0, 0, start_of(reg[ci]))
        } else {
            None
        },
    }
}

/// The parameters of `comp` from the `k`-th on, applied to `acc`; `pos` counts
/// the positional consts already used.
pub open spec fn res_params(
    reg: Seq<GComponent>,
    node: GNode,
    comp: GComponent,
    fuel: nat,
    k: nat,
    pos: nat,
    acc: GResolved,
) -> Option<GResolved>
    decreases fuel, node_size(node), 0nat, if k < comp.params.len() {
        (comp.params.len() - k) as nat
    } else {
        0nat
    },
{
    if k >= comp.params.len() {
        Some(acc)
    } else {
        let p = comp.params[k as int];
        let h = hole(p.name);
        match p.kind {
            GParamKind::Type { role, default } => {
                let explicit = last_slot(node.args, p.name);
                if explicit is None && (default is None || fuel == 0) {
                    None
                } else {
                    let child = match explicit {
                        Some(c) => c,
                        None => GNode { name: default->0, args: seq![] },
                    };
                    let f2: nat = if explicit is Some {
                        fuel
                    } else {
                        (fuel - 1) as nat
                    };
                    match find(reg, child.name) {
                        None => None,
                        Some(cci) => if 0 <= cci < reg.len() && reg[cci].provides.contains(role) {
                            proof {
                                lemma_last_slot_size(node.args, p.name);
                            }
                            match res_node(reg, child, f2) {
                                None => None,
                                Some(r) => res_params(
                                    reg,
                                    node,
                                    comp,
                                    fuel,
                                    k + 1,
                                    pos,
                                    GResolved {
                                        type_expr: replace(acc.type_expr, h, r.type_expr),
                                        label: replace(acc.label, h, r.label),
                                        uses: union_into(acc.uses, r.uses),
                                        axes: acc.axes.push(
                                            GAxis {
                                                role,
                                                value: head_label_of(reg[cci], r.label),
                                                path: p.name,
                                            },
                                        ) + prefix_axes(r.axes, p.name),
                                        label_template: replace(
                                            acc.label_template,
                                            h,
                                            hole(role),
                                        ),
                                    },
                                ),
                            }
                        } else {
                            None
                        },
                    }
                }
            },
            GParamKind::Const { default, .. } => {
                let named = last_named_const(node.args, p.name);
                let pc = pos_consts(node.args);
                let value: Option<Seq<char>> = if named is Some {
                    named
                } else if pos < pc.len() {
                    Some(pc[pos as int])
                } else {
                    default
                };
                let pos2: nat = if named is None && pos < pc.len() {
                    pos + 1
                } else {
                    pos
                };
                match value {
                    None => None,
                    Some(v) => res_params(
                        reg,
                        node,
                        comp,
                        fuel,
                        k + 1,
                        pos2,
                        GResolved {
                            type_expr: replace(acc.type_expr, h, v),
                            label: replace(acc.label, h, v),
                            label_template: replace(acc.label_template, h, v),
                            ..acc
                        },
                    ),
                }
            },
            GParamKind::Project { .. } => res_params(reg, node, comp, fuel, k + 1, pos, acc),
        }
    }
}

pub proof fn lemma_last_slot_size(a: Seq<GArg>, name: Seq<char>)
    ensures
        last_slot(a, name) matches Some(c) ==> node_size(c) <= args_size(a),
    decreases a.len(),
{
    if a.len() > 0 {
        lemma_last_slot_size(a.drop_last(), name);
    }
}



// ───────────────────────────── error messages ─────────────────────────────

/// `format!("{:?}", v)` of a list of strings: each debug-quoted, separated by
/// `, `, in square brackets.
pub open spec fn debug_list(v: Seq<Seq<char>>) -> Seq<char> {
    "["@ + crate::cardinality::join_roles(v.map_values(|x: Seq<char>| crate::text::debug_str(x))) + "]"@
}

/// The error for a slot filler that does not provide the slot's role.
pub open spec fn role_error(slot: Seq<char>, node: Seq<char>, role: Seq<char>, child: Seq<char>, provides: Seq<Seq<char>>) -> Seq<char> {
    "slot `"@ + slot + "` of `"@ + node + "` needs role `"@ + role + "`, but `"@ + child + "` provides "@
        + debug_list(provides)
}

pub open spec fn unknown_error(name: Seq<char>) -> Seq<char> {
    "unknown component `"@ + name + "`"@
}

/// The error for the first named argument, from the `i`-th on, that names no
/// parameter of its kind (`None` when there is none).
pub open spec fn args_error(node: Seq<char>, ps: Seq<GParam>, a: Seq<GArg>, i: int) -> Option<Seq<char>>
    decreases a.len() - i,
{
    if i < 0 || i >= a.len() {
        None
    } else {
        match a[i] {
            GArg::Slot { name, .. } => if !has_type_param(ps, name) {
                Some("`"@ + node + "` has no slot named `"@ + name + "`"@)
            } else {
                args_error(node, ps, a, i + 1)
            },
            GArg::NamedConst { name, .. } => if !has_const_param(ps, name) {
                Some("`"@ + node + "` has no const named `"@ + name + "`"@)
            } else {
                args_error(node, ps, a, i + 1)
            },
            GArg::Const(_) => args_error(node, ps, a, i + 1),
        }
    }
}

/// Why resolving `node` fails, when [`res_node`] gives `None`: the first
/// check that fails, in the order resolution makes them.
pub open spec fn res_error(reg: Seq<GComponent>, node: GNode, fuel: nat) -> Seq<char>
    decreases fuel, node_size(node), 1nat, 0nat,
{
    match find(reg, node.name) {
        None => unknown_error(node.name),
        Some(ci) => if 0 <= ci < reg.len() {
            match args_error(node.name, reg[ci].params, node.args, 0) {
                Some(m) => m,
                None => res_params_error(reg, node, reg[ci], fuel, 0, 0, start_of(reg[ci])),
            }
        } else {
            seq![]
        },
    }
}

/// Why applying the parameters of `comp` from the `k`-th on fails, when
/// [`res_params`] gives `None`.
pub open spec fn res_params_error(
    reg: Seq<GComponent>,
    node: GNode,
    comp: GComponent,
    fuel: nat,
    k: nat,
    pos: nat,
    acc: GResolved,
) -> Seq<char>
    decreases fuel, node_size(node), 0nat, if k < comp.params.len() {
        (comp.params.len() - k) as nat
    } else {
        0nat
    },
{
    if k >= comp.params.len() {
        seq![]
    } else {
        let p = comp.params[k as int];
        let h = hole(p.name);
        match p.kind {
            GParamKind::Type { role, default } => {
                let explicit = last_slot(node.args, p.name);
                if explicit is None && default is None {
                    "`"@ + node.name + "` requires slot `"@ + p.name + "` (role "@ + role + ")"@
                } else if explicit is None && fuel == 0 {
                    "defaults of `"@ + node.name + "` nest without end"@
                } else {
                    let child = match explicit {
                        Some(c) => c,
                        None => GNode { name: default->0, args: seq![] },
                    };
                    let f2: nat = if explicit is Some {
                        fuel
                    } else {
                        (fuel - 1) as nat
                    };
                    match find(reg, child.name) {
                        None => unknown_error(child.name),
                        Some(cci) => if 0 <= cci < reg.len() && reg[cci].provides.contains(role) {
                            proof {
                                lemma_last_slot_size(node.args, p.name);
                            }
                            match res_node(reg, child, f2) {
                                None => res_error(reg, child, f2),
                                Some(r) => res_params_error(
                                    reg,
                                    node,
                                    comp,
                                    fuel,
                                    k + 1,
                                    pos,
                                    GResolved {
                                        type_expr: replace(acc.type_expr, h, r.type_expr),
                                        label: replace(acc.label, h, r.label),
                                        uses: union_into(acc.uses, r.uses),
                                        axes: acc.axes.push(
                                            GAxis {
                                                role,
                                                value: head_label_of(reg[cci], r.label),
                                                path: p.name,
                                            },
                                        ) + prefix_axes(r.axes, p.name),
                                        label_template: replace(
                                            acc.label_template,
                                            h,
                                            hole(role),
                                        ),
                                    },
                                ),
                            }
                        } else if 0 <= cci < reg.len() {
                            role_error(p.name, node.name, role, child.name, reg[cci].provides)
                        } else {
                            seq![]
                        },
                    }
                }
            },
            GParamKind::Const { default, .. } => {
                let named = last_named_const(node.args, p.name);
                let pc = pos_consts(node.args);
                let value: Option<Seq<char>> = if named is Some {
                    named
                } else if pos < pc.len() {
                    Some(pc[pos as int])
                } else {
                    default
                };
                let pos2: nat = if named is None && pos < pc.len() {
                    pos + 1
                } else {
                    pos
                };
                match value {
                    None => "`"@ + node.name + "` needs a value for const `"@ + p.name + "`"@,
                    Some(v) => res_params_error(
                        reg,
                        node,
                        comp,
                        fuel,
                        k + 1,
                        pos2,
                        GResolved {
                            type_expr: replace(acc.type_expr, h, v),
                            label: replace(acc.label, h, v),
                            label_template: replace(acc.label_template, h, v),
                            ..acc
                        },
                    ),
                }
            },
            GParamKind::Project { .. } => res_params_error(reg, node, comp, fuel, k + 1, pos, acc),
        }
    }
}

/// No failing argument from `i` on exactly when every one from `i` on is fine;
/// with every one before `j` fine, the first failure from `i` is the first
/// from `j`.
proof fn lemma_args_error(node: Seq<char>, ps: Seq<GParam>, a: Seq<GArg>, i: int, j: int)
    requires
        0 <= i <= j <= a.len(),
        forall|k: int|
            i <= k < j ==> match #[trigger] a[k] {
                GArg::Slot { name, .. } => has_type_param(ps, name),
                GArg::NamedConst { name, .. } => has_const_param(ps, name),
                GArg::Const(_) => true,
            },
    ensures
        args_error(node, ps, a, i) == args_error(node, ps, a, j),
    decreases j - i,
{
    if i < j {
        lemma_args_error(node, ps, a, i + 1, j);
    }
}

// ───────────────────────────── execution ─────────────────────────────

proof fn lemma_find_sub_from(s: Seq<char>, p: Seq<char>, i: int)
    ensures
        find_sub_from(s, p, i) matches Some(k) ==> 0 <= i <= k && k + p.len() <= s.len(),
    decreases s.len() + 1 - i,
{
    if !(i < 0 || i + p.len() > s.len()) && !starts_with_at(s, i, p) {
        lemma_find_sub_from(s, p, i + 1);
    }
}

fn find_sub(s: &[char], p: &[char]) -> (r: Option<usize>)
    ensures
        r is Some <==> find_sub_from(s@, p@, 0) is Some,
        r matches Some(k) ==> find_sub_from(s@, p@, 0) == Some(k as int) && k + p@.len()
            <= s@.len(),
{
    proof {
        lemma_find_sub_from(s@, p@, 0);
    }
    if p.len() > s.len() {
        return None;
    }
    let last = s.len() - p.len();
    let mut i: usize = 0;
    while i <= last
        invariant
            i <= last + 1,
            last + p@.len() == s@.len(),
            find_sub_from(s@, p@, 0) == find_sub_from(s@, p@, i as int),
        decreases last + 1 - i,
    {
        if matches_at(s, i, p) {
            return Some(i);
        }
        if i == last {
            assert(find_sub_from(s@, p@, i + 1) is None);
            return None;
        }
        i = i + 1;
    }
    None
}

fn first_hole_exec(c: &Component) -> (r: Option<usize>)
    ensures
        r is Some <==> first_hole(c.label_tmpl@, params_view(c.params@)) is Some,
        r matches Some(k) ==> first_hole(c.label_tmpl@, params_view(c.params@)) == Some(k as int)
            && k <= c.label_tmpl@.len(),
{
    let t = chars_of(c.label_tmpl.as_str());
    let mut best: Option<usize> = None;
    let mut k: usize = 0;
    while k < c.params.len()
        invariant
            k <= c.params@.len(),
            t@ == c.label_tmpl@,
            best is Some <==> first_hole(c.label_tmpl@, params_view(c.params@).take(k as int)) is Some,
            best matches Some(b) ==> first_hole(c.label_tmpl@, params_view(c.params@).take(k as int))
                == Some(b as int) && b <= c.label_tmpl@.len(),
        decreases c.params@.len() - k,
    {
        let ghost pv = params_view(c.params@);
        assert(pv.take(k + 1).drop_last() =~= pv.take(k as int));
        assert(pv.take(k + 1).last() == param_view(c.params@[k as int]));
        let here: Option<usize> = match &c.params[k].kind {
            ParamKind::Type { .. } => {
                let h = make_hole(&c.params[k].name);
                find_sub(t.as_slice(), h.as_slice())
            },
            _ => None,
        };
        best = match (best, here) {
            (Some(x), Some(y)) => Some(if x <= y { x } else { y }),
            (Some(x), None) => Some(x),
            (None, y) => y,
        };
        k = k + 1;
    }
    assert(params_view(c.params@).take(k as int) =~= params_view(c.params@));
    best
}

/// The axis value of a slot filled by `c`: the text of `c`'s label template
/// before its first hole (trimmed of the opening bracket and spaces) when it
/// has one, else the whole resolved label.
pub fn head_label(c: &Component, resolved_label: &str) -> (r: String)
    ensures
        r@ == head_label_of(comp_view(*c), resolved_label@),
{
    match first_hole_exec(c) {
        Some(i) => {
            let t = chars_of(c.label_tmpl.as_str());
            let mut j: usize = i;
            assert(t@.take(j as int) == c.label_tmpl@.take(i as int));
            while j > 0 && (t[j - 1] == '<' || t[j - 1] == '(' || t[j - 1] == '[' || is_whitespace(
                t[j - 1],
            ))
                invariant
                    j <= i <= t@.len(),
                    head_trim(t@.take(i as int)) == head_trim(t@.take(j as int)),
                decreases j,
            {
                assert(t@.take(j as int).drop_last() =~= t@.take(j - 1));
                j = j - 1;
            }
            let mut out = String::new();
            let mut q: usize = 0;
            while q < j
                invariant
                    q <= j <= t@.len(),
                    out@ == t@.take(q as int),
                decreases j - q,
            {
                crate::text::push_char(&mut out, t[q]);
                q = q + 1;
                assert(out@ =~= t@.take(q as int));
            }
            assert(head_trim(t@.take(j as int)) == t@.take(j as int));
            out
        },
        None => owned(resolved_label),
    }
}

pub fn contains_string(v: &Vec<String>, x: &String) -> (r: bool)
    ensures
        r == string_views(v@).contains(x@),
{
    let xc = chars_of(x.as_str());
    let mut i: usize = 0;
    while i < v.len()
        invariant
            i <= v@.len(),
            xc@ == x@,
            forall|k: int| 0 <= k < i ==> string_views(v@)[k] != x@,
        decreases v@.len() - i,
    {
        let vc = chars_of(v[i].as_str());
        if chars_eq(vc.as_slice(), xc.as_slice()) {
            assert(string_views(v@)[i as int] == x@);
            return true;
        }
        i = i + 1;
    }
    false
}

pub fn union_into_exec(acc: &mut Vec<String>, add: &Vec<String>)
    ensures
        string_views(final(acc)@) == union_into(string_views(old(acc)@), string_views(add@)),
{
    let ghost goal = union_into(string_views(acc@), string_views(add@));
    let mut j: usize = 0;
    assert(string_views(add@).skip(0) =~= string_views(add@));
    while j < add.len()
        invariant
            j <= add@.len(),
            goal == union_into(string_views(acc@), string_views(add@).skip(j as int)),
        decreases add@.len() - j,
    {
        let ghost rest = string_views(add@).skip(j as int);
        assert(rest[0] == add@[j as int]@);
        assert(rest.drop_first() =~= string_views(add@).skip(j + 1));
        if !contains_string(acc, &add[j]) {
            let x = copy_string(&add[j]);
            proof {
                lemma_string_views_push(acc@, x);
            }
            acc.push(x);
        }
        j = j + 1;
    }
}

fn last_slot_exec<'a>(args: &'a Vec<Arg>, name: &[char]) -> (r: Option<&'a SpecNode>)
    ensures
        match last_slot(args_view(args@), name@) {
            Some(c) => r is Some && node_view(*r->0) == c && exists|i: int|
                0 <= i < args@.len() && (#[trigger] args@[i] matches Arg::Slot { value, .. } && value
                    == *r->0),
            None => r is None,
        },
{
    proof {
        crate::spec_lang::lemma_args_view_len(args@);
    }
    let mut i: usize = args.len();
    assert(args_view(args@).take(i as int) =~= args_view(args@));
    while i > 0
        invariant
            i <= args@.len(),
            args_view(args@).len() == args@.len(),
            forall|k: int| 0 <= k < args@.len() ==> #[trigger] args_view(args@)[k] == arg_view(args@[k]),
            last_slot(args_view(args@), name@) == last_slot(args_view(args@).take(i as int), name@),
        decreases i,
    {
        let ghost av = args_view(args@);
        assert(av.take(i as int).drop_last() =~= av.take(i - 1));
        assert(av.take(i as int).last() == arg_view(args@[i - 1]));
        match &args[i - 1] {
            Arg::Slot { name: n, value } => {
                let nc = chars_of(n.as_str());
                if chars_eq(nc.as_slice(), name) {
                    return Some(value);
                }
            },
            _ => {},
        }
        i = i - 1;
    }
    None
}

fn last_named_const_exec(args: &Vec<Arg>, name: &[char]) -> (r: Option<String>)
    ensures
        match last_named_const(args_view(args@), name@) {
            Some(c) => r is Some && r->0@ == c,
            None => r is None,
        },
{
    proof {
        crate::spec_lang::lemma_args_view_len(args@);
    }
    let mut i: usize = args.len();
    assert(args_view(args@).take(i as int) =~= args_view(args@));
    while i > 0
        invariant
            i <= args@.len(),
            args_view(args@).len() == args@.len(),
            forall|k: int| 0 <= k < args@.len() ==> #[trigger] args_view(args@)[k] == arg_view(args@[k]),
            last_named_const(args_view(args@), name@) == last_named_const(
                args_view(args@).take(i as int),
                name@,
            ),
        decreases i,
    {
        let ghost av = args_view(args@);
        assert(av.take(i as int).drop_last() =~= av.take(i - 1));
        assert(av.take(i as int).last() == arg_view(args@[i - 1]));
        match &args[i - 1] {
            Arg::NamedConst { name: n, value } => {
                let nc = chars_of(n.as_str());
                if chars_eq(nc.as_slice(), name) {
                    return Some(copy_string(value));
                }
            },
            _ => {},
        }
        i = i - 1;
    }
    None
}

fn pos_consts_exec(args: &Vec<Arg>) -> (r: Vec<String>)
    ensures
        string_views(r@) == pos_consts(args_view(args@)),
{
    proof {
        crate::spec_lang::lemma_args_view_len(args@);
    }
    let mut out: Vec<String> = Vec::new();
    let mut i: usize = 0;
    assert(string_views(out@) =~= pos_consts(args_view(args@).take(0)));
    while i < args.len()
        invariant
            i <= args@.len(),
            args_view(args@).len() == args@.len(),
            forall|k: int| 0 <= k < args@.len() ==> #[trigger] args_view(args@)[k] == arg_view(args@[k]),
            string_views(out@) == pos_consts(args_view(args@).take(i as int)),
        decreases args@.len() - i,
    {
        let ghost av = args_view(args@);
        assert(av.take(i + 1).drop_last() =~= av.take(i as int));
        assert(av.take(i + 1).last() == arg_view(args@[i as int]));
        match &args[i] {
            Arg::Const(v) => {
                let x = copy_string(v);
                proof {
                    lemma_string_views_push(out@, x);
                }
                out.push(x);
            },
            _ => {},
        }
        i = i + 1;
    }
    assert(args_view(args@).take(i as int) =~= args_view(args@));
    out
}

/// Does `c` declare a parameter `name` of the kind `want` (0 type, 1 const)?
fn has_param_of_kind(c: &Component, name: &String, want_type: bool) -> (r: bool)
    ensures
        want_type ==> r == has_type_param(params_view(c.params@), name@),
        !want_type ==> r == has_const_param(params_view(c.params@), name@),
{
    let nc = chars_of(name.as_str());
    let mut k: usize = 0;
    while k < c.params.len()
        invariant
            k <= c.params@.len(),
            nc@ == name@,
            forall|j: int|
                0 <= j < k ==> !(#[trigger] params_view(c.params@)[j].name == name@ && (if want_type {
                    params_view(c.params@)[j].kind is Type
                } else {
                    params_view(c.params@)[j].kind is Const
                })),
        decreases c.params@.len() - k,
    {
        let ghost pv = params_view(c.params@);
        assert(pv[k as int] == param_view(c.params@[k as int]));
        let pc = chars_of(c.params[k].name.as_str());
        if chars_eq(pc.as_slice(), nc.as_slice()) {
            let ok = match &c.params[k].kind {
                ParamKind::Type { .. } => want_type,
                ParamKind::Const { .. } => !want_type,
                ParamKind::Project { .. } => false,
            };
            if ok {
                return true;
            }
        }
        k = k + 1;
    }
    false
}

fn err2(a: &str, b: &String, c: &str) -> (r: String)
    ensures
        r@ == a@ + b@ + c@,
{
    let mut s = owned(a);
    push_str(&mut s, b.as_str());
    push_str(&mut s, c);
    s
}

/// `format!("{:?}", v)` for a list of strings.
fn debug_list_exec(v: &Vec<String>) -> (r: String)
    ensures
        r@ == debug_list(string_views(v@)),
{
    let ghost vs = string_views(v@);
    let mut m = owned("[");
    let mut i: usize = 0;
    assert(vs.take(0).map_values(|x: Seq<char>| crate::text::debug_str(x)) =~= seq![]);
    while i < v.len()
        invariant
            i <= v@.len(),
            vs == string_views(v@),
            m@ == "["@ + crate::cardinality::join_roles(vs.take(i as int).map_values(|x: Seq<char>| crate::text::debug_str(x))),
        decreases v@.len() - i,
    {
        let ghost before = vs.take(i as int).map_values(|x: Seq<char>| crate::text::debug_str(x));
        let ghost after = vs.take(i + 1).map_values(|x: Seq<char>| crate::text::debug_str(x));
        assert(after.drop_last() =~= before);
        assert(after.last() == crate::text::debug_str(v@[i as int]@));
        if i > 0 {
            push_str(&mut m, ", ");
        }
        let q = crate::text::debug_quoted(v[i].as_str());
        push_str(&mut m, q.as_str());
        proof {
            if i == 0 {
                assert(after.len() == 1);
                assert(crate::cardinality::join_roles(after) == after[0]);
            }
        }
        i = i + 1;
    }
    assert(vs.take(i as int) =~= vs);
    push_str(&mut m, "]");
    m
}

/// Look up a slot filler, check it provides `role`, and resolve it; also
/// returns the filler's navigation head label. `slot` and `owner` name the
/// slot and its component for the role error.
fn resolve_child(child: &SpecNode, role: &String, slot: &String, owner: &String, reg: &Registry, fuel: usize) -> (r: Result<
    (Resolved, String),
    String,
>)
    ensures
        match find(reg@, node_view(*child).name) {
            None => r matches Err(e) && e@ == unknown_error(child.name@),
            Some(ci) => if 0 <= ci < reg@.len() && reg@[ci].provides.contains(role@) {
                match res_node(reg@, node_view(*child), fuel as nat) {
                    None => r matches Err(e) && e@ == res_error(reg@, node_view(*child), fuel as nat),
                    Some(g) => r is Ok && resolved_view(r->Ok_0.0) == g && r->Ok_0.1@
                        == head_label_of(reg@[ci], g.label),
                }
            } else {
                r matches Err(e) && (0 <= ci < reg@.len() ==> e@ == role_error(
                    slot@,
                    owner@,
                    role@,
                    child.name@,
                    reg@[ci].provides,
                ))
            },
        },
    decreases fuel, node_size(node_view(*child)), 2nat,
{
    proof {
        crate::registry::lemma_find_from(reg@, child.name@, 0);
    }
    let cc = match reg.get(child.name.as_str()) {
        Some(c) => c,
        None => {
            return Err(err2("unknown component `", &child.name, "`"));
        },
    };
    let rc = chars_of(role.as_str());
    if !provides_exec(cc, rc.as_slice()) {
        let mut m = err2("slot `", slot, "` of `");
        push_str(&mut m, owner.as_str());
        push_str(&mut m, "` needs role `");
        push_str(&mut m, role.as_str());
        push_str(&mut m, "`, but `");
        push_str(&mut m, child.name.as_str());
        push_str(&mut m, "` provides ");
        let dl = debug_list_exec(&cc.provides);
        push_str(&mut m, dl.as_str());
        return Err(m);
    }
    match resolve_go(child, reg, fuel) {
        Ok(r) => {
            let hl = head_label(cc, r.label.as_str());
            Ok((r, hl))
        },
        Err(e) => Err(e),
    }
}

pub fn provides_exec(c: &Component, role: &[char]) -> (r: bool)
    ensures
        r == comp_view(*c).provides.contains(role@),
{
    let mut i: usize = 0;
    while i < c.provides.len()
        invariant
            i <= c.provides@.len(),
            forall|k: int| 0 <= k < i ==> string_views(c.provides@)[k] != role@,
        decreases c.provides@.len() - i,
    {
        let pc = chars_of(c.provides[i].as_str());
        if chars_eq(pc.as_slice(), role) {
            assert(string_views(c.provides@)[i as int] == role@);
            return true;
        }
        i = i + 1;
    }
    false
}

fn resolve_go(node: &SpecNode, reg: &Registry, fuel: usize) -> (r: Result<Resolved, String>)
    ensures
        match res_node(reg@, node_view(*node), fuel as nat) {
            Some(g) => r is Ok && resolved_view(r->Ok_0) == g,
            None => r matches Err(e) && e@ == res_error(reg@, node_view(*node), fuel as nat),
        },
    decreases fuel, node_size(node_view(*node)), 1nat,
{
    let ghost nv = node_view(*node);
    proof {
        crate::registry::lemma_find_from(reg@, node.name@, 0);
        crate::spec_lang::lemma_args_view_len(node.args@);
    }
    let comp = match reg.get(node.name.as_str()) {
        Some(c) => c,
        None => {
            return Err(err2("unknown component `", &node.name, "`"));
        },
    };
    let ghost cv = comp_view(*comp);
    let ghost ps = params_view(comp.params@);
    let ghost ci = find(reg@, nv.name)->0;
    // every named argument must name a parameter of its kind
    let mut i: usize = 0;
    while i < node.args.len()
        invariant
            i <= node.args@.len(),
            nv == node_view(*node),
            nv.args.len() == node.args@.len(),
            forall|k: int| 0 <= k < node.args@.len() ==> #[trigger] nv.args[k] == arg_view(node.args@[k]),
            forall|k: int|
                0 <= k < i ==> match #[trigger] nv.args[k] {
                    GArg::Slot { name, .. } => has_type_param(ps, name),
                    GArg::NamedConst { name, .. } => has_const_param(ps, name),
                    GArg::Const(_) => true,
                },
            ps == params_view(comp.params@),
            find(reg@, nv.name) == Some(ci),
            0 <= ci < reg@.len(),
            reg@[ci] == comp_view(*comp),
        decreases node.args@.len() - i,
    {
        match &node.args[i] {
            Arg::Slot { name, .. } => {
                if !has_param_of_kind(comp, name, true) {
                    assert(nv.args[i as int] == arg_view(node.args@[i as int]));
                    assert(!args_ok(ps, nv.args));
                    proof {
                        lemma_args_error(nv.name, ps, nv.args, 0, i as int);
                    }
                    let mut m = err2("`", &node.name, "` has no slot named `");
                    push_str(&mut m, name.as_str());
                    push_str(&mut m, "`");
                    return Err(m);
                }
            },
            Arg::NamedConst { name, .. } => {
                if !has_param_of_kind(comp, name, false) {
                    assert(nv.args[i as int] == arg_view(node.args@[i as int]));
                    assert(!args_ok(ps, nv.args));
                    proof {
                        lemma_args_error(nv.name, ps, nv.args, 0, i as int);
                    }
                    let mut m = err2("`", &node.name, "` has no const named `");
                    push_str(&mut m, name.as_str());
                    push_str(&mut m, "`");
                    return Err(m);
                }
            },
            Arg::Const(_) => {},
        }
        i = i + 1;
    }
    assert(args_ok(ps, nv.args));
    proof {
        lemma_args_error(nv.name, ps, nv.args, 0, nv.args.len() as int);
    }
    let pcs = pos_consts_exec(&node.args);
    let mut type_expr = copy_string(&comp.type_tmpl);
    let mut label = copy_string(&comp.label_tmpl);
    let mut label_template = copy_string(&comp.label_tmpl);
    let mut uses: Vec<String> = Vec::new();
    let mut k0: usize = 0;
    while k0 < comp.uses.len()
        invariant
            k0 <= comp.uses@.len(),
            string_views(uses@) == string_views(comp.uses@).take(k0 as int),
        decreases comp.uses@.len() - k0,
    {
        let x = copy_string(&comp.uses[k0]);
        proof {
            lemma_string_views_push(uses@, x);
        }
        uses.push(x);
        k0 = k0 + 1;
        assert(string_views(uses@) =~= string_views(comp.uses@).take(k0 as int));
    }
    assert(string_views(comp.uses@).take(k0 as int) =~= string_views(comp.uses@));
    let mut axes: Vec<AxisNode> = Vec::new();
    let mut pos: usize = 0;
    let mut k: usize = 0;
    assert(axes_view(axes@) =~= seq![]);
    while k < comp.params.len()
        invariant
            k <= comp.params@.len(),
            nv == node_view(*node),
            cv == comp_view(*comp),
            ps == params_view(comp.params@),
            ps.len() == comp.params@.len(),
            string_views(pcs@) == pos_consts(nv.args),
            pos <= pcs@.len(),
            res_node(reg@, nv, fuel as nat) == res_params(
                reg@,
                nv,
                cv,
                fuel as nat,
                k as nat,
                pos as nat,
                GResolved {
                    type_expr: type_expr@,
                    label: label@,
                    uses: string_views(uses@),
                    axes: axes_view(axes@),
                    label_template: label_template@,
                },
            ),
            res_error(reg@, nv, fuel as nat) == res_params_error(
                reg@,
                nv,
                cv,
                fuel as nat,
                k as nat,
                pos as nat,
                GResolved {
                    type_expr: type_expr@,
                    label: label@,
                    uses: string_views(uses@),
                    axes: axes_view(axes@),
                    label_template: label_template@,
                },
            ),
        decreases comp.params@.len() - k,
    {
        let p = &comp.params[k];
        assert(ps[k as int] == param_view(comp.params@[k as int]));
        let ghost acc_g = GResolved {
            type_expr: type_expr@,
            label: label@,
            uses: string_views(uses@),
            axes: axes_view(axes@),
            label_template: label_template@,
        };
        let h = make_hole(&p.name);
        let pn = chars_of(p.name.as_str());
        match &p.kind {
            ParamKind::Type { role, default } => {
                let explicit = last_slot_exec(&node.args, pn.as_slice());
                let (r, hl) = match explicit {
                    Some(c) => {
                        proof {
                            lemma_last_slot_size(nv.args, p.name@);
                        }
                        match resolve_child(c, role, &p.name, &node.name, reg, fuel) {
                            Ok(x) => x,
                            Err(e) => {
                                proof {
                                    crate::registry::lemma_find_from(reg@, node_view(*c).name, 0);
                                }
                                assert(e@ == res_params_error(reg@, nv, cv, fuel as nat, k as nat, pos as nat, acc_g));
                                return Err(e);
                            },
                        }
                    },
                    None => match default {
                        Some(d) => {
                            if fuel == 0 {
                                let mut m = err2("defaults of `", &node.name, "` nest without end");
                                return Err(m);
                            }
                            let dn = SpecNode { name: copy_string(d), args: Vec::new() };
                            assert(node_view(dn) == GNode { name: d@, args: seq![] });
                            match resolve_child(&dn, role, &p.name, &node.name, reg, fuel - 1) {
                                Ok(x) => x,
                                Err(e) => {
                                    proof {
                                        crate::registry::lemma_find_from(reg@, d@, 0);
                                    }
                                    assert(e@ == res_params_error(reg@, nv, cv, fuel as nat, k as nat, pos as nat, acc_g));
                                    return Err(e);
                                },
                            }
                        },
                        None => {
                            let mut m = err2("`", &node.name, "` requires slot `");
                            push_str(&mut m, p.name.as_str());
                            push_str(&mut m, "` (role ");
                            push_str(&mut m, role.as_str());
                            push_str(&mut m, ")");
                            return Err(m);
                        },
                    },
                };
                let ghost acc_axes = axes_view(axes@);
                type_expr = replace_string(&type_expr, h.as_slice(), &r.type_expr);
                label = replace_string(&label, h.as_slice(), &r.label);
                let rh = make_hole(role);
                let rhs = string_of(rh.as_slice());
                label_template = replace_string(&label_template, h.as_slice(), &rhs);
                union_into_exec(&mut uses, &r.uses);
                let ax = AxisNode { role: copy_string(role), value: hl, path: copy_string(&p.name) };
                let ghost ax_v = axis_view(ax);
                axes.push(ax);
                assert(axes_view(axes@) =~= acc_axes.push(ax_v));
                let ghost base = axes_view(axes@);
                let mut m: usize = 0;
                while m < r.axes.len()
                    invariant
                        m <= r.axes@.len(),
                        axes_view(axes@) == base + prefix_axes(axes_view(r.axes@), p.name@).take(
                            m as int,
                        ),
                    decreases r.axes@.len() - m,
                {
                    let sub = &r.axes[m];
                    let mut path = copy_string(&p.name);
                    proof {
                        reveal_strlit("/");
                    }
                    push_str(&mut path, "/");
                    assert("/"@ =~= seq!['/']);
                    push_str(&mut path, sub.path.as_str());
                    assert(axes_view(r.axes@)[m as int] == axis_view(r.axes@[m as int]));
                    let nax = AxisNode {
                        role: copy_string(&sub.role),
                        value: copy_string(&sub.value),
                        path,
                    };
                    let ghost before = axes_view(axes@);
                    let ghost nv2 = axis_view(nax);
                    axes.push(nax);
                    assert(axes_view(axes@) =~= before.push(nv2));
                    assert(prefix_axes(axes_view(r.axes@), p.name@).take(m + 1) =~= prefix_axes(
                        axes_view(r.axes@),
                        p.name@,
                    ).take(m as int).push(nv2));
                    m = m + 1;
                }
                assert(prefix_axes(axes_view(r.axes@), p.name@).take(m as int) =~= prefix_axes(
                    axes_view(r.axes@),
                    p.name@,
                ));
            },
            ParamKind::Const { default, .. } => {
                let named = last_named_const_exec(&node.args, pn.as_slice());
                let value: String = match named {
                    Some(v) => v,
                    None => {
                        if pos < pcs.len() {
                            let v = copy_string(&pcs[pos]);
                            pos = pos + 1;
                            v
                        } else {
                            match default {
                                Some(d) => copy_string(d),
                                None => {
                                    let mut m = err2("`", &node.name, "` needs a value for const `");
                                    push_str(&mut m, p.name.as_str());
                                    push_str(&mut m, "`");
                                    return Err(m);
                                },
                            }
                        }
                    },
                };
                type_expr = replace_string(&type_expr, h.as_slice(), &value);
                label = replace_string(&label, h.as_slice(), &value);
                label_template = replace_string(&label_template, h.as_slice(), &value);
            },
            ParamKind::Project { .. } => {},
        }
        k = k + 1;
    }
    Ok(Resolved { type_expr, label, uses, axes, label_template })
}

/// Resolve a spec tree against the catalog. A slot left out takes its
/// default; defaults may nest at most as deep as the catalog has components
/// (deeper nesting can only come from a default that reaches itself).
pub fn resolve(node: &SpecNode, reg: &Registry) -> (r: Result<Resolved, String>)
    ensures
        match res_node(reg@, node_view(*node), reg@.len()) {
            Some(g) => r is Ok && resolved_view(r->Ok_0) == g,
            None => r matches Err(e) && e@ == res_error(reg@, node_view(*node), reg@.len()),
        },
{
    resolve_go(node, reg, reg.components.len())
}

} // verus!
