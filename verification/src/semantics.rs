//! What a query means: the ground trees, with their captures, that each value
//! stands for in an environment, and the environments a query's bindings
//! build up one after the other. The solver is proved to compute exactly
//! these; `None` is an error, at the first place the solver meets one.
use vstd::prelude::*;
use crate::registry::{find, find_param, kind_role, GComponent, GParamKind};
use crate::resolve::{res_node, union_into};
use crate::spec_lang::{GArg, GBinding, GNode, GQArg, GQuery, GRefinement, GValue, Quant};
use crate::enumerate::enum_role;
use crate::solve::{dedup_canon, env_set, lookup, sample_positions_s, unify_s, GBound};

verus! {

/// A ground tree with the captures it introduced.
pub type GCand = (GNode, Seq<(Seq<char>, GBound)>);

/// The entries of `s` at a seeded sample of `n` positions (all of them when
/// `n` covers `s`).
pub open spec fn pick<A>(s: Seq<A>, n: nat, seed: u64) -> Seq<A> {
    sample_positions_s(s.len(), n, seed).map_values(|p: int| s[p])
}

/// A quantifier applied to a population.
pub open spec fn quant_pick<A>(s: Seq<A>, q: Quant) -> Seq<A> {
    match q {
        Quant::Exhaustive => s,
        Quant::One { seed } => pick(s, 1, seed),
        Quant::N { n, seed } => pick(s, n as nat, seed),
    }
}

/// The first candidate of each canonical type, with the types seen; `None`
/// when a tree does not resolve.
pub open spec fn dedup_pairs(reg: Seq<GComponent>, cs: Seq<GCand>) -> Option<(Seq<GCand>, Seq<Seq<char>>)>
    decreases cs.len(),
{
    if cs.len() == 0 {
        Some((seq![], seq![]))
    } else {
        match dedup_pairs(reg, cs.drop_last()) {
            None => None,
            Some(acc) => match res_node(reg, cs.last().0, reg.len()) {
                None => None,
                Some(r) => if acc.1.contains(r.type_expr) {
                    Some(acc)
                } else {
                    Some((acc.0.push(cs.last()), acc.1.push(r.type_expr)))
                },
            },
        }
    }
}

pub open spec fn cand_nodes_g(cs: Seq<GCand>) -> Seq<GNode> {
    cs.map_values(|c: GCand| c.0)
}

/// Deduping candidates keeps the trees that deduping the bare trees keeps.
pub proof fn lemma_dedup_pairs_nodes(reg: Seq<GComponent>, cs: Seq<GCand>)
    ensures
        match (dedup_pairs(reg, cs), dedup_canon(reg, cand_nodes_g(cs))) {
            (Some(a), Some(b)) => cand_nodes_g(a.0) == b.0 && a.1 == b.1,
            (None, None) => true,
            _ => false,
        },
    decreases cs.len(),
{
    if cs.len() > 0 {
        lemma_dedup_pairs_nodes(reg, cs.drop_last());
        assert(cand_nodes_g(cs).drop_last() =~= cand_nodes_g(cs.drop_last()));
        match dedup_pairs(reg, cs.drop_last()) {
            Some(a) => {
                assert(cand_nodes_g(a.0.push(cs.last())) =~= cand_nodes_g(a.0).push(cs.last().0));
            },
            None => {},
        }
    }
}

/// Can `node`'s component take every refined param?
pub open spec fn local_ok(reg: Seq<GComponent>, node: GNode, refs: Seq<GRefinement>) -> bool {
    match find(reg, node.name) {
        Some(i) => forall|k: int| 0 <= k < refs.len() ==> (#[trigger] find_param(reg[i].params, refs[k].param)) is Some,
        None => false,
    }
}

/// The trees of `ns` that pass the refinement pre-filter, with no captures.
pub open spec fn filter_local(reg: Seq<GComponent>, ns: Seq<GNode>, refs: Seq<GRefinement>) -> Seq<GCand>
    decreases ns.len(),
{
    if ns.len() == 0 {
        seq![]
    } else {
        filter_local(reg, ns.drop_last(), refs) + if local_ok(reg, ns.last(), refs) {
            seq![(ns.last(), Seq::<(Seq<char>, GBound)>::empty())]
        } else {
            seq![]
        }
    }
}

/// Each candidate captured as `name`, those whose captures disagree dropped.
pub open spec fn capture_all(cs: Seq<GCand>, name: Seq<char>) -> Seq<GCand>
    decreases cs.len(),
{
    if cs.len() == 0 {
        seq![]
    } else {
        capture_all(cs.drop_last(), name) + match unify_s(
            cs.last().1,
            seq![(name, GBound::Type(cs.last().0))],
        ) {
            Some(m) => seq![(cs.last().0, m)],
            None => seq![],
        }
    }
}

/// The canonical types of the candidates; `None` when one does not resolve.
pub open spec fn types_of(reg: Seq<GComponent>, cs: Seq<GCand>) -> Option<Seq<Seq<char>>>
    decreases cs.len(),
{
    if cs.len() == 0 {
        Some(seq![])
    } else {
        match types_of(reg, cs.drop_last()) {
            None => None,
            Some(ts) => match res_node(reg, cs.last().0, reg.len()) {
                None => None,
                Some(r) => Some(ts.push(r.type_expr)),
            },
        }
    }
}

/// A hole minus the types in `rm`: the pre-filtered trees of `ns` whose type
/// is neither removed nor already kept, with the types kept.
pub open spec fn keep_hole(reg: Seq<GComponent>, ns: Seq<GNode>, refs: Seq<GRefinement>, rm: Seq<Seq<char>>) -> Option<
    (Seq<GCand>, Seq<Seq<char>>),
>
    decreases ns.len(),
{
    if ns.len() == 0 {
        Some((seq![], seq![]))
    } else {
        match keep_hole(reg, ns.drop_last(), refs, rm) {
            None => None,
            Some(acc) => if !local_ok(reg, ns.last(), refs) {
                Some(acc)
            } else {
                match res_node(reg, ns.last(), reg.len()) {
                    None => None,
                    Some(r) => if !rm.contains(r.type_expr) && !acc.1.contains(r.type_expr) {
                        Some(
                            (
                                acc.0.push((ns.last(), Seq::<(Seq<char>, GBound)>::empty())),
                                acc.1.push(r.type_expr),
                            ),
                        )
                    } else {
                        Some(acc)
                    },
                }
            },
        }
    }
}

/// The candidates whose type is not in `rm`; `None` when one does not resolve.
pub open spec fn drop_removed(reg: Seq<GComponent>, cs: Seq<GCand>, rm: Seq<Seq<char>>) -> Option<Seq<GCand>>
    decreases cs.len(),
{
    if cs.len() == 0 {
        Some(seq![])
    } else {
        match drop_removed(reg, cs.drop_last(), rm) {
            None => None,
            Some(acc) => match res_node(reg, cs.last().0, reg.len()) {
                None => None,
                Some(r) => if rm.contains(r.type_expr) {
                    Some(acc)
                } else {
                    Some(acc.push(cs.last()))
                },
            },
        }
    }
}

/// `env` with each capture of `caps` bound in turn.
pub open spec fn extend_env(env: Seq<(Seq<char>, GBound)>, caps: Seq<(Seq<char>, GBound)>) -> Seq<
    (Seq<char>, GBound),
>
    decreases caps.len(),
{
    if caps.len() == 0 {
        env
    } else {
        env_set(extend_env(env, caps.drop_last()), caps.last().0, caps.last().1)
    }
}

/// A partial argument list extended by each piece whose captures agree with
/// it.
pub open spec fn join(
    c: (Seq<GArg>, Seq<(Seq<char>, GBound)>),
    ps: Seq<(GArg, Seq<(Seq<char>, GBound)>)>,
) -> Seq<(Seq<GArg>, Seq<(Seq<char>, GBound)>)>
    decreases ps.len(),
{
    if ps.len() == 0 {
        seq![]
    } else {
        join(c, ps.drop_last()) + match unify_s(c.1, ps.last().1) {
            Some(m) => seq![(c.0.push(ps.last().0), m)],
            None => seq![],
        }
    }
}

/// Every literal a value stands for in const context. `param`, when known,
/// gives the default and the declared values a const hole ranges over.
pub open spec fn ev_const(
    v: GValue,
    param: Option<(Option<Seq<char>>, Seq<Seq<char>>)>,
    env: Seq<(Seq<char>, GBound)>,
) -> Option<Seq<Seq<char>>> {
    match v {
        GValue::Const(lit) => Some(seq![lit]),
        GValue::Ident(name) => match lookup(env, name) {
            Some(GBound::Const(lit)) => Some(seq![lit]),
            _ => None,
        },
        GValue::Hole(q) => match param {
            None => None,
            Some((d, vals)) => {
                let pop = if vals.len() == 0 {
                    match d {
                        Some(x) => seq![x],
                        None => seq![],
                    }
                } else {
                    vals
                };
                Some(quant_pick(union_into(seq![], pop), q))
            },
        },
        _ => None,
    }
}

/// Every ground tree a value stands for in type context against `role`,
/// each with the captures it introduced. `cv` are the query's capture
/// variables: a reference to one that is not bound stands for nothing.
pub open spec fn ev_type(
    reg: Seq<GComponent>,
    v: GValue,
    role: Seq<char>,
    refs: Seq<GRefinement>,
    env: Seq<(Seq<char>, GBound)>,
    cv: Set<Seq<char>>,
    depth: nat,
) -> Option<Seq<GCand>>
    decreases v, 0nat,
{
    match v {
        GValue::Hole(q) => match dedup_pairs(reg, filter_local(reg, enum_role(reg, role, depth), refs)) {
            Some(d) => Some(quant_pick(d.0, q)),
            None => None,
        },
        GValue::Ident(name) => match lookup(env, name) {
            Some(GBound::Type(n)) => Some(seq![(n, Seq::<(Seq<char>, GBound)>::empty())]),
            Some(GBound::Const(_)) => None,
            None => if cv.contains(name) {
                Some(seq![])
            } else if find(reg, name) is None {
                None
            } else {
                Some(seq![(GNode { name, args: seq![] }, Seq::<(Seq<char>, GBound)>::empty())])
            },
        },
        GValue::App { name, args } => match find(reg, name) {
            None => None,
            Some(ci) => match ev_args(reg, reg[ci], name, args, env, cv, depth) {
                Some(combos) => Some(
                    combos.map_values(
                        |c: (Seq<GArg>, Seq<(Seq<char>, GBound)>)| (GNode { name, args: c.0 }, c.1),
                    ),
                ),
                None => None,
            },
        },
        GValue::Capture { name, inner } => match ev_type(reg, *inner, role, refs, env, cv, depth) {
            Some(cs) => Some(capture_all(cs, name)),
            None => None,
        },
        GValue::Where { quant, alts } => match ev_union(reg, alts, role, refs, env, cv, depth) {
            Some(u) => match dedup_pairs(reg, u) {
                Some(d) => Some(quant_pick(d.0, quant)),
                None => None,
            },
            None => None,
        },
        GValue::SetLit(ms) => match ev_union(reg, ms, role, seq![], env, cv, depth) {
            Some(u) => match dedup_pairs(reg, u) {
                Some(d) => Some(d.0),
                None => None,
            },
            None => None,
        },
        GValue::Diff { base, subtrahends } => match ev_removed(reg, subtrahends, role, env, cv, depth) {
            None => None,
            Some(rm) => match *base {
                GValue::Hole(q) => match keep_hole(reg, enum_role(reg, role, depth), refs, rm) {
                    Some(k) => Some(quant_pick(k.0, q)),
                    None => None,
                },
                _ => match ev_type(reg, *base, role, refs, env, cv, depth) {
                    Some(bc) => drop_removed(reg, bc, rm),
                    None => None,
                },
            },
        },
        GValue::Const(_) => None,
    }
}

/// The alternatives' expansions, concatenated in order.
pub open spec fn ev_union(
    reg: Seq<GComponent>,
    alts: Seq<GValue>,
    role: Seq<char>,
    refs: Seq<GRefinement>,
    env: Seq<(Seq<char>, GBound)>,
    cv: Set<Seq<char>>,
    depth: nat,
) -> Option<Seq<GCand>>
    decreases alts, 0nat,
{
    if alts.len() == 0 {
        Some(seq![])
    } else {
        match ev_union(reg, alts.drop_last(), role, refs, env, cv, depth) {
            None => None,
            Some(u) => match ev_type(reg, alts.last(), role, refs, env, cv, depth) {
                Some(c) => Some(u + c),
                None => None,
            },
        }
    }
}

/// The canonical types the subtrahends stand for, in order.
pub open spec fn ev_removed(
    reg: Seq<GComponent>,
    subs: Seq<GValue>,
    role: Seq<char>,
    env: Seq<(Seq<char>, GBound)>,
    cv: Set<Seq<char>>,
    depth: nat,
) -> Option<Seq<Seq<char>>>
    decreases subs, 0nat,
{
    if subs.len() == 0 {
        Some(seq![])
    } else {
        match ev_removed(reg, subs.drop_last(), role, env, cv, depth) {
            None => None,
            Some(rm) => match ev_type(reg, subs.last(), role, seq![], env, cv, depth) {
                None => None,
                Some(cs) => match types_of(reg, cs) {
                    Some(ts) => Some(rm + ts),
                    None => None,
                },
            },
        }
    }
}

/// The argument lists (with captures) of an application of `comp`, a
/// left-to-right fold over its arguments.
pub open spec fn ev_args(
    reg: Seq<GComponent>,
    comp: GComponent,
    cname: Seq<char>,
    args: Seq<GQArg>,
    env: Seq<(Seq<char>, GBound)>,
    cv: Set<Seq<char>>,
    depth: nat,
) -> Option<Seq<(Seq<GArg>, Seq<(Seq<char>, GBound)>)>>
    decreases args, 0nat,
{
    if args.len() == 0 {
        Some(seq![(seq![], seq![])])
    } else {
        match ev_args(reg, comp, cname, args.drop_last(), env, cv, depth) {
            None => None,
            Some(combos) => ev_step(reg, comp, cname, combos, args.last(), env, cv, depth),
        }
    }
}

/// One argument applied to every partial argument list so far.
pub open spec fn ev_step(
    reg: Seq<GComponent>,
    comp: GComponent,
    cname: Seq<char>,
    combos: Seq<(Seq<GArg>, Seq<(Seq<char>, GBound)>)>,
    arg: GQArg,
    env: Seq<(Seq<char>, GBound)>,
    cv: Set<Seq<char>>,
    depth: nat,
) -> Option<Seq<(Seq<GArg>, Seq<(Seq<char>, GBound)>)>>
    decreases arg, combos.len(),
{
    if combos.len() == 0 {
        Some(seq![])
    } else {
        match ev_step(reg, comp, cname, combos.drop_last(), arg, env, cv, depth) {
            None => None,
            Some(acc) => match ev_pieces(reg, comp, cname, arg, extend_env(env, combos.last().1), cv, depth) {
                None => None,
                Some(ps) => Some(acc + join(combos.last(), ps)),
            },
        }
    }
}

/// The argument values (with captures) one argument stands for.
pub open spec fn ev_pieces(
    reg: Seq<GComponent>,
    comp: GComponent,
    cname: Seq<char>,
    arg: GQArg,
    env: Seq<(Seq<char>, GBound)>,
    cv: Set<Seq<char>>,
    depth: nat,
) -> Option<Seq<(GArg, Seq<(Seq<char>, GBound)>)>>
    decreases arg, 0nat,
{
    match arg {
        GQArg::Named { name: p, value } => match find_param(comp.params, p) {
            None => None,
            Some(pi) => match comp.params[pi].kind {
                GParamKind::Type { role, .. } => match ev_type(reg, value, role, seq![], env, cv, depth) {
                    Some(cs) => Some(
                        cs.map_values(|c: GCand| (GArg::Slot { name: p, value: c.0 }, c.1)),
                    ),
                    None => None,
                },
                GParamKind::Const { default, values } => match ev_const(value, Some((default, values)), env) {
                    Some(ls) => Some(
                        ls.map_values(
                            |l: Seq<char>|
                                (GArg::NamedConst { name: p, value: l }, Seq::<(Seq<char>, GBound)>::empty()),
                        ),
                    ),
                    None => None,
                },
                GParamKind::Project { .. } => None,
            },
        },
        GQArg::Pos(value) => match ev_const(value, None, env) {
            Some(ls) => Some(
                ls.map_values(|l: Seq<char>| (GArg::Const(l), Seq::<(Seq<char>, GBound)>::empty())),
            ),
            None => None,
        },
    }
}

/// Every value a binding can take, each with the captures it introduced.
pub open spec fn ev_binding(
    reg: Seq<GComponent>,
    b: GBinding,
    env: Seq<(Seq<char>, GBound)>,
    cv: Set<Seq<char>>,
    depth: nat,
) -> Option<Seq<(GBound, Seq<(Seq<char>, GBound)>)>> {
    match b.value {
        GValue::Const(lit) => Some(seq![(GBound::Const(lit), Seq::<(Seq<char>, GBound)>::empty())]),
        GValue::Ident(name) => match lookup(env, name) {
            Some(GBound::Const(lit)) => Some(seq![(GBound::Const(lit), Seq::<(Seq<char>, GBound)>::empty())]),
            _ => type_values(reg, b, env, cv, depth),
        },
        _ => type_values(reg, b, env, cv, depth),
    }
}

/// A binding's value taken in type context.
pub open spec fn type_values(
    reg: Seq<GComponent>,
    b: GBinding,
    env: Seq<(Seq<char>, GBound)>,
    cv: Set<Seq<char>>,
    depth: nat,
) -> Option<Seq<(GBound, Seq<(Seq<char>, GBound)>)>> {
    match ev_type(reg, b.value, b.role, b.refinements, env, cv, depth) {
        Some(cs) => Some(cs.map_values(|c: GCand| (GBound::Type(c.0), c.1))),
        None => None,
    }
}

/// A refinement's right-hand side: a shared variable or a nullary component.
pub open spec fn ref_value(reg: Seq<GComponent>, v: GValue, env: Seq<(Seq<char>, GBound)>) -> Option<GNode> {
    match v {
        GValue::Ident(name) => match lookup(env, name) {
            Some(GBound::Type(n)) => Some(n),
            Some(GBound::Const(_)) => None,
            None => if find(reg, name) is None {
                None
            } else {
                Some(GNode { name, args: seq![] })
            },
        },
        _ => None,
    }
}

/// One refinement of a filler of `comp`: `Some(false)` when the filler has no
/// such param or the value does not provide the param's role.
pub open spec fn ref_one(reg: Seq<GComponent>, comp: GComponent, r: GRefinement, env: Seq<(Seq<char>, GBound)>) -> Option<
    bool,
> {
    match find_param(comp.params, r.param) {
        None => Some(false),
        Some(pi) => match kind_role(comp.params[pi].kind) {
            None => None,
            Some(role) => match ref_value(reg, r.value, env) {
                None => None,
                Some(vn) => match find(reg, vn.name) {
                    None => None,
                    Some(vi) => Some(reg[vi].provides.contains(role)),
                },
            },
        },
    }
}

/// The refinements in order, stopping at the first that prunes.
pub open spec fn refs_ok(reg: Seq<GComponent>, comp: GComponent, rs: Seq<GRefinement>, env: Seq<(Seq<char>, GBound)>) -> Option<
    bool,
>
    decreases rs.len(),
{
    if rs.len() == 0 {
        Some(true)
    } else {
        match refs_ok(reg, comp, rs.drop_last(), env) {
            Some(true) => ref_one(reg, comp, rs.last(), env),
            other => other,
        }
    }
}

/// Does a value of a binding pass its refinements? `None` is an error.
pub open spec fn check_refs(reg: Seq<GComponent>, b: GBinding, bound: GBound, env: Seq<(Seq<char>, GBound)>) -> Option<
    bool,
> {
    match bound {
        GBound::Const(_) => if b.refinements.len() == 0 {
            Some(true)
        } else {
            None
        },
        GBound::Type(node) => match find(reg, node.name) {
            None => None,
            Some(ci) => refs_ok(reg, reg[ci], b.refinements, env),
        },
    }
}

/// The environments one value list of a binding extends `e` to.
pub open spec fn extend_with(
    reg: Seq<GComponent>,
    b: GBinding,
    e: Seq<(Seq<char>, GBound)>,
    got: Seq<(GBound, Seq<(Seq<char>, GBound)>)>,
) -> Option<Seq<Seq<(Seq<char>, GBound)>>>
    decreases got.len(),
{
    if got.len() == 0 {
        Some(seq![])
    } else {
        match extend_with(reg, b, e, got.drop_last()) {
            None => None,
            Some(acc) => match unify_s(e, got.last().1) {
                None => Some(acc),
                Some(m) => match check_refs(reg, b, got.last().0, m) {
                    None => None,
                    Some(false) => Some(acc),
                    Some(true) => Some(acc.push(env_set(m, b.name, got.last().0))),
                },
            },
        }
    }
}

/// One binding applied to every environment so far.
pub open spec fn step_envs(
    reg: Seq<GComponent>,
    b: GBinding,
    es: Seq<Seq<(Seq<char>, GBound)>>,
    cv: Set<Seq<char>>,
    depth: nat,
) -> Option<Seq<Seq<(Seq<char>, GBound)>>>
    decreases es.len(),
{
    if es.len() == 0 {
        Some(seq![])
    } else {
        match step_envs(reg, b, es.drop_last(), cv, depth) {
            None => None,
            Some(acc) => match ev_binding(reg, b, es.last(), cv, depth) {
                None => None,
                Some(got) => match extend_with(reg, b, es.last(), got) {
                    None => None,
                    Some(more) => Some(acc + more),
                },
            },
        }
    }
}

/// The environments the bindings build up, in order, from one empty one.
pub open spec fn envs_of(reg: Seq<GComponent>, bs: Seq<GBinding>, cv: Set<Seq<char>>, depth: nat) -> Option<
    Seq<Seq<(Seq<char>, GBound)>>,
>
    decreases bs.len(),
{
    if bs.len() == 0 {
        Some(seq![seq![]])
    } else {
        match envs_of(reg, bs.drop_last(), cv, depth) {
            None => None,
            Some(es) => step_envs(reg, bs.last(), es, cv, depth),
        }
    }
}

/// The tree each environment binds `target` to; `None` when one binds a
/// const (or nothing).
pub open spec fn targets(es: Seq<Seq<(Seq<char>, GBound)>>, target: Seq<char>) -> Option<Seq<GNode>>
    decreases es.len(),
{
    if es.len() == 0 {
        Some(seq![])
    } else {
        match targets(es.drop_last(), target) {
            None => None,
            Some(ns) => match lookup(es.last(), target) {
                Some(GBound::Type(n)) => Some(ns.push(n)),
                _ => None,
            },
        }
    }
}

/// The sorts a query stands for, once it has passed the size guard and the
/// bind-before-use check: the last binding's trees over every environment,
/// deduped by canonical type, then sampled by `N of`.
pub open spec fn query_sorts(reg: Seq<GComponent>, q: GQuery, cv: Set<Seq<char>>) -> Option<Seq<GNode>> {
    match envs_of(reg, q.bindings, cv, q.depth as nat) {
        None => None,
        Some(es) => match targets(es, q.bindings.last().name) {
            None => None,
            Some(ns) => match dedup_canon(reg, ns) {
                None => None,
                Some(d) => match q.take {
                    None => Some(d.0),
                    Some(t) => match dedup_canon(reg, d.0) {
                        None => None,
                        Some(d2) => Some(pick(d2.0, t.n as nat, t.seed)),
                    },
                },
            },
        },
    }
}


/// Whether a candidate's resolved type survives the subtraction of `rm`.
pub open spec fn not_removed(reg: Seq<GComponent>, rm: Seq<Seq<char>>) -> spec_fn(GCand) -> bool {
    |c: GCand| !rm.contains(res_node(reg, c.0, reg.len())->0.type_expr)
}

/// Subtracting types keeps, in order, exactly the candidates whose resolved
/// type is not among those removed; it succeeds exactly when every candidate
/// resolves.
pub proof fn difference_keeps_the_rest(reg: Seq<GComponent>, cs: Seq<GCand>, rm: Seq<Seq<char>>)
    ensures
        drop_removed(reg, cs, rm) is Some <==> forall|i: int|
            0 <= i < cs.len() ==> (#[trigger] res_node(reg, cs[i].0, reg.len())) is Some,
        drop_removed(reg, cs, rm) is Some ==> drop_removed(reg, cs, rm)->0 == cs.filter(not_removed(reg, rm)),
    decreases cs.len(),
{
    reveal_with_fuel(Seq::filter, 2);
    if cs.len() > 0 {
        difference_keeps_the_rest(reg, cs.drop_last(), rm);
        let init = cs.drop_last();
        assert forall|i: int| 0 <= i < init.len() implies init[i] == cs[i] by {}
        if forall|i: int| 0 <= i < cs.len() ==> (#[trigger] res_node(reg, cs[i].0, reg.len())) is Some {
            assert forall|i: int| 0 <= i < init.len() implies (#[trigger] res_node(reg, init[i].0, reg.len())) is Some by {
                assert(init[i] == cs[i]);
            }
            assert(res_node(reg, cs[cs.len() - 1].0, reg.len()) is Some);
        }
        if drop_removed(reg, cs, rm) is Some {
            assert forall|i: int| 0 <= i < cs.len() implies (#[trigger] res_node(reg, cs[i].0, reg.len())) is Some by {
                if i < cs.len() - 1 {
                    assert(init[i] == cs[i]);
                    assert(res_node(reg, init[i].0, reg.len()) is Some);
                }
            }
        }
    }
}

/// A difference over a base other than a bare hole evaluates the subtrahends
/// to the types they remove and the base to its candidates, and keeps, in
/// order, the candidates whose type is not removed.
pub proof fn difference_of_candidates(
    reg: Seq<GComponent>,
    base: GValue,
    subs: Seq<GValue>,
    role: Seq<char>,
    refs: Seq<GRefinement>,
    env: Seq<(Seq<char>, GBound)>,
    cv: Set<Seq<char>>,
    depth: nat,
)
    requires
        !(base is Hole),
    ensures
        ev_type(reg, GValue::Diff { base: Box::new(base), subtrahends: subs }, role, refs, env, cv, depth) matches Some(
            out,
        ) ==> exists|rm: Seq<Seq<char>>, bc: Seq<GCand>|
            ev_removed(reg, subs, role, env, cv, depth) == Some(rm) && ev_type(reg, base, role, refs, env, cv, depth)
                == Some(bc) && #[trigger] bc.filter(not_removed(reg, rm)) == out,
{
    let v = GValue::Diff { base: Box::new(base), subtrahends: subs };
    if let Some(out) = ev_type(reg, v, role, refs, env, cv, depth) {
        let rm = ev_removed(reg, subs, role, env, cv, depth)->0;
        let bc = ev_type(reg, base, role, refs, env, cv, depth)->0;
        difference_keeps_the_rest(reg, bc, rm);
        assert(bc.filter(not_removed(reg, rm)) == out);
    }
}

} // verus!
