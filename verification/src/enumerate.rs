//! Exhaustive generation: every legal spec tree of a role, bounded by nesting
//! depth. Role filtering guarantees only legal trees are built; const slots
//! take their catalog default at resolve time.
use vstd::prelude::*;
use crate::text::{copy_string, string_views};
use crate::registry::{
    comp_view, ins_by_name, param_view, params_view, providers, providers_upto, refs_view, unique_names,
    Component, GComponent, GParam, GParamKind, ParamKind, Registry,
};
use crate::cardinality::{
    card_add, card_comp_s, card_mul, card_role_s, prod_roles, sum_comps, type_roles, Card,
};
use crate::spec_lang::{
    arg_view, args_view, lemma_args_view_push, node_view, Arg, GArg, GNode, SpecNode,
};

verus! {

/// A spec tree copied node for node.
pub fn copy_node(n: &SpecNode) -> (r: SpecNode)
    ensures
        node_view(r) == node_view(*n),
    decreases n,
{
    let args = copy_args(&n.args);
    SpecNode { name: copy_string(&n.name), args }
}

/// An argument list copied entry for entry.
pub fn copy_args(a: &Vec<Arg>) -> (r: Vec<Arg>)
    ensures
        args_view(r@) == args_view(a@),
    decreases a,
{
    let mut out: Vec<Arg> = Vec::new();
    let mut i: usize = 0;
    assert(a@.take(0) =~= out@);
    while i < a.len()
        invariant
            i <= a@.len(),
            args_view(out@) == args_view(a@.take(i as int)),
        decreases a@.len() - i,
    {
        let x = match &a[i] {
            Arg::Slot { name, value } => Arg::Slot {
                name: copy_string(name),
                value: copy_node(value),
            },
            Arg::NamedConst { name, value } => Arg::NamedConst {
                name: copy_string(name),
                value: copy_string(value),
            },
            Arg::Const(v) => Arg::Const(copy_string(v)),
        };
        assert(arg_view(x) == arg_view(a@[i as int]));
        proof {
            lemma_args_view_push(out@, x);
            lemma_args_view_push(a@.take(i as int), a@[i as int]);
            assert(a@.take(i + 1) =~= a@.take(i as int).push(a@[i as int]));
        }
        out.push(x);
        i = i + 1;
    }
    assert(a@.take(i as int) =~= a@);
    out
}


pub open spec fn nodes_view(v: Seq<SpecNode>) -> Seq<GNode> {
    v.map_values(|n: SpecNode| node_view(n))
}

pub open spec fn combos_view(v: Seq<Vec<Arg>>) -> Seq<Seq<GArg>> {
    v.map_values(|a: Vec<Arg>| args_view(a@))
}

/// The type slots of `ps` as (name, role) pairs, in declaration order.
pub open spec fn type_slots(ps: Seq<GParam>) -> Seq<(Seq<char>, Seq<char>)>
    decreases ps.len(),
{
    if ps.len() == 0 {
        seq![]
    } else {
        let prev = type_slots(ps.drop_last());
        match ps.last().kind {
            GParamKind::Type { role, .. } => prev.push((ps.last().name, role)),
            _ => prev,
        }
    }
}

/// Every tree of `role`, nested at most `depth` deep, in provider order.
pub open spec fn enum_role(reg: Seq<GComponent>, role: Seq<char>, depth: nat) -> Seq<GNode>
    decreases depth, 3nat, 0nat,
{
    enum_comps(reg, providers(reg, role), depth)
}

pub open spec fn enum_comps(reg: Seq<GComponent>, cs: Seq<GComponent>, depth: nat) -> Seq<GNode>
    decreases depth, 2nat, cs.len(),
{
    if cs.len() == 0 {
        seq![]
    } else {
        enum_comps(reg, cs.drop_last(), depth) + enum_comp(reg, cs.last(), depth)
    }
}

/// The trees headed by `c`: a leaf is one tree; otherwise the cartesian
/// product of its type slots' options one level down (none at depth zero).
pub open spec fn enum_comp(reg: Seq<GComponent>, c: GComponent, depth: nat) -> Seq<GNode>
    decreases depth, 1nat, 0nat,
{
    let slots = type_slots(c.params);
    if slots.len() == 0 {
        seq![GNode { name: c.name, args: seq![] }]
    } else if depth == 0 {
        seq![]
    } else {
        combos(reg, slots, (depth - 1) as nat).map_values(
            |combo: Seq<GArg>| GNode { name: c.name, args: combo },
        )
    }
}

/// The argument lists for `slots`, the first slot varying slowest.
pub open spec fn combos(reg: Seq<GComponent>, slots: Seq<(Seq<char>, Seq<char>)>, d: nat) -> Seq<
    Seq<GArg>,
>
    decreases d + 1, 0nat, slots.len(),
{
    if slots.len() == 0 {
        seq![seq![]]
    } else {
        cross(
            combos(reg, slots.drop_last(), d),
            slots.last().0,
            enum_role(reg, slots.last().1, d),
        )
    }
}

/// Each of `prev` extended by `name = o` for each option `o`, in order.
pub open spec fn cross(prev: Seq<Seq<GArg>>, name: Seq<char>, opts: Seq<GNode>) -> Seq<Seq<GArg>>
    decreases prev.len(),
{
    if prev.len() == 0 {
        seq![]
    } else {
        cross(prev.drop_last(), name, opts) + extend_each(prev.last(), name, opts)
    }
}

pub open spec fn extend_each(combo: Seq<GArg>, name: Seq<char>, opts: Seq<GNode>) -> Seq<Seq<GArg>> {
    opts.map_values(|o: GNode| combo.push(GArg::Slot { name, value: o }))
}

fn type_slots_exec(c: &Component) -> (r: Vec<(String, String)>)
    ensures
        r@.map_values(|p: (String, String)| (p.0@, p.1@)) == type_slots(params_view(c.params@)),
{
    let mut out: Vec<(String, String)> = Vec::new();
    let mut k: usize = 0;
    while k < c.params.len()
        invariant
            k <= c.params@.len(),
            out@.map_values(|p: (String, String)| (p.0@, p.1@)) == type_slots(
                params_view(c.params@).take(k as int),
            ),
        decreases c.params@.len() - k,
    {
        let ghost pv = params_view(c.params@);
        assert(pv.take(k + 1).drop_last() =~= pv.take(k as int));
        assert(pv.take(k + 1).last() == param_view(c.params@[k as int]));
        match &c.params[k].kind {
            ParamKind::Type { role, .. } => {
                let ghost before = out@;
                out.push((copy_string(&c.params[k].name), copy_string(role)));
                assert(out@.map_values(|p: (String, String)| (p.0@, p.1@)) =~= before.map_values(
                    |p: (String, String)| (p.0@, p.1@),
                ).push((c.params@[k as int].name@, role@)));
            },
            _ => {},
        }
        k = k + 1;
    }
    assert(params_view(c.params@).take(k as int) =~= params_view(c.params@));
    out
}

fn enumerate_role(reg: &Registry, role: &str, depth: usize) -> (r: Vec<SpecNode>)
    requires
        reg.wf(),
    ensures
        nodes_view(r@) == enum_role(reg@, role@, depth as nat),
    decreases depth, 3nat,
{
    let cs = reg.providing(role);
    let mut out: Vec<SpecNode> = Vec::new();
    let mut i: usize = 0;
    assert(nodes_view(out@) =~= enum_comps(reg@, refs_view(cs@).take(0), depth as nat));
    while i < cs.len()
        invariant
            i <= cs@.len(),
            reg.wf(),
            refs_view(cs@) == providers(reg@, role@),
            nodes_view(out@) == enum_comps(reg@, refs_view(cs@).take(i as int), depth as nat),
        decreases cs@.len() - i,
    {
        let ghost rv = refs_view(cs@);
        assert(rv.take(i + 1).drop_last() =~= rv.take(i as int));
        assert(rv.take(i + 1).last() == comp_view(*cs@[i as int]));
        let mut more = enumerate_component(reg, cs[i], depth);
        let ghost a = nodes_view(out@);
        let ghost b = nodes_view(more@);
        out.append(&mut more);
        assert(nodes_view(out@) =~= a + b);
        i = i + 1;
    }
    assert(refs_view(cs@).take(i as int) =~= refs_view(cs@));
    out
}

fn enumerate_component(reg: &Registry, c: &Component, depth: usize) -> (r: Vec<SpecNode>)
    requires
        reg.wf(),
    ensures
        nodes_view(r@) == enum_comp(reg@, comp_view(*c), depth as nat),
    decreases depth, 1nat,
{
    let slots = type_slots_exec(c);
    let ghost sv = slots@.map_values(|p: (String, String)| (p.0@, p.1@));
    if slots.len() == 0 {
        let mut v: Vec<SpecNode> = Vec::new();
        let n = SpecNode { name: copy_string(&c.name), args: Vec::new() };
        v.push(n);
        assert(nodes_view(v@) =~= seq![GNode { name: c.name@, args: seq![] }]);
        return v;
    }
    if depth == 0 {
        let v: Vec<SpecNode> = Vec::new();
        assert(nodes_view(v@) =~= seq![]);
        return v;
    }
    let mut combos_v: Vec<Vec<Arg>> = Vec::new();
    combos_v.push(Vec::new());
    assert(combos_view(combos_v@) =~= combos(reg@, sv.take(0), (depth - 1) as nat));
    let mut s: usize = 0;
    while s < slots.len()
        invariant
            s <= slots@.len(),
            depth > 0,
            reg.wf(),
            sv == slots@.map_values(|p: (String, String)| (p.0@, p.1@)),
            combos_view(combos_v@) == combos(reg@, sv.take(s as int), (depth - 1) as nat),
        decreases slots@.len() - s,
    {
        assert(sv.take(s + 1).drop_last() =~= sv.take(s as int));
        assert(sv.take(s + 1).last() == (slots@[s as int].0@, slots@[s as int].1@));
        let opts = enumerate_role(reg, slots[s].1.as_str(), depth - 1);
        let ghost ov = nodes_view(opts@);
        let ghost pname = slots@[s as int].0@;
        let mut next: Vec<Vec<Arg>> = Vec::new();
        let mut a: usize = 0;
        assert(combos_view(next@) =~= cross(combos_view(combos_v@).take(0), pname, ov));
        while a < combos_v.len()
            invariant
                a <= combos_v@.len(),
                ov == nodes_view(opts@),
                pname == slots@[s as int].0@,
                s < slots@.len(),
                combos_view(next@) == cross(combos_view(combos_v@).take(a as int), pname, ov),
            decreases combos_v@.len() - a,
        {
            let ghost cv = combos_view(combos_v@);
            assert(cv.take(a + 1).drop_last() =~= cv.take(a as int));
            assert(cv.take(a + 1).last() == args_view(combos_v@[a as int]@));
            let ghost base = combos_view(next@);
            let mut b: usize = 0;
            while b < opts.len()
                invariant
                    a < combos_v@.len(),
                    b <= opts@.len(),
                    ov == nodes_view(opts@),
                    pname == slots@[s as int].0@,
                    s < slots@.len(),
                    combos_view(next@) == base + extend_each(
                        args_view(combos_v@[a as int]@),
                        pname,
                        ov,
                    ).take(b as int),
                decreases opts@.len() - b,
            {
                let mut c2 = copy_args(&combos_v[a]);
                let x = Arg::Slot { name: copy_string(&slots[s].0), value: copy_node(&opts[b]) };
                proof {
                    lemma_args_view_push(c2@, x);
                }
                c2.push(x);
                let ghost before = combos_view(next@);
                next.push(c2);
                assert(combos_view(next@) =~= before.push(args_view(c2@)));
                assert(extend_each(args_view(combos_v@[a as int]@), pname, ov).take(b + 1)
                    =~= extend_each(args_view(combos_v@[a as int]@), pname, ov).take(b as int).push(
                    args_view(c2@),
                ));
                b = b + 1;
            }
            assert(extend_each(args_view(combos_v@[a as int]@), pname, ov).take(b as int)
                =~= extend_each(args_view(combos_v@[a as int]@), pname, ov));
            a = a + 1;
        }
        assert(combos_view(combos_v@).take(a as int) =~= combos_view(combos_v@));
        combos_v = next;
        s = s + 1;
    }
    assert(sv.take(s as int) =~= sv);
    let mut out: Vec<SpecNode> = Vec::new();
    let mut k: usize = 0;
    let ghost all = combos_view(combos_v@);
    while k < combos_v.len()
        invariant
            k <= combos_v@.len(),
            all == combos_view(combos_v@),
            nodes_view(out@) == all.take(k as int).map_values(
                |combo: Seq<GArg>| GNode { name: c.name@, args: combo },
            ),
        decreases combos_v@.len() - k,
    {
        let n = SpecNode { name: copy_string(&c.name), args: copy_args(&combos_v[k]) };
        let ghost before = nodes_view(out@);
        out.push(n);
        assert(nodes_view(out@) =~= before.push(node_view(n)));
        assert(all.take(k + 1).map_values(|combo: Seq<GArg>| GNode { name: c.name@, args: combo })
            =~= all.take(k as int).map_values(
            |combo: Seq<GArg>| GNode { name: c.name@, args: combo },
        ).push(node_view(n)));
        k = k + 1;
    }
    assert(all.take(k as int) =~= all);
    out
}

/// Every legal spec tree rooted at `root_role`, nested at most `max_depth`
/// deep, in provider (name) order.
pub fn enumerate(reg: &Registry, root_role: &str, max_depth: usize) -> (r: Vec<SpecNode>)
    requires
        reg.wf(),
    ensures
        nodes_view(r@) == enum_role(reg@, root_role@, max_depth as nat),
{
    enumerate_role(reg, root_role, max_depth)
}

// ───────────────────────────── counting matches enumerating ─────────────────────────────

pub open spec fn roles_of(slots: Seq<(Seq<char>, Seq<char>)>) -> Seq<Seq<char>> {
    slots.map_values(|p: (Seq<char>, Seq<char>)| p.1)
}

proof fn lemma_type_roles_slots(ps: Seq<GParam>)
    ensures
        type_roles(ps) == roles_of(type_slots(ps)),
    decreases ps.len(),
{
    if ps.len() > 0 {
        lemma_type_roles_slots(ps.drop_last());
        assert(type_roles(ps) =~= roles_of(type_slots(ps)));
    }
}

proof fn lemma_cross_len(prev: Seq<Seq<GArg>>, name: Seq<char>, opts: Seq<GNode>)
    ensures
        cross(prev, name, opts).len() == prev.len() * opts.len(),
    decreases prev.len(),
{
    if prev.len() > 0 {
        lemma_cross_len(prev.drop_last(), name, opts);
        let k = prev.len() as int;
        let m = opts.len() as int;
        assert((k - 1) * m + m == k * m) by (nonlinear_arith);
    }
}

proof fn lemma_count_role(reg: Seq<GComponent>, role: Seq<char>, d: nat)
    ensures
        card_role_s(reg, role, d) matches Card::Finite(n) ==> n == enum_role(reg, role, d).len(),
    decreases d, 3nat, 0nat,
{
    lemma_count_comps(reg, providers(reg, role), d);
}

proof fn lemma_count_comps(reg: Seq<GComponent>, cs: Seq<GComponent>, d: nat)
    ensures
        sum_comps(reg, cs, d) matches Card::Finite(n) ==> n == enum_comps(reg, cs, d).len(),
    decreases d, 2nat, cs.len(),
{
    if cs.len() > 0 {
        lemma_count_comps(reg, cs.drop_last(), d);
        lemma_count_comp(reg, cs.last(), d);
    }
}

proof fn lemma_count_comp(reg: Seq<GComponent>, c: GComponent, d: nat)
    ensures
        card_comp_s(reg, c, d) matches Card::Finite(n) ==> n == enum_comp(reg, c, d).len(),
    decreases d, 1nat, 0nat,
{
    lemma_type_roles_slots(c.params);
    let slots = type_slots(c.params);
    if slots.len() > 0 && d > 0 {
        lemma_count_prod(reg, slots, (d - 1) as nat);
    }
}

proof fn lemma_count_prod(reg: Seq<GComponent>, slots: Seq<(Seq<char>, Seq<char>)>, d: nat)
    ensures
        prod_roles(reg, roles_of(slots), d) matches Card::Finite(n) ==> n == combos(
            reg,
            slots,
            d,
        ).len(),
    decreases d + 1, 0nat, slots.len(),
{
    if slots.len() > 0 {
        let rs = roles_of(slots);
        assert(rs.drop_last() =~= roles_of(slots.drop_last()));
        assert(rs.last() == slots.last().1);
        lemma_count_prod(reg, slots.drop_last(), d);
        lemma_count_role(reg, slots.last().1, d);
        lemma_cross_len(
            combos(reg, slots.drop_last(), d),
            slots.last().0,
            enum_role(reg, slots.last().1, d),
        );
    }
}

/// Counting is faithful to enumerating: whenever the saturating count of a
/// role's depth-bounded population is finite, it is exactly the number of
/// trees [`enumerate`] produces for that role and depth.
pub proof fn card_role_counts_enumeration(reg: Seq<GComponent>, role: Seq<char>, depth: nat)
    ensures
        card_role_s(reg, role, depth) matches Card::Finite(n) ==> n == enum_role(
            reg,
            role,
            depth,
        ).len(),
{
    lemma_count_role(reg, role, depth);
}


// ───────────────────────────── the shape of what is enumerated ─────────────────────────────

/// `t` is a tree of `role` nested at most `d` deep: its head provides `role`,
/// and it has exactly one slot argument per type slot of the head, in
/// declaration order, each filled with a tree of that slot's role nested at
/// most `d - 1` deep (a head with no type slots takes no arguments).
pub open spec fn tree_of(reg: Seq<GComponent>, role: Seq<char>, t: GNode, d: nat) -> bool
    decreases d,
{
    exists|c: GComponent|
        #[trigger] providers(reg, role).contains(c) && c.name == t.name && ({
            let slots = type_slots(c.params);
            if slots.len() == 0 {
                t.args == Seq::<GArg>::empty()
            } else {
                &&& d > 0
                &&& t.args.len() == slots.len()
                &&& forall|i: int|
                    0 <= i < slots.len() ==> (#[trigger] t.args[i] matches GArg::Slot { name, value } && name
                        == slots[i].0 && tree_of(reg, slots[i].1, value, (d - 1) as nat))
            }
        })
}

/// `x` fills `slots` in order, each with an option of its role at depth `d`.
pub open spec fn fills(reg: Seq<GComponent>, x: Seq<GArg>, slots: Seq<(Seq<char>, Seq<char>)>, d: nat) -> bool {
    &&& x.len() == slots.len()
    &&& forall|i: int|
        0 <= i < slots.len() ==> (#[trigger] x[i] matches GArg::Slot { name, value } && name == slots[i].0
            && enum_role(reg, slots[i].1, d).contains(value))
}

proof fn lemma_cross_member(prev: Seq<Seq<GArg>>, name: Seq<char>, opts: Seq<GNode>, x: Seq<GArg>)
    requires
        cross(prev, name, opts).contains(x),
    ensures
        exists|p: Seq<GArg>, o: GNode|
            prev.contains(p) && opts.contains(o) && x == #[trigger] p.push(GArg::Slot { name, value: o }),
    decreases prev.len(),
{
    let a = cross(prev.drop_last(), name, opts);
    let b = extend_each(prev.last(), name, opts);
    let k = choose|k: int| 0 <= k < cross(prev, name, opts).len() && cross(prev, name, opts)[k] == x;
    assert(cross(prev, name, opts) == a + b);
    if k < a.len() {
        assert(a[k] == x);
        lemma_cross_member(prev.drop_last(), name, opts, x);
        let (p, o) = choose|p: Seq<GArg>, o: GNode|
            prev.drop_last().contains(p) && opts.contains(o) && x == #[trigger] p.push(GArg::Slot { name, value: o });
        let q = choose|q: int| 0 <= q < prev.drop_last().len() && prev.drop_last()[q] == p;
        assert(prev[q] == p);
        assert(prev.contains(p));
    } else {
        let j = k - a.len();
        assert(b[j] == x);
        assert(opts[j] == opts[j]);
        assert(prev[prev.len() - 1] == prev.last());
        assert(prev.contains(prev.last()));
        assert(opts.contains(opts[j]));
        assert(x == prev.last().push(GArg::Slot { name, value: opts[j] }));
    }
}

proof fn lemma_combos_member(reg: Seq<GComponent>, slots: Seq<(Seq<char>, Seq<char>)>, d: nat, x: Seq<GArg>)
    requires
        combos(reg, slots, d).contains(x),
    ensures
        fills(reg, x, slots, d),
    decreases slots.len(),
{
    if slots.len() == 0 {
        assert(x == Seq::<GArg>::empty());
    } else {
        let init = slots.drop_last();
        let name = slots.last().0;
        let opts = enum_role(reg, slots.last().1, d);
        lemma_cross_member(combos(reg, init, d), name, opts, x);
        let (p, o) = choose|p: Seq<GArg>, o: GNode|
            combos(reg, init, d).contains(p) && opts.contains(o) && x == #[trigger] p.push(GArg::Slot { name, value: o });
        lemma_combos_member(reg, init, d, p);
        assert forall|i: int| 0 <= i < slots.len() implies (#[trigger] x[i] matches GArg::Slot { name, value } && name
            == slots[i].0 && enum_role(reg, slots[i].1, d).contains(value)) by {
            if i < init.len() {
                assert(x[i] == p[i]);
                assert(init[i] == slots[i]);
            }
        }
    }
}

proof fn lemma_comps_member(reg: Seq<GComponent>, cs: Seq<GComponent>, d: nat, t: GNode)
    requires
        enum_comps(reg, cs, d).contains(t),
    ensures
        exists|j: int| 0 <= j < cs.len() && #[trigger] enum_comp(reg, cs[j], d).contains(t),
    decreases cs.len(),
{
    let a = enum_comps(reg, cs.drop_last(), d);
    let b = enum_comp(reg, cs.last(), d);
    let k = choose|k: int| 0 <= k < enum_comps(reg, cs, d).len() && enum_comps(reg, cs, d)[k] == t;
    if k < a.len() {
        assert(a[k] == t);
        lemma_comps_member(reg, cs.drop_last(), d, t);
        let j = choose|j: int| 0 <= j < cs.drop_last().len() && #[trigger] enum_comp(reg, cs.drop_last()[j], d).contains(t);
        assert(cs[j] == cs.drop_last()[j]);
        assert(enum_comp(reg, cs[j], d).contains(t));
    } else {
        assert(b[k - a.len()] == t);
        assert(cs[cs.len() - 1] == cs.last());
        assert(b.contains(t));
        assert(enum_comp(reg, cs[cs.len() - 1], d).contains(t));
    }
}

/// Everything enumerated for a role at a depth is a tree of that role nested
/// at most that deep.
pub proof fn enumerated_trees_are_shaped(reg: Seq<GComponent>, d: nat)
    ensures
        forall|role: Seq<char>, t: GNode| #[trigger] enum_role(reg, role, d).contains(t) ==> tree_of(reg, role, t, d),
    decreases d,
{
    if d > 0 {
        enumerated_trees_are_shaped(reg, (d - 1) as nat);
    }
    assert forall|role: Seq<char>, t: GNode| #[trigger] enum_role(reg, role, d).contains(t) implies tree_of(reg, role, t, d) by {
        let cs = providers(reg, role);
        lemma_comps_member(reg, cs, d, t);
        let j = choose|j: int| 0 <= j < cs.len() && #[trigger] enum_comp(reg, cs[j], d).contains(t);
        let c = cs[j];
        assert(cs.contains(c));
        let slots = type_slots(c.params);
        if slots.len() == 0 {
            assert(enum_comp(reg, c, d) == seq![GNode { name: c.name, args: seq![] }]);
            assert(t == GNode { name: c.name, args: Seq::<GArg>::empty() });
        } else {
            assert(d > 0);
            let all = combos(reg, slots, (d - 1) as nat);
            let k = choose|k: int| 0 <= k < enum_comp(reg, c, d).len() && enum_comp(reg, c, d)[k] == t;
            assert(t == GNode { name: c.name, args: all[k] });
            assert(all.contains(all[k]));
            lemma_combos_member(reg, slots, (d - 1) as nat, all[k]);
            assert forall|i: int| 0 <= i < slots.len() implies (#[trigger] t.args[i] matches GArg::Slot { name, value } && name
                == slots[i].0 && tree_of(reg, slots[i].1, value, (d - 1) as nat)) by {
                assert(all[k][i] matches GArg::Slot { name, value } && name == slots[i].0 && enum_role(reg, slots[i].1, (d - 1) as nat).contains(value));
            }
        }
    }
}


// ───────────────────────────── each tree once ─────────────────────────────

/// No two entries of `s` are equal.
pub open spec fn no_dup<A>(s: Seq<A>) -> bool {
    forall|i: int, j: int| 0 <= i < j < s.len() ==> s[i] != s[j]
}

pub open spec fn distinct_names(cs: Seq<GComponent>) -> bool {
    forall|i: int, j: int| 0 <= i < j < cs.len() ==> cs[i].name != cs[j].name
}

proof fn lemma_no_dup_concat<A>(a: Seq<A>, b: Seq<A>)
    requires
        no_dup(a),
        no_dup(b),
        forall|i: int| 0 <= i < a.len() ==> !b.contains(#[trigger] a[i]),
    ensures
        no_dup(a + b),
{
    let c = a + b;
    assert forall|i: int, j: int| 0 <= i < j < c.len() implies c[i] != c[j] by {
        if i < a.len() && j >= a.len() {
            assert(c[j] == b[j - a.len()]);
            assert(b.contains(b[j - a.len()]));
            assert(!b.contains(a[i]));
        } else if i >= a.len() {
            assert(c[i] == b[i - a.len()] && c[j] == b[j - a.len()]);
        }
    }
}

proof fn lemma_ins_by_name(s: Seq<GComponent>, x: GComponent)
    requires
        distinct_names(s),
        forall|i: int| 0 <= i < s.len() ==> (#[trigger] s[i]).name != x.name,
    ensures
        distinct_names(ins_by_name(s, x)),
        forall|y: GComponent| #[trigger] ins_by_name(s, x).contains(y) <==> (s.contains(y) || y == x),
    decreases s.len(),
{
    let t = ins_by_name(s, x);
    if s.len() == 0 {
        assert(t == seq![x]);
        assert forall|y: GComponent| #[trigger] t.contains(y) <==> (s.contains(y) || y == x) by {
            if y == x {
                assert(t[0] == y);
            }
        }
    } else if crate::registry::lex_lt(x.name, s[0].name) {
        assert(t == seq![x] + s);
        assert forall|y: GComponent| #[trigger] t.contains(y) <==> (s.contains(y) || y == x) by {
            if t.contains(y) {
                let k = choose|k: int| 0 <= k < t.len() && t[k] == y;
                if k > 0 {
                    assert(s[k - 1] == y);
                }
            }
            if s.contains(y) {
                let k = choose|k: int| 0 <= k < s.len() && s[k] == y;
                assert(t[k + 1] == y);
            }
            if y == x {
                assert(t[0] == y);
            }
        }
    } else {
        let rest = s.drop_first();
        assert forall|i: int, j: int| 0 <= i < j < rest.len() implies rest[i].name != rest[j].name by {
            assert(rest[i] == s[i + 1] && rest[j] == s[j + 1]);
        }
        assert forall|i: int| 0 <= i < rest.len() implies (#[trigger] rest[i]).name != x.name by {
            assert(rest[i] == s[i + 1]);
        }
        lemma_ins_by_name(rest, x);
        let u = ins_by_name(rest, x);
        assert(t == seq![s[0]] + u);
        assert forall|y: GComponent| #[trigger] t.contains(y) <==> (s.contains(y) || y == x) by {
            if t.contains(y) {
                let k = choose|k: int| 0 <= k < t.len() && t[k] == y;
                if k > 0 {
                    assert(u[k - 1] == y);
                    assert(u.contains(y));
                    if rest.contains(y) {
                        let q = choose|q: int| 0 <= q < rest.len() && rest[q] == y;
                        assert(s[q + 1] == y);
                    }
                } else {
                    assert(s[0] == y);
                }
            }
            if s.contains(y) {
                let k = choose|k: int| 0 <= k < s.len() && s[k] == y;
                if k == 0 {
                    assert(t[0] == y);
                } else {
                    assert(rest[k - 1] == y);
                    assert(rest.contains(y));
                    assert(u.contains(y));
                    let q = choose|q: int| 0 <= q < u.len() && u[q] == y;
                    assert(t[q + 1] == y);
                }
            }
            if y == x {
                assert(u.contains(x));
                let q = choose|q: int| 0 <= q < u.len() && u[q] == x;
                assert(t[q + 1] == y);
            }
        }
        assert forall|i: int, j: int| 0 <= i < j < t.len() implies t[i].name != t[j].name by {
            if i == 0 {
                assert(t[j] == u[j - 1]);
                assert(u.contains(u[j - 1]));
                if rest.contains(u[j - 1]) {
                    let q = choose|q: int| 0 <= q < rest.len() && rest[q] == u[j - 1];
                    assert(s[q + 1] == u[j - 1]);
                }
            } else {
                assert(t[i] == u[i - 1] && t[j] == u[j - 1]);
            }
        }
    }
}

proof fn lemma_providers_distinct(cs: Seq<GComponent>, role: Seq<char>, j: nat)
    requires
        unique_names(cs),
    ensures
        distinct_names(providers_upto(cs, role, j)),
        forall|y: GComponent| #[trigger] providers_upto(cs, role, j).contains(y) ==> exists|k: int|
            0 <= k < j && k < cs.len() && cs[k] == y,
    decreases j,
{
    if !(j == 0 || j > cs.len()) {
        let prev = providers_upto(cs, role, (j - 1) as nat);
        lemma_providers_distinct(cs, role, (j - 1) as nat);
        if cs[j - 1].provides.contains(role) {
            let x = cs[j - 1];
            assert forall|i: int| 0 <= i < prev.len() implies (#[trigger] prev[i]).name != x.name by {
                assert(prev.contains(prev[i]));
                let k = choose|k: int| 0 <= k < j - 1 && k < cs.len() && cs[k] == prev[i];
                assert(k != j - 1);
            }
            lemma_ins_by_name(prev, x);
            assert forall|y: GComponent| #[trigger] providers_upto(cs, role, j).contains(y) implies exists|k: int|
                0 <= k < j && k < cs.len() && cs[k] == y by {
                if prev.contains(y) {
                    let k = choose|k: int| 0 <= k < j - 1 && k < cs.len() && cs[k] == y;
                } else {
                    assert(cs[j - 1] == y);
                }
            }
        }
    }
}

proof fn lemma_cross_no_dup(prev: Seq<Seq<GArg>>, name: Seq<char>, opts: Seq<GNode>)
    requires
        no_dup(prev),
        no_dup(opts),
    ensures
        no_dup(cross(prev, name, opts)),
    decreases prev.len(),
{
    if prev.len() > 0 {
        let init = prev.drop_last();
        assert forall|i: int, j: int| 0 <= i < j < init.len() implies init[i] != init[j] by {
            assert(init[i] == prev[i] && init[j] == prev[j]);
        }
        lemma_cross_no_dup(init, name, opts);
        let a = cross(init, name, opts);
        let b = extend_each(prev.last(), name, opts);
        assert forall|i: int, j: int| 0 <= i < j < b.len() implies b[i] != b[j] by {
            assert(b[i].last() == GArg::Slot { name, value: opts[i] });
            assert(b[j].last() == GArg::Slot { name, value: opts[j] });
        }
        assert forall|i: int| 0 <= i < a.len() implies !b.contains(#[trigger] a[i]) by {
            assert(a.contains(a[i]));
            lemma_cross_member(init, name, opts, a[i]);
            let (p, o) = choose|p: Seq<GArg>, o: GNode|
                init.contains(p) && opts.contains(o) && a[i] == #[trigger] p.push(GArg::Slot { name, value: o });
            if b.contains(a[i]) {
                let q = choose|q: int| 0 <= q < b.len() && b[q] == a[i];
                assert(b[q].drop_last() =~= prev.last());
                assert(a[i].drop_last() =~= p);
                let r = choose|r: int| 0 <= r < init.len() && init[r] == p;
                assert(prev[r] == prev[prev.len() - 1]);
            }
        }
        lemma_no_dup_concat(a, b);
    }
}

proof fn lemma_combos_no_dup(reg: Seq<GComponent>, slots: Seq<(Seq<char>, Seq<char>)>, d: nat)
    requires
        forall|i: int| 0 <= i < slots.len() ==> no_dup(#[trigger] enum_role(reg, slots[i].1, d)),
    ensures
        no_dup(combos(reg, slots, d)),
    decreases slots.len(),
{
    if slots.len() > 0 {
        let init = slots.drop_last();
        assert forall|i: int| 0 <= i < init.len() implies no_dup(#[trigger] enum_role(reg, init[i].1, d)) by {
            assert(init[i] == slots[i]);
        }
        lemma_combos_no_dup(reg, init, d);
        assert(no_dup(enum_role(reg, slots[slots.len() - 1].1, d)));
        lemma_cross_no_dup(combos(reg, init, d), slots.last().0, enum_role(reg, slots.last().1, d));
    }
}

proof fn lemma_comps_no_dup(reg: Seq<GComponent>, cs: Seq<GComponent>, d: nat)
    requires
        distinct_names(cs),
        forall|j: int| 0 <= j < cs.len() ==> no_dup(#[trigger] enum_comp(reg, cs[j], d)),
    ensures
        no_dup(enum_comps(reg, cs, d)),
    decreases cs.len(),
{
    if cs.len() > 0 {
        let init = cs.drop_last();
        assert forall|i: int, j: int| 0 <= i < j < init.len() implies init[i].name != init[j].name by {
            assert(init[i] == cs[i] && init[j] == cs[j]);
        }
        assert forall|j: int| 0 <= j < init.len() implies no_dup(#[trigger] enum_comp(reg, init[j], d)) by {
            assert(init[j] == cs[j]);
        }
        lemma_comps_no_dup(reg, init, d);
        let a = enum_comps(reg, init, d);
        let c = cs.last();
        let b = enum_comp(reg, c, d);
        assert(no_dup(enum_comp(reg, cs[cs.len() - 1], d)));
        assert forall|i: int| 0 <= i < a.len() implies !b.contains(#[trigger] a[i]) by {
            assert(a.contains(a[i]));
            lemma_comps_member(reg, init, d, a[i]);
            let j = choose|j: int| 0 <= j < init.len() && #[trigger] enum_comp(reg, init[j], d).contains(a[i]);
            lemma_comp_names(reg, init[j], d);
            lemma_comp_names(reg, c, d);
            assert(init[j] == cs[j]);
            assert(cs[j].name != cs[cs.len() - 1].name);
        }
        lemma_no_dup_concat(a, b);
    }
}

proof fn lemma_comp_names(reg: Seq<GComponent>, c: GComponent, d: nat)
    ensures
        forall|t: GNode| #[trigger] enum_comp(reg, c, d).contains(t) ==> t.name == c.name,
{
    assert forall|t: GNode| #[trigger] enum_comp(reg, c, d).contains(t) implies t.name == c.name by {
        let k = choose|k: int| 0 <= k < enum_comp(reg, c, d).len() && enum_comp(reg, c, d)[k] == t;
    }
}

/// In a catalog whose names are unique, enumerating a role lists each tree
/// at most once.
pub proof fn enumerated_trees_are_distinct(reg: Seq<GComponent>, d: nat)
    requires
        unique_names(reg),
    ensures
        forall|role: Seq<char>| no_dup(#[trigger] enum_role(reg, role, d)),
    decreases d,
{
    if d > 0 {
        enumerated_trees_are_distinct(reg, (d - 1) as nat);
    }
    assert forall|role: Seq<char>| no_dup(#[trigger] enum_role(reg, role, d)) by {
        let cs = providers(reg, role);
        lemma_providers_distinct(reg, role, reg.len());
        assert forall|j: int| 0 <= j < cs.len() implies no_dup(#[trigger] enum_comp(reg, cs[j], d)) by {
            let c = cs[j];
            let slots = type_slots(c.params);
            if slots.len() > 0 && d > 0 {
                assert forall|i: int| 0 <= i < slots.len() implies no_dup(#[trigger] enum_role(reg, slots[i].1, (d - 1) as nat)) by {}
                lemma_combos_no_dup(reg, slots, (d - 1) as nat);
                let all = combos(reg, slots, (d - 1) as nat);
                let m = enum_comp(reg, c, d);
                assert forall|a: int, b: int| 0 <= a < b < m.len() implies m[a] != m[b] by {
                    assert(m[a].args == all[a] && m[b].args == all[b]);
                }
            }
        }
        lemma_comps_no_dup(reg, cs, d);
    }
}

} // verus!
