//! The typed constraint solver: a [`Query`] (let-bindings, shared variables,
//! refinements, holes with quantifiers) lowered to a set of ground
//! [`SpecNode`] trees. A shared variable threads one value to every use, and a
//! refinement adds a role constraint to that value, so an arity-mismatched
//! combination is never built.
//!
//! The only constraints are structural equality (a shared variable) and role
//! membership; numbers are shared, defaulted or finitely enumerated as opaque
//! tokens.
use vstd::prelude::*;
use crate::text::{chars_of, chars_eq, copy_string, owned, push_str, push_decimal, string_views,
    lemma_string_views_push};
use crate::registry::{comp_view, find, find_param, opt_view, params_view, Component, GComponent, ParamKind, Registry};
use crate::resolve::{res_node, resolve, resolved_view, union_into, union_into_exec};
use crate::spec_lang::{
    arg_view, args_view, lemma_args_view_push, binding_view, bindings_view, node_view, qarg_view, qargs_view, query_view,
    refinement_view, refinements_view, value_view, values_view, lemma_qargs_view_len,
    lemma_values_view_len, Arg, Binding, GArg, GBinding, GNode, GQArg, GRefinement, GValue, QArg,
    QValue, Quant, Query, Refinement, SpecNode,
};
use crate::enumerate::{copy_args, copy_node, enum_role, enumerate, nodes_view};
use crate::cardinality::{check_size, Card, DEFAULT_MAX_GROUND};
use crate::semantics::{capture_all, cand_nodes_g, dedup_pairs, drop_removed, ev_const, extend_env, filter_local,
    join, keep_hole, lemma_dedup_pairs_nodes, local_ok, pick, quant_pick, types_of, ev_args, ev_pieces,
    ev_removed, ev_step, ev_type, ev_union, ev_binding, ref_one, ref_value, refs_ok, check_refs, envs_of,
    extend_with, query_sorts, step_envs, targets, GCand};

verus! {

// ───────────────────────────── seeded sampling ─────────────────────────────

/// One step of SplitMix64: the next state and the value drawn.
pub open spec fn rng_step(s: u64) -> (u64, u64) {
    let s2 = vstd::wrapping::u64_specs::wrapping_add(s, 0x9E37_79B9_7F4A_7C15u64);
    let z1 = vstd::wrapping::u64_specs::wrapping_mul(s2 ^ (s2 >> 30u64), 0xBF58_476D_1CE4_E5B9u64);
    let z2 = vstd::wrapping::u64_specs::wrapping_mul(z1 ^ (z1 >> 27u64), 0x94D0_49BB_1331_11EBu64);
    (s2, z2 ^ (z2 >> 31u64))
}

/// SplitMix64: a small seeded generator, so every random quantifier is
/// reproducible.
struct Rng {
    state: u64,
}

impl Rng {
    fn next_u64(&mut self) -> (r: u64)
        ensures
            (final(self).state, r) == rng_step(old(self).state),
    {
        self.state = self.state.wrapping_add(0x9E37_79B9_7F4A_7C15);
        let mut z = self.state;
        z = (z ^ (z >> 30)).wrapping_mul(0xBF58_476D_1CE4_E5B9);
        z = (z ^ (z >> 27)).wrapping_mul(0x94D0_49BB_1331_11EB);
        z ^ (z >> 31)
    }
}

/// The first `i..n` steps of a partial Fisher–Yates shuffle of `idx`.
pub open spec fn fisher_yates(idx: Seq<int>, i: nat, n: nat, s: u64) -> Seq<int>
    decreases n - i,
{
    if i >= n || i >= idx.len() {
        idx
    } else {
        let (s2, out) = rng_step(s);
        let j = i + (out % ((idx.len() - i) as u64)) as int;
        fisher_yates(idx.update(i as int, idx[j]).update(j, idx[i as int]), i + 1, n, s2)
    }
}

/// The positions a seeded sample of `n` out of `len` takes, in order: all of
/// them when `n` covers the population, else the first `n` slots of a partial
/// Fisher–Yates shuffle of `0..len`.
pub open spec fn iota(n: nat) -> Seq<int> {
    Seq::new(n, |k: int| k)
}

pub open spec fn sample_positions_s(len: nat, n: nat, seed: u64) -> Seq<int> {
    if n >= len {
        iota(len)
    } else {
        fisher_yates(iota(len), 0, n, seed).take(n as int)
    }
}

pub open spec fn ints(s: Seq<usize>) -> Seq<int> {
    s.map_values(|x: usize| x as int)
}

pub open spec fn distinct_below(s: Seq<int>, len: nat) -> bool {
    &&& forall|a: int| 0 <= a < s.len() ==> 0 <= #[trigger] s[a] < len
    &&& forall|a: int, b: int| 0 <= a < b < s.len() ==> s[a] != s[b]
}

proof fn lemma_fisher_yates_distinct(idx: Seq<int>, i: nat, n: nat, s: u64)
    requires
        distinct_below(idx, idx.len()),
        idx.len() <= u64::MAX,
    ensures
        distinct_below(fisher_yates(idx, i, n, s), idx.len()),
        fisher_yates(idx, i, n, s).len() == idx.len(),
    decreases n - i,
{
    if !(i >= n || i >= idx.len()) {
        let (s2, out) = rng_step(s);
        let m = (idx.len() - i) as u64;
        let j = i + (out % m) as int;
        assert(0 <= (out % m) < m);
        assert(j < idx.len());
        let t = idx.update(i as int, idx[j]).update(j, idx[i as int]);
        assert forall|a: int, b: int| 0 <= a < b < t.len() implies t[a] != t[b] by {
            let pa = if a == j { i as int } else if a == i { j } else { a };
            let pb = if b == j { i as int } else if b == i { j } else { b };
            assert(t[a] == idx[pa] && t[b] == idx[pb]);
            if pa < pb {
            } else {
                assert(pb < pa);
            }
        }
        lemma_fisher_yates_distinct(t, i + 1, n, s2);
    }
}

/// The positions of a seeded distinct sample of `n` from `len` items.
fn sample_positions(len: usize, n: usize, seed: u64) -> (r: Vec<usize>)
    ensures
        ints(r@) == sample_positions_s(len as nat, n as nat, seed),
        r@.len() == if n >= len {
            len
        } else {
            n
        },
        distinct_below(ints(r@), len as nat),
{
    let mut idx: Vec<usize> = Vec::new();
    let mut k: usize = 0;
    while k < len
        invariant
            k <= len,
            idx@.len() == k,
            forall|q: int| 0 <= q < k ==> idx@[q] == q,
        decreases len - k,
    {
        idx.push(k);
        k = k + 1;
    }
    let ghost start = iota(len as nat);
    assert(ints(idx@) =~= start);
    assert(distinct_below(start, len as nat));
    if n >= len {
        return idx;
    }
    let mut rng = Rng { state: seed };
    let mut i: usize = 0;
    assert(ints(idx@) == start);
    while i < n
        invariant
            i <= n < len,
            idx@.len() == len,
            fisher_yates(start, 0, n as nat, seed) == fisher_yates(
                ints(idx@),
                i as nat,
                n as nat,
                rng.state,
            ),
        decreases n - i,
    {
        let ghost cur = ints(idx@);
        let ghost s0 = rng.state;
        let m = len - i;
        let out = rng.next_u64();
        let off = (out % (m as u64)) as usize;
        let j = i + off;
        let a = idx[i];
        let b = idx[j];
        idx.set(i, b);
        idx.set(j, a);
        assert(ints(idx@) =~= cur.update(i as int, cur[j as int]).update(
            j as int,
            cur[i as int],
        ));
        i = i + 1;
    }
    proof {
        assert(len <= u64::MAX);
        lemma_fisher_yates_distinct(start, 0, n as nat, seed);
    }
    let mut res: Vec<usize> = Vec::new();
    let mut q: usize = 0;
    while q < n
        invariant
            q <= n < len,
            idx@.len() == len,
            res@.len() == q,
            forall|a: int| 0 <= a < q ==> res@[a] == idx@[a],
        decreases n - q,
    {
        res.push(idx[q]);
        q = q + 1;
    }
    assert(ints(res@) =~= ints(idx@).take(n as int));
    proof {
        let full = ints(idx@);
        assert forall|a: int, b: int| 0 <= a < b < full.take(n as int).len() implies full.take(
            n as int,
        )[a] != full.take(n as int)[b] by {
            assert(full.take(n as int)[a] == full[a] && full.take(n as int)[b] == full[b]);
        }
    }
    res
}

/// `items` with later repeats dropped, first occurrences kept in order.
fn dedup_strings(items: &Vec<String>) -> (r: Vec<String>)
    ensures
        string_views(r@) == union_into(seq![], string_views(items@)),
{
    let mut out: Vec<String> = Vec::new();
    assert(string_views(out@) =~= seq![]);
    union_into_exec(&mut out, items);
    out
}

// ───────────────────────────── bound values and environments ─────────────────────────────

/// What a bound name carries: a type subtree or a const literal.
pub enum Bound {
    Type(SpecNode),
    Const(String),
}

pub ghost enum GBound {
    Type(GNode),
    Const(Seq<char>),
}

pub open spec fn bound_view(b: Bound) -> GBound {
    match b {
        Bound::Type(n) => GBound::Type(node_view(n)),
        Bound::Const(c) => GBound::Const(c@),
    }
}

/// Variable bindings, earliest first; a name occurs at most once.
pub type Env = Vec<(String, Bound)>;

pub open spec fn env_view(e: Seq<(String, Bound)>) -> Seq<(Seq<char>, GBound)> {
    e.map_values(|p: (String, Bound)| (p.0@, bound_view(p.1)))
}

/// The value bound to `k` (the first entry for it).
pub open spec fn lookup(e: Seq<(Seq<char>, GBound)>, k: Seq<char>) -> Option<GBound>
    decreases e.len(),
{
    if e.len() == 0 {
        None
    } else if e[0].0 == k {
        Some(e[0].1)
    } else {
        lookup(e.drop_first(), k)
    }
}

/// `e` with `k` bound to `v`: an existing entry replaced, else appended.
pub open spec fn env_set(e: Seq<(Seq<char>, GBound)>, k: Seq<char>, v: GBound) -> Seq<(Seq<char>, GBound)>
    decreases e.len(),
{
    if e.len() == 0 {
        seq![(k, v)]
    } else if e[0].0 == k {
        seq![(k, v)] + e.drop_first()
    } else {
        seq![e[0]] + env_set(e.drop_first(), k, v)
    }
}

/// Merge `add` into `base`: equal where they overlap, else `None` (the
/// combination is pruned).
pub open spec fn unify_s(base: Seq<(Seq<char>, GBound)>, add: Seq<(Seq<char>, GBound)>) -> Option<
    Seq<(Seq<char>, GBound)>,
>
    decreases add.len(),
{
    if add.len() == 0 {
        Some(base)
    } else {
        match lookup(base, add[0].0) {
            Some(v) => if v == add[0].1 {
                unify_s(base, add.drop_first())
            } else {
                None
            },
            None => unify_s(base.push(add[0]), add.drop_first()),
        }
    }
}

/// Structural equality of two spec trees.
pub fn node_eq(a: &SpecNode, b: &SpecNode) -> (r: bool)
    ensures
        r == (node_view(*a) == node_view(*b)),
    decreases a,
{
    let an = chars_of(a.name.as_str());
    let bn = chars_of(b.name.as_str());
    if !chars_eq(an.as_slice(), bn.as_slice()) {
        return false;
    }
    proof {
        crate::spec_lang::lemma_args_view_len(a.args@);
        crate::spec_lang::lemma_args_view_len(b.args@);
    }
    if a.args.len() != b.args.len() {
        return false;
    }
    let mut i: usize = 0;
    while i < a.args.len()
        invariant
            i <= a.args@.len(),
            a.args@.len() == b.args@.len(),
            args_view(a.args@).len() == a.args@.len(),
            args_view(b.args@).len() == b.args@.len(),
            forall|k: int| 0 <= k < a.args@.len() ==> #[trigger] args_view(a.args@)[k] == arg_view(a.args@[k]),
            forall|k: int| 0 <= k < b.args@.len() ==> #[trigger] args_view(b.args@)[k] == arg_view(b.args@[k]),
            forall|k: int| 0 <= k < i ==> args_view(a.args@)[k] == args_view(b.args@)[k],
        decreases a.args@.len() - i,
    {
        let same = match (&a.args[i], &b.args[i]) {
            (Arg::Slot { name: n1, value: v1 }, Arg::Slot { name: n2, value: v2 }) => {
                string_same(n1, n2) && node_eq(v1, v2)
            },
            (Arg::NamedConst { name: n1, value: v1 }, Arg::NamedConst { name: n2, value: v2 }) => {
                string_same(n1, n2) && string_same(v1, v2)
            },
            (Arg::Const(v1), Arg::Const(v2)) => string_same(v1, v2),
            _ => false,
        };
        if !same {
            assert(args_view(a.args@)[i as int] != args_view(b.args@)[i as int]);
            assert(args_view(a.args@) != args_view(b.args@));
            return false;
        }
        i = i + 1;
    }
    assert(args_view(a.args@) =~= args_view(b.args@));
    true
}

fn string_same(a: &String, b: &String) -> (r: bool)
    ensures
        r == (a@ == b@),
{
    let ac = chars_of(a.as_str());
    let bc = chars_of(b.as_str());
    chars_eq(ac.as_slice(), bc.as_slice())
}

fn bound_eq(a: &Bound, b: &Bound) -> (r: bool)
    ensures
        r == (bound_view(*a) == bound_view(*b)),
{
    match (a, b) {
        (Bound::Type(x), Bound::Type(y)) => node_eq(x, y),
        (Bound::Const(x), Bound::Const(y)) => string_same(x, y),
        _ => false,
    }
}

fn copy_bound(b: &Bound) -> (r: Bound)
    ensures
        bound_view(r) == bound_view(*b),
{
    match b {
        Bound::Type(n) => Bound::Type(copy_node(n)),
        Bound::Const(c) => Bound::Const(copy_string(c)),
    }
}

fn copy_env(e: &Env) -> (r: Env)
    ensures
        env_view(r@) == env_view(e@),
{
    let mut out: Env = Vec::new();
    let mut i: usize = 0;
    while i < e.len()
        invariant
            i <= e@.len(),
            env_view(out@) == env_view(e@).take(i as int),
        decreases e@.len() - i,
    {
        let x = (copy_string(&e[i].0), copy_bound(&e[i].1));
        let ghost before = env_view(out@);
        out.push(x);
        assert(env_view(out@) =~= before.push((x.0@, bound_view(x.1))));
        assert(env_view(e@).take(i + 1) =~= env_view(e@).take(i as int).push(env_view(e@)[i as int]));
        i = i + 1;
    }
    assert(env_view(e@).take(i as int) =~= env_view(e@));
    out
}

/// The value bound to `k` in `e`.
fn env_get<'a>(e: &'a Env, k: &String) -> (r: Option<&'a Bound>)
    ensures
        match lookup(env_view(e@), k@) {
            Some(v) => r is Some && bound_view(*r->0) == v,
            None => r is None,
        },
{
    let mut i: usize = 0;
    assert(env_view(e@).skip(0) =~= env_view(e@));
    while i < e.len()
        invariant
            i <= e@.len(),
            lookup(env_view(e@), k@) == lookup(env_view(e@).skip(i as int), k@),
        decreases e@.len() - i,
    {
        let ghost rest = env_view(e@).skip(i as int);
        assert(rest[0] == (e@[i as int].0@, bound_view(e@[i as int].1)));
        assert(rest.drop_first() =~= env_view(e@).skip(i + 1));
        if string_same(&e[i].0, k) {
            return Some(&e[i].1);
        }
        i = i + 1;
    }
    None
}

/// Bind `k` to `v` in `e`.
fn env_insert(e: &mut Env, k: String, v: Bound)
    ensures
        env_view(final(e)@) == env_set(env_view(old(e)@), k@, bound_view(v)),
{
    let ghost e0 = env_view(e@);
    let mut i: usize = 0;
    assert(e0.skip(0) =~= e0);
    assert(e0.take(0) + env_set(e0.skip(0), k@, bound_view(v)) =~= env_set(e0, k@, bound_view(v)));
    while i < e.len()
        invariant
            i <= e@.len(),
            e0 == env_view(e@),
            e0 == env_view(old(e)@),
            env_set(e0, k@, bound_view(v)) == e0.take(i as int) + env_set(e0.skip(i as int), k@, bound_view(v)),
            forall|q: int| 0 <= q < i ==> e0[q].0 != k@,
        decreases e@.len() - i,
    {
        let ghost rest = e0.skip(i as int);
        assert(rest[0] == (e@[i as int].0@, bound_view(e@[i as int].1)));
        assert(rest.drop_first() =~= e0.skip(i + 1));
        if string_same(&e[i].0, &k) {
            let ghost bv = bound_view(v);
            let ghost kv = k@;
            assert(rest[0].0 == kv);
            assert(env_set(rest, kv, bv) == seq![(kv, bv)] + rest.drop_first());
            e.set(i, (k, v));
            assert(env_view(e@) =~= e0.take(i as int) + (seq![(kv, bv)] + rest.drop_first()));
            return;
        }
        assert(e0.take(i + 1) + env_set(e0.skip(i + 1), k@, bound_view(v)) =~= e0.take(i as int) + (seq![rest[0]] + env_set(rest.drop_first(), k@, bound_view(v))));
        i = i + 1;
    }
    let ghost bv = bound_view(v);
    let ghost kv = k@;
    e.push((k, v));
    assert(e0.skip(i as int).len() == 0);
    assert(env_view(e@) =~= e0.take(i as int) + seq![(kv, bv)]);
}

/// Merge the captures `add` into `base`; `None` when they disagree.
fn unify_caps(base: &Env, add: &Env) -> (r: Option<Env>)
    ensures
        match unify_s(env_view(base@), env_view(add@)) {
            Some(m) => r is Some && env_view(r->0@) == m,
            None => r is None,
        },
{
    let mut out = copy_env(base);
    let mut i: usize = 0;
    let ghost av = env_view(add@);
    assert(av.skip(0) =~= av);
    while i < add.len()
        invariant
            i <= add@.len(),
            av == env_view(add@),
            unify_s(env_view(base@), av) == unify_s(env_view(out@), av.skip(i as int)),
        decreases add@.len() - i,
    {
        let ghost rest = av.skip(i as int);
        assert(rest[0] == (add@[i as int].0@, bound_view(add@[i as int].1)));
        assert(rest.drop_first() =~= av.skip(i + 1));
        match env_get(&out, &add[i].0) {
            Some(v) => {
                if !bound_eq(v, &add[i].1) {
                    return None;
                }
            },
            None => {
                let x = (copy_string(&add[i].0), copy_bound(&add[i].1));
                let ghost before = env_view(out@);
                out.push(x);
                assert(env_view(out@) =~= before.push(rest[0]));
            },
        }
        i = i + 1;
    }
    assert(av.skip(i as int).len() == 0);
    Some(out)
}

// ───────────────────────────── populations ─────────────────────────────

/// Ground candidates, each with the captures it introduced.
pub type Cands = Vec<(SpecNode, Env)>;

pub open spec fn cand_nodes(c: Seq<(SpecNode, Env)>) -> Seq<GNode> {
    c.map_values(|p: (SpecNode, Env)| node_view(p.0))
}

/// The first tree of each canonical type (the resolved type expression),
/// with the types seen; `None` if any tree fails to resolve.
pub open spec fn dedup_canon(reg: Seq<GComponent>, ns: Seq<GNode>) -> Option<(Seq<GNode>, Seq<Seq<char>>)>
    decreases ns.len(),
{
    if ns.len() == 0 {
        Some((seq![], seq![]))
    } else {
        match dedup_canon(reg, ns.drop_last()) {
            None => None,
            Some(acc) => match res_node(reg, ns.last(), reg.len()) {
                None => None,
                Some(r) => if acc.1.contains(r.type_expr) {
                    Some(acc)
                } else {
                    Some((acc.0.push(ns.last()), acc.1.push(r.type_expr)))
                },
            },
        }
    }
}

proof fn lemma_dedup_canon_none(reg: Seq<GComponent>, ns: Seq<GNode>, k: int)
    requires
        0 <= k <= ns.len(),
        dedup_canon(reg, ns.take(k)) is None,
    ensures
        dedup_canon(reg, ns) is None,
    decreases ns.len(),
{
    if k == ns.len() {
        assert(ns.take(k) =~= ns);
    } else {
        assert(ns.drop_last().take(k) =~= ns.take(k));
        lemma_dedup_canon_none(reg, ns.drop_last(), k);
    }
}

/// Candidates as ghost values: each tree with its captures.
pub open spec fn cands_view(c: Seq<(SpecNode, Env)>) -> Seq<GCand> {
    c.map_values(|p: (SpecNode, Env)| (node_view(p.0), env_view(p.1@)))
}

proof fn lemma_cands_nodes(c: Seq<(SpecNode, Env)>)
    ensures
        cand_nodes_g(cands_view(c)) == cand_nodes(c),
{
    assert(cand_nodes_g(cands_view(c)) =~= cand_nodes(c));
}

proof fn lemma_dedup_pairs_none(reg: Seq<GComponent>, cs: Seq<GCand>, k: int)
    requires
        0 <= k <= cs.len(),
        dedup_pairs(reg, cs.take(k)) is None,
    ensures
        dedup_pairs(reg, cs) is None,
    decreases cs.len(),
{
    if k == cs.len() {
        assert(cs.take(k) =~= cs);
    } else {
        assert(cs.drop_last().take(k) =~= cs.take(k));
        lemma_dedup_pairs_none(reg, cs.drop_last(), k);
    }
}

/// Dedup candidates by the Rust type they elaborate to; the first occurrence
/// of a type wins, with its captures.
fn dedup_canonical(cands: &Cands, reg: &Registry) -> (r: Result<Cands, String>)
    ensures
        match dedup_pairs(reg@, cands_view(cands@)) {
            Some(d) => r is Ok && cands_view(r->Ok_0@) == d.0,
            None => r is Err,
        },
        match dedup_canon(reg@, cand_nodes(cands@)) {
            Some(d) => r is Ok && cand_nodes(r->Ok_0@) == d.0,
            None => r is Err,
        },
{
    let ghost all = cands_view(cands@);
    let mut seen: Vec<String> = Vec::new();
    let mut out: Cands = Vec::new();
    let mut i: usize = 0;
    assert(all.take(0) =~= seq![]);
    assert(cands_view(out@) =~= seq![]);
    assert(string_views(seen@) =~= seq![]);
    while i < cands.len()
        invariant
            i <= cands@.len(),
            all == cands_view(cands@),
            dedup_pairs(reg@, all.take(i as int)) == Some((cands_view(out@), string_views(seen@))),
        decreases cands@.len() - i,
    {
        assert(all[i as int] == (node_view(cands@[i as int].0), env_view(cands@[i as int].1@)));
        assert(all.take(i + 1).drop_last() =~= all.take(i as int));
        let r = match resolve(&cands[i].0, reg) {
            Ok(r) => r,
            Err(e) => {
                proof {
                    lemma_dedup_pairs_none(reg@, all, i + 1);
                    lemma_dedup_pairs_nodes(reg@, all);
                    lemma_cands_nodes(cands@);
                }
                return Err(e);
            },
        };
        if !crate::resolve::contains_string(&seen, &r.type_expr) {
            let ghost before = cands_view(out@);
            let c = copy_cand(&cands[i]);
            let ghost cv = (node_view(c.0), env_view(c.1@));
            let t = r.type_expr;
            proof {
                lemma_string_views_push(seen@, t);
            }
            seen.push(t);
            out.push(c);
            assert(cands_view(out@) =~= before.push(cv));
        }
        i = i + 1;
    }
    assert(all.take(i as int) =~= all);
    proof {
        lemma_dedup_pairs_nodes(reg@, all);
        lemma_cands_nodes(cands@);
        lemma_cands_nodes(out@);
    }
    Ok(out)
}

fn copy_cand(c: &(SpecNode, Env)) -> (r: (SpecNode, Env))
    ensures
        node_view(r.0) == node_view(c.0),
        env_view(r.1@) == env_view(c.1@),
{
    (copy_node(&c.0), copy_env(&c.1))
}

fn clamp_warning(label: &String, n: usize, len: usize) -> (r: String)
    ensures
        r@ == label@ + ": requested "@ + crate::text::decimal(n as nat) + " but only "@ + crate::text::decimal(
            len as nat,
        ) + " available — clamped to "@ + crate::text::decimal(len as nat),
{
    let mut m = copy_string(label);
    push_str(&mut m, ": requested ");
    push_decimal(&mut m, n as u128);
    push_str(&mut m, " but only ");
    push_decimal(&mut m, len as u128);
    push_str(&mut m, " available — clamped to ");
    push_decimal(&mut m, len as u128);
    m
}

/// `m` is the warning of a sampler asked for more than it had.
pub open spec fn is_clamp(m: Seq<char>) -> bool {
    exists|label: Seq<char>, n: nat, len: nat| #[trigger] clamp_text(label, n, len) == m
}

/// Every warning in `ws` is such a clamp warning.
pub open spec fn only_clamps(ws: Seq<Seq<char>>) -> bool {
    forall|i: int| 0 <= i < ws.len() ==> is_clamp(#[trigger] ws[i])
}

/// A seeded distinct sample of `n` candidates (all of them, with a warning
/// when more were asked for than exist).
/// The warning a sample of `n` from a population of `len` leaves.
pub open spec fn clamp_text(label: Seq<char>, n: nat, len: nat) -> Seq<char> {
    label + ": requested "@ + crate::text::decimal(n) + " but only "@ + crate::text::decimal(len)
        + " available — clamped to "@ + crate::text::decimal(len)
}

fn sample_cands(pop: Cands, n: usize, seed: u64, label: &String, warnings: &mut Vec<String>) -> (r: Cands)
    requires
        only_clamps(string_views(old(warnings)@)),
    ensures
        only_clamps(string_views(final(warnings)@)),
        n > pop@.len() ==> string_views(final(warnings)@) == string_views(old(warnings)@).push(
            clamp_text(label@, n as nat, pop@.len()),
        ),
        n <= pop@.len() ==> final(warnings)@ == old(warnings)@,
        cands_view(r@) == pick(cands_view(pop@), n as nat, seed),
        cand_nodes(r@) == sample_positions_s(pop@.len(), n as nat, seed).map_values(
            |p: int| cand_nodes(pop@)[p],
        ),
        r@.len() == if n >= pop@.len() {
            pop@.len()
        } else {
            n as nat
        },
{
    let len = pop.len();
    if n >= len {
        if n > len {
            let w = clamp_warning(label, n, len);
            proof {
                lemma_string_views_push(warnings@, w);
                assert(is_clamp(clamp_text(label@, n as nat, len as nat)));
            }
            warnings.push(w);
            assert(string_views(warnings@).last() == w@);
        }
        assert(cand_nodes(pop@) =~= iota(len as nat).map_values(|p: int| cand_nodes(pop@)[p]));
        assert(cands_view(pop@) =~= iota(len as nat).map_values(|p: int| cands_view(pop@)[p]));
        return pop;
    }
    let pos = sample_positions(len, n, seed);
    let mut out: Cands = Vec::new();
    let mut k: usize = 0;
    while k < pos.len()
        invariant
            only_clamps(string_views(warnings@)),
            k <= pos@.len(),
            pos@.len() == n,
            len == pop@.len(),
            distinct_below(ints(pos@), len as nat),
            cand_nodes(out@) == ints(pos@).take(k as int).map_values(|p: int| cand_nodes(pop@)[p]),
            cands_view(out@) == ints(pos@).take(k as int).map_values(|p: int| cands_view(pop@)[p]),
        decreases pos@.len() - k,
    {
        assert(ints(pos@)[k as int] == pos@[k as int] as int);
        let c = copy_cand(&pop[pos[k]]);
        let ghost before = cand_nodes(out@);
        let ghost before2 = cands_view(out@);
        out.push(c);
        assert(cand_nodes(out@) =~= before.push(node_view(c.0)));
        assert(cands_view(out@) =~= before2.push((node_view(c.0), env_view(c.1@))));
        assert(ints(pos@).take(k + 1).map_values(|p: int| cands_view(pop@)[p]) =~= ints(pos@).take(
            k as int,
        ).map_values(|p: int| cands_view(pop@)[p]).push(cands_view(pop@)[pos@[k as int] as int]));
        assert(ints(pos@).take(k + 1).map_values(|p: int| cand_nodes(pop@)[p]) =~= ints(pos@).take(
            k as int,
        ).map_values(|p: int| cand_nodes(pop@)[p]).push(cand_nodes(pop@)[pos@[k as int] as int]));
        k = k + 1;
    }
    assert(ints(pos@).take(k as int) =~= ints(pos@));
    out
}

/// A seeded distinct sample of `n` strings (all of them, with a warning when
/// more were asked for than exist).
fn sample_strings(pop: Vec<String>, n: usize, seed: u64, warnings: &mut Vec<String>) -> (r: Vec<String>)
    requires
        only_clamps(string_views(old(warnings)@)),
    ensures
        only_clamps(string_views(final(warnings)@)),
        n > pop@.len() ==> string_views(final(warnings)@) == string_views(old(warnings)@).push(
            clamp_text("const hole"@, n as nat, pop@.len()),
        ),
        n <= pop@.len() ==> final(warnings)@ == old(warnings)@,
        string_views(r@) == sample_positions_s(pop@.len(), n as nat, seed).map_values(
            |p: int| string_views(pop@)[p],
        ),
{
    let len = pop.len();
    if n >= len {
        if n > len {
            let w = clamp_warning(&owned("const hole"), n, len);
            proof {
                lemma_string_views_push(warnings@, w);
                assert(is_clamp(clamp_text("const hole"@, n as nat, len as nat)));
            }
            warnings.push(w);
        }
        assert(string_views(pop@) =~= iota(len as nat).map_values(|p: int| string_views(pop@)[p]));
        return pop;
    }
    let pos = sample_positions(len, n, seed);
    let mut out: Vec<String> = Vec::new();
    let mut k: usize = 0;
    while k < pos.len()
        invariant
            only_clamps(string_views(warnings@)),
            k <= pos@.len(),
            pos@.len() == n,
            len == pop@.len(),
            distinct_below(ints(pos@), len as nat),
            string_views(out@) == ints(pos@).take(k as int).map_values(|p: int| string_views(pop@)[p]),
        decreases pos@.len() - k,
    {
        assert(ints(pos@)[k as int] == pos@[k as int] as int);
        let x = copy_string(&pop[pos[k]]);
        proof {
            lemma_string_views_push(out@, x);
        }
        out.push(x);
        assert(ints(pos@).take(k + 1).map_values(|p: int| string_views(pop@)[p]) =~= ints(pos@).take(
            k as int,
        ).map_values(|p: int| string_views(pop@)[p]).push(string_views(pop@)[pos@[k as int] as int]));
        k = k + 1;
    }
    assert(ints(pos@).take(k as int) =~= ints(pos@));
    out
}

fn hole_label(kind: &str, role: &str) -> (r: String)
    ensures
        r@ == kind@ + " `"@ + role@ + "`"@,
{
    let mut m = owned(kind);
    push_str(&mut m, " `");
    push_str(&mut m, role);
    push_str(&mut m, "`");
    m
}

/// A quantifier applied to a deduped population: all, or a seeded sample.
fn apply_quant(pop: Cands, quant: Quant, label: &String, warnings: &mut Vec<String>) -> (r: Cands)
    requires
        only_clamps(string_views(old(warnings)@)),
    ensures
        only_clamps(string_views(final(warnings)@)),
        cands_view(r@) == quant_pick(cands_view(pop@), quant),
        quant is Exhaustive ==> cand_nodes(r@) == cand_nodes(pop@),
        quant matches Quant::One { seed } ==> cand_nodes(r@) == sample_positions_s(pop@.len(), 1, seed).map_values(
            |p: int| cand_nodes(pop@)[p],
        ),
        quant matches Quant::N { n, seed } ==> cand_nodes(r@) == sample_positions_s(pop@.len(), n as nat, seed).map_values(
            |p: int| cand_nodes(pop@)[p],
        ),
{
    match quant {
        Quant::Exhaustive => pop,
        Quant::One { seed } => sample_cands(pop, 1, seed, label, warnings),
        Quant::N { n, seed } => sample_cands(pop, n, seed, label, warnings),
    }
}

// ───────────────────────────── evaluation ─────────────────────────────

fn msg3(a: &str, b: &str, c: &str) -> (r: String)
    ensures
        r@ == a@ + b@ + c@,
{
    let mut m = owned(a);
    push_str(&mut m, b);
    push_str(&mut m, c);
    m
}

/// Is `node`'s component able to take every refined param? (A pre-filter on a
/// hole's population; the role check proper is `check_refinements`.)
fn local_refine_ok(node: &SpecNode, refinements: &Vec<Refinement>, reg: &Registry) -> (r: bool)
    ensures
        r == local_ok(reg@, node_view(*node), refinements_view(refinements@)),
{
    let ghost rv = refinements_view(refinements@);
    match reg.get(node.name.as_str()) {
        Some(c) => {
            let ghost ci = find(reg@, node.name@)->0;
            assert(comp_view(*c).params == params_view(c.params@));
            let mut i: usize = 0;
            while i < refinements.len()
                invariant
                    i <= refinements@.len(),
                    rv == refinements_view(refinements@),
                    find(reg@, node.name@) == Some(ci),
                    reg@[ci] == comp_view(*c),
                    forall|k: int| 0 <= k < i ==> (#[trigger] find_param(reg@[ci].params, rv[k].param)) is Some,
                decreases refinements@.len() - i,
            {
                assert(rv[i as int].param == refinements@[i as int].param@);
                if c.param(refinements[i].param.as_str()).is_none() {
                    return false;
                }
                i = i + 1;
            }
            true
        },
        None => false,
    }
}

/// Evaluate a value in const context: every literal it stands for. `param`,
/// when known, gives the default and declared values a const hole ranges over.
/// Partial argument lists as ghost values.
pub open spec fn combos_view(c: Seq<(Vec<Arg>, Env)>) -> Seq<(Seq<GArg>, Seq<(Seq<char>, GBound)>)> {
    c.map_values(|p: (Vec<Arg>, Env)| (args_view(p.0@), env_view(p.1@)))
}

/// Argument values as ghost values.
pub open spec fn pieces_view(c: Seq<(Arg, Env)>) -> Seq<(GArg, Seq<(Seq<char>, GBound)>)> {
    c.map_values(|p: (Arg, Env)| (arg_view(p.0), env_view(p.1@)))
}

fn empty_env() -> (r: Env)
    ensures
        env_view(r@) == Seq::<(Seq<char>, GBound)>::empty(),
{
    let e: Env = Vec::new();
    assert(env_view(e@) =~= Seq::<(Seq<char>, GBound)>::empty());
    e
}

/// The trees of `all` that pass the refinement pre-filter.
fn filter_hole(all: &Vec<SpecNode>, refinements: &Vec<Refinement>, reg: &Registry) -> (r: Cands)
    ensures
        cands_view(r@) == filter_local(reg@, nodes_view(all@), refinements_view(refinements@)),
{
    let ghost ns = nodes_view(all@);
    let ghost rv = refinements_view(refinements@);
    let mut pop: Cands = Vec::new();
    let mut k: usize = 0;
    assert(ns.take(0) =~= seq![]);
    assert(cands_view(pop@) =~= seq![]);
    while k < all.len()
        invariant
            k <= all@.len(),
            ns == nodes_view(all@),
            rv == refinements_view(refinements@),
            cands_view(pop@) == filter_local(reg@, ns.take(k as int), rv),
        decreases all@.len() - k,
    {
        assert(ns.take(k + 1).drop_last() =~= ns.take(k as int));
        assert(ns.take(k + 1).last() == node_view(all@[k as int]));
        let ghost before = cands_view(pop@);
        if local_refine_ok(&all[k], refinements, reg) {
            let c = (copy_node(&all[k]), empty_env());
            pop.push(c);
            assert(cands_view(pop@) =~= before + seq![(ns[k as int], Seq::<(Seq<char>, GBound)>::empty())]);
        } else {
            assert(before + seq![] =~= before);
        }
        k = k + 1;
    }
    assert(ns.take(k as int) =~= ns);
    pop
}

/// Each candidate captured as `name`.
fn capture_cands(cands: &Cands, name: &String) -> (r: Cands)
    ensures
        cands_view(r@) == capture_all(cands_view(cands@), name@),
{
    let ghost cs = cands_view(cands@);
    let mut out: Cands = Vec::new();
    let mut k: usize = 0;
    assert(cs.take(0) =~= seq![]);
    assert(cands_view(out@) =~= seq![]);
    while k < cands.len()
        invariant
            k <= cands@.len(),
            cs == cands_view(cands@),
            cands_view(out@) == capture_all(cs.take(k as int), name@),
        decreases cands@.len() - k,
    {
        assert(cs.take(k + 1).drop_last() =~= cs.take(k as int));
        assert(cs.take(k + 1).last() == cs[k as int]);
        let mut one: Env = Vec::new();
        let nm = copy_string(name);
        let nd = copy_node(&cands[k].0);
        one.push((nm, Bound::Type(nd)));
        assert(env_view(one@) =~= seq![(name@, GBound::Type(cs[k as int].0))]);
        let ghost before = cands_view(out@);
        match unify_caps(&cands[k].1, &one) {
            Some(merged) => {
                let c = (copy_node(&cands[k].0), merged);
                out.push(c);
                assert(cands_view(out@) =~= before + seq![(cs[k as int].0, env_view(c.1@))]);
            },
            None => {
                assert(before + seq![] =~= before);
            },
        }
        k = k + 1;
    }
    assert(cs.take(k as int) =~= cs);
    out
}

proof fn lemma_keep_hole_none(reg: Seq<GComponent>, ns: Seq<GNode>, refs: Seq<GRefinement>, rm: Seq<Seq<char>>, k: int)
    requires
        0 <= k <= ns.len(),
        keep_hole(reg, ns.take(k), refs, rm) is None,
    ensures
        keep_hole(reg, ns, refs, rm) is None,
    decreases ns.len(),
{
    if k == ns.len() {
        assert(ns.take(k) =~= ns);
    } else {
        assert(ns.drop_last().take(k) =~= ns.take(k));
        lemma_keep_hole_none(reg, ns.drop_last(), refs, rm, k);
    }
}

/// A hole's trees minus the removed types, each type once.
fn keep_hole_cands(all: &Vec<SpecNode>, refinements: &Vec<Refinement>, remove: &Vec<String>, reg: &Registry) -> (r: Result<
    Cands,
    String,
>)
    ensures
        match keep_hole(reg@, nodes_view(all@), refinements_view(refinements@), string_views(remove@)) {
            Some(kh) => r is Ok && cands_view(r->Ok_0@) == kh.0,
            None => r is Err,
        },
{
    let ghost ns = nodes_view(all@);
    let ghost rv = refinements_view(refinements@);
    let ghost rm = string_views(remove@);
    let mut keep: Cands = Vec::new();
    let mut seen: Vec<String> = Vec::new();
    let mut k: usize = 0;
    assert(ns.take(0) =~= seq![]);
    assert(cands_view(keep@) =~= seq![]);
    assert(string_views(seen@) =~= seq![]);
    while k < all.len()
        invariant
            k <= all@.len(),
            ns == nodes_view(all@),
            rv == refinements_view(refinements@),
            rm == string_views(remove@),
            keep_hole(reg@, ns.take(k as int), rv, rm) == Some((cands_view(keep@), string_views(seen@))),
        decreases all@.len() - k,
    {
        assert(ns.take(k + 1).drop_last() =~= ns.take(k as int));
        assert(ns.take(k + 1).last() == node_view(all@[k as int]));
        if local_refine_ok(&all[k], refinements, reg) {
            let ty = match resolve(&all[k], reg) {
                Ok(r) => r.type_expr,
                Err(e) => {
                    proof {
                        lemma_keep_hole_none(reg@, ns, rv, rm, k + 1);
                    }
                    return Err(e);
                },
            };
            if !crate::resolve::contains_string(remove, &ty) && !crate::resolve::contains_string(&seen, &ty) {
                let ghost before = cands_view(keep@);
                proof {
                    lemma_string_views_push(seen@, ty);
                }
                seen.push(ty);
                let c = (copy_node(&all[k]), empty_env());
                keep.push(c);
                assert(cands_view(keep@) =~= before.push((ns[k as int], Seq::<(Seq<char>, GBound)>::empty())));
            }
        }
        k = k + 1;
    }
    assert(ns.take(k as int) =~= ns);
    Ok(keep)
}

proof fn lemma_drop_removed_none(reg: Seq<GComponent>, cs: Seq<GCand>, rm: Seq<Seq<char>>, k: int)
    requires
        0 <= k <= cs.len(),
        drop_removed(reg, cs.take(k), rm) is None,
    ensures
        drop_removed(reg, cs, rm) is None,
    decreases cs.len(),
{
    if k == cs.len() {
        assert(cs.take(k) =~= cs);
    } else {
        assert(cs.drop_last().take(k) =~= cs.take(k));
        lemma_drop_removed_none(reg, cs.drop_last(), rm, k);
    }
}

/// The candidates whose type is not removed.
fn drop_removed_cands(cands: &Cands, remove: &Vec<String>, reg: &Registry) -> (r: Result<Cands, String>)
    ensures
        match drop_removed(reg@, cands_view(cands@), string_views(remove@)) {
            Some(d) => r is Ok && cands_view(r->Ok_0@) == d,
            None => r is Err,
        },
{
    let ghost cs = cands_view(cands@);
    let ghost rm = string_views(remove@);
    let mut out: Cands = Vec::new();
    let mut k: usize = 0;
    assert(cs.take(0) =~= seq![]);
    assert(cands_view(out@) =~= seq![]);
    while k < cands.len()
        invariant
            k <= cands@.len(),
            cs == cands_view(cands@),
            rm == string_views(remove@),
            drop_removed(reg@, cs.take(k as int), rm) == Some(cands_view(out@)),
        decreases cands@.len() - k,
    {
        assert(cs.take(k + 1).drop_last() =~= cs.take(k as int));
        assert(cs.take(k + 1).last() == cs[k as int]);
        let ty = match resolve(&cands[k].0, reg) {
            Ok(r) => r.type_expr,
            Err(e) => {
                proof {
                    lemma_drop_removed_none(reg@, cs, rm, k + 1);
                }
                return Err(e);
            },
        };
        if !crate::resolve::contains_string(remove, &ty) {
            let ghost before = cands_view(out@);
            let c = copy_cand(&cands[k]);
            out.push(c);
            assert(cands_view(out@) =~= before.push(cs[k as int]));
        }
        k = k + 1;
    }
    assert(cs.take(k as int) =~= cs);
    Ok(out)
}

proof fn lemma_types_of_none(reg: Seq<GComponent>, cs: Seq<GCand>, k: int)
    requires
        0 <= k <= cs.len(),
        types_of(reg, cs.take(k)) is None,
    ensures
        types_of(reg, cs) is None,
    decreases cs.len(),
{
    if k == cs.len() {
        assert(cs.take(k) =~= cs);
    } else {
        assert(cs.drop_last().take(k) =~= cs.take(k));
        lemma_types_of_none(reg, cs.drop_last(), k);
    }
}

/// The canonical types of the candidates, appended to `out`.
fn push_types(cands: &Cands, reg: &Registry, out: &mut Vec<String>) -> (r: Result<(), String>)
    ensures
        match types_of(reg@, cands_view(cands@)) {
            Some(ts) => r is Ok && string_views(final(out)@) == string_views(old(out)@) + ts,
            None => r is Err,
        },
{
    let ghost cs = cands_view(cands@);
    let ghost o0 = string_views(out@);
    let mut k: usize = 0;
    assert(cs.take(0) =~= seq![]);
    assert(o0 + seq![] =~= o0);
    while k < cands.len()
        invariant
            k <= cands@.len(),
            cs == cands_view(cands@),
            o0 == string_views(old(out)@),
            types_of(reg@, cs.take(k as int)) matches Some(ts) && string_views(out@) == o0 + ts,
        decreases cands@.len() - k,
    {
        assert(cs.take(k + 1).drop_last() =~= cs.take(k as int));
        assert(cs.take(k + 1).last() == cs[k as int]);
        let ghost ts0 = types_of(reg@, cs.take(k as int))->0;
        match resolve(&cands[k].0, reg) {
            Ok(r) => {
                let t = r.type_expr;
                proof {
                    lemma_string_views_push(out@, t);
                }
                out.push(t);
                assert(o0 + ts0.push(t@) =~= (o0 + ts0).push(t@));
            },
            Err(e) => {
                proof {
                    lemma_types_of_none(reg@, cs, k + 1);
                }
                return Err(e);
            },
        }
        k = k + 1;
    }
    assert(cs.take(k as int) =~= cs);
    Ok(())
}

/// `env` with each capture of `caps` bound in turn.
fn extend_env_exec(env: &Env, caps: &Env) -> (r: Env)
    ensures
        env_view(r@) == extend_env(env_view(env@), env_view(caps@)),
{
    let ghost cv = env_view(caps@);
    let mut e = copy_env(env);
    let mut q: usize = 0;
    assert(cv.take(0) =~= seq![]);
    while q < caps.len()
        invariant
            q <= caps@.len(),
            cv == env_view(caps@),
            env_view(e@) == extend_env(env_view(env@), cv.take(q as int)),
        decreases caps@.len() - q,
    {
        assert(cv.take(q + 1).drop_last() =~= cv.take(q as int));
        assert(cv.take(q + 1).last() == cv[q as int]);
        env_insert(&mut e, copy_string(&caps[q].0), copy_bound(&caps[q].1));
        q = q + 1;
    }
    assert(cv.take(q as int) =~= cv);
    e
}

/// The partial argument list `c` extended by each piece whose captures agree
/// with it, appended to `out`.
fn join_exec(c: &(Vec<Arg>, Env), pieces: &Vec<(Arg, Env)>, out: &mut Vec<(Vec<Arg>, Env)>)
    ensures
        combos_view(final(out)@) == combos_view(old(out)@) + join(
            (args_view(c.0@), env_view(c.1@)),
            pieces_view(pieces@),
        ),
{
    let ghost cv = (args_view(c.0@), env_view(c.1@));
    let ghost pv = pieces_view(pieces@);
    let ghost o0 = combos_view(out@);
    let mut k: usize = 0;
    assert(pv.take(0) =~= seq![]);
    assert(o0 + seq![] =~= o0);
    while k < pieces.len()
        invariant
            k <= pieces@.len(),
            pv == pieces_view(pieces@),
            cv == (args_view(c.0@), env_view(c.1@)),
            o0 == combos_view(old(out)@),
            combos_view(out@) == o0 + join(cv, pv.take(k as int)),
        decreases pieces@.len() - k,
    {
        assert(pv.take(k + 1).drop_last() =~= pv.take(k as int));
        assert(pv.take(k + 1).last() == pv[k as int]);
        let ghost before = combos_view(out@);
        let ghost j0 = join(cv, pv.take(k as int));
        match unify_caps(&c.1, &pieces[k].1) {
            Some(merged) => {
                let mut a2 = copy_args(&c.0);
                let x = copy_arg(&pieces[k].0);
                proof {
                    lemma_args_view_push(a2@, x);
                }
                a2.push(x);
                let item = (a2, merged);
                out.push(item);
                assert(combos_view(out@) =~= before.push((args_view(item.0@), env_view(item.1@))));
                assert(o0 + (j0 + seq![(cv.0.push(pv[k as int].0), env_view(item.1@))]) =~= (o0 + j0).push(
                    (cv.0.push(pv[k as int].0), env_view(item.1@)),
                ));
            },
            None => {
                assert(j0 + seq![] =~= j0);
            },
        }
        k = k + 1;
    }
    assert(pv.take(k as int) =~= pv);
}

pub open spec fn const_param_view(param: Option<(&Option<String>, &Vec<String>)>) -> Option<
    (Option<Seq<char>>, Seq<Seq<char>>),
> {
    match param {
        Some(p) => Some((opt_view(*p.0), string_views(p.1@))),
        None => None,
    }
}

fn one_string(x: &String) -> (r: Vec<String>)
    ensures
        string_views(r@) == seq![x@],
{
    let mut v: Vec<String> = Vec::new();
    v.push(copy_string(x));
    assert(string_views(v@) =~= seq![x@]);
    v
}

fn eval_const(
    value: &QValue,
    param: Option<(&Option<String>, &Vec<String>)>,
    env: &Env,
    warnings: &mut Vec<String>,
) -> (r: Result<Vec<String>, String>)
    requires
        only_clamps(string_views(old(warnings)@)),
    ensures
        only_clamps(string_views(final(warnings)@)),
        match ev_const(value_view(*value), const_param_view(param), env_view(env@)) {
            Some(l) => r is Ok && string_views(r->Ok_0@) == l,
            None => r is Err,
        },
{
    match value {
        QValue::Const(lit) => Ok(one_string(lit)),
        QValue::Ident(name) => match env_get(env, name) {
            Some(Bound::Const(lit)) => Ok(one_string(lit)),
            Some(Bound::Type(_)) => Err(msg3("`", name.as_str(), "` is a type variable but a const is expected here")),
            None => Err(msg3("unknown const variable `", name.as_str(), "`")),
        },
        QValue::Hole(quant) => {
            let (default, values) = match param {
                Some(p) => p,
                None => {
                    return Err(
                        owned(
                            "a const hole must be a NAMED argument so its value set is known (positional const holes are unsupported)",
                        ),
                    );
                },
            };
            let mut pop: Vec<String> = Vec::new();
            if values.len() == 0 {
                match default {
                    Some(d) => {
                        pop = one_string(d);
                    },
                    None => {
                        assert(string_views(pop@) =~= seq![]);
                    },
                }
            } else {
                let mut k: usize = 0;
                assert(string_views(pop@) =~= string_views(values@).take(0));
                while k < values.len()
                    invariant
                        only_clamps(string_views(warnings@)),
                        k <= values@.len(),
                        string_views(pop@) == string_views(values@).take(k as int),
                    decreases values@.len() - k,
                {
                    let x = copy_string(&values[k]);
                    proof {
                        lemma_string_views_push(pop@, x);
                    }
                    pop.push(x);
                    assert(string_views(values@).take(k + 1) =~= string_views(values@).take(k as int).push(values@[k as int]@));
                    k = k + 1;
                }
                assert(string_views(values@).take(k as int) =~= string_views(values@));
            }
            let pop = dedup_strings(&pop);
            match quant {
                Quant::Exhaustive => Ok(pop),
                Quant::One { seed } => Ok(sample_strings(pop, 1, *seed, warnings)),
                Quant::N { n, seed } => Ok(sample_strings(pop, *n, *seed, warnings)),
            }
        },
        QValue::App { name, .. } => Err(msg3("`", name.as_str(), "(…)` is a component but a const literal is expected here")),
        QValue::Capture { .. } => Err(owned("capturing const values is not supported yet")),
        QValue::Where { .. } => Err(owned("`where ( … )` unions are only valid in type position, not for a const")),
        QValue::Diff { .. } => Err(owned("set difference / set literals are only valid in type position, not for a const")),
        QValue::SetLit(_) => Err(owned("set difference / set literals are only valid in type position, not for a const")),
    }
}

proof fn lemma_ev_union_none(
    reg: Seq<GComponent>,
    alts: Seq<GValue>,
    role: Seq<char>,
    refs: Seq<GRefinement>,
    env: Seq<(Seq<char>, GBound)>,
    cv: Set<Seq<char>>,
    depth: nat,
    k: int,
)
    requires
        0 <= k <= alts.len(),
        ev_union(reg, alts.take(k), role, refs, env, cv, depth) is None,
    ensures
        ev_union(reg, alts, role, refs, env, cv, depth) is None,
    decreases alts.len(),
{
    if k == alts.len() {
        assert(alts.take(k) =~= alts);
    } else {
        assert(alts.drop_last().take(k) =~= alts.take(k));
        lemma_ev_union_none(reg, alts.drop_last(), role, refs, env, cv, depth, k);
    }
}

proof fn lemma_ev_removed_none(
    reg: Seq<GComponent>,
    subs: Seq<GValue>,
    role: Seq<char>,
    env: Seq<(Seq<char>, GBound)>,
    cv: Set<Seq<char>>,
    depth: nat,
    k: int,
)
    requires
        0 <= k <= subs.len(),
        ev_removed(reg, subs.take(k), role, env, cv, depth) is None,
    ensures
        ev_removed(reg, subs, role, env, cv, depth) is None,
    decreases subs.len(),
{
    if k == subs.len() {
        assert(subs.take(k) =~= subs);
    } else {
        assert(subs.drop_last().take(k) =~= subs.take(k));
        lemma_ev_removed_none(reg, subs.drop_last(), role, env, cv, depth, k);
    }
}

proof fn lemma_ev_args_none(
    reg: Seq<GComponent>,
    comp: GComponent,
    cname: Seq<char>,
    args: Seq<GQArg>,
    env: Seq<(Seq<char>, GBound)>,
    cv: Set<Seq<char>>,
    depth: nat,
    k: int,
)
    requires
        0 <= k <= args.len(),
        ev_args(reg, comp, cname, args.take(k), env, cv, depth) is None,
    ensures
        ev_args(reg, comp, cname, args, env, cv, depth) is None,
    decreases args.len(),
{
    if k == args.len() {
        assert(args.take(k) =~= args);
    } else {
        assert(args.drop_last().take(k) =~= args.take(k));
        lemma_ev_args_none(reg, comp, cname, args.drop_last(), env, cv, depth, k);
    }
}

proof fn lemma_ev_step_none(
    reg: Seq<GComponent>,
    comp: GComponent,
    cname: Seq<char>,
    combos: Seq<(Seq<GArg>, Seq<(Seq<char>, GBound)>)>,
    arg: GQArg,
    env: Seq<(Seq<char>, GBound)>,
    cv: Set<Seq<char>>,
    depth: nat,
    k: int,
)
    requires
        0 <= k <= combos.len(),
        ev_step(reg, comp, cname, combos.take(k), arg, env, cv, depth) is None,
    ensures
        ev_step(reg, comp, cname, combos, arg, env, cv, depth) is None,
    decreases combos.len(),
{
    if k == combos.len() {
        assert(combos.take(k) =~= combos);
    } else {
        assert(combos.drop_last().take(k) =~= combos.take(k));
        lemma_ev_step_none(reg, comp, cname, combos.drop_last(), arg, env, cv, depth, k);
    }
}

/// Evaluate a value in type context against `role`: every ground subtree it
/// stands for, each with the captures it introduced.
fn eval_type(
    value: &QValue,
    role: &str,
    refinements: &Vec<Refinement>,
    env: &Env,
    cvars: &Vec<String>,
    reg: &Registry,
    depth: usize,
    warnings: &mut Vec<String>,
) -> (r: Result<Cands, String>)
    requires
        only_clamps(string_views(old(warnings)@)),
        reg.wf(),
    ensures
        only_clamps(string_views(final(warnings)@)),
        match ev_type(
            reg@,
            value_view(*value),
            role@,
            refinements_view(refinements@),
            env_view(env@),
            set_of(cvars@),
            depth as nat,
        ) {
            Some(c) => r is Ok && cands_view(r->Ok_0@) == c,
            None => r is Err,
        },
    decreases value,
{
    match value {
        QValue::Hole(quant) => {
            let all = enumerate(reg, role, depth);
            let pop = filter_hole(&all, refinements, reg);
            let pop = match dedup_canonical(&pop, reg) {
                Ok(p) => p,
                Err(e) => {
                    return Err(e);
                },
            };
            Ok(apply_quant(pop, *quant, &hole_label("hole", role), warnings))
        },
        QValue::Ident(name) => match env_get(env, name) {
            Some(Bound::Type(node)) => {
                let mut v: Cands = Vec::new();
                let c = (copy_node(node), empty_env());
                v.push(c);
                assert(cands_view(v@) =~= seq![(node_view(*node), Seq::<(Seq<char>, GBound)>::empty())]);
                Ok(v)
            },
            Some(Bound::Const(_)) => Err(msg3("`", name.as_str(), "` is a const variable but a type is expected here")),
            None => {
                if crate::resolve::contains_string(cvars, name) {
                    let v: Cands = Vec::new();
                    assert(cands_view(v@) =~= seq![]);
                    return Ok(v);
                }
                if reg.get(name.as_str()).is_none() {
                    return Err(msg3("unknown component or variable `", name.as_str(), "`"));
                }
                let mut v: Cands = Vec::new();
                let nd = SpecNode { name: copy_string(name), args: Vec::new() };
                assert(args_view(nd.args@) =~= seq![]);
                let c = (nd, empty_env());
                v.push(c);
                assert(cands_view(v@) =~= seq![
                    (GNode { name: name@, args: seq![] }, Seq::<(Seq<char>, GBound)>::empty()),
                ]);
                Ok(v)
            },
        },
        QValue::App { name, args } => eval_app(name, args, env, cvars, reg, depth, warnings),
        QValue::Capture { name, inner } => {
            let cands = match eval_type(inner, role, refinements, env, cvars, reg, depth, warnings) {
                Ok(c) => c,
                Err(e) => {
                    return Err(e);
                },
            };
            Ok(capture_cands(&cands, name))
        },
        QValue::Where { quant, alts } => {
            let cands = match eval_union(alts, role, refinements, env, cvars, reg, depth, warnings) {
                Ok(c) => c,
                Err(e) => {
                    return Err(e);
                },
            };
            let cands = match dedup_canonical(&cands, reg) {
                Ok(c) => c,
                Err(e) => {
                    return Err(e);
                },
            };
            Ok(apply_quant(cands, *quant, &hole_label("union", role), warnings))
        },
        QValue::SetLit(members) => {
            let no_refs: Vec<Refinement> = Vec::new();
            assert(refinements_view(no_refs@) =~= seq![]);
            let out = match eval_union(members, role, &no_refs, env, cvars, reg, depth, warnings) {
                Ok(c) => c,
                Err(e) => {
                    return Err(e);
                },
            };
            dedup_canonical(&out, reg)
        },
        QValue::Diff { base, subtrahends } => {
            let remove = match removed_types(subtrahends, role, env, cvars, reg, depth, warnings) {
                Ok(r) => r,
                Err(e) => {
                    return Err(e);
                },
            };
            match &**base {
                QValue::Hole(quant) => {
                    assert(value_view(**base) == GValue::Hole(*quant));
                    let all = enumerate(reg, role, depth);
                    let keep = match keep_hole_cands(&all, refinements, &remove, reg) {
                        Ok(k) => k,
                        Err(e) => {
                            assert(keep_hole(
                                reg@,
                                enum_role(reg@, role@, depth as nat),
                                refinements_view(refinements@),
                                string_views(remove@),
                            ) is None);
                            return Err(e);
                        },
                    };
                    Ok(apply_quant(keep, *quant, &hole_label("union", role), warnings))
                },
                _ => {
                    let base_cands = match eval_type(base, role, refinements, env, cvars, reg, depth, warnings) {
                        Ok(c) => c,
                        Err(e) => {
                            return Err(e);
                        },
                    };
                    drop_removed_cands(&base_cands, &remove, reg)
                },
            }
        },
        QValue::Const(c) => {
            let mut m = msg3("const literal `", c.as_str(), "` cannot be used where a type (");
            push_str(&mut m, role);
            push_str(&mut m, ") is expected");
            Err(m)
        },
    }
}

/// The alternatives' expansions, concatenated.
fn eval_union(
    alts: &Vec<QValue>,
    role: &str,
    refinements: &Vec<Refinement>,
    env: &Env,
    cvars: &Vec<String>,
    reg: &Registry,
    depth: usize,
    warnings: &mut Vec<String>,
) -> (r: Result<Cands, String>)
    requires
        only_clamps(string_views(old(warnings)@)),
        reg.wf(),
    ensures
        only_clamps(string_views(final(warnings)@)),
        match ev_union(
            reg@,
            values_view(alts@),
            role@,
            refinements_view(refinements@),
            env_view(env@),
            set_of(cvars@),
            depth as nat,
        ) {
            Some(c) => r is Ok && cands_view(r->Ok_0@) == c,
            None => r is Err,
        },
    decreases alts,
{
    let ghost av = values_view(alts@);
    let ghost rv = refinements_view(refinements@);
    let ghost ev = env_view(env@);
    let ghost cv = set_of(cvars@);
    proof {
        lemma_values_view_len(alts@);
    }
    let mut out: Cands = Vec::new();
    let mut i: usize = 0;
    assert(av.take(0) =~= seq![]);
    assert(cands_view(out@) =~= seq![]);
    while i < alts.len()
        invariant
            only_clamps(string_views(warnings@)),
            i <= alts@.len(),
            reg.wf(),
            av == values_view(alts@),
            av.len() == alts@.len(),
            forall|q: int| 0 <= q < alts@.len() ==> #[trigger] av[q] == value_view(alts@[q]),
            rv == refinements_view(refinements@),
            ev == env_view(env@),
            cv == set_of(cvars@),
            ev_union(reg@, av.take(i as int), role@, rv, ev, cv, depth as nat) == Some(cands_view(out@)),
        decreases alts@.len() - i,
    {
        assert(av.take(i + 1).drop_last() =~= av.take(i as int));
        assert(av.take(i + 1).last() == value_view(alts@[i as int]));
        let ghost before = cands_view(out@);
        let mut more = match eval_type(&alts[i], role, refinements, env, cvars, reg, depth, warnings) {
            Ok(c) => c,
            Err(e) => {
                proof {
                    lemma_ev_union_none(reg@, av, role@, rv, ev, cv, depth as nat, i + 1);
                }
                return Err(e);
            },
        };
        let ghost mv = cands_view(more@);
        out.append(&mut more);
        assert(cands_view(out@) =~= before + mv);
        i = i + 1;
    }
    assert(av.take(i as int) =~= av);
    Ok(out)
}

/// The canonical types every subtrahend stands for.
fn removed_types(
    subs: &Vec<QValue>,
    role: &str,
    env: &Env,
    cvars: &Vec<String>,
    reg: &Registry,
    depth: usize,
    warnings: &mut Vec<String>,
) -> (r: Result<Vec<String>, String>)
    requires
        only_clamps(string_views(old(warnings)@)),
        reg.wf(),
    ensures
        only_clamps(string_views(final(warnings)@)),
        match ev_removed(reg@, values_view(subs@), role@, env_view(env@), set_of(cvars@), depth as nat) {
            Some(t) => r is Ok && string_views(r->Ok_0@) == t,
            None => r is Err,
        },
    decreases subs,
{
    let ghost sv = values_view(subs@);
    let ghost ev = env_view(env@);
    let ghost cv = set_of(cvars@);
    proof {
        lemma_values_view_len(subs@);
    }
    let no_refs: Vec<Refinement> = Vec::new();
    assert(refinements_view(no_refs@) =~= seq![]);
    let mut remove: Vec<String> = Vec::new();
    let mut i: usize = 0;
    assert(sv.take(0) =~= seq![]);
    assert(string_views(remove@) =~= seq![]);
    while i < subs.len()
        invariant
            only_clamps(string_views(warnings@)),
            i <= subs@.len(),
            reg.wf(),
            sv == values_view(subs@),
            sv.len() == subs@.len(),
            forall|q: int| 0 <= q < subs@.len() ==> #[trigger] sv[q] == value_view(subs@[q]),
            ev == env_view(env@),
            cv == set_of(cvars@),
            refinements_view(no_refs@) == Seq::<GRefinement>::empty(),
            ev_removed(reg@, sv.take(i as int), role@, ev, cv, depth as nat) == Some(string_views(remove@)),
        decreases subs@.len() - i,
    {
        assert(sv.take(i + 1).drop_last() =~= sv.take(i as int));
        assert(sv.take(i + 1).last() == value_view(subs@[i as int]));
        let cands = match eval_type(&subs[i], role, &no_refs, env, cvars, reg, depth, warnings) {
            Ok(c) => c,
            Err(e) => {
                proof {
                    lemma_ev_removed_none(reg@, sv, role@, ev, cv, depth as nat, i + 1);
                }
                return Err(e);
            },
        };
        match push_types(&cands, reg, &mut remove) {
            Ok(()) => {},
            Err(e) => {
                proof {
                    lemma_ev_removed_none(reg@, sv, role@, ev, cv, depth as nat, i + 1);
                }
                return Err(e);
            },
        }
        i = i + 1;
    }
    assert(sv.take(i as int) =~= sv);
    Ok(remove)
}

/// The argument values one argument of an application of `comp` stands for.
fn eval_pieces(
    comp: &Component,
    cname: &String,
    arg: &QArg,
    eenv: &Env,
    cvars: &Vec<String>,
    reg: &Registry,
    depth: usize,
    warnings: &mut Vec<String>,
) -> (r: Result<Vec<(Arg, Env)>, String>)
    requires
        only_clamps(string_views(old(warnings)@)),
        reg.wf(),
    ensures
        only_clamps(string_views(final(warnings)@)),
        match ev_pieces(
            reg@,
            comp_view(*comp),
            cname@,
            qarg_view(*arg),
            env_view(eenv@),
            set_of(cvars@),
            depth as nat,
        ) {
            Some(p) => r is Ok && pieces_view(r->Ok_0@) == p,
            None => r is Err,
        },
    decreases arg,
{
    match arg {
        QArg::Named { name: pname, value } => {
            let param = match comp.param(pname.as_str()) {
                Some(p) => p,
                None => {
                    let mut m = msg3("`", cname.as_str(), "` has no parameter `");
                    push_str(&mut m, pname.as_str());
                    push_str(&mut m, "`");
                    return Err(m);
                },
            };
            assert(comp_view(*comp).params == params_view(comp.params@));
            match &param.kind {
                ParamKind::Type { role, .. } => {
                    let no_refs: Vec<Refinement> = Vec::new();
                    assert(refinements_view(no_refs@) =~= seq![]);
                    let got = match eval_type(value, role.as_str(), &no_refs, eenv, cvars, reg, depth, warnings) {
                        Ok(g) => g,
                        Err(e) => {
                            return Err(e);
                        },
                    };
                    let ghost gv = cands_view(got@);
                    let mut ps: Vec<(Arg, Env)> = Vec::new();
                    let mut k: usize = 0;
                    assert(pieces_view(ps@) =~= seq![]);
                    while k < got.len()
                        invariant
                            only_clamps(string_views(warnings@)),
                            k <= got@.len(),
                            gv == cands_view(got@),
                            pieces_view(ps@) == gv.take(k as int).map_values(
                                |c: GCand| (GArg::Slot { name: pname@, value: c.0 }, c.1),
                            ),
                        decreases got@.len() - k,
                    {
                        let ghost before = pieces_view(ps@);
                        let item = (Arg::Slot { name: copy_string(pname), value: copy_node(&got[k].0) }, copy_env(&got[k].1));
                        ps.push(item);
                        assert(pieces_view(ps@) =~= before.push((arg_view(item.0), env_view(item.1@))));
                        assert(gv.take(k + 1).map_values(
                            |c: GCand| (GArg::Slot { name: pname@, value: c.0 }, c.1),
                        ) =~= gv.take(k as int).map_values(
                            |c: GCand| (GArg::Slot { name: pname@, value: c.0 }, c.1),
                        ).push((GArg::Slot { name: pname@, value: gv[k as int].0 }, gv[k as int].1)));
                        k = k + 1;
                    }
                    assert(gv.take(k as int) =~= gv);
                    Ok(ps)
                },
                ParamKind::Const { default, values } => {
                    let got = match eval_const(value, Some((default, values)), eenv, warnings) {
                        Ok(g) => g,
                        Err(e) => {
                            return Err(e);
                        },
                    };
                    let ghost gv = string_views(got@);
                    let mut ps: Vec<(Arg, Env)> = Vec::new();
                    let mut k: usize = 0;
                    assert(pieces_view(ps@) =~= seq![]);
                    while k < got.len()
                        invariant
                            only_clamps(string_views(warnings@)),
                            k <= got@.len(),
                            gv == string_views(got@),
                            pieces_view(ps@) == gv.take(k as int).map_values(
                                |l: Seq<char>|
                                    (GArg::NamedConst { name: pname@, value: l }, Seq::<(Seq<char>, GBound)>::empty()),
                            ),
                        decreases got@.len() - k,
                    {
                        let ghost before = pieces_view(ps@);
                        let item = (Arg::NamedConst { name: copy_string(pname), value: copy_string(&got[k]) }, empty_env());
                        ps.push(item);
                        assert(pieces_view(ps@) =~= before.push((arg_view(item.0), env_view(item.1@))));
                        assert(gv.take(k + 1).map_values(
                            |l: Seq<char>|
                                (GArg::NamedConst { name: pname@, value: l }, Seq::<(Seq<char>, GBound)>::empty()),
                        ) =~= gv.take(k as int).map_values(
                            |l: Seq<char>|
                                (GArg::NamedConst { name: pname@, value: l }, Seq::<(Seq<char>, GBound)>::empty()),
                        ).push((GArg::NamedConst { name: pname@, value: gv[k as int] }, Seq::<(Seq<char>, GBound)>::empty())));
                        k = k + 1;
                    }
                    assert(gv.take(k as int) =~= gv);
                    Ok(ps)
                },
                ParamKind::Project { .. } => {
                    let mut m = msg3("`", pname.as_str(), "` of `");
                    push_str(&mut m, cname.as_str());
                    push_str(
                        &mut m,
                        "` is a structural (projected) param and cannot be passed as an argument — refine it on a binding instead",
                    );
                    Err(m)
                },
            }
        },
        QArg::Pos(value) => {
            let got = match eval_const(value, None, eenv, warnings) {
                Ok(g) => g,
                Err(e) => {
                    return Err(e);
                },
            };
            let ghost gv = string_views(got@);
            let mut ps: Vec<(Arg, Env)> = Vec::new();
            let mut k: usize = 0;
            assert(pieces_view(ps@) =~= seq![]);
            while k < got.len()
                invariant
                    only_clamps(string_views(warnings@)),
                    k <= got@.len(),
                    gv == string_views(got@),
                    pieces_view(ps@) == gv.take(k as int).map_values(
                        |l: Seq<char>| (GArg::Const(l), Seq::<(Seq<char>, GBound)>::empty()),
                    ),
                decreases got@.len() - k,
            {
                let ghost before = pieces_view(ps@);
                let item = (Arg::Const(copy_string(&got[k])), empty_env());
                ps.push(item);
                assert(pieces_view(ps@) =~= before.push((arg_view(item.0), env_view(item.1@))));
                assert(gv.take(k + 1).map_values(
                    |l: Seq<char>| (GArg::Const(l), Seq::<(Seq<char>, GBound)>::empty()),
                ) =~= gv.take(k as int).map_values(
                    |l: Seq<char>| (GArg::Const(l), Seq::<(Seq<char>, GBound)>::empty()),
                ).push((GArg::Const(gv[k as int]), Seq::<(Seq<char>, GBound)>::empty())));
                k = k + 1;
            }
            assert(gv.take(k as int) =~= gv);
            Ok(ps)
        },
    }
}

/// The ground trees of a component application, a left-to-right fold over
/// its arguments: a later argument sees the captures of earlier ones, and a
/// combination whose captures disagree is pruned.
fn eval_app(
    name: &String,
    args: &Vec<QArg>,
    env: &Env,
    cvars: &Vec<String>,
    reg: &Registry,
    depth: usize,
    warnings: &mut Vec<String>,
) -> (r: Result<Cands, String>)
    requires
        only_clamps(string_views(old(warnings)@)),
        reg.wf(),
    ensures
        only_clamps(string_views(final(warnings)@)),
        match find(reg@, name@) {
            None => r is Err,
            Some(ci) => match ev_args(reg@, reg@[ci], name@, qargs_view(args@), env_view(env@), set_of(cvars@), depth as nat) {
                Some(combos) => r is Ok && cands_view(r->Ok_0@) == combos.map_values(
                    |c: (Seq<GArg>, Seq<(Seq<char>, GBound)>)| (GNode { name: name@, args: c.0 }, c.1),
                ),
                None => r is Err,
            },
        },
    decreases args,
{
    let comp = match reg.get(name.as_str()) {
        Some(c) => c,
        None => {
            return Err(msg3("unknown component `", name.as_str(), "`"));
        },
    };
    let ghost ci = find(reg@, name@)->0;
    let ghost gc = reg@[ci];
    let ghost qa = qargs_view(args@);
    let ghost ev = env_view(env@);
    let ghost cv = set_of(cvars@);
    proof {
        lemma_qargs_view_len(args@);
    }
    let mut combos: Vec<(Vec<Arg>, Env)> = Vec::new();
    let first = (Vec::new(), empty_env());
    combos.push(first);
    assert(args_view(first.0@) =~= seq![]);
    assert(combos_view(combos@) =~= seq![(Seq::<GArg>::empty(), Seq::<(Seq<char>, GBound)>::empty())]);
    assert(qa.take(0) =~= seq![]);
    let mut i: usize = 0;
    while i < args.len()
        invariant
            only_clamps(string_views(warnings@)),
            i <= args@.len(),
            reg.wf(),
            gc == comp_view(*comp),
            qa == qargs_view(args@),
            qa.len() == args@.len(),
            forall|q: int| 0 <= q < args@.len() ==> #[trigger] qa[q] == qarg_view(args@[q]),
            ev == env_view(env@),
            cv == set_of(cvars@),
            ev_args(reg@, gc, name@, qa.take(i as int), ev, cv, depth as nat) == Some(combos_view(combos@)),
            find(reg@, name@) == Some(ci),
            reg@[ci] == gc,
        decreases args@.len() - i,
    {
        assert(qa.take(i + 1).drop_last() =~= qa.take(i as int));
        assert(qa.take(i + 1).last() == qarg_view(args@[i as int]));
        let ghost cw = combos_view(combos@);
        let mut nextc: Vec<(Vec<Arg>, Env)> = Vec::new();
        let mut c: usize = 0;
        assert(cw.take(0) =~= seq![]);
        assert(combos_view(nextc@) =~= seq![]);
        while c < combos.len()
            invariant
                only_clamps(string_views(warnings@)),
                c <= combos@.len(),
                i < args@.len(),
                reg.wf(),
                gc == comp_view(*comp),
                cw == combos_view(combos@),
                qa == qargs_view(args@),
                qa.len() == args@.len(),
                qa[i as int] == qarg_view(args@[i as int]),
                qa.take(i + 1).drop_last() == qa.take(i as int),
                qa.take(i + 1).last() == qa[i as int],
                ev_args(reg@, gc, name@, qa.take(i as int), ev, cv, depth as nat) == Some(cw),
                find(reg@, name@) == Some(ci),
                reg@[ci] == gc,
                ev == env_view(env@),
                cv == set_of(cvars@),
                ev_step(reg@, gc, name@, cw.take(c as int), qa[i as int], ev, cv, depth as nat) == Some(
                    combos_view(nextc@),
                ),
            decreases combos@.len() - c,
        {
            assert(cw.take(c + 1).drop_last() =~= cw.take(c as int));
            assert(cw.take(c + 1).last() == cw[c as int]);
            // the effective environment: the base one plus the captures so far
            let eenv = extend_env_exec(env, &combos[c].1);
            let pieces = match eval_pieces(comp, name, &args[i], &eenv, cvars, reg, depth, warnings) {
                Ok(p) => p,
                Err(e) => {
                    proof {
                        lemma_ev_step_none(reg@, gc, name@, cw, qa[i as int], ev, cv, depth as nat, c + 1);
                        assert(ev_args(reg@, gc, name@, qa.take(i + 1), ev, cv, depth as nat) is None);
                        lemma_ev_args_none(reg@, gc, name@, qa, ev, cv, depth as nat, i + 1);
                    }
                    return Err(e);
                },
            };
            join_exec(&combos[c], &pieces, &mut nextc);
            c = c + 1;
        }
        assert(cw.take(c as int) =~= cw);
        combos = nextc;
        i = i + 1;
    }
    assert(qa.take(i as int) =~= qa);
    let ghost fin = combos_view(combos@);
    let mut out: Cands = Vec::new();
    let mut k: usize = 0;
    assert(cands_view(out@) =~= seq![]);
    while k < combos.len()
        invariant
            only_clamps(string_views(warnings@)),
            k <= combos@.len(),
            fin == combos_view(combos@),
            cands_view(out@) == fin.take(k as int).map_values(
                |c: (Seq<GArg>, Seq<(Seq<char>, GBound)>)| (GNode { name: name@, args: c.0 }, c.1),
            ),
        decreases combos@.len() - k,
    {
        let ghost before = cands_view(out@);
        let item = (SpecNode { name: copy_string(name), args: copy_args(&combos[k].0) }, copy_env(&combos[k].1));
        out.push(item);
        assert(cands_view(out@) =~= before.push((node_view(item.0), env_view(item.1@))));
        assert(fin.take(k + 1).map_values(
            |c: (Seq<GArg>, Seq<(Seq<char>, GBound)>)| (GNode { name: name@, args: c.0 }, c.1),
        ) =~= fin.take(k as int).map_values(
            |c: (Seq<GArg>, Seq<(Seq<char>, GBound)>)| (GNode { name: name@, args: c.0 }, c.1),
        ).push((GNode { name: name@, args: fin[k as int].0 }, fin[k as int].1)));
        k = k + 1;
    }
    assert(fin.take(k as int) =~= fin);
    Ok(out)
}

fn copy_arg(a: &Arg) -> (r: Arg)
    ensures
        arg_view(r) == arg_view(*a),
{
    match a {
        Arg::Slot { name, value } => Arg::Slot { name: copy_string(name), value: copy_node(value) },
        Arg::NamedConst { name, value } => Arg::NamedConst {
            name: copy_string(name),
            value: copy_string(value),
        },
        Arg::Const(v) => Arg::Const(copy_string(v)),
    }
}

// ───────────────────────────── bind before use ─────────────────────────────

pub open spec fn set_of(v: Seq<String>) -> Set<Seq<char>> {
    string_views(v).to_set()
}

/// Every capture-variable name (`… as name`) in a value.
pub open spec fn caps_of(v: GValue) -> Set<Seq<char>>
    decreases v,
{
    match v {
        GValue::Capture { name, inner } => caps_of(*inner).insert(name),
        GValue::App { args, .. } => caps_of_args(args),
        GValue::Where { alts, .. } => caps_of_seq(alts),
        GValue::Diff { base, subtrahends } => caps_of(*base).union(caps_of_seq(subtrahends)),
        GValue::SetLit(ms) => caps_of_seq(ms),
        _ => Set::empty(),
    }
}

pub open spec fn caps_of_seq(vs: Seq<GValue>) -> Set<Seq<char>>
    decreases vs,
{
    if vs.len() == 0 {
        Set::empty()
    } else {
        caps_of_seq(vs.drop_last()).union(caps_of(vs.last()))
    }
}

pub open spec fn caps_of_args(a: Seq<GQArg>) -> Set<Seq<char>>
    decreases a,
{
    if a.len() == 0 {
        Set::empty()
    } else {
        caps_of_args(a.drop_last()).union(
            match a.last() {
                GQArg::Named { value, .. } => caps_of(value),
                GQArg::Pos(value) => caps_of(value),
            },
        )
    }
}

/// Every capture-variable name in the bindings' values.
pub open spec fn caps_of_bindings(bs: Seq<GBinding>) -> Set<Seq<char>>
    decreases bs.len(),
{
    if bs.len() == 0 {
        Set::empty()
    } else {
        caps_of_bindings(bs.drop_last()).union(caps_of(bs.last().value))
    }
}

/// Evaluation-order check of a value: every reference to a capture variable
/// must come after a capture of it. The variables available afterwards, or
/// `None` on a forward or cyclic reference.
pub open spec fn order_ok(v: GValue, cv: Set<Seq<char>>, avail: Set<Seq<char>>) -> Option<Set<Seq<char>>>
    decreases v,
{
    match v {
        GValue::Ident(name) => if cv.contains(name) && !avail.contains(name) {
            None
        } else {
            Some(avail)
        },
        GValue::Capture { name, inner } => match order_ok(*inner, cv, avail) {
            Some(a) => Some(a.insert(name)),
            None => None,
        },
        GValue::App { args, .. } => order_args(args, cv, avail),
        GValue::Where { alts, .. } => order_branches(alts, cv, avail),
        GValue::Diff { base, subtrahends } => match order_ok(*base, cv, avail) {
            Some(a) => order_seq(subtrahends, cv, a),
            None => None,
        },
        GValue::SetLit(ms) => order_seq(ms, cv, avail),
        _ => Some(avail),
    }
}

/// Left to right: a later value sees what earlier ones captured.
pub open spec fn order_seq(vs: Seq<GValue>, cv: Set<Seq<char>>, avail: Set<Seq<char>>) -> Option<Set<Seq<char>>>
    decreases vs,
{
    if vs.len() == 0 {
        Some(avail)
    } else {
        match order_seq(vs.drop_last(), cv, avail) {
            Some(a) => order_ok(vs.last(), cv, a),
            None => None,
        }
    }
}

pub open spec fn order_args(a: Seq<GQArg>, cv: Set<Seq<char>>, avail: Set<Seq<char>>) -> Option<Set<Seq<char>>>
    decreases a,
{
    if a.len() == 0 {
        Some(avail)
    } else {
        match order_args(a.drop_last(), cv, avail) {
            Some(s) => match a.last() {
                GQArg::Named { value, .. } => order_ok(value, cv, s),
                GQArg::Pos(value) => order_ok(value, cv, s),
            },
            None => None,
        }
    }
}

/// Each branch against the same incoming scope; a variable captured in any
/// branch is available after the union.
pub open spec fn order_branches(alts: Seq<GValue>, cv: Set<Seq<char>>, avail: Set<Seq<char>>) -> Option<Set<Seq<char>>>
    decreases alts,
{
    if alts.len() == 0 {
        Some(avail)
    } else {
        match order_branches(alts.drop_last(), cv, avail) {
            Some(after) => match order_ok(alts.last(), cv, avail) {
                Some(b) => Some(after.union(b)),
                None => None,
            },
            None => None,
        }
    }
}

pub open spec fn order_refinements(rs: Seq<GRefinement>, cv: Set<Seq<char>>, avail: Set<Seq<char>>) -> Option<Set<Seq<char>>>
    decreases rs.len(),
{
    if rs.len() == 0 {
        Some(avail)
    } else {
        match order_refinements(rs.drop_last(), cv, avail) {
            Some(a) => order_ok(rs.last().value, cv, a),
            None => None,
        }
    }
}

/// The whole query: each binding's refinements, then its value, then its name.
pub open spec fn order_bindings(bs: Seq<GBinding>, cv: Set<Seq<char>>) -> Option<Set<Seq<char>>>
    decreases bs.len(),
{
    if bs.len() == 0 {
        Some(Set::empty())
    } else {
        match order_bindings(bs.drop_last(), cv) {
            Some(a) => match order_refinements(bs.last().refinements, cv, a) {
                Some(a2) => match order_ok(bs.last().value, cv, a2) {
                    Some(a3) => Some(a3.insert(bs.last().name)),
                    None => None,
                },
                None => None,
            },
            None => None,
        }
    }
}

fn add_name(out: &mut Vec<String>, name: &String)
    ensures
        set_of(final(out)@) == set_of(old(out)@).insert(name@),
{
    if !crate::resolve::contains_string(out, name) {
        let x = copy_string(name);
        proof {
            lemma_string_views_push(out@, x);
        }
        out.push(x);
    }
    proof {
        broadcast use vstd::seq_lib::group_seq_properties;
        assert(set_of(out@) =~= set_of(old(out)@).insert(name@));
    }
}

fn collect_caps_value(v: &QValue, out: &mut Vec<String>)
    ensures
        set_of(final(out)@) == set_of(old(out)@).union(caps_of(value_view(*v))),
    decreases v,
{
    match v {
        QValue::Capture { name, inner } => {
            collect_caps_value(inner, out);
            add_name(out, name);
            assert(set_of(out@) =~= set_of(old(out)@).union(caps_of(value_view(*v))));
        },
        QValue::App { args, .. } => {
            collect_caps_args(args, out);
        },
        QValue::Where { alts, .. } => {
            collect_caps_seq(alts, out);
        },
        QValue::Diff { base, subtrahends } => {
            collect_caps_value(base, out);
            collect_caps_seq(subtrahends, out);
            assert(set_of(out@) =~= set_of(old(out)@).union(caps_of(value_view(*v))));
        },
        QValue::SetLit(ms) => {
            collect_caps_seq(ms, out);
        },
        _ => {
            assert(set_of(out@) =~= set_of(old(out)@).union(caps_of(value_view(*v))));
        },
    }
}

fn collect_caps_seq(vs: &Vec<QValue>, out: &mut Vec<String>)
    ensures
        set_of(final(out)@) == set_of(old(out)@).union(caps_of_seq(values_view(vs@))),
    decreases vs,
{
    proof {
        lemma_values_view_len(vs@);
    }
    let mut i: usize = 0;
    assert(values_view(vs@).take(0) =~= seq![]);
    assert(set_of(out@) =~= set_of(old(out)@).union(caps_of_seq(values_view(vs@).take(0))));
    while i < vs.len()
        invariant
            i <= vs@.len(),
            values_view(vs@).len() == vs@.len(),
            forall|k: int| 0 <= k < vs@.len() ==> #[trigger] values_view(vs@)[k] == value_view(vs@[k]),
            set_of(out@) == set_of(old(out)@).union(caps_of_seq(values_view(vs@).take(i as int))),
        decreases vs@.len() - i,
    {
        let ghost vv = values_view(vs@);
        assert(vv.take(i + 1).drop_last() =~= vv.take(i as int));
        collect_caps_value(&vs[i], out);
        assert(set_of(out@) =~= set_of(old(out)@).union(caps_of_seq(vv.take(i + 1))));
        i = i + 1;
    }
    assert(values_view(vs@).take(i as int) =~= values_view(vs@));
}

fn collect_caps_args(a: &Vec<QArg>, out: &mut Vec<String>)
    ensures
        set_of(final(out)@) == set_of(old(out)@).union(caps_of_args(qargs_view(a@))),
    decreases a,
{
    proof {
        lemma_qargs_view_len(a@);
    }
    let mut i: usize = 0;
    assert(qargs_view(a@).take(0) =~= seq![]);
    assert(set_of(out@) =~= set_of(old(out)@).union(caps_of_args(qargs_view(a@).take(0))));
    while i < a.len()
        invariant
            i <= a@.len(),
            qargs_view(a@).len() == a@.len(),
            forall|k: int| 0 <= k < a@.len() ==> #[trigger] qargs_view(a@)[k] == qarg_view(a@[k]),
            set_of(out@) == set_of(old(out)@).union(caps_of_args(qargs_view(a@).take(i as int))),
        decreases a@.len() - i,
    {
        let ghost av = qargs_view(a@);
        assert(av.take(i + 1).drop_last() =~= av.take(i as int));
        match &a[i] {
            QArg::Named { value, .. } => collect_caps_value(value, out),
            QArg::Pos(value) => collect_caps_value(value, out),
        }
        assert(set_of(out@) =~= set_of(old(out)@).union(caps_of_args(av.take(i + 1))));
        i = i + 1;
    }
    assert(qargs_view(a@).take(i as int) =~= qargs_view(a@));
}

/// The error of a reference to the capture variable `name` ahead of its capture.
pub open spec fn forward_ref_text(name: Seq<char>) -> Seq<char> {
    "`"@ + name
        + "` is referenced before it is captured — forward/cyclic capture references are not supported; capture it earlier in evaluation order"@
}

/// `m` is the error of some forward reference.
pub open spec fn is_forward_ref(m: Seq<char>) -> bool {
    exists|name: Seq<char>| #[trigger] forward_ref_text(name) == m
}

fn forward_ref_error(name: &String) -> (r: String)
    ensures
        r@ == forward_ref_text(name@),
        is_forward_ref(r@),
{
    let r = msg3(
        "`",
        name.as_str(),
        "` is referenced before it is captured — forward/cyclic capture references are not supported; capture it earlier in evaluation order",
    );
    assert(forward_ref_text(name@) == r@);
    r
}

fn check_order_value(v: &QValue, cvars: &Vec<String>, avail: &mut Vec<String>) -> (r: Result<(), String>)
    ensures
        r matches Err(e) ==> is_forward_ref(e@),
        match order_ok(value_view(*v), set_of(cvars@), set_of(old(avail)@)) {
            Some(a) => r is Ok && set_of(final(avail)@) == a,
            None => r is Err,
        },
    decreases v,
{
    match v {
        QValue::Ident(name) => {
            if crate::resolve::contains_string(cvars, name) && !crate::resolve::contains_string(avail, name) {
                return Err(forward_ref_error(name));
            }
            Ok(())
        },
        QValue::Capture { name, inner } => {
            match check_order_value(inner, cvars, avail) {
                Ok(()) => {},
                Err(e) => {
                    return Err(e);
                },
            }
            add_name(avail, name);
            Ok(())
        },
        QValue::App { args, .. } => check_order_args(args, cvars, avail),
        QValue::Where { alts, .. } => check_order_branches(alts, cvars, avail),
        QValue::Diff { base, subtrahends } => {
            match check_order_value(base, cvars, avail) {
                Ok(()) => {},
                Err(e) => {
                    return Err(e);
                },
            }
            check_order_seq(subtrahends, cvars, avail)
        },
        QValue::SetLit(ms) => check_order_seq(ms, cvars, avail),
        _ => Ok(()),
    }
}

fn check_order_seq(vs: &Vec<QValue>, cvars: &Vec<String>, avail: &mut Vec<String>) -> (r: Result<(), String>)
    ensures
        r matches Err(e) ==> is_forward_ref(e@),
        match order_seq(values_view(vs@), set_of(cvars@), set_of(old(avail)@)) {
            Some(a) => r is Ok && set_of(final(avail)@) == a,
            None => r is Err,
        },
    decreases vs,
{
    proof {
        lemma_values_view_len(vs@);
    }
    let ghost a0 = set_of(avail@);
    let mut i: usize = 0;
    assert(values_view(vs@).take(0) =~= seq![]);
    while i < vs.len()
        invariant
            i <= vs@.len(),
            a0 == set_of(old(avail)@),
            values_view(vs@).len() == vs@.len(),
            forall|k: int| 0 <= k < vs@.len() ==> #[trigger] values_view(vs@)[k] == value_view(vs@[k]),
            order_seq(values_view(vs@).take(i as int), set_of(cvars@), a0) == Some(set_of(avail@)),
        decreases vs@.len() - i,
    {
        let ghost vv = values_view(vs@);
        assert(vv.take(i + 1).drop_last() =~= vv.take(i as int));
        match check_order_value(&vs[i], cvars, avail) {
            Ok(()) => {},
            Err(e) => {
                proof {
                    lemma_order_seq_none(vv, set_of(cvars@), a0, i + 1);
                }
                return Err(e);
            },
        }
        i = i + 1;
    }
    assert(values_view(vs@).take(i as int) =~= values_view(vs@));
    Ok(())
}

proof fn lemma_order_seq_none(vs: Seq<GValue>, cv: Set<Seq<char>>, a: Set<Seq<char>>, k: int)
    requires
        0 <= k <= vs.len(),
        order_seq(vs.take(k), cv, a) is None,
    ensures
        order_seq(vs, cv, a) is None,
    decreases vs.len(),
{
    if k == vs.len() {
        assert(vs.take(k) =~= vs);
    } else {
        assert(vs.drop_last().take(k) =~= vs.take(k));
        lemma_order_seq_none(vs.drop_last(), cv, a, k);
    }
}

proof fn lemma_order_args_none(vs: Seq<GQArg>, cv: Set<Seq<char>>, a: Set<Seq<char>>, k: int)
    requires
        0 <= k <= vs.len(),
        order_args(vs.take(k), cv, a) is None,
    ensures
        order_args(vs, cv, a) is None,
    decreases vs.len(),
{
    if k == vs.len() {
        assert(vs.take(k) =~= vs);
    } else {
        assert(vs.drop_last().take(k) =~= vs.take(k));
        lemma_order_args_none(vs.drop_last(), cv, a, k);
    }
}

proof fn lemma_order_branches_none(vs: Seq<GValue>, cv: Set<Seq<char>>, a: Set<Seq<char>>, k: int)
    requires
        0 <= k <= vs.len(),
        order_branches(vs.take(k), cv, a) is None,
    ensures
        order_branches(vs, cv, a) is None,
    decreases vs.len(),
{
    if k == vs.len() {
        assert(vs.take(k) =~= vs);
    } else {
        assert(vs.drop_last().take(k) =~= vs.take(k));
        lemma_order_branches_none(vs.drop_last(), cv, a, k);
    }
}

fn check_order_args(a: &Vec<QArg>, cvars: &Vec<String>, avail: &mut Vec<String>) -> (r: Result<(), String>)
    ensures
        r matches Err(e) ==> is_forward_ref(e@),
        match order_args(qargs_view(a@), set_of(cvars@), set_of(old(avail)@)) {
            Some(s) => r is Ok && set_of(final(avail)@) == s,
            None => r is Err,
        },
    decreases a,
{
    proof {
        lemma_qargs_view_len(a@);
    }
    let ghost a0 = set_of(avail@);
    let mut i: usize = 0;
    assert(qargs_view(a@).take(0) =~= seq![]);
    while i < a.len()
        invariant
            i <= a@.len(),
            a0 == set_of(old(avail)@),
            qargs_view(a@).len() == a@.len(),
            forall|k: int| 0 <= k < a@.len() ==> #[trigger] qargs_view(a@)[k] == qarg_view(a@[k]),
            order_args(qargs_view(a@).take(i as int), set_of(cvars@), a0) == Some(set_of(avail@)),
        decreases a@.len() - i,
    {
        let ghost av = qargs_view(a@);
        assert(av.take(i + 1).drop_last() =~= av.take(i as int));
        let res = match &a[i] {
            QArg::Named { value, .. } => check_order_value(value, cvars, avail),
            QArg::Pos(value) => check_order_value(value, cvars, avail),
        };
        match res {
            Ok(()) => {},
            Err(e) => {
                proof {
                    lemma_order_args_none(av, set_of(cvars@), a0, i + 1);
                }
                return Err(e);
            },
        }
        i = i + 1;
    }
    assert(qargs_view(a@).take(i as int) =~= qargs_view(a@));
    Ok(())
}

fn check_order_branches(alts: &Vec<QValue>, cvars: &Vec<String>, avail: &mut Vec<String>) -> (r: Result<(), String>)
    ensures
        r matches Err(e) ==> is_forward_ref(e@),
        match order_branches(values_view(alts@), set_of(cvars@), set_of(old(avail)@)) {
            Some(s) => r is Ok && set_of(final(avail)@) == s,
            None => r is Err,
        },
    decreases alts,
{
    proof {
        lemma_values_view_len(alts@);
    }
    let ghost a0 = set_of(avail@);
    let mut after = crate::text::copy_strings(avail);
    let mut i: usize = 0;
    assert(values_view(alts@).take(0) =~= seq![]);
    while i < alts.len()
        invariant
            i <= alts@.len(),
            a0 == set_of(old(avail)@),
            a0 == set_of(avail@),
            values_view(alts@).len() == alts@.len(),
            forall|k: int| 0 <= k < alts@.len() ==> #[trigger] values_view(alts@)[k] == value_view(alts@[k]),
            order_branches(values_view(alts@).take(i as int), set_of(cvars@), a0) == Some(set_of(after@)),
        decreases alts@.len() - i,
    {
        let ghost vv = values_view(alts@);
        assert(vv.take(i + 1).drop_last() =~= vv.take(i as int));
        let mut branch = crate::text::copy_strings(avail);
        match check_order_value(&alts[i], cvars, &mut branch) {
            Ok(()) => {},
            Err(e) => {
                proof {
                    lemma_order_branches_none(vv, set_of(cvars@), a0, i + 1);
                }
                return Err(e);
            },
        }
        let ghost before = set_of(after@);
        let ghost before_seq = string_views(after@);
        union_into_exec(&mut after, &branch);
        assert(set_of(after@) =~= before.union(set_of(branch@))) by {
            crate::resolve::lemma_union_into_contains(before_seq, string_views(branch@));
        }
        i = i + 1;
    }
    assert(values_view(alts@).take(i as int) =~= values_view(alts@));
    *avail = after;
    Ok(())
}

proof fn lemma_order_refinements_none(vs: Seq<GRefinement>, cv: Set<Seq<char>>, a: Set<Seq<char>>, k: int)
    requires
        0 <= k <= vs.len(),
        order_refinements(vs.take(k), cv, a) is None,
    ensures
        order_refinements(vs, cv, a) is None,
    decreases vs.len(),
{
    if k == vs.len() {
        assert(vs.take(k) =~= vs);
    } else {
        assert(vs.drop_last().take(k) =~= vs.take(k));
        lemma_order_refinements_none(vs.drop_last(), cv, a, k);
    }
}

proof fn lemma_order_bindings_none(vs: Seq<GBinding>, cv: Set<Seq<char>>, k: int)
    requires
        0 <= k <= vs.len(),
        order_bindings(vs.take(k), cv) is None,
    ensures
        order_bindings(vs, cv) is None,
    decreases vs.len(),
{
    if k == vs.len() {
        assert(vs.take(k) =~= vs);
    } else {
        assert(vs.drop_last().take(k) =~= vs.take(k));
        lemma_order_bindings_none(vs.drop_last(), cv, k);
    }
}

/// The query's capture variables, once every reference to one is known to
/// follow a capture of it in evaluation order.
fn check_capture_order(query: &Query) -> (r: Result<Vec<String>, String>)
    ensures
        r matches Err(e) ==> is_forward_ref(e@),
        ({
            let bs = query_view(*query).bindings;
            let cv = caps_of_bindings(bs);
            &&& r is Err <==> order_bindings(bs, cv) is None
            &&& r matches Ok(v) ==> set_of(v@) == cv
        }),
{
    let ghost bs = query_view(*query).bindings;
    // every capture-variable name
    let mut cvars: Vec<String> = Vec::new();
    let mut i: usize = 0;
    assert(bs.take(0) =~= seq![]);
    assert(set_of(cvars@) =~= caps_of_bindings(bs.take(0)));
    while i < query.bindings.len()
        invariant
            i <= query.bindings@.len(),
            bs == query_view(*query).bindings,
            bs.len() == query.bindings@.len(),
            set_of(cvars@) == caps_of_bindings(bs.take(i as int)),
        decreases query.bindings@.len() - i,
    {
        assert(bs.take(i + 1).drop_last() =~= bs.take(i as int));
        assert(bs[i as int] == binding_view(query.bindings@[i as int]));
        collect_caps_value(&query.bindings[i].value, &mut cvars);
        i = i + 1;
    }
    assert(bs.take(i as int) =~= bs);
    let ghost cv = set_of(cvars@);
    // bind-before-use, in evaluation order
    let mut available: Vec<String> = Vec::new();
    let mut j: usize = 0;
    assert(set_of(available@) =~= Set::empty());
    while j < query.bindings.len()
        invariant
            j <= query.bindings@.len(),
            bs == query_view(*query).bindings,
            bs.len() == query.bindings@.len(),
            cv == set_of(cvars@),
            cv == caps_of_bindings(bs),
            order_bindings(bs.take(j as int), cv) == Some(set_of(available@)),
        decreases query.bindings@.len() - j,
    {
        assert(bs.take(j + 1).drop_last() =~= bs.take(j as int));
        let b = &query.bindings[j];
        assert(bs[j as int] == binding_view(*b));
        let ghost a0 = set_of(available@);
        let ghost rv = refinements_view(b.refinements@);
        let mut k: usize = 0;
        assert(rv.take(0) =~= seq![]);
        while k < b.refinements.len()
            invariant
                k <= b.refinements@.len(),
                rv == refinements_view(b.refinements@),
                cv == set_of(cvars@),
                bs == query_view(*query).bindings,
                bs.len() == query.bindings@.len(),
                j < bs.len(),
                bs[j as int].refinements == rv,
                cv == caps_of_bindings(bs),
                order_bindings(bs.take(j as int), cv) == Some(a0),
                bs.take(j + 1).drop_last() == bs.take(j as int),
                bs.take(j + 1).last() == bs[j as int],
                order_refinements(rv.take(k as int), cv, a0) == Some(set_of(available@)),
            decreases b.refinements@.len() - k,
        {
            assert(rv.take(k + 1).drop_last() =~= rv.take(k as int));
            assert(rv[k as int] == refinement_view(b.refinements@[k as int]));
            match check_order_value(&b.refinements[k].value, &cvars, &mut available) {
                Ok(()) => {},
                Err(e) => {
                    proof {
                        lemma_order_refinements_none(rv, cv, a0, k + 1);
                        lemma_order_bindings_none(bs, cv, j + 1);
                    }
                    return Err(e);
                },
            }
            k = k + 1;
        }
        assert(rv.take(k as int) =~= rv);
        match check_order_value(&b.value, &cvars, &mut available) {
            Ok(()) => {},
            Err(e) => {
                proof {
                    lemma_order_bindings_none(bs, cv, j + 1);
                }
                return Err(e);
            },
        }
        add_name(&mut available, &b.name);
        j = j + 1;
    }
    assert(bs.take(j as int) =~= bs);
    Ok(cvars)
}

// ───────────────────────────── bindings and refinements ─────────────────────────────

/// Bound values with their captures, as ghost values.
pub open spec fn bounds_view(v: Seq<(Bound, Env)>) -> Seq<(GBound, Seq<(Seq<char>, GBound)>)> {
    v.map_values(|p: (Bound, Env)| (bound_view(p.0), env_view(p.1@)))
}

fn one_const(lit: &String) -> (r: Vec<(Bound, Env)>)
    ensures
        bounds_view(r@) == seq![(GBound::Const(lit@), Seq::<(Seq<char>, GBound)>::empty())],
{
    let mut v: Vec<(Bound, Env)> = Vec::new();
    let item = (Bound::Const(copy_string(lit)), empty_env());
    v.push(item);
    assert(bounds_view(v@) =~= seq![(GBound::Const(lit@), Seq::<(Seq<char>, GBound)>::empty())]);
    v
}

/// Every value a binding can take, each with the captures it introduced.
fn eval_binding(
    binding: &Binding,
    env: &Env,
    cvars: &Vec<String>,
    reg: &Registry,
    depth: usize,
    warnings: &mut Vec<String>,
) -> (r: Result<Vec<(Bound, Env)>, String>)
    requires
        only_clamps(string_views(old(warnings)@)),
        reg.wf(),
    ensures
        only_clamps(string_views(final(warnings)@)),
        match ev_binding(reg@, binding_view(*binding), env_view(env@), set_of(cvars@), depth as nat) {
            Some(g) => r is Ok && bounds_view(r->Ok_0@) == g,
            None => r is Err,
        },
{
    match &binding.value {
        QValue::Const(lit) => {
            return Ok(one_const(lit));
        },
        QValue::Ident(name) => {
            match env_get(env, name) {
                Some(Bound::Const(lit)) => {
                    return Ok(one_const(lit));
                },
                _ => {},
            }
        },
        _ => {},
    }
    let cands = match eval_type(
        &binding.value,
        binding.role.as_str(),
        &binding.refinements,
        env,
        cvars,
        reg,
        depth,
        warnings,
    ) {
        Ok(c) => c,
        Err(e) => {
            return Err(e);
        },
    };
    let ghost cw = cands_view(cands@);
    let mut out: Vec<(Bound, Env)> = Vec::new();
    let mut k: usize = 0;
    assert(bounds_view(out@) =~= seq![]);
    while k < cands.len()
        invariant
            only_clamps(string_views(warnings@)),
            k <= cands@.len(),
            cw == cands_view(cands@),
            bounds_view(out@) == cw.take(k as int).map_values(|c: GCand| (GBound::Type(c.0), c.1)),
        decreases cands@.len() - k,
    {
        let ghost before = bounds_view(out@);
        let item = (Bound::Type(copy_node(&cands[k].0)), copy_env(&cands[k].1));
        out.push(item);
        assert(bounds_view(out@) =~= before.push((bound_view(item.0), env_view(item.1@))));
        assert(cw.take(k + 1).map_values(|c: GCand| (GBound::Type(c.0), c.1)) =~= cw.take(
            k as int,
        ).map_values(|c: GCand| (GBound::Type(c.0), c.1)).push((GBound::Type(cw[k as int].0), cw[k as int].1)));
        k = k + 1;
    }
    assert(cw.take(k as int) =~= cw);
    Ok(out)
}

/// A refinement's right-hand side: a shared variable or a nullary component.
fn resolve_ref_value(value: &QValue, env: &Env, reg: &Registry) -> (r: Result<SpecNode, String>)
    ensures
        match ref_value(reg@, value_view(*value), env_view(env@)) {
            Some(n) => r is Ok && node_view(r->Ok_0) == n,
            None => r is Err,
        },
{
    match value {
        QValue::Ident(name) => match env_get(env, name) {
            Some(Bound::Type(node)) => Ok(copy_node(node)),
            Some(Bound::Const(_)) => Err(msg3("refinement value `", name.as_str(), "` is a const, expected a type")),
            None => {
                if reg.get(name.as_str()).is_none() {
                    return Err(msg3("unknown component or variable `", name.as_str(), "`"));
                }
                let nd = SpecNode { name: copy_string(name), args: Vec::new() };
                assert(args_view(nd.args@) =~= seq![]);
                Ok(nd)
            },
        },
        _ => Err(owned("a refinement value must be a variable or a component name")),
    }
}

proof fn lemma_refs_ok_stop(reg: Seq<GComponent>, comp: GComponent, rs: Seq<GRefinement>, env: Seq<(Seq<char>, GBound)>, k: int)
    requires
        0 <= k <= rs.len(),
        refs_ok(reg, comp, rs.take(k), env) != Some(true),
    ensures
        refs_ok(reg, comp, rs, env) == refs_ok(reg, comp, rs.take(k), env),
    decreases rs.len(),
{
    if k == rs.len() {
        assert(rs.take(k) =~= rs);
    } else {
        assert(rs.drop_last().take(k) =~= rs.take(k));
        lemma_refs_ok_stop(reg, comp, rs.drop_last(), env, k);
    }
}

/// The cross-binding constraint: each refined param must be declared by the
/// chosen filler, and the value threaded in must provide that param's role.
/// `Ok(false)` prunes the combination.
fn check_refinements(binding: &Binding, bound: &Bound, env: &Env, reg: &Registry) -> (r: Result<bool, String>)
    ensures
        match check_refs(reg@, binding_view(*binding), bound_view(*bound), env_view(env@)) {
            Some(b) => r == Ok::<bool, String>(b),
            None => r is Err,
        },
{
    let node = match bound {
        Bound::Type(node) => node,
        Bound::Const(_) => {
            if binding.refinements.len() == 0 {
                return Ok(true);
            } else {
                return Err(msg3("const binding `", binding.name.as_str(), "` cannot carry refinements"));
            }
        },
    };
    let comp = match reg.get(node.name.as_str()) {
        Some(c) => c,
        None => {
            return Err(msg3("unknown component `", node.name.as_str(), "`"));
        },
    };
    let ghost ci = find(reg@, node.name@)->0;
    let ghost gc = reg@[ci];
    let ghost rv = refinements_view(binding.refinements@);
    let ghost ev = env_view(env@);
    assert(gc.params == params_view(comp.params@));
    let mut i: usize = 0;
    assert(rv.take(0) =~= seq![]);
    while i < binding.refinements.len()
        invariant
            i <= binding.refinements@.len(),
            rv == refinements_view(binding.refinements@),
            ev == env_view(env@),
            gc == comp_view(*comp),
            gc.params == params_view(comp.params@),
            find(reg@, node.name@) == Some(ci),
            reg@[ci] == gc,
            refs_ok(reg@, gc, rv.take(i as int), ev) == Some(true),
            bound_view(*bound) == GBound::Type(node_view(*node)),
            binding_view(*binding).refinements == rv,
        decreases binding.refinements@.len() - i,
    {
        assert(rv.take(i + 1).drop_last() =~= rv.take(i as int));
        assert(rv.take(i + 1).last() == refinement_view(binding.refinements@[i as int]));
        assert(refs_ok(reg@, gc, rv.take(i + 1), ev) == ref_one(reg@, gc, rv[i as int], ev));
        let r = &binding.refinements[i];
        assert(rv[i as int].param == r.param@);
        let role = match comp.param_role(r.param.as_str()) {
            Some(role) => owned(role),
            None => {
                if comp.param(r.param.as_str()).is_none() {
                    proof {
                        lemma_refs_ok_stop(reg@, gc, rv, ev, i + 1);
                    }
                    return Ok(false);
                }
                let mut m = msg3("refinement `", r.param.as_str(), "` of `");
                push_str(&mut m, node.name.as_str());
                push_str(&mut m, "` targets a const param, which is not a role constraint");
                proof {
                    lemma_refs_ok_stop(reg@, gc, rv, ev, i + 1);
                }
                return Err(m);
            },
        };
        let val_node = match resolve_ref_value(&r.value, env, reg) {
            Ok(n) => n,
            Err(e) => {
                proof {
                    lemma_refs_ok_stop(reg@, gc, rv, ev, i + 1);
                }
                return Err(e);
            },
        };
        let val_comp = match reg.get(val_node.name.as_str()) {
            Some(c) => c,
            None => {
                proof {
                    lemma_refs_ok_stop(reg@, gc, rv, ev, i + 1);
                }
                return Err(msg3("unknown component `", val_node.name.as_str(), "`"));
            },
        };
        if !crate::resolve::contains_string(&val_comp.provides, &role) {
            proof {
                lemma_refs_ok_stop(reg@, gc, rv, ev, i + 1);
            }
            return Ok(false);
        }
        i = i + 1;
    }
    assert(rv.take(i as int) =~= rv);
    Ok(true)
}

// ───────────────────────────── solving ─────────────────────────────

/// The deduped ground trees of a query, with any build-time warnings.
#[derive(Debug)]
pub struct SolveOutput {
    pub sorts: Vec<SpecNode>,
    pub warnings: Vec<String>,
}

/// No two of `ns` elaborate to the same Rust type.
pub open spec fn canonically_distinct(reg: Seq<GComponent>, ns: Seq<GNode>) -> bool {
    &&& forall|i: int| 0 <= i < ns.len() ==> (#[trigger] res_node(reg, ns[i], reg.len())) is Some
    &&& forall|i: int, j: int|
        0 <= i < j < ns.len() ==> res_node(reg, ns[i], reg.len())->0.type_expr != res_node(
            reg,
            ns[j],
            reg.len(),
        )->0.type_expr
}

proof fn lemma_dedup_canon_distinct(reg: Seq<GComponent>, ns: Seq<GNode>)
    ensures
        dedup_canon(reg, ns) matches Some(d) ==> canonically_distinct(reg, d.0) && d.0.len()
            == d.1.len() && forall|i: int|
            0 <= i < d.0.len() ==> res_node(reg, d.0[i], reg.len())->0.type_expr == d.1[i],
    decreases ns.len(),
{
    if ns.len() > 0 {
        lemma_dedup_canon_distinct(reg, ns.drop_last());
        match dedup_canon(reg, ns.drop_last()) {
            Some(acc) => match res_node(reg, ns.last(), reg.len()) {
                Some(r) => {
                    if !acc.1.contains(r.type_expr) {
                        let d0 = acc.0.push(ns.last());
                        let d1 = acc.1.push(r.type_expr);
                        assert forall|i: int, j: int| 0 <= i < j < d0.len() implies res_node(reg, d0[i], reg.len())->0.type_expr != res_node(reg, d0[j], reg.len())->0.type_expr by {
                            if j == d0.len() - 1 {
                                assert(d1[i] == acc.1[i]);
                                assert(acc.1.contains(acc.1[i]));
                            }
                        }
                        assert forall|i: int| 0 <= i < d0.len() implies (#[trigger] res_node(reg, d0[i], reg.len())) is Some by {
                            if i < d0.len() - 1 {
                                assert(d0[i] == acc.0[i]);
                            }
                        }
                    }
                },
                None => {},
            },
            None => {},
        }
    }
}

/// The heads-up given for a query whose estimated peak lies within a quarter of
/// its budget.
pub open spec fn large_build_text(peak: Card, budget: u128) -> Seq<char> {
    "large build: estimated peak materialization ~"@ + crate::cardinality::card_text(peak) + " of a "@
        + crate::text::decimal(budget as nat)
        + " budget — sample with `?N` or narrow the query if this is unintended"@
}

/// No sampler's clamp warning reads as the near-budget heads-up: the one
/// ends in a number, the other in words.
pub proof fn lemma_clamp_is_not_large_build(m: Seq<char>, peak: Card, budget: u128)
    requires
        is_clamp(m),
    ensures
        m != large_build_text(peak, budget),
{
    let (label, n, len) = choose|label: Seq<char>, n: nat, len: nat| #[trigger] clamp_text(label, n, len) == m;
    let d = crate::text::decimal(len);
    lemma_decimal_ends_in_digit(len);
    let tail = " budget — sample with `?N` or narrow the query if this is unintended"@;
    reveal_strlit(" budget — sample with `?N` or narrow the query if this is unintended");
    let lb = large_build_text(peak, budget);
    assert(lb.last() == tail.last());
    assert(m.last() == d.last());
}

proof fn lemma_decimal_ends_in_digit(n: nat)
    ensures
        crate::text::decimal(n).len() > 0,
        '0' <= crate::text::decimal(n).last() <= '9',
{
    if n >= 10 {
        assert(crate::text::decimal(n).last() == crate::text::digit_char(n % 10));
    }
}

/// Whatever `acc` held stays in front, in its place.
proof fn lemma_union_into_keeps(acc: Seq<Seq<char>>, add: Seq<Seq<char>>)
    ensures
        union_into(acc, add).len() >= acc.len(),
        forall|i: int| 0 <= i < acc.len() ==> #[trigger] union_into(acc, add)[i] == acc[i],
        acc.len() == 0 && add.len() > 0 ==> union_into(acc, add).len() > 0 && union_into(acc, add)[0] == add[0],
    decreases add.len(),
{
    if add.len() > 0 {
        let next = if acc.contains(add[0]) {
            acc
        } else {
            acc.push(add[0])
        };
        lemma_union_into_keeps(next, add.drop_first());
        if acc.len() == 0 {
            assert(next == seq![add[0]]);
            assert(union_into(next, add.drop_first())[0] == next[0]);
        } else {
            assert forall|i: int| 0 <= i < acc.len() implies #[trigger] union_into(acc, add)[i] == acc[i] by {
                assert(union_into(next, add.drop_first())[i] == next[i]);
            }
        }
    }
}

fn large_build_warning(peak: Card, budget: u128) -> (r: String)
    ensures
        r@ == large_build_text(peak, budget),
{
    let mut m = owned("large build: estimated peak materialization ~");
    push_str(&mut m, peak.describe().as_str());
    push_str(&mut m, " of a ");
    push_decimal(&mut m, budget);
    push_str(&mut m, " budget — sample with `?N` or narrow the query if this is unintended");
    m
}

/// Every environment binds `name`.
#[verifier::opaque]
pub open spec fn binds_all(es: Seq<Env>, name: Seq<char>) -> bool {
    forall|q: int| 0 <= q < es.len() ==> lookup(env_view(#[trigger] es[q]@), name) is Some
}

/// Environments as ghost values.
pub open spec fn envs_view(es: Seq<Env>) -> Seq<Seq<(Seq<char>, GBound)>> {
    es.map_values(|e: Env| env_view(e@))
}

proof fn lemma_extend_with_none(
    reg: Seq<GComponent>,
    b: GBinding,
    e: Seq<(Seq<char>, GBound)>,
    got: Seq<(GBound, Seq<(Seq<char>, GBound)>)>,
    k: int,
)
    requires
        0 <= k <= got.len(),
        extend_with(reg, b, e, got.take(k)) is None,
    ensures
        extend_with(reg, b, e, got) is None,
    decreases got.len(),
{
    if k == got.len() {
        assert(got.take(k) =~= got);
    } else {
        assert(got.drop_last().take(k) =~= got.take(k));
        lemma_extend_with_none(reg, b, e, got.drop_last(), k);
    }
}

proof fn lemma_step_envs_none(
    reg: Seq<GComponent>,
    b: GBinding,
    es: Seq<Seq<(Seq<char>, GBound)>>,
    cv: Set<Seq<char>>,
    depth: nat,
    k: int,
)
    requires
        0 <= k <= es.len(),
        step_envs(reg, b, es.take(k), cv, depth) is None,
    ensures
        step_envs(reg, b, es, cv, depth) is None,
    decreases es.len(),
{
    if k == es.len() {
        assert(es.take(k) =~= es);
    } else {
        assert(es.drop_last().take(k) =~= es.take(k));
        lemma_step_envs_none(reg, b, es.drop_last(), cv, depth, k);
    }
}

proof fn lemma_envs_of_none(reg: Seq<GComponent>, bs: Seq<GBinding>, cv: Set<Seq<char>>, depth: nat, k: int)
    requires
        0 <= k <= bs.len(),
        envs_of(reg, bs.take(k), cv, depth) is None,
    ensures
        envs_of(reg, bs, cv, depth) is None,
    decreases bs.len(),
{
    if k == bs.len() {
        assert(bs.take(k) =~= bs);
    } else {
        assert(bs.drop_last().take(k) =~= bs.take(k));
        lemma_envs_of_none(reg, bs.drop_last(), cv, depth, k);
    }
}

proof fn lemma_targets_none(es: Seq<Seq<(Seq<char>, GBound)>>, target: Seq<char>, k: int)
    requires
        0 <= k <= es.len(),
        targets(es.take(k), target) is None,
    ensures
        targets(es, target) is None,
    decreases es.len(),
{
    if k == es.len() {
        assert(es.take(k) =~= es);
    } else {
        assert(es.drop_last().take(k) =~= es.take(k));
        lemma_targets_none(es.drop_last(), target, k);
    }
}

/// A binding's step failed on the `ei`-th environment: the whole query fails.
proof fn lemma_binding_fails(
    reg: Seq<GComponent>,
    bs: Seq<GBinding>,
    bi: int,
    es: Seq<Seq<(Seq<char>, GBound)>>,
    ei: int,
    cv: Set<Seq<char>>,
    depth: nat,
)
    requires
        0 <= bi < bs.len(),
        0 <= ei < es.len(),
        envs_of(reg, bs.take(bi), cv, depth) == Some(es),
        step_envs(reg, bs[bi], es.take(ei + 1), cv, depth) is None,
    ensures
        envs_of(reg, bs, cv, depth) is None,
{
    lemma_step_envs_none(reg, bs[bi], es, cv, depth, ei + 1);
    assert(bs.take(bi + 1).drop_last() =~= bs.take(bi));
    assert(bs.take(bi + 1).last() == bs[bi]);
    lemma_envs_of_none(reg, bs, cv, depth, bi + 1);
}

/// Extend `e` by each value of a binding whose captures agree with it and
/// that passes the binding's refinements, appending to `next`.
fn extend_envs(binding: &Binding, e0: &Env, got: &Vec<(Bound, Env)>, reg: &Registry, next: &mut Vec<Env>) -> (r: Result<
    (),
    String,
>)
    ensures
        match extend_with(reg@, binding_view(*binding), env_view(e0@), bounds_view(got@)) {
            Some(more) => r is Ok && envs_view(final(next)@) == envs_view(old(next)@) + more,
            None => r is Err,
        },
        r is Ok ==> forall|q: int|
            0 <= q < final(next)@.len() ==> (q < old(next)@.len() && final(next)@[q] == old(next)@[q]) || lookup(
                env_view(#[trigger] final(next)@[q]@),
                binding.name@,
            ) is Some,
{
    let ghost b = binding_view(*binding);
    let ghost gw = bounds_view(got@);
    let ghost ev = env_view(e0@);
    let ghost base = envs_view(next@);
    let ghost n0 = next@;
    let mut gi: usize = 0;
    assert(gw.take(0) =~= seq![]);
    assert(base + seq![] =~= base);
    while gi < got.len()
        invariant
            gi <= got@.len(),
            b == binding_view(*binding),
            gw == bounds_view(got@),
            ev == env_view(e0@),
            base == envs_view(old(next)@),
            n0 == old(next)@,
            next@.len() >= n0.len(),
            forall|q: int| 0 <= q < n0.len() ==> next@[q] == n0[q],
            extend_with(reg@, b, ev, gw.take(gi as int)) matches Some(more) && envs_view(next@) == base + more,
            forall|q: int|
                n0.len() <= q < next@.len() ==> lookup(env_view(#[trigger] next@[q]@), binding.name@) is Some,
        decreases got@.len() - gi,
    {
        assert(gw.take(gi + 1).drop_last() =~= gw.take(gi as int));
        assert(gw.take(gi + 1).last() == (bound_view(got@[gi as int].0), env_view(got@[gi as int].1@)));
        let ghost more0 = extend_with(reg@, b, ev, gw.take(gi as int))->0;
        match unify_caps(e0, &got[gi].1) {
            Some(mut e) => {
                let ok = match check_refinements(binding, &got[gi].0, &e, reg) {
                    Ok(b) => b,
                    Err(er) => {
                        proof {
                            lemma_extend_with_none(reg@, b, ev, gw, gi + 1);
                        }
                        return Err(er);
                    },
                };
                if ok {
                    let ghost pre = env_view(e@);
                    let b2 = copy_bound(&got[gi].0);
                    proof {
                        lemma_env_set_lookup(pre, binding.name@, bound_view(b2));
                    }
                    env_insert(&mut e, copy_string(&binding.name), b2);
                    let ghost before = envs_view(next@);
                    let ghost ne = env_view(e@);
                    next.push(e);
                    assert(envs_view(next@) =~= before.push(ne));
                    assert(base + more0.push(ne) =~= (base + more0).push(ne));
                }
            },
            None => {},
        }
        gi = gi + 1;
    }
    assert(gw.take(gi as int) =~= gw);
    Ok(())
}

/// One binding applied to every environment so far.
fn step_all(
    binding: &Binding,
    envs: &Vec<Env>,
    cvars: &Vec<String>,
    reg: &Registry,
    depth: usize,
    warnings: &mut Vec<String>,
) -> (r: Result<Vec<Env>, String>)
    requires
        only_clamps(string_views(old(warnings)@)),
        reg.wf(),
    ensures
        only_clamps(string_views(final(warnings)@)),
        match step_envs(reg@, binding_view(*binding), envs_view(envs@), set_of(cvars@), depth as nat) {
            Some(es) => r is Ok && envs_view(r->Ok_0@) == es,
            None => r is Err,
        },
        r matches Ok(v) ==> binds_all(v@, binding.name@),
{
    let ghost b = binding_view(*binding);
    let ghost ew = envs_view(envs@);
    let ghost cv = set_of(cvars@);
    let mut next: Vec<Env> = Vec::new();
    let mut ei: usize = 0;
    assert(ew.take(0) =~= seq![]);
    assert(envs_view(next@) =~= seq![]);
    while ei < envs.len()
        invariant
            only_clamps(string_views(warnings@)),
            ei <= envs@.len(),
            reg.wf(),
            b == binding_view(*binding),
            ew == envs_view(envs@),
            cv == set_of(cvars@),
            step_envs(reg@, b, ew.take(ei as int), cv, depth as nat) == Some(envs_view(next@)),
            forall|q: int|
                0 <= q < next@.len() ==> lookup(env_view(#[trigger] next@[q]@), binding.name@) is Some,
        decreases envs@.len() - ei,
    {
        assert(ew.take(ei + 1).drop_last() =~= ew.take(ei as int));
        assert(ew.take(ei + 1).last() == env_view(envs@[ei as int]@));
        let got = match eval_binding(binding, &envs[ei], cvars, reg, depth, warnings) {
            Ok(g) => g,
            Err(e) => {
                proof {
                    lemma_step_envs_none(reg@, b, ew, cv, depth as nat, ei + 1);
                }
                return Err(e);
            },
        };
        let ghost n0 = next@;
        match extend_envs(binding, &envs[ei], &got, reg, &mut next) {
            Ok(()) => {},
            Err(e) => {
                proof {
                    lemma_step_envs_none(reg@, b, ew, cv, depth as nat, ei + 1);
                }
                return Err(e);
            },
        }
        assert forall|q: int| 0 <= q < next@.len() implies lookup(env_view(#[trigger] next@[q]@), binding.name@) is Some by {
            if q < n0.len() && next@[q] == n0[q] {
            }
        }
        ei = ei + 1;
    }
    assert(ew.take(ei as int) =~= ew);
    proof {
        reveal(binds_all);
    }
    Ok(next)
}

/// The tree each environment binds `target` to.
fn collect_targets(envs: &Vec<Env>, target: &String) -> (r: Result<Cands, String>)
    requires
        binds_all(envs@, target@),
    ensures
        match targets(envs_view(envs@), target@) {
            Some(ns) => r is Ok && cand_nodes(r->Ok_0@) == ns,
            None => r is Err,
        },
{
    proof {
        reveal(binds_all);
    }
    let ghost fin = envs_view(envs@);
    let mut grounds: Cands = Vec::new();
    let mut k: usize = 0;
    assert(fin.take(0) =~= seq![]);
    assert(cand_nodes(grounds@) =~= seq![]);
    while k < envs.len()
        invariant
            k <= envs@.len(),
            fin == envs_view(envs@),
            targets(fin.take(k as int), target@) == Some(cand_nodes(grounds@)),
            forall|q: int| 0 <= q < envs@.len() ==> lookup(env_view(#[trigger] envs@[q]@), target@) is Some,
        decreases envs@.len() - k,
    {
        assert(fin.take(k + 1).drop_last() =~= fin.take(k as int));
        assert(fin.take(k + 1).last() == env_view(envs@[k as int]@));
        assert(lookup(env_view(envs@[k as int]@), target@) is Some);
        match env_get(&envs[k], target) {
            Some(Bound::Type(node)) => {
                let ghost before = cand_nodes(grounds@);
                let c = (copy_node(node), empty_env());
                grounds.push(c);
                assert(cand_nodes(grounds@) =~= before.push(node_view(*node)));
            },
            Some(Bound::Const(_)) => {
                proof {
                    lemma_targets_none(fin, target@, k + 1);
                }
                return Err(owned("the target binding must be a sort (a type), not a const"));
            },
            None => {
                assert(false);
                return Err(owned("the target binding is unbound"));
            },
        }
        k = k + 1;
    }
    assert(fin.take(k as int) =~= fin);
    Ok(grounds)
}

/// The environments the bindings build up, in order, from one empty one.
fn build_envs(
    bindings: &Vec<Binding>,
    cvars: &Vec<String>,
    reg: &Registry,
    depth: usize,
    warnings: &mut Vec<String>,
) -> (r: Result<Vec<Env>, String>)
    requires
        only_clamps(string_views(old(warnings)@)),
        reg.wf(),
        bindings@.len() > 0,
    ensures
        only_clamps(string_views(final(warnings)@)),
        match envs_of(reg@, bindings_view(bindings@), set_of(cvars@), depth as nat) {
            Some(es) => r is Ok && envs_view(r->Ok_0@) == es,
            None => r is Err,
        },
        r matches Ok(v) ==> binds_all(v@, bindings@.last().name@),
{
    let ghost bs = bindings_view(bindings@);
    let ghost cv = set_of(cvars@);
    let mut envs: Vec<Env> = Vec::new();
    envs.push(empty_env());
    assert(bs.take(0) =~= seq![]);
    assert(envs_view(envs@) =~= seq![Seq::<(Seq<char>, GBound)>::empty()]);
    let mut bi: usize = 0;
    while bi < bindings.len()
        invariant
            only_clamps(string_views(warnings@)),
            bi <= bindings@.len(),
            reg.wf(),
            bs == bindings_view(bindings@),
            cv == set_of(cvars@),
            envs_of(reg@, bs.take(bi as int), cv, depth as nat) == Some(envs_view(envs@)),
            bi > 0 ==> binds_all(envs@, bindings@[bi - 1].name@),
        decreases bindings@.len() - bi,
    {
        assert(bs.take(bi + 1).drop_last() =~= bs.take(bi as int));
        assert(bs.take(bi + 1).last() == binding_view(bindings@[bi as int]));
        let next = match step_all(&bindings[bi], &envs, cvars, reg, depth, warnings) {
            Ok(n) => n,
            Err(e) => {
                proof {
                    lemma_envs_of_none(reg@, bs, cv, depth as nat, bi + 1);
                }
                return Err(e);
            },
        };
        envs = next;
        bi = bi + 1;
    }
    assert(bs.take(bi as int) =~= bs);
    Ok(envs)
}

/// What solving `query` against `reg` under `budget` gives: refused when the
/// estimated peak exceeds the budget (with the size error), refused on a
/// capture used before it is captured, otherwise exactly the distinct ground
/// sorts of the query, with the near-budget heads-up listed first.
pub open spec fn solved_within(query: Query, reg: Registry, budget: u128, r: Result<SolveOutput, String>) -> bool {
    let bs = query_view(query).bindings;
    let cv = caps_of_bindings(bs);
    let pk = crate::cardinality::est_bindings(reg@, bs, query.depth as nat).peak;
    let over = pk is Huge || crate::cardinality::card_value(pk) > budget;
    &&& over ==> r is Err
    &&& over ==> (r matches Err(e) && exists|roles: Seq<Seq<char>>|
        crate::cardinality::is_sorted_roles(roles) && (forall|x: Seq<char>|
            roles.contains(x) <==> crate::cardinality::is_recursive(reg@, x)) && #[trigger] crate::cardinality::too_large_msg(
            pk,
            budget,
            crate::cardinality::est_bindings(reg@, bs, query.depth as nat).worst,
            roles,
        ) == e@)
    &&& order_bindings(bs, cv) is None ==> r is Err
    &&& !over && order_bindings(bs, cv) is None ==> (r matches Err(e) && is_forward_ref(e@))
    &&& !over && order_bindings(bs, cv) is Some ==> match query_sorts(reg@, query_view(query), cv) {
        Some(ns) => r is Ok && nodes_view(r->Ok_0.sorts@) == ns,
        None => r is Err,
    }
    &&& r matches Ok(out) ==> {
        &&& canonically_distinct(reg@, nodes_view(out.sorts@))
        &&& (query.take matches Some(t) ==> out.sorts@.len() <= t.n)
        &&& crate::cardinality::no_dups(string_views(out.warnings@))
        &&& (pk is Huge || crate::cardinality::card_value(pk) > budget / 4) ==> out.warnings@.len() > 0
            && out.warnings@[0]@ == large_build_text(pk, budget)
        &&& forall|i: int|
            0 <= i < out.warnings@.len() && !(i == 0 && (pk is Huge || crate::cardinality::card_value(pk) > budget / 4))
                ==> is_clamp(#[trigger] out.warnings@[i]@)
        &&& (exists|i: int| 0 <= i < out.warnings@.len() && #[trigger] out.warnings@[i]@ == large_build_text(pk, budget))
            <==> (pk is Huge || crate::cardinality::card_value(pk) > budget / 4)
    }
}

/// Solve a query into its set of ground sort trees, refusing it up front when
/// the size analysis predicts a peak materialization over `budget`.
#[verifier::rlimit(60)]
#[verifier::spinoff_prover]
pub fn solve_within(query: &Query, reg: &Registry, budget: u128) -> (r: Result<SolveOutput, String>)
    requires
        reg.wf(),
        query.bindings@.len() > 0 || budget == 0,
    ensures
        solved_within(*query, *reg, budget, r),
{
    let ghost bs = query_view(*query).bindings;
    let ghost depth = query.depth as nat;
    let mut warnings: Vec<String> = Vec::new();
    let est = match check_size(query, reg, budget) {
        Ok(e) => e,
        Err(e) => {
            return Err(e);
        },
    };
    assert(query.bindings@.len() > 0) by {
        if query.bindings@.len() == 0 {
            assert(query_view(*query).bindings =~= Seq::<GBinding>::empty());
        }
    }
    let near = est.peak.exceeds(budget / 4);
    let cvars = match check_capture_order(query) {
        Ok(c) => c,
        Err(e) => {
            return Err(e);
        },
    };
    let envs = match build_envs(&query.bindings, &cvars, reg, query.depth, &mut warnings) {
        Ok(e) => e,
        Err(e) => {
            return Err(e);
        },
    };
    let last = query.bindings.len() - 1;
    assert(bs.last() == binding_view(query.bindings@[last as int]));
    let grounds = match collect_targets(&envs, &query.bindings[last].name) {
        Ok(g) => g,
        Err(e) => {
            return Err(e);
        },
    };
    let ghost raw = cand_nodes(grounds@);
    let grounds = match dedup_canonical(&grounds, reg) {
        Ok(g) => g,
        Err(e) => {
            return Err(e);
        },
    };
    proof {
        lemma_dedup_canon_distinct(reg@, raw);
    }
    let grounds = match query.take {
        Some(t) => {
            let ghost g_in = cand_nodes(grounds@);
            let g = match dedup_canonical(&grounds, reg) {
                Ok(g) => g,
                Err(e) => {
                    return Err(e);
                },
            };
            let gl = g.len();
            proof {
                lemma_dedup_canon_distinct(reg@, g_in);
                assert(gl <= u64::MAX);
                lemma_sample_positions_distinct(g@.len(), t.n as nat, t.seed);
                lemma_pick_distinct(reg@, cand_nodes(g@), sample_positions_s(g@.len(), t.n as nat, t.seed));
            }
            let sampled = sample_cands(g, t.n, t.seed, &owned("query `N of`"), &mut warnings);
            assert(sampled@.len() <= t.n);
            sampled
        },
        None => grounds,
    };
    assert(query.take matches Some(t) ==> grounds@.len() <= t.n);
    assert(canonically_distinct(reg@, cand_nodes(grounds@)));
    let mut sorts: Vec<SpecNode> = Vec::new();
    let mut q: usize = 0;
    while q < grounds.len()
        invariant
            q <= grounds@.len(),
            nodes_view(sorts@) == cand_nodes(grounds@).take(q as int),
        decreases grounds@.len() - q,
    {
        let n = copy_node(&grounds[q].0);
        let ghost before = nodes_view(sorts@);
        sorts.push(n);
        assert(nodes_view(sorts@) =~= before.push(node_view(n)));
        assert(cand_nodes(grounds@).take(q + 1) =~= cand_nodes(grounds@).take(q as int).push(cand_nodes(grounds@)[q as int]));
        q = q + 1;
    }
    assert(cand_nodes(grounds@).take(q as int) =~= cand_nodes(grounds@));
    let ghost before_w = string_views(warnings@);
    if near {
        // The heads-up is decided before anything is built and is listed first.
        warnings.insert(0, large_build_warning(est.peak, budget));
    }
    let ghost raw_w = string_views(warnings@);
    proof {
        if near {
            assert forall|i: int| 1 <= i < raw_w.len() implies is_clamp(#[trigger] raw_w[i]) by {
                assert(raw_w[i] == before_w[i - 1]);
            }
        } else {
            assert(raw_w == before_w);
        }
    }
    let warnings = dedup_strings(&warnings);
    proof {
        crate::cardinality::lemma_union_into_no_dups(seq![], raw_w);
        lemma_union_into_keeps(seq![], raw_w);
        crate::resolve::lemma_union_into_contains(seq![], raw_w);
        let ow = string_views(warnings@);
        let lb = large_build_text(est.peak, budget);
        assert forall|i: int| 0 <= i < warnings@.len() && !(i == 0 && near) implies is_clamp(#[trigger] warnings@[i]@) by {
            assert(ow[i] == warnings@[i]@);
            assert(ow.contains(ow[i]));
            assert(raw_w.contains(ow[i]));
            let q = choose|q: int| 0 <= q < raw_w.len() && raw_w[q] == ow[i];
            if near && q == 0 {
                assert(ow[0] == raw_w[0]);
                assert(false);
            }
        }
        if !near {
            assert forall|i: int| 0 <= i < warnings@.len() implies #[trigger] warnings@[i]@ != lb by {
                lemma_clamp_is_not_large_build(warnings@[i]@, est.peak, budget);
            }
        } else {
            assert(warnings@[0]@ == lb);
        }
    }
    assert(sorts@.len() == grounds@.len());
    Ok(SolveOutput { sorts, warnings })
}

/// A seeded sample of `n` out of `len` takes every position, in order, when
/// `n` is at least `len`, and otherwise exactly `n` positions, all below `len`
/// and no two alike.
pub proof fn lemma_sample_positions_distinct(len: nat, n: nat, seed: u64)
    requires
        len <= u64::MAX,
    ensures
        distinct_below(sample_positions_s(len, n, seed), len),
        n >= len ==> sample_positions_s(len, n, seed) == iota(len),
        n < len ==> sample_positions_s(len, n, seed).len() == n,
{
    if n < len {
        let start = iota(len);
        assert(distinct_below(start, len));
        lemma_fisher_yates_distinct(start, 0, n, seed);
        let full = fisher_yates(start, 0, n, seed);
        assert forall|a: int, b: int| 0 <= a < b < full.take(n as int).len() implies full.take(
            n as int,
        )[a] != full.take(n as int)[b] by {
            assert(full.take(n as int)[a] == full[a] && full.take(n as int)[b] == full[b]);
        }
    }
}

proof fn lemma_pick_distinct(reg: Seq<GComponent>, ns: Seq<GNode>, pos: Seq<int>)
    requires
        canonically_distinct(reg, ns),
        distinct_below(pos, ns.len()),
    ensures
        canonically_distinct(reg, pos.map_values(|p: int| ns[p])),
{
    let t = pos.map_values(|p: int| ns[p]);
    assert forall|i: int| 0 <= i < t.len() implies (#[trigger] res_node(reg, t[i], reg.len())) is Some by {
        assert(t[i] == ns[pos[i]]);
    }
    assert forall|i: int, j: int| 0 <= i < j < t.len() implies res_node(reg, t[i], reg.len())->0.type_expr != res_node(reg, t[j], reg.len())->0.type_expr by {
        assert(t[i] == ns[pos[i]] && t[j] == ns[pos[j]]);
        if pos[i] < pos[j] {
        } else {
            assert(pos[j] < pos[i]);
        }
    }
}

proof fn lemma_env_set_lookup(e: Seq<(Seq<char>, GBound)>, k: Seq<char>, v: GBound)
    ensures
        lookup(env_set(e, k, v), k) == Some(v),
    decreases e.len(),
{
    if e.len() > 0 && e[0].0 != k {
        lemma_env_set_lookup(e.drop_first(), k, v);
        assert((seq![e[0]] + env_set(e.drop_first(), k, v)).drop_first() =~= env_set(e.drop_first(), k, v));
    }
}

/// Solve a query with the default size budget.
pub fn solve(query: &Query, reg: &Registry) -> (r: Result<SolveOutput, String>)
    requires
        reg.wf(),
        query.bindings@.len() > 0,
    ensures
        solved_within(*query, *reg, DEFAULT_MAX_GROUND, r),
{
    solve_within(query, reg, DEFAULT_MAX_GROUND)
}

} // verus!
