//! Static size analysis: before anything is materialized, an upper bound on
//! how many ground trees a query produces and on the largest population built
//! at any single step, so that an unbounded recursive role or an enormous
//! cross-product is refused with a clear error.
//!
//! Every construct gets a cardinality, propagated compositionally: a role is
//! the size of its depth-bounded population, a union the sum of its
//! alternatives, a set difference costs its base, an application is the
//! product of its arguments, and a reference counts one.
use vstd::prelude::*;
use crate::text::{chars_of, chars_eq, str_eq, copy_string, owned, push_str, push_decimal, string_views,
    lemma_string_views_push};
use crate::spec_lang::{
    binding_view, bindings_view, qarg_view, qargs_view, query_view, value_view, values_view,
    lemma_qargs_view_len, lemma_values_view_len, Binding, GBinding, GQArg, GQuery, GValue, QArg,
    QValue, Quant, Query, Take,
};
use crate::registry::{
    comp_view, find, find_param, kind_view, param_view, params_view, lex_lt, providers,
    strictly_sorted, insert_sorted_string,
    refs_view, Component, GComponent, GParam, GParamKind, ParamKind, Registry,
};

verus! {

/// A saturating cardinality: a finite count, or `Huge` once an addition or a
/// multiplication would overflow `u128`.
#[derive(Debug, Clone, Copy, PartialEq, Eq, Structural)]
pub enum Card {
    Finite(u128),
    Huge,
}

/// Default ceiling on the peak materialization before solving refuses to run.
pub const DEFAULT_MAX_GROUND: u128 = 1_000_000;

pub open spec fn card_add(a: Card, b: Card) -> Card {
    match (a, b) {
        (Card::Finite(x), Card::Finite(y)) => if x + y <= u128::MAX {
            Card::Finite((x + y) as u128)
        } else {
            Card::Huge
        },
        _ => Card::Huge,
    }
}

pub open spec fn card_mul(a: Card, b: Card) -> Card {
    match (a, b) {
        (Card::Finite(x), Card::Finite(y)) => if x * y <= u128::MAX {
            Card::Finite((x * y) as u128)
        } else {
            Card::Huge
        },
        _ => Card::Huge,
    }
}

pub open spec fn card_max(a: Card, b: Card) -> Card {
    match (a, b) {
        (Card::Finite(x), Card::Finite(y)) => Card::Finite(if x >= y { x } else { y }),
        _ => Card::Huge,
    }
}

/// A population capped at a sample size `n`.
pub open spec fn card_cap(a: Card, n: u128) -> Card {
    match a {
        Card::Huge => Card::Finite(n),
        Card::Finite(m) => Card::Finite(if m <= n { m } else { n }),
    }
}

/// A finite count's value; `Huge` reads as `u128::MAX`.
pub open spec fn card_value(c: Card) -> u128 {
    match c {
        Card::Finite(n) => n,
        Card::Huge => u128::MAX,
    }
}

impl Card {
    pub fn is_huge(self) -> (r: bool)
        ensures
            r == (self is Huge),
    {
        match self {
            Card::Huge => true,
            Card::Finite(_) => false,
        }
    }

    /// Does this exceed a finite budget? `Huge` always does.
    pub fn exceeds(self, budget: u128) -> (r: bool)
        ensures
            r == match self {
                Card::Huge => true,
                Card::Finite(n) => n > budget,
            },
    {
        match self {
            Card::Huge => true,
            Card::Finite(n) => n > budget,
        }
    }

    pub fn add(self, o: Card) -> (r: Card)
        ensures
            r == card_add(self, o),
    {
        match (self, o) {
            (Card::Finite(a), Card::Finite(b)) => match a.checked_add(b) {
                Some(s) => Card::Finite(s),
                None => Card::Huge,
            },
            _ => Card::Huge,
        }
    }

    pub fn mul(self, o: Card) -> (r: Card)
        ensures
            r == card_mul(self, o),
    {
        match (self, o) {
            (Card::Finite(a), Card::Finite(b)) => match a.checked_mul(b) {
                Some(s) => Card::Finite(s),
                None => Card::Huge,
            },
            _ => Card::Huge,
        }
    }

    pub fn max(self, o: Card) -> (r: Card)
        ensures
            r == card_max(self, o),
    {
        match (self, o) {
            (Card::Finite(a), Card::Finite(b)) => Card::Finite(if a >= b { a } else { b }),
            _ => Card::Huge,
        }
    }

    /// Cap a population at a sample size `n`.
    pub fn cap(self, n: u128) -> (r: Card)
        ensures
            r == card_cap(self, n),
    {
        match self {
            Card::Huge => Card::Finite(n),
            Card::Finite(m) => Card::Finite(if m <= n { m } else { n }),
        }
    }

    /// The count as text: the number, or a note that it overflowed.
    pub fn describe(self) -> (r: String)
        ensures
            r@ == card_text(self),
            self matches Card::Finite(n) ==> r@ == crate::text::decimal(n as nat),
    {
        match self {
            Card::Finite(n) => {
                let mut s = String::new();
                push_decimal(&mut s, n);
                s
            },
            Card::Huge => owned("astronomically large (overflowed u128)"),
        }
    }
}

/// The display form of a count.
pub open spec fn card_text(c: Card) -> Seq<char> {
    match c {
        Card::Finite(n) => crate::text::decimal(n as nat),
        Card::Huge => "astronomically large (overflowed u128)"@,
    }
}

// ───────────────────────────── role populations ─────────────────────────────

/// The roles of `ps`'s type slots, in declaration order.
pub open spec fn type_roles(ps: Seq<GParam>) -> Seq<Seq<char>>
    decreases ps.len(),
{
    if ps.len() == 0 {
        seq![]
    } else {
        let prev = type_roles(ps.drop_last());
        match ps.last().kind {
            GParamKind::Type { role, .. } => prev.push(role),
            _ => prev,
        }
    }
}

/// The number of ground trees of `role` nested at most `depth` deep.
pub open spec fn card_role_s(reg: Seq<GComponent>, role: Seq<char>, depth: nat) -> Card
    decreases depth, 3nat, 0nat,
{
    sum_comps(reg, providers(reg, role), depth)
}

/// The sum over `cs` of each component's population.
pub open spec fn sum_comps(reg: Seq<GComponent>, cs: Seq<GComponent>, depth: nat) -> Card
    decreases depth, 2nat, cs.len(),
{
    if cs.len() == 0 {
        Card::Finite(0)
    } else {
        card_add(sum_comps(reg, cs.drop_last(), depth), card_comp_s(reg, cs.last(), depth))
    }
}

/// The number of ground trees headed by `c`: one for a leaf, none when no
/// nesting is left, else the product over its type slots one level down.
pub open spec fn card_comp_s(reg: Seq<GComponent>, c: GComponent, depth: nat) -> Card
    decreases depth, 1nat, 0nat,
{
    let rs = type_roles(c.params);
    if rs.len() == 0 {
        Card::Finite(1)
    } else if depth == 0 {
        Card::Finite(0)
    } else {
        prod_roles(reg, rs, (depth - 1) as nat)
    }
}

pub open spec fn prod_roles(reg: Seq<GComponent>, rs: Seq<Seq<char>>, d: nat) -> Card
    decreases d + 1, 0nat, rs.len(),
{
    if rs.len() == 0 {
        Card::Finite(1)
    } else {
        card_mul(prod_roles(reg, rs.drop_last(), d), card_role_s(reg, rs.last(), d))
    }
}

fn type_roles_exec(c: &Component) -> (r: Vec<String>)
    ensures
        string_views(r@) == type_roles(params_view(c.params@)),
{
    let mut out: Vec<String> = Vec::new();
    let mut k: usize = 0;
    while k < c.params.len()
        invariant
            k <= c.params@.len(),
            string_views(out@) == type_roles(params_view(c.params@).take(k as int)),
        decreases c.params@.len() - k,
    {
        let ghost pv = params_view(c.params@);
        assert(pv.take(k + 1).drop_last() =~= pv.take(k as int));
        assert(pv.take(k + 1).last() == param_view(c.params@[k as int]));
        match &c.params[k].kind {
            ParamKind::Type { role, .. } => {
                let x = copy_string(role);
                proof {
                    lemma_string_views_push(out@, x);
                }
                out.push(x);
            },
            _ => {},
        }
        k = k + 1;
    }
    assert(params_view(c.params@).take(k as int) =~= params_view(c.params@));
    out
}

/// The count of `role` at `depth`, each (role, depth) pair counted once:
/// one already in `memo` is reused, a new one is added to it.
fn card_role_go(reg: &Registry, role: &str, depth: usize, memo: &mut Vec<(String, usize, Card)>) -> (r: Card)
    requires
        reg.wf(),
        memo_ok(reg@, old(memo)@),
    ensures
        r == card_role_s(reg@, role@, depth as nat),
        memo_ok(reg@, final(memo)@),
    decreases depth, 3nat,
{
    match memo_get(memo, role, depth) {
        Some(c) => {
            return c;
        },
        None => {},
    }
    let cs = reg.providing(role);
    let mut total = Card::Finite(0);
    let mut i: usize = 0;
    assert(refs_view(cs@).take(0) =~= seq![]);
    while i < cs.len()
        invariant
            i <= cs@.len(),
            reg.wf(),
            memo_ok(reg@, memo@),
            refs_view(cs@) == providers(reg@, role@),
            total == sum_comps(reg@, refs_view(cs@).take(i as int), depth as nat),
        decreases cs@.len() - i,
    {
        let ghost rv = refs_view(cs@);
        assert(rv.take(i + 1).drop_last() =~= rv.take(i as int));
        assert(rv.take(i + 1).last() == comp_view(*cs@[i as int]));
        let c = card_component(reg, cs[i], depth, memo);
        total = total.add(c);
        i = i + 1;
    }
    assert(refs_view(cs@).take(i as int) =~= refs_view(cs@));
    let key = owned(role);
    memo.push((key, depth, total));
    total
}

/// Each remembered count is the count of its role at its depth.
pub open spec fn memo_ok(reg: Seq<GComponent>, m: Seq<(String, usize, Card)>) -> bool {
    forall|i: int| 0 <= i < m.len() ==> (#[trigger] m[i]).2 == card_role_s(reg, m[i].0@, m[i].1 as nat)
}

fn memo_get(memo: &Vec<(String, usize, Card)>, role: &str, depth: usize) -> (r: Option<Card>)
    ensures
        r matches Some(c) ==> exists|i: int| 0 <= i < memo@.len() && (#[trigger] memo@[i]).0@ == role@
            && memo@[i].1 == depth && memo@[i].2 == c,
{
    let mut i: usize = 0;
    while i < memo.len()
        invariant
            i <= memo@.len(),
        decreases memo@.len() - i,
    {
        if memo[i].1 == depth && str_eq(memo[i].0.as_str(), role) {
            return Some(memo[i].2);
        }
        i = i + 1;
    }
    None
}

fn card_component(reg: &Registry, c: &Component, depth: usize, memo: &mut Vec<(String, usize, Card)>) -> (r: Card)
    requires
        reg.wf(),
        memo_ok(reg@, old(memo)@),
    ensures
        r == card_comp_s(reg@, comp_view(*c), depth as nat),
        memo_ok(reg@, final(memo)@),
    decreases depth, 1nat,
{
    let rs = type_roles_exec(c);
    if rs.len() == 0 {
        return Card::Finite(1);
    }
    if depth == 0 {
        return Card::Finite(0);
    }
    let mut prod = Card::Finite(1);
    let mut i: usize = 0;
    assert(string_views(rs@).take(0) =~= seq![]);
    while i < rs.len()
        invariant
            i <= rs@.len(),
            depth > 0,
            reg.wf(),
            memo_ok(reg@, memo@),
            prod == prod_roles(reg@, string_views(rs@).take(i as int), (depth - 1) as nat),
        decreases rs@.len() - i,
    {
        let ghost sv = string_views(rs@);
        assert(sv.take(i + 1).drop_last() =~= sv.take(i as int));
        assert(sv.take(i + 1).last() == rs@[i as int]@);
        let x = card_role_go(reg, rs[i].as_str(), depth - 1, memo);
        prod = prod.mul(x);
        i = i + 1;
    }
    assert(string_views(rs@).take(i as int) =~= string_views(rs@));
    prod
}

/// The number of ground trees an exhaustive enumeration of `role`, nested at
/// most `depth` deep, produces.
pub fn card_role(reg: &Registry, role: &str, depth: usize) -> (r: Card)
    requires
        reg.wf(),
    ensures
        r == card_role_s(reg@, role@, depth as nat),
{
    let mut memo: Vec<(String, usize, Card)> = Vec::new();
    card_role_go(reg, role, depth, &mut memo)
}

// ───────────────────────────── query estimates ─────────────────────────────

/// What flows to the parent (`out`) and the largest set built in a subtree
/// (`peak`).
#[derive(Clone, Copy)]
struct Est {
    out: Card,
    peak: Card,
}

pub open spec fn one() -> (Card, Card) {
    (Card::Finite(1), Card::Finite(1))
}

/// A hole's quantifier applied to a population (sampling caps it).
pub open spec fn cap_quant_s(pop: Card, q: Quant) -> Card {
    match q {
        Quant::Exhaustive => pop,
        Quant::One { .. } => card_cap(pop, 1),
        Quant::N { n, .. } => card_cap(pop, n as u128),
    }
}

/// A value in const context: a hole ranges over the declared values (at
/// least one); anything else is one value.
pub open spec fn est_const_s(v: GValue, nvalues: nat) -> (Card, Card) {
    match v {
        GValue::Hole(q) => {
            let pop = Card::Finite(if nvalues >= 1 { nvalues as u128 } else { 1 });
            (cap_quant_s(pop, q), pop)
        },
        _ => one(),
    }
}

/// `(out, peak)` of a value in type context against `role`.
pub open spec fn est_value_s(reg: Seq<GComponent>, v: GValue, role: Seq<char>, depth: nat) -> (
    Card,
    Card,
)
    decreases v,
{
    match v {
        GValue::Hole(q) => {
            let pop = card_role_s(reg, role, depth);
            (cap_quant_s(pop, q), pop)
        },
        GValue::Ident(_) => one(),
        GValue::Const(_) => one(),
        GValue::Capture { inner, .. } => est_value_s(reg, *inner, role, depth),
        GValue::Where { quant, alts } => {
            let u = est_union(reg, alts, role, depth);
            (cap_quant_s(u.0, quant), card_max(u.1, u.0))
        },
        GValue::SetLit(ms) => {
            let u = est_union(reg, ms, role, depth);
            (u.0, card_max(u.1, u.0))
        },
        GValue::Diff { base, subtrahends } => {
            let b = est_value_s(reg, *base, role, depth);
            (b.0, est_peaks(reg, subtrahends, role, depth, b.1))
        },
        GValue::App { name, args } => match find(reg, name) {
            Some(ci) => if 0 <= ci < reg.len() {
                let a = est_args(reg, reg[ci], args, depth);
                (a.0, card_max(a.1, a.0))
            } else {
                one()
            },
            None => one(),
        },
    }
}

/// The sum of the alternatives' outputs and the largest of their peaks.
pub open spec fn est_union(reg: Seq<GComponent>, alts: Seq<GValue>, role: Seq<char>, depth: nat) -> (
    Card,
    Card,
)
    decreases alts,
{
    if alts.len() == 0 {
        (Card::Finite(0), Card::Finite(0))
    } else {
        let u = est_union(reg, alts.drop_last(), role, depth);
        let e = est_value_s(reg, alts.last(), role, depth);
        (card_add(u.0, e.0), card_max(u.1, e.1))
    }
}

/// `init` raised to the largest peak among `subs`.
pub open spec fn est_peaks(
    reg: Seq<GComponent>,
    subs: Seq<GValue>,
    role: Seq<char>,
    depth: nat,
    init: Card,
) -> Card
    decreases subs,
{
    if subs.len() == 0 {
        init
    } else {
        card_max(
            est_peaks(reg, subs.drop_last(), role, depth, init),
            est_value_s(reg, subs.last(), role, depth).1,
        )
    }
}

/// The product of the arguments' outputs and the largest of their peaks.
pub open spec fn est_args(reg: Seq<GComponent>, comp: GComponent, args: Seq<GQArg>, depth: nat) -> (
    Card,
    Card,
)
    decreases args,
{
    if args.len() == 0 {
        one()
    } else {
        let a = est_args(reg, comp, args.drop_last(), depth);
        let e = est_qarg(reg, comp, args.last(), depth);
        (card_mul(a.0, e.0), card_max(a.1, e.1))
    }
}

pub open spec fn est_qarg(reg: Seq<GComponent>, comp: GComponent, a: GQArg, depth: nat) -> (
    Card,
    Card,
)
    decreases a,
{
    match a {
        GQArg::Named { name, value } => match find_param(comp.params, name) {
            Some(i) => if 0 <= i < comp.params.len() {
                match comp.params[i].kind {
                    GParamKind::Type { role, .. } => est_value_s(reg, value, role, depth),
                    GParamKind::Const { values, .. } => est_const_s(value, values.len()),
                    GParamKind::Project { .. } => one(),
                }
            } else {
                one()
            },
            None => est_value_s(reg, value, seq![], depth),
        },
        GQArg::Pos(value) => est_const_s(value, 0),
    }
}

pub open spec fn est_binding_s(reg: Seq<GComponent>, b: GBinding, depth: nat) -> (Card, Card) {
    match b.value {
        GValue::Const(_) => one(),
        _ => est_value_s(reg, b.value, b.role, depth),
    }
}

/// The running state over the bindings: the environment count carried into
/// the next binding, the peak so far, and the binding with the largest cost.
pub ghost struct EstState {
    pub prefix: Card,
    pub peak: Card,
    pub worst: Option<(Seq<char>, Card)>,
}

pub open spec fn est_bindings(reg: Seq<GComponent>, bs: Seq<GBinding>, depth: nat) -> EstState
    decreases bs.len(),
{
    if bs.len() == 0 {
        EstState { prefix: Card::Finite(1), peak: Card::Finite(1), worst: None }
    } else {
        let st = est_bindings(reg, bs.drop_last(), depth);
        let b = bs.last();
        let e = est_binding_s(reg, b, depth);
        let cost = card_mul(st.prefix, e.1);
        EstState {
            prefix: card_mul(st.prefix, e.0),
            peak: card_max(st.peak, cost),
            worst: match st.worst {
                Some(w) => if cost is Huge || card_value(cost) > card_value(w.1) {
                    Some((b.name, cost))
                } else {
                    st.worst
                },
                None => Some((b.name, cost)),
            },
        }
    }
}

fn cap_quant(pop: Card, q: Quant) -> (r: Card)
    ensures
        r == cap_quant_s(pop, q),
{
    match q {
        Quant::Exhaustive => pop,
        Quant::One { .. } => pop.cap(1),
        Quant::N { n, .. } => pop.cap(n as u128),
    }
}

fn est_const(v: &QValue, nvalues: usize) -> (r: Est)
    ensures
        (r.out, r.peak) == est_const_s(value_view(*v), nvalues as nat),
{
    match v {
        QValue::Hole(q) => {
            let pop = Card::Finite(if nvalues >= 1 { nvalues as u128 } else { 1 });
            Est { out: cap_quant(pop, *q), peak: pop }
        },
        _ => Est { out: Card::Finite(1), peak: Card::Finite(1) },
    }
}

fn est_value(v: &QValue, role: &str, reg: &Registry, depth: usize, memo: &mut Vec<(String, usize, Card)>) -> (r: Est)
    requires
        reg.wf(),
        memo_ok(reg@, old(memo)@),
    ensures
        memo_ok(reg@, final(memo)@),
        (r.out, r.peak) == est_value_s(reg@, value_view(*v), role@, depth as nat),
    decreases v,
{
    match v {
        QValue::Hole(q) => {
            let pop = card_role_go(reg, role, depth, memo);
            Est { out: cap_quant(pop, *q), peak: pop }
        },
        QValue::Ident(_) => Est { out: Card::Finite(1), peak: Card::Finite(1) },
        QValue::Const(_) => Est { out: Card::Finite(1), peak: Card::Finite(1) },
        QValue::Capture { inner, .. } => est_value(inner, role, reg, depth, memo),
        QValue::Where { quant, alts } => {
            let (sum, peak) = est_union_exec(alts, role, reg, depth, memo);
            Est { out: cap_quant(sum, *quant), peak: peak.max(sum) }
        },
        QValue::SetLit(ms) => {
            let (sum, peak) = est_union_exec(ms, role, reg, depth, memo);
            Est { out: sum, peak: peak.max(sum) }
        },
        QValue::Diff { base, subtrahends } => {
            let b = est_value(base, role, reg, depth, memo);
            let peak = est_peaks_exec(subtrahends, role, reg, depth, b.peak, memo);
            Est { out: b.out, peak }
        },
        QValue::App { name, args } => {
            proof {
                crate::registry::lemma_find_from(reg@, name@, 0);
            }
            match reg.get(name.as_str()) {
                None => Est { out: Card::Finite(1), peak: Card::Finite(1) },
                Some(comp) => {
                    let (prod, peak) = est_args_exec(args, comp, reg, depth, memo);
                    Est { out: prod, peak: peak.max(prod) }
                },
            }
        },
    }
}

fn est_peaks_exec(subtrahends: &Vec<QValue>, role: &str, reg: &Registry, depth: usize, init: Card, memo: &mut Vec<(String, usize, Card)>) -> (r: Card)
    requires
        reg.wf(),
        memo_ok(reg@, old(memo)@),
    ensures
        memo_ok(reg@, final(memo)@),
        r == est_peaks(reg@, values_view(subtrahends@), role@, depth as nat, init),
    decreases subtrahends,
{
    let mut peak = init;
    let mut i: usize = 0;
    proof {
        lemma_values_view_len(subtrahends@);
    }
    assert(values_view(subtrahends@).take(0) =~= seq![]);
    while i < subtrahends.len()
        invariant
            memo_ok(reg@, memo@),
            i <= subtrahends@.len(),
            reg.wf(),
            values_view(subtrahends@).len() == subtrahends@.len(),
            forall|k: int|
                0 <= k < subtrahends@.len() ==> #[trigger] values_view(subtrahends@)[k]
                    == value_view(subtrahends@[k]),
            peak == est_peaks(
                reg@,
                values_view(subtrahends@).take(i as int),
                role@,
                depth as nat,
                init,
            ),
        decreases subtrahends@.len() - i,
    {
        let ghost sv = values_view(subtrahends@);
        assert(sv.take(i + 1).drop_last() =~= sv.take(i as int));
        let e = est_value(&subtrahends[i], role, reg, depth, memo);
        peak = peak.max(e.peak);
        i = i + 1;
    }
    assert(values_view(subtrahends@).take(i as int) =~= values_view(subtrahends@));
    peak
}

fn est_args_exec(args: &Vec<QArg>, comp: &Component, reg: &Registry, depth: usize, memo: &mut Vec<(String, usize, Card)>) -> (r: (Card, Card))
    requires
        reg.wf(),
        memo_ok(reg@, old(memo)@),
    ensures
        memo_ok(reg@, final(memo)@),
        r == est_args(reg@, comp_view(*comp), qargs_view(args@), depth as nat),
    decreases args,
{
    let mut prod = Card::Finite(1);
    let mut peak = Card::Finite(1);
    let mut i: usize = 0;
    proof {
        lemma_qargs_view_len(args@);
    }
    assert(qargs_view(args@).take(0) =~= seq![]);
    while i < args.len()
        invariant
            memo_ok(reg@, memo@),
            i <= args@.len(),
            reg.wf(),
            qargs_view(args@).len() == args@.len(),
            forall|k: int| 0 <= k < args@.len() ==> #[trigger] qargs_view(args@)[k] == qarg_view(args@[k]),
            (prod, peak) == est_args(
                reg@,
                comp_view(*comp),
                qargs_view(args@).take(i as int),
                depth as nat,
            ),
        decreases args@.len() - i,
    {
        let ghost av = qargs_view(args@);
        assert(av.take(i + 1).drop_last() =~= av.take(i as int));
        let e = est_qarg_exec(&args[i], comp, reg, depth, memo);
        prod = prod.mul(e.out);
        peak = peak.max(e.peak);
        i = i + 1;
    }
    assert(qargs_view(args@).take(i as int) =~= qargs_view(args@));
    (prod, peak)
}

fn est_qarg_exec(a: &QArg, comp: &Component, reg: &Registry, depth: usize, memo: &mut Vec<(String, usize, Card)>) -> (r: Est)
    requires
        reg.wf(),
        memo_ok(reg@, old(memo)@),
    ensures
        memo_ok(reg@, final(memo)@),
        (r.out, r.peak) == est_qarg(reg@, comp_view(*comp), qarg_view(*a), depth as nat),
    decreases a,
{
    match a {
        QArg::Named { name, value } => {
            proof {
                crate::registry::lemma_find_param_in(params_view(comp.params@), name@);
            }
            match comp.param(name.as_str()) {
                Some(p) => {
                    let ghost i = find_param(params_view(comp.params@), name@)->0;
                    assert(comp_view(*comp).params[i] == param_view(*p));
                    assert(qarg_view(*a) == GQArg::Named { name: name@, value: value_view(*value) });
                    match &p.kind {
                        ParamKind::Type { role, .. } => est_value(value, role.as_str(), reg, depth, memo),
                        ParamKind::Const { values, .. } => {
                            assert(string_views(values@).len() == values@.len());
                            est_const(value, values.len())
                        },
                        ParamKind::Project { .. } => Est {
                            out: Card::Finite(1),
                            peak: Card::Finite(1),
                        },
                    }
                },
                None => {
                    proof {
                        reveal_strlit("");
                    }
                    assert(""@ =~= Seq::<char>::empty());
                    assert(qarg_view(*a) == GQArg::Named { name: name@, value: value_view(*value) });
                    est_value(value, "", reg, depth, memo)
                },
            }
        },
        QArg::Pos(value) => est_const(value, 0),
    }
}

fn est_union_exec(alts: &Vec<QValue>, role: &str, reg: &Registry, depth: usize, memo: &mut Vec<(String, usize, Card)>) -> (r: (Card, Card))
    requires
        reg.wf(),
        memo_ok(reg@, old(memo)@),
    ensures
        memo_ok(reg@, final(memo)@),
        r == est_union(reg@, values_view(alts@), role@, depth as nat),
    decreases alts,
{
    let mut sum = Card::Finite(0);
    let mut peak = Card::Finite(0);
    let mut i: usize = 0;
    proof {
        lemma_values_view_len(alts@);
    }
    assert(values_view(alts@).take(0) =~= seq![]);
    while i < alts.len()
        invariant
            memo_ok(reg@, memo@),
            i <= alts@.len(),
            reg.wf(),
            values_view(alts@).len() == alts@.len(),
            forall|k: int| 0 <= k < alts@.len() ==> #[trigger] values_view(alts@)[k] == value_view(alts@[k]),
            (sum, peak) == est_union(reg@, values_view(alts@).take(i as int), role@, depth as nat),
        decreases alts@.len() - i,
    {
        let ghost av = values_view(alts@);
        assert(av.take(i + 1).drop_last() =~= av.take(i as int));
        let e = est_value(&alts[i], role, reg, depth, memo);
        sum = sum.add(e.out);
        peak = peak.max(e.peak);
        i = i + 1;
    }
    assert(values_view(alts@).take(i as int) =~= values_view(alts@));
    (sum, peak)
}

// ───────────────────────────── whole queries ─────────────────────────────

/// The result of the size analysis over a whole [`Query`].
#[derive(Debug, Clone)]
pub struct SizeEstimate {
    /// Upper bound on the number of ground sorts the query yields (after `take`).
    pub ground: Card,
    /// Upper bound on the most work any single binding incurs: its population
    /// times the number of environments it is evaluated against.
    pub peak: Card,
    /// The binding contributing the largest peak, with that peak.
    pub worst_binding: Option<(String, Card)>,
    /// Catalog roles that reach themselves through type slots, sorted.
    pub recursive_roles: Vec<String>,
}

pub open spec fn ground_s(reg: Seq<GComponent>, q: GQuery) -> Card {
    let st = est_bindings(reg, q.bindings, q.depth as nat);
    match q.take {
        Some(t) => card_cap(st.prefix, t.n as u128),
        None => st.prefix,
    }
}

pub open spec fn worst_view(w: Option<(String, Card)>) -> Option<(Seq<char>, Card)> {
    match w {
        Some(p) => Some((p.0@, p.1)),
        None => None,
    }
}

// ───────────────────────────── ground within peak ─────────────────────────────

/// `a` is at most `b`, `Huge` above every finite count.
pub open spec fn card_le(a: Card, b: Card) -> bool {
    match (a, b) {
        (_, Card::Huge) => true,
        (Card::Finite(x), Card::Finite(y)) => x <= y,
        (Card::Huge, Card::Finite(_)) => false,
    }
}

proof fn lemma_est_peaks_from(reg: Seq<GComponent>, subs: Seq<GValue>, role: Seq<char>, depth: nat, init: Card)
    ensures
        card_le(init, est_peaks(reg, subs, role, depth, init)),
    decreases subs.len(),
{
    if subs.len() > 0 {
        lemma_est_peaks_from(reg, subs.drop_last(), role, depth, init);
    }
}

/// What a value passes on is at most what it builds.
proof fn lemma_value_out_within_peak(reg: Seq<GComponent>, v: GValue, role: Seq<char>, depth: nat)
    ensures
        card_le(est_value_s(reg, v, role, depth).0, est_value_s(reg, v, role, depth).1),
    decreases v,
{
    match v {
        GValue::Capture { inner, .. } => {
            lemma_value_out_within_peak(reg, *inner, role, depth);
        },
        GValue::Diff { base, subtrahends } => {
            lemma_value_out_within_peak(reg, *base, role, depth);
            let b = est_value_s(reg, *base, role, depth);
            lemma_est_peaks_from(reg, subtrahends, role, depth, b.1);
        },
        _ => {},
    }
}

proof fn lemma_mul_le(p: Card, a: Card, b: Card)
    requires
        card_le(a, b),
    ensures
        card_le(card_mul(p, a), card_mul(p, b)),
{
    match (p, a, b) {
        (Card::Finite(z), Card::Finite(x), Card::Finite(y)) => {
            assert(z * x <= z * y) by (nonlinear_arith)
                requires
                    x <= y,
            ;
        },
        _ => {},
    }
}

proof fn lemma_prefix_within_peak(reg: Seq<GComponent>, bs: Seq<GBinding>, depth: nat)
    ensures
        card_le(est_bindings(reg, bs, depth).prefix, est_bindings(reg, bs, depth).peak),
    decreases bs.len(),
{
    if bs.len() > 0 {
        lemma_prefix_within_peak(reg, bs.drop_last(), depth);
        let st = est_bindings(reg, bs.drop_last(), depth);
        let b = bs.last();
        let e = est_binding_s(reg, b, depth);
        match b.value {
            GValue::Const(_) => {},
            _ => lemma_value_out_within_peak(reg, b.value, b.role, depth),
        }
        lemma_mul_le(st.prefix, e.0, e.1);
    }
}

/// The estimated number of ground sorts never exceeds the estimated peak:
/// every binding's output is at most what it materializes.
pub proof fn ground_within_peak(reg: Seq<GComponent>, q: GQuery)
    ensures
        card_le(ground_s(reg, q), est_bindings(reg, q.bindings, q.depth as nat).peak),
{
    lemma_prefix_within_peak(reg, q.bindings, q.depth as nat);
}

/// Estimate a whole query's output and peak materialization, with the
/// catalog's recursive roles. Purely structural: nothing is enumerated.
pub fn estimate(query: &Query, reg: &Registry) -> (r: SizeEstimate)
    requires
        reg.wf(),
    ensures
        r.ground == ground_s(reg@, query_view(*query)),
        r.peak == est_bindings(reg@, query_view(*query).bindings, query.depth as nat).peak,
        worst_view(r.worst_binding) == est_bindings(
            reg@,
            query_view(*query).bindings,
            query.depth as nat,
        ).worst,
        is_sorted_roles(string_views(r.recursive_roles@)),
        forall|x: Seq<char>|
            string_views(r.recursive_roles@).contains(x) <==> is_recursive(reg@, x),
{
    let ghost bs = query_view(*query).bindings;
    let mut prefix = Card::Finite(1);
    let mut peak = Card::Finite(1);
    let mut worst: Option<(String, Card)> = None;
    // Counts of (role, depth) pairs, shared by every binding of the query.
    let mut memo: Vec<(String, usize, Card)> = Vec::new();
    let mut i: usize = 0;
    assert(bs.take(0) =~= seq![]);
    while i < query.bindings.len()
        invariant
            i <= query.bindings@.len(),
            reg.wf(),
            memo_ok(reg@, memo@),
            bs == query_view(*query).bindings,
            bs.len() == query.bindings@.len(),
            ({
                let st = est_bindings(reg@, bs.take(i as int), query.depth as nat);
                st.prefix == prefix && st.peak == peak && st.worst == worst_view(worst)
            }),
        decreases query.bindings@.len() - i,
    {
        let b = &query.bindings[i];
        assert(bs.take(i + 1).drop_last() =~= bs.take(i as int));
        assert(bs.take(i + 1).last() == binding_view(*b));
        let est = match &b.value {
            QValue::Const(_) => Est { out: Card::Finite(1), peak: Card::Finite(1) },
            _ => est_value(&b.value, b.role.as_str(), reg, query.depth, &mut memo),
        };
        let cost = prefix.mul(est.peak);
        peak = peak.max(cost);
        let replace = match &worst {
            Some((_, c)) => {
                let v = match *c {
                    Card::Finite(n) => n,
                    Card::Huge => u128::MAX,
                };
                cost.exceeds(v)
            },
            None => true,
        };
        if replace {
            worst = Some((copy_string(&b.name), cost));
        }
        prefix = prefix.mul(est.out);
        i = i + 1;
    }
    assert(bs.take(i as int) =~= bs);
    let ground = match query.take {
        Some(t) => prefix.cap(t.n as u128),
        None => prefix,
    };
    SizeEstimate { ground, peak, worst_binding: worst, recursive_roles: recursive_roles(reg) }
}

/// Run the analysis and refuse the query when its peak exceeds `budget`.
/// The roles, separated by commas.
pub open spec fn join_roles(rs: Seq<Seq<char>>) -> Seq<char>
    decreases rs.len(),
{
    if rs.len() == 0 {
        seq![]
    } else if rs.len() == 1 {
        rs[0]
    } else {
        join_roles(rs.drop_last()) + ", "@ + rs.last()
    }
}

/// The message a query over budget is refused with: its peak, the budget,
/// the binding that reaches the most, and the catalog's recursive roles.
pub open spec fn too_large_msg(
    peak: Card,
    budget: u128,
    worst: Option<(Seq<char>, Card)>,
    roles: Seq<Seq<char>>,
) -> Seq<char> {
    "query is too large to compile: estimated peak materialization of "@ + card_text(peak)
        + " trees exceeds the budget of "@ + crate::text::decimal(budget as nat) + match worst {
        Some((n, c)) => " (binding `"@ + n + "` alone reaches "@ + card_text(c) + ")"@,
        None => Seq::<char>::empty(),
    } + "."@ + if roles.len() == 0 {
        Seq::<char>::empty()
    } else {
        " The catalog has recursive role(s) ["@ + join_roles(roles)
            + "] whose size grows with `depth` — lower `depth`, sample with `?N`, or narrow with `where (…)` / `_ - {…}`."@
    }
}

pub fn check_size(query: &Query, reg: &Registry, budget: u128) -> (r: Result<SizeEstimate, String>)
    requires
        reg.wf(),
    ensures
        ({
            let pk = est_bindings(reg@, query_view(*query).bindings, query.depth as nat).peak;
            &&& r is Err <==> (pk is Huge || card_value(pk) > budget)
            &&& r matches Ok(e) ==> e.peak == pk && e.ground == ground_s(reg@, query_view(*query))
                && worst_view(e.worst_binding) == est_bindings(
                reg@,
                query_view(*query).bindings,
                query.depth as nat,
            ).worst
                && is_sorted_roles(string_views(e.recursive_roles@))
                && (forall|x: Seq<char>| string_views(e.recursive_roles@).contains(x) <==> is_recursive(reg@, x))
            &&& r matches Err(m) ==> exists|roles: Seq<Seq<char>>|
                is_sorted_roles(roles) && (forall|x: Seq<char>| roles.contains(x) <==> is_recursive(reg@, x))
                    && #[trigger] too_large_msg(
                    pk,
                    budget,
                    est_bindings(reg@, query_view(*query).bindings, query.depth as nat).worst,
                    roles,
                ) == m@
        }),
{
    let est = estimate(query, reg);
    if est.peak.exceeds(budget) {
        let ghost roles = string_views(est.recursive_roles@);
        let ghost wv = worst_view(est.worst_binding);
        let mut m = owned("query is too large to compile: estimated peak materialization of ");
        push_str(&mut m, est.peak.describe().as_str());
        push_str(&mut m, " trees exceeds the budget of ");
        push_decimal(&mut m, budget);
        let ghost head = m@;
        match &est.worst_binding {
            Some((name, c)) => {
                push_str(&mut m, " (binding `");
                push_str(&mut m, name.as_str());
                push_str(&mut m, "` alone reaches ");
                push_str(&mut m, c.describe().as_str());
                push_str(&mut m, ")");
                assert(m@ =~= head + (" (binding `"@ + name@ + "` alone reaches "@ + card_text(*c) + ")"@));
            },
            None => {
                assert(m@ =~= head + Seq::<char>::empty());
            },
        }
        push_str(&mut m, ".");
        let ghost mid = m@;
        if est.recursive_roles.len() > 0 {
            push_str(&mut m, " The catalog has recursive role(s) [");
            let ghost open_ = m@;
            let mut k: usize = 0;
            assert(roles.take(0) =~= seq![]);
            assert(m@ =~= open_ + join_roles(roles.take(0)));
            while k < est.recursive_roles.len()
                invariant
                    k <= est.recursive_roles@.len(),
                    roles == string_views(est.recursive_roles@),
                    m@ == open_ + join_roles(roles.take(k as int)),
                decreases est.recursive_roles@.len() - k,
            {
                assert(roles.take(k + 1).drop_last() =~= roles.take(k as int));
                assert(roles.take(k + 1).last() == est.recursive_roles@[k as int]@);
                if k > 0 {
                    push_str(&mut m, ", ");
                }
                push_str(&mut m, est.recursive_roles[k].as_str());
                assert(m@ =~= open_ + join_roles(roles.take(k + 1)));
                k = k + 1;
            }
            assert(roles.take(k as int) =~= roles);
            push_str(
                &mut m,
                "] whose size grows with `depth` — lower `depth`, sample with `?N`, or narrow with `where (…)` / `_ - {…}`.",
            );
        } else {
            assert(m@ =~= mid + Seq::<char>::empty());
        }
        assert(too_large_msg(est.peak, budget, wv, roles) =~= m@);
        return Err(m);
    }
    Ok(est)
}

// ───────────────────────────── recursive roles ─────────────────────────────

/// `a → b`: some component providing `a` has a type slot of role `b`.
pub open spec fn edge(reg: Seq<GComponent>, a: Seq<char>, b: Seq<char>) -> bool {
    exists|i: int|
        0 <= i < reg.len() && reg[i].provides.contains(a) && #[trigger] type_roles(
            reg[i].params,
        ).contains(b)
}

/// `b` is reachable from `a` by a path of one to `k` edges.
pub open spec fn reach_in(reg: Seq<GComponent>, a: Seq<char>, b: Seq<char>, k: nat) -> bool
    decreases k,
{
    k > 0 && (edge(reg, a, b) || exists|c: Seq<char>|
        reach_in(reg, a, c, (k - 1) as nat) && #[trigger] edge(reg, c, b))
}

pub open spec fn provided(reg: Seq<GComponent>, r: Seq<char>) -> bool {
    exists|i: int| 0 <= i < reg.len() && #[trigger] reg[i].provides.contains(r)
}

/// The number of (component, provided role) entries: no cycle through the
/// catalog's roles is longer.
pub open spec fn role_bound(reg: Seq<GComponent>) -> nat
    decreases reg.len(),
{
    if reg.len() == 0 {
        0
    } else {
        role_bound(reg.drop_last()) + reg.last().provides.len()
    }
}

/// A provided role that can reach itself through type slots.
pub open spec fn is_recursive(reg: Seq<GComponent>, r: Seq<char>) -> bool {
    provided(reg, r) && reach_in(reg, r, r, role_bound(reg))
}

pub open spec fn is_sorted_roles(s: Seq<Seq<char>>) -> bool {
    strictly_sorted(s)
}

/// Add to `out` every role `c` leads to, skipping ones already present.
fn add_succ(reg: &Registry, c: &String, out: &mut Vec<String>)
    ensures
        forall|x: Seq<char>|
            string_views(final(out)@).contains(x) <==> (string_views(old(out)@).contains(x) || edge(
                reg@,
                c@,
                x,
            )),
{
    let cc = chars_of(c.as_str());
    let mut i: usize = 0;
    let ghost o0 = string_views(out@);
    while i < reg.components.len()
        invariant
            i <= reg.components@.len(),
            cc@ == c@,
            forall|x: Seq<char>|
                string_views(out@).contains(x) <==> (o0.contains(x) || exists|j: int|
                    0 <= j < i && reg@[j].provides.contains(c@) && #[trigger] type_roles(
                        reg@[j].params,
                    ).contains(x)),
        decreases reg.components@.len() - i,
    {
        let comp = &reg.components[i];
        assert(reg@[i as int] == comp_view(*comp));
        let ghost before = string_views(out@);
        assert(forall|x: Seq<char>|
            before.contains(x) <==> (o0.contains(x) || exists|j: int|
                0 <= j < i && reg@[j].provides.contains(c@) && #[trigger] type_roles(
                    reg@[j].params,
                ).contains(x)));
        if crate::resolve::provides_exec(comp, cc.as_slice()) {
            let rs = type_roles_exec(comp);
            crate::resolve::union_into_exec(out, &rs);
            proof {
                crate::resolve::lemma_union_into_contains(before, string_views(rs@));
            }
        }
        proof {
            assert forall|x: Seq<char>|
                string_views(out@).contains(x) <==> (o0.contains(x) || exists|j: int|
                    0 <= j < i + 1 && reg@[j].provides.contains(c@) && #[trigger] type_roles(
                        reg@[j].params,
                    ).contains(x)) by {
                if exists|j: int|
                    0 <= j < i + 1 && reg@[j].provides.contains(c@) && #[trigger] type_roles(
                        reg@[j].params,
                    ).contains(x) {
                    let j = choose|j: int|
                        0 <= j < i + 1 && reg@[j].provides.contains(c@) && #[trigger] type_roles(
                            reg@[j].params,
                        ).contains(x);
                    if j < i {
                        assert(before.contains(x));
                    }
                }
                if string_views(out@).contains(x) && !before.contains(x) {
                    assert(type_roles(reg@[i as int].params).contains(x));
                }
            }
        }
        i = i + 1;
    }
}

/// Is `start` reachable from itself through type slots?
fn reaches_self(reg: &Registry, start: &String, bound: u128) -> (r: bool)
    ensures
        r == reach_in(reg@, start@, start@, bound as nat),
{
    let mut cur: Vec<String> = Vec::new();
    let mut k: u128 = 0;
    while k < bound
        invariant
            k <= bound,
            forall|x: Seq<char>| string_views(cur@).contains(x) <==> reach_in(reg@, start@, x, k as nat),
        decreases bound - k,
    {
        let mut next: Vec<String> = Vec::new();
        add_succ(reg, start, &mut next);
        let mut m: usize = 0;
        while m < cur.len()
            invariant
                m <= cur@.len(),
                forall|x: Seq<char>|
                    string_views(next@).contains(x) <==> (edge(reg@, start@, x) || exists|j: int|
                        0 <= j < m && #[trigger] edge(reg@, string_views(cur@)[j], x)),
            decreases cur@.len() - m,
        {
            add_succ(reg, &cur[m], &mut next);
            assert forall|x: Seq<char>|
                string_views(next@).contains(x) <==> (edge(reg@, start@, x) || exists|j: int|
                    0 <= j < m + 1 && #[trigger] edge(reg@, string_views(cur@)[j], x)) by {
                if edge(reg@, string_views(cur@)[m as int], x) {
                    assert(0 <= m < m + 1);
                }
            }
            m = m + 1;
        }
        proof {
            assert forall|x: Seq<char>|
                string_views(next@).contains(x) <==> reach_in(reg@, start@, x, (k + 1) as nat) by {
                if exists|j: int| 0 <= j < cur@.len() && #[trigger] edge(reg@, string_views(cur@)[j], x) {
                    let j = choose|j: int| 0 <= j < cur@.len() && #[trigger] edge(reg@, string_views(cur@)[j], x);
                    let c = string_views(cur@)[j];
                    assert(string_views(cur@).contains(c));
                    assert(reach_in(reg@, start@, c, k as nat));
                }
                if (exists|c: Seq<char>| reach_in(reg@, start@, c, k as nat) && #[trigger] edge(reg@, c, x)) {
                    let c = choose|c: Seq<char>| reach_in(reg@, start@, c, k as nat) && #[trigger] edge(reg@, c, x);
                    assert(string_views(cur@).contains(c));
                    let j = choose|j: int| 0 <= j < string_views(cur@).len() && string_views(cur@)[j] == c;
                    assert(edge(reg@, string_views(cur@)[j], x));
                }
            }
        }
        cur = next;
        k = k + 1;
    }
    crate::resolve::contains_string(&cur, start)
}

/// Every provided role that reaches itself through type slots, sorted.
pub fn recursive_roles(reg: &Registry) -> (r: Vec<String>)
    ensures
        is_sorted_roles(string_views(r@)),
        forall|x: Seq<char>| string_views(r@).contains(x) <==> is_recursive(reg@, x),
{
    // the distinct provided roles, and the path-length bound
    let mut roles: Vec<String> = Vec::new();
    let mut bound: u128 = 0;
    let mut i: usize = 0;
    while i < reg.components.len()
        invariant
            i <= reg.components@.len(),
            bound == role_bound(reg@.take(i as int)),
            bound <= i * 0xFFFF_FFFF_FFFF_FFFFu128,
            no_dups(string_views(roles@)),
            forall|x: Seq<char>|
                string_views(roles@).contains(x) <==> exists|j: int|
                    0 <= j < i && #[trigger] reg@[j].provides.contains(x),
        decreases reg.components@.len() - i,
    {
        let comp = &reg.components[i];
        assert(reg@[i as int] == comp_view(*comp));
        assert(reg@.take(i + 1).drop_last() =~= reg@.take(i as int));
        let ghost mid = string_views(roles@);
        crate::resolve::union_into_exec(&mut roles, &comp.provides);
        proof {
            crate::resolve::lemma_union_into_contains(mid, string_views(comp.provides@));
            lemma_union_into_no_dups(mid, string_views(comp.provides@));
            assert forall|x: Seq<char>|
                string_views(roles@).contains(x) <==> exists|j: int|
                    0 <= j < i + 1 && #[trigger] reg@[j].provides.contains(x) by {
                if exists|j: int| 0 <= j < i + 1 && #[trigger] reg@[j].provides.contains(x) {
                    let j = choose|j: int| 0 <= j < i + 1 && #[trigger] reg@[j].provides.contains(x);
                    if j < i {
                        assert(mid.contains(x));
                    }
                }
                if string_views(roles@).contains(x) && !mid.contains(x) {
                    assert(reg@[i as int].provides.contains(x));
                }
            }
        }
        let pl = comp.provides.len();
        assert(pl <= 0xFFFF_FFFF_FFFF_FFFFu128);
        assert((i + 1) * 0xFFFF_FFFF_FFFF_FFFFu128 == i * 0xFFFF_FFFF_FFFF_FFFFu128
            + 0xFFFF_FFFF_FFFF_FFFFu128) by (nonlinear_arith);
        assert(i * 0xFFFF_FFFF_FFFF_FFFFu128 <= 0xFFFF_FFFF_FFFF_FFFFu128 * 0xFFFF_FFFF_FFFF_FFFFu128)
            by (nonlinear_arith)
            requires
                i <= 0xFFFF_FFFF_FFFF_FFFFu128,
        ;
        bound = bound + pl as u128;
        i = i + 1;
    }
    assert(reg@.take(i as int) =~= reg@);
    let mut out: Vec<String> = Vec::new();
    let mut j: usize = 0;
    while j < roles.len()
        invariant
            j <= roles@.len(),
            bound == role_bound(reg@),
            no_dups(string_views(roles@)),
            forall|x: Seq<char>| string_views(roles@).contains(x) <==> provided(reg@, x),
            strictly_sorted(string_views(out@)),
            forall|x: Seq<char>|
                string_views(out@).contains(x) <==> exists|jj: int|
                    0 <= jj < j && #[trigger] string_views(roles@)[jj] == x && is_recursive(reg@, x),
        decreases roles@.len() - j,
    {
        let ghost rj = string_views(roles@)[j as int];
        assert(roles@[j as int]@ == rj);
        assert(string_views(roles@).contains(rj));
        if reaches_self(reg, &roles[j], bound) {
            proof {
                if string_views(out@).contains(rj) {
                    let jj = choose|jj: int| 0 <= jj < j && #[trigger] string_views(roles@)[jj] == rj && is_recursive(reg@, rj);
                    assert(string_views(roles@)[jj] == string_views(roles@)[j as int]);
                }
            }
            let x = copy_string(&roles[j]);
            insert_sorted_string(&mut out, x);
        }
        j = j + 1;
    }
    out
}

pub open spec fn no_dups(s: Seq<Seq<char>>) -> bool {
    forall|i: int, j: int| 0 <= i < j < s.len() ==> s[i] != s[j]
}

pub proof fn lemma_union_into_no_dups(acc: Seq<Seq<char>>, add: Seq<Seq<char>>)
    requires
        no_dups(acc),
    ensures
        no_dups(crate::resolve::union_into(acc, add)),
    decreases add.len(),
{
    if add.len() > 0 {
        if !acc.contains(add[0]) {
            lemma_no_dups_push(acc, add[0]);
        }
        lemma_union_into_no_dups(
            if acc.contains(add[0]) {
                acc
            } else {
                acc.push(add[0])
            },
            add.drop_first(),
        );
    }
}

proof fn lemma_no_dups_push(s: Seq<Seq<char>>, x: Seq<char>)
    requires
        no_dups(s),
        !s.contains(x),
    ensures
        no_dups(s.push(x)),
{
    assert forall|i: int, j: int| 0 <= i < j < s.push(x).len() implies s.push(x)[i] != s.push(x)[j] by {
        if j == s.len() {
            assert(s.contains(s[i]));
        }
    }
}

} // verus!
