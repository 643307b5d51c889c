//! The two surface forms of a sort specification and their trees:
//! the spec-tree form `Alias = quick_sort< partition = LL >` parsed to a
//! [`SpecNode`], and the typed constraint language (let-bindings, shared
//! variables, refinements, holes) parsed to a [`Query`].
use vstd::prelude::*;
use crate::text::{copy_string, digits_value, is_word_char, parse_u128, parse_unsigned, chars_of};
use crate::enumerate::{copy_args, copy_node};
use crate::lexer::{lex, tok_text, toks_in, tokenize, tok_string, tok_is, tok_chars, Tok, TokKind};

verus! {

// ───────────────────────────── the trees ─────────────────────────────

/// A ground spec tree: a component name and its arguments.
#[derive(Debug, PartialEq)]
pub struct SpecNode {
    pub name: String,
    pub args: Vec<Arg>,
}

#[derive(Debug, PartialEq)]
pub enum Arg {
    /// A nested type slot: `partition = LL_partition<…>`.
    Slot { name: String, value: SpecNode },
    /// A const bound by name: `ping_pong = true`.
    NamedConst { name: String, value: String },
    /// A positional const literal: the `32` in `insertion<32>`.
    Const(String),
}

/// Default automatic-expansion depth when a query omits `depth N;`.
pub const DEFAULT_DEPTH: usize = 4;

/// A whole query: optional recursion bound, optional `N of` whole-sort sampler,
/// and an ordered list of bindings. The last binding is the target.
#[derive(Debug, Clone, PartialEq)]
pub struct Query {
    pub depth: usize,
    pub take: Option<Take>,
    pub bindings: Vec<Binding>,
}

/// `N of [@seed]` — request N distinct whole sorts (sampled, seeded, deduped).
#[derive(Debug, Clone, Copy, PartialEq, Eq, Structural)]
pub struct Take {
    pub n: usize,
    pub seed: u64,
}

/// `let name: Role[refinements] = value;`
#[derive(Debug, Clone, PartialEq)]
pub struct Binding {
    pub name: String,
    pub role: String,
    pub refinements: Vec<Refinement>,
    pub value: QValue,
}

/// A refinement on a binding's role, e.g. `Partition[pivot = p]`.
#[derive(Debug, Clone, PartialEq)]
pub struct Refinement {
    pub param: String,
    pub value: QValue,
}

/// A value in the query language; its reading as a type or a const is left to
/// the solver, which knows the surrounding parameter's kind.
#[derive(Debug, PartialEq)]
pub enum QValue {
    /// `.` / `*` / `?` / `?N@seed` — a hole, with its quantifier.
    Hole(Quant),
    /// A reference to an earlier binding or a nullary component name.
    Ident(String),
    /// A component application: `quick_sort(partition = part, …)`.
    App { name: String, args: Vec<QArg> },
    /// A literal const token: `32`, `true`, `false`.
    Const(String),
    /// `<inner> as <name>` — bind each chosen value to the variable `name`.
    Capture { name: String, inner: Box<QValue> },
    /// `<hole> where ( A | B | C )` — the union of the alternatives.
    Where { quant: Quant, alts: Vec<QValue> },
    /// `<base> - <sub> - …` — set difference on canonical types.
    Diff { base: Box<QValue>, subtrahends: Vec<QValue> },
    /// `{ A, B, C }` — a set literal (a subtrahend).
    SetLit(Vec<QValue>),
}

/// One argument to a component application.
#[derive(Debug, PartialEq)]
pub enum QArg {
    /// `name = value`.
    Named { name: String, value: QValue },
    /// A positional value.
    Pos(QValue),
}

/// The hole quantifiers; every random form carries its seed.
#[derive(Debug, Clone, Copy, PartialEq, Eq, Structural)]
pub enum Quant {
    /// `.` or `*` — all valid fillers.
    Exhaustive,
    /// `?` — one random filler.
    One { seed: u64 },
    /// `?N@seed` — N distinct random fillers.
    N { n: usize, seed: u64 },
}

// ───────────────────────────── abstract views ─────────────────────────────

pub ghost enum GArg {
    Slot { name: Seq<char>, value: GNode },
    NamedConst { name: Seq<char>, value: Seq<char> },
    Const(Seq<char>),
}

pub ghost struct GNode {
    pub name: Seq<char>,
    pub args: Seq<GArg>,
}

pub ghost enum GValue {
    Hole(Quant),
    Ident(Seq<char>),
    App { name: Seq<char>, args: Seq<GQArg> },
    Const(Seq<char>),
    Capture { name: Seq<char>, inner: Box<GValue> },
    Where { quant: Quant, alts: Seq<GValue> },
    Diff { base: Box<GValue>, subtrahends: Seq<GValue> },
    SetLit(Seq<GValue>),
}

pub ghost enum GQArg {
    Named { name: Seq<char>, value: GValue },
    Pos(GValue),
}

pub ghost struct GRefinement {
    pub param: Seq<char>,
    pub value: GValue,
}

pub ghost struct GBinding {
    pub name: Seq<char>,
    pub role: Seq<char>,
    pub refinements: Seq<GRefinement>,
    pub value: GValue,
}

pub ghost struct GQuery {
    pub depth: usize,
    pub take: Option<Take>,
    pub bindings: Seq<GBinding>,
}

pub open spec fn node_view(n: SpecNode) -> GNode
    decreases n,
{
    GNode { name: n.name@, args: args_view(n.args@) }
}

pub open spec fn args_view(a: Seq<Arg>) -> Seq<GArg>
    decreases a,
{
    if a.len() == 0 {
        Seq::empty()
    } else {
        args_view(a.drop_last()).push(arg_view(a.last()))
    }
}

pub open spec fn arg_view(a: Arg) -> GArg
    decreases a,
{
    match a {
        Arg::Slot { name, value } => GArg::Slot { name: name@, value: node_view(value) },
        Arg::NamedConst { name, value } => GArg::NamedConst { name: name@, value: value@ },
        Arg::Const(v) => GArg::Const(v@),
    }
}

pub open spec fn value_view(v: QValue) -> GValue
    decreases v,
{
    match v {
        QValue::Hole(q) => GValue::Hole(q),
        QValue::Ident(s) => GValue::Ident(s@),
        QValue::App { name, args } => GValue::App { name: name@, args: qargs_view(args@) },
        QValue::Const(s) => GValue::Const(s@),
        QValue::Capture { name, inner } => GValue::Capture {
            name: name@,
            inner: Box::new(value_view(*inner)),
        },
        QValue::Where { quant, alts } => GValue::Where { quant, alts: values_view(alts@) },
        QValue::Diff { base, subtrahends } => GValue::Diff {
            base: Box::new(value_view(*base)),
            subtrahends: values_view(subtrahends@),
        },
        QValue::SetLit(m) => GValue::SetLit(values_view(m@)),
    }
}

pub open spec fn values_view(a: Seq<QValue>) -> Seq<GValue>
    decreases a,
{
    if a.len() == 0 {
        Seq::empty()
    } else {
        values_view(a.drop_last()).push(value_view(a.last()))
    }
}

pub open spec fn qarg_view(a: QArg) -> GQArg
    decreases a,
{
    match a {
        QArg::Named { name, value } => GQArg::Named { name: name@, value: value_view(value) },
        QArg::Pos(v) => GQArg::Pos(value_view(v)),
    }
}

pub open spec fn qargs_view(a: Seq<QArg>) -> Seq<GQArg>
    decreases a,
{
    if a.len() == 0 {
        Seq::empty()
    } else {
        qargs_view(a.drop_last()).push(qarg_view(a.last()))
    }
}

pub open spec fn refinement_view(r: Refinement) -> GRefinement {
    GRefinement { param: r.param@, value: value_view(r.value) }
}

pub open spec fn refinements_view(a: Seq<Refinement>) -> Seq<GRefinement> {
    a.map_values(|r: Refinement| refinement_view(r))
}

pub open spec fn binding_view(b: Binding) -> GBinding {
    GBinding {
        name: b.name@,
        role: b.role@,
        refinements: refinements_view(b.refinements@),
        value: value_view(b.value),
    }
}

pub open spec fn bindings_view(a: Seq<Binding>) -> Seq<GBinding> {
    a.map_values(|b: Binding| binding_view(b))
}

pub open spec fn query_view(q: Query) -> GQuery {
    GQuery { depth: q.depth, take: q.take, bindings: bindings_view(q.bindings@) }
}

impl Clone for SpecNode {
    fn clone(&self) -> (r: Self)
        ensures
            node_view(r) == node_view(*self),
    {
        copy_node(self)
    }
}

impl Clone for Arg {
    fn clone(&self) -> (r: Self)
        ensures
            arg_view(r) == arg_view(*self),
    {
        match self {
            Arg::Slot { name, value } => Arg::Slot { name: copy_string(name), value: copy_node(value) },
            Arg::NamedConst { name, value } => Arg::NamedConst {
                name: copy_string(name),
                value: copy_string(value),
            },
            Arg::Const(v) => Arg::Const(copy_string(v)),
        }
    }
}

impl Clone for QValue {
    fn clone(&self) -> (r: Self)
        ensures
            value_view(r) == value_view(*self),
    {
        copy_value(self)
    }
}

/// A query value copied node for node.
pub fn copy_value(v: &QValue) -> (r: QValue)
    ensures
        value_view(r) == value_view(*v),
    decreases v,
{
    match v {
        QValue::Hole(q) => QValue::Hole(*q),
        QValue::Ident(s) => QValue::Ident(copy_string(s)),
        QValue::App { name, args } => QValue::App { name: copy_string(name), args: copy_qargs(args) },
        QValue::Const(s) => QValue::Const(copy_string(s)),
        QValue::Capture { name, inner } => QValue::Capture {
            name: copy_string(name),
            inner: Box::new(copy_value(inner)),
        },
        QValue::Where { quant, alts } => QValue::Where { quant: *quant, alts: copy_values(alts) },
        QValue::Diff { base, subtrahends } => QValue::Diff {
            base: Box::new(copy_value(base)),
            subtrahends: copy_values(subtrahends),
        },
        QValue::SetLit(m) => QValue::SetLit(copy_values(m)),
    }
}

/// A list of query values copied entry for entry.
pub fn copy_values(a: &Vec<QValue>) -> (r: Vec<QValue>)
    ensures
        values_view(r@) == values_view(a@),
    decreases a,
{
    let mut out: Vec<QValue> = Vec::new();
    let mut i: usize = 0;
    assert(a@.take(0) =~= out@);
    while i < a.len()
        invariant
            i <= a@.len(),
            values_view(out@) == values_view(a@.take(i as int)),
        decreases a@.len() - i,
    {
        let x = copy_value(&a[i]);
        proof {
            lemma_values_view_push(out@, x);
            lemma_values_view_push(a@.take(i as int), a@[i as int]);
            assert(a@.take(i + 1) =~= a@.take(i as int).push(a@[i as int]));
        }
        out.push(x);
        i = i + 1;
    }
    assert(a@.take(i as int) =~= a@);
    out
}

/// A list of application arguments copied entry for entry.
pub fn copy_qargs(a: &Vec<QArg>) -> (r: Vec<QArg>)
    ensures
        qargs_view(r@) == qargs_view(a@),
    decreases a,
{
    let mut out: Vec<QArg> = Vec::new();
    let mut i: usize = 0;
    assert(a@.take(0) =~= out@);
    while i < a.len()
        invariant
            i <= a@.len(),
            qargs_view(out@) == qargs_view(a@.take(i as int)),
        decreases a@.len() - i,
    {
        let x = match &a[i] {
            QArg::Named { name, value } => QArg::Named { name: copy_string(name), value: copy_value(value) },
            QArg::Pos(v) => QArg::Pos(copy_value(v)),
        };
        proof {
            lemma_qargs_view_push(out@, x);
            lemma_qargs_view_push(a@.take(i as int), a@[i as int]);
            assert(a@.take(i + 1) =~= a@.take(i as int).push(a@[i as int]));
        }
        out.push(x);
        i = i + 1;
    }
    assert(a@.take(i as int) =~= a@);
    out
}

pub proof fn lemma_args_view_push(a: Seq<Arg>, x: Arg)
    ensures
        args_view(a.push(x)) == args_view(a).push(arg_view(x)),
{
    assert(a.push(x).drop_last() =~= a);
}

pub proof fn lemma_values_view_push(a: Seq<QValue>, x: QValue)
    ensures
        values_view(a.push(x)) == values_view(a).push(value_view(x)),
{
    assert(a.push(x).drop_last() =~= a);
}

pub proof fn lemma_qargs_view_push(a: Seq<QArg>, x: QArg)
    ensures
        qargs_view(a.push(x)) == qargs_view(a).push(qarg_view(x)),
{
    assert(a.push(x).drop_last() =~= a);
}

pub proof fn lemma_args_view_len(a: Seq<Arg>)
    ensures
        args_view(a).len() == a.len(),
        forall|i: int| 0 <= i < a.len() ==> #[trigger] args_view(a)[i] == arg_view(a[i]),
    decreases a.len(),
{
    if a.len() > 0 {
        lemma_args_view_len(a.drop_last());
    }
}

pub proof fn lemma_values_view_len(a: Seq<QValue>)
    ensures
        values_view(a).len() == a.len(),
        forall|i: int| 0 <= i < a.len() ==> #[trigger] values_view(a)[i] == value_view(a[i]),
    decreases a.len(),
{
    if a.len() > 0 {
        lemma_values_view_len(a.drop_last());
    }
}

pub proof fn lemma_qargs_view_len(a: Seq<QArg>)
    ensures
        qargs_view(a).len() == a.len(),
        forall|i: int| 0 <= i < a.len() ==> #[trigger] qargs_view(a)[i] == qarg_view(a[i]),
    decreases a.len(),
{
    if a.len() > 0 {
        lemma_qargs_view_len(a.drop_last());
    }
}

// ───────────────────────────── the spec-tree form ─────────────────────────────

pub open spec fn lit_true() -> Seq<char> {
    seq!['t', 'r', 'u', 'e']
}

pub open spec fn lit_false() -> Seq<char> {
    seq!['f', 'a', 'l', 's', 'e']
}

/// A const literal token (`32`, `true`, `false`) and its text.
pub open spec fn const_lit(s: Seq<char>, t: Tok) -> Option<Seq<char>> {
    if t.kind == TokKind::Num {
        Some(tok_text(s, t))
    } else if t.kind == TokKind::Ident && (tok_text(s, t) == lit_true() || tok_text(s, t)
        == lit_false()) {
        Some(tok_text(s, t))
    } else {
        None
    }
}

pub open spec fn kind_at(toks: Seq<Tok>, p: int, k: TokKind) -> bool {
    0 <= p < toks.len() && toks[p].kind == k
}

/// `name` or `name< args… >` starting at token `pos`: the node and the position
/// just past it.
pub open spec fn p_node(s: Seq<char>, toks: Seq<Tok>, pos: int) -> Option<(GNode, int)>
    decreases toks.len() - pos, 1int,
{
    if !kind_at(toks, pos, TokKind::Ident) {
        None
    } else {
        let name = tok_text(s, toks[pos]);
        if kind_at(toks, pos + 1, TokKind::Lt) {
            match p_args(s, toks, pos + 2, seq![]) {
                Some((args, e)) => Some((GNode { name, args }, e)),
                None => None,
            }
        } else {
            Some((GNode { name, args: seq![] }, pos + 1))
        }
    }
}

/// One argument inside `< … >` at `pos`: the argument and the position after it.
pub open spec fn p_arg(s: Seq<char>, toks: Seq<Tok>, pos: int) -> Option<(GArg, int)>
    decreases toks.len() - pos, 0int,
{
    if !(0 <= pos < toks.len()) {
        None
    } else if const_lit(s, toks[pos]) is Some {
        Some((GArg::Const(const_lit(s, toks[pos])->0), pos + 1))
    } else if toks[pos].kind == TokKind::Ident && kind_at(toks, pos + 1, TokKind::Eq) {
        let name = tok_text(s, toks[pos]);
        let p = pos + 2;
        if 0 <= p < toks.len() && const_lit(s, toks[p]) is Some {
            Some((GArg::NamedConst { name, value: const_lit(s, toks[p])->0 }, p + 1))
        } else if p >= toks.len() {
            None
        } else {
            match p_node(s, toks, p) {
                Some((n, e)) => Some((GArg::Slot { name, value: n }, e)),
                None => None,
            }
        }
    } else {
        None
    }
}

/// The arguments from `pos` up to the closing `>`, after `acc`: all of them and
/// the position just past the `>`.
pub open spec fn p_args(s: Seq<char>, toks: Seq<Tok>, pos: int, acc: Seq<GArg>) -> Option<
    (Seq<GArg>, int),
>
    decreases toks.len() - pos, 2int,
{
    if !(0 <= pos < toks.len()) {
        None
    } else if toks[pos].kind == TokKind::Gt {
        Some((acc, pos + 1))
    } else {
        match p_arg(s, toks, pos) {
            Some((a, p)) => {
                let p2 = if kind_at(toks, p, TokKind::Comma) {
                    p + 1
                } else {
                    p
                };
                if p2 <= pos || p2 > toks.len() {
                    None
                } else {
                    p_args(s, toks, p2, acc.push(a))
                }
            },
            None => None,
        }
    }
}

/// Does the spec text open with an `Alias =` prefix? (`Ident =` not followed by
/// a literal.)
pub open spec fn has_alias(s: Seq<char>, toks: Seq<Tok>) -> bool {
    kind_at(toks, 0, TokKind::Ident) && kind_at(toks, 1, TokKind::Eq) && !(toks.len() > 2
        && const_lit(s, toks[2]) is Some)
}

/// What `parse_spec` reads from `s`: the optional alias and the tree, or
/// `None` when the text is not a spec tree.
pub open spec fn spec_parse(s: Seq<char>) -> Option<(Option<Seq<char>>, GNode)> {
    match lex(s, 0, false) {
        None => None,
        Some(toks) => {
            let alias = has_alias(s, toks);
            let start = if alias {
                2int
            } else {
                0int
            };
            match p_node(s, toks, start) {
                Some((n, e)) => if e == toks.len() {
                    Some(
                        (
                            if alias {
                                Some(tok_text(s, toks[0]))
                            } else {
                                None
                            },
                            n,
                        ),
                    )
                } else {
                    None
                },
                None => None,
            }
        },
    }
}

fn const_literal(s: &[char], t: Tok) -> (r: Option<String>)
    requires
        t.start < t.end <= s@.len(),
    ensures
        r is Some <==> const_lit(s@, t) is Some,
        r is Some ==> r->0@ == const_lit(s@, t)->0,
{
    proof {
        reveal_strlit("true");
        reveal_strlit("false");
    }
    if t.kind == TokKind::Num {
        Some(tok_string(s, t))
    } else if t.kind == TokKind::Ident && (tok_is(s, t, "true") || tok_is(s, t, "false")) {
        assert("true"@ =~= lit_true());
        assert("false"@ =~= lit_false());
        Some(tok_string(s, t))
    } else {
        assert("true"@ =~= lit_true());
        assert("false"@ =~= lit_false());
        None
    }
}

fn is_kind(toks: &[Tok], p: usize, k: TokKind) -> (r: bool)
    ensures
        r == kind_at(toks@, p as int, k),
{
    p < toks.len() && toks[p].kind == k
}

fn err(m: &str) -> (r: String)
    ensures
        r@ == m@,
{
    crate::text::owned(m)
}

fn parse_node(s: &[char], toks: &[Tok], pos: &mut usize) -> (r: Result<SpecNode, String>)
    requires
        toks_in(toks@, s@),
        *old(pos) <= toks@.len(),
        toks@.len() < usize::MAX - 2,
    ensures
        match p_node(s@, toks@, *old(pos) as int) {
            Some((n, e)) => r is Ok && node_view(r->Ok_0) == n && *final(pos) == e,
            None => r is Err,
        },
        r is Ok ==> *old(pos) < *final(pos) <= toks@.len(),
    decreases toks@.len() - *old(pos), 1int,
{
    let ghost opos = *pos as int;
    assert(opos == *old(pos) as int);
    if !is_kind(toks, *pos, TokKind::Ident) {
        return Err(err("expected a component name"));
    }
    let name = tok_string(s, toks[*pos]);
    *pos = *pos + 1;
    let mut args: Vec<Arg> = Vec::new();
    if is_kind(toks, *pos, TokKind::Lt) {
        *pos = *pos + 1;
        let ghost start = *pos as int;
        assert(args_view(args@) =~= seq![]);
        loop
            invariant
                toks_in(toks@, s@),
                toks@.len() < usize::MAX - 2,
                start <= *pos <= toks@.len(),
                start == opos + 2,
                opos == *old(pos) as int,
                kind_at(toks@, opos, TokKind::Ident),
                kind_at(toks@, opos + 1, TokKind::Lt),
                name@ == tok_text(s@, toks@[opos]),
                p_args(s@, toks@, start, seq![]) == p_args(s@, toks@, *pos as int, args_view(args@)),
            ensures
                kind_at(toks@, *pos as int, TokKind::Gt),
            decreases toks@.len() - *pos,
        {
            let ghost acc = args_view(args@);
            let ghost p0 = *pos as int;
            if *pos >= toks.len() {
                assert(p_node(s@, toks@, opos) is None);
                return Err(err("unterminated `<`"));
            }
            if toks[*pos].kind == TokKind::Gt {
                break ;
            }
            let ghost a: Arg;
            match const_literal(s, toks[*pos]) {
                Some(v) => {
                    proof {
                        a = Arg::Const(v);
                        lemma_args_view_push(args@, a);
                    }
                    args.push(Arg::Const(v));
                    *pos = *pos + 1;
                },
                None => {
                    if toks[*pos].kind != TokKind::Ident {
                        assert(p_arg(s@, toks@, p0) is None);
                        assert(p_node(s@, toks@, opos) is None);
                        return Err(err("expected a slot binding or literal"));
                    }
                    let aname = tok_string(s, toks[*pos]);
                    *pos = *pos + 1;
                    if !is_kind(toks, *pos, TokKind::Eq) {
                        assert(p_arg(s@, toks@, p0) is None);
                        assert(p_node(s@, toks@, opos) is None);
                        let mut m = err("slot `");
                        crate::text::push_str(&mut m, aname.as_str());
                        crate::text::push_str(&mut m, "` must be written `");
                        crate::text::push_str(&mut m, aname.as_str());
                        crate::text::push_str(&mut m, " = <value>`");
                        return Err(m);
                    }
                    *pos = *pos + 1;
                    let lit = if *pos < toks.len() {
                        const_literal(s, toks[*pos])
                    } else {
                        None
                    };
                    match lit {
                        Some(value) => {
                            proof {
                                a = Arg::NamedConst { name: aname, value };
                                lemma_args_view_push(args@, a);
                            }
                            args.push(Arg::NamedConst { name: aname, value });
                            *pos = *pos + 1;
                        },
                        None => {
                            if *pos >= toks.len() {
                                assert(p_arg(s@, toks@, p0) is None);
                                assert(p_node(s@, toks@, opos) is None);
                                return Err(err("expected a component name"));
                            }
                            let value = match parse_node(s, toks, pos) {
                                Ok(v) => v,
                                Err(e) => {
                                    assert(p_arg(s@, toks@, p0) is None);
                                    assert(p_node(s@, toks@, opos) is None);
                                    return Err(e);
                                },
                            };
                            proof {
                                a = Arg::Slot { name: aname, value };
                                lemma_args_view_push(args@, a);
                            }
                            args.push(Arg::Slot { name: aname, value });
                        },
                    }
                },
            }
            assert(p_arg(s@, toks@, p0) == Some((arg_view(a), *pos as int)));
            if is_kind(toks, *pos, TokKind::Comma) {
                *pos = *pos + 1;
            }
            assert(args_view(args@) == acc.push(arg_view(a)));
            assert(p_args(s@, toks@, p0, acc) == p_args(s@, toks@, *pos as int, args_view(args@)));
        }
        *pos = *pos + 1;
    }
    Ok(SpecNode { name, args })
}

/// Parse `Alias = <tree>` or just `<tree>`: the optional alias and the root.
pub fn parse_spec(text: &str) -> (r: Result<(Option<String>, SpecNode), String>)
    requires
        text@.len() < usize::MAX - 2,
    ensures
        r is Ok <==> spec_parse(text@) is Some,
        r is Ok ==> ({
            let (a, n) = spec_parse(text@)->0;
            &&& node_view(r->Ok_0.1) == n
            &&& match r->Ok_0.0 {
                Some(x) => a == Some(x@),
                None => a is None,
            }
        }),
{
    let s = chars_of(text);
    let toks = match tokenize(s.as_slice(), false) {
        Some(t) => t,
        None => {
            return Err(err("unexpected character"));
        },
    };
    proof {
        crate::lexer::lemma_lex_len(s@, 0, false);
    }
    let mut pos: usize = 0;
    let alias_here = is_kind(toks.as_slice(), 0, TokKind::Ident) && is_kind(
        toks.as_slice(),
        1,
        TokKind::Eq,
    ) && !(toks.len() > 2 && const_literal(s.as_slice(), toks[2]).is_some());
    let alias = if alias_here {
        pos = 2;
        Some(tok_string(s.as_slice(), toks[0]))
    } else {
        None
    };
    let node = match parse_node(s.as_slice(), toks.as_slice(), &mut pos) {
        Ok(n) => n,
        Err(e) => {
            return Err(e);
        },
    };
    if pos != toks.len() {
        return Err(err("trailing tokens after spec"));
    }
    Ok((alias, node))
}

// ───────────────────────────── the query language ─────────────────────────────

pub open spec fn word_let() -> Seq<char> {
    seq!['l', 'e', 't']
}

pub open spec fn word_depth() -> Seq<char> {
    seq!['d', 'e', 'p', 't', 'h']
}

pub open spec fn word_of() -> Seq<char> {
    seq!['o', 'f']
}

pub open spec fn ident_is(s: Seq<char>, toks: Seq<Tok>, p: int, w: Seq<char>) -> bool {
    kind_at(toks, p, TokKind::Ident) && tok_text(s, toks[p]) == w
}

/// A number token at `p` read as a `u64`.
pub open spec fn q_num(s: Seq<char>, toks: Seq<Tok>, p: int) -> Option<(u64, int)> {
    if kind_at(toks, p, TokKind::Num) && parse_unsigned(tok_text(s, toks[p]), u64::MAX as nat)
        is Some {
        Some((parse_unsigned(tok_text(s, toks[p]), u64::MAX as nat)->0 as u64, p + 1))
    } else {
        None
    }
}

/// `.` | `*` | `?` | `?N` | `?@seed` | `?N@seed` at `p`.
pub open spec fn q_quant(s: Seq<char>, toks: Seq<Tok>, p: int) -> Option<(Quant, int)> {
    if kind_at(toks, p, TokKind::Dot) || kind_at(toks, p, TokKind::Star) {
        Some((Quant::Exhaustive, p + 1))
    } else if kind_at(toks, p, TokKind::Question) {
        let p1 = p + 1;
        let n: Option<Option<(u64, int)>> = if kind_at(toks, p1, TokKind::Num) {
            match q_num(s, toks, p1) {
                Some(x) => Some(Some(x)),
                None => None,
            }
        } else {
            Some(None)
        };
        match n {
            None => None,
            Some(n) => {
                let p2 = match n {
                    Some((_, e)) => e,
                    None => p1,
                };
                let seed: Option<(u64, int)> = if kind_at(toks, p2, TokKind::At) {
                    q_num(s, toks, p2 + 1)
                } else {
                    Some((0u64, p2))
                };
                match seed {
                    None => None,
                    Some((sd, p3)) => match n {
                        Some((v, _)) => Some((Quant::N { n: v as usize, seed: sd }, p3)),
                        None => Some((Quant::One { seed: sd }, p3)),
                    },
                }
            },
        }
    } else {
        None
    }
}

/// A query value at `p`.
pub open spec fn q_value(s: Seq<char>, toks: Seq<Tok>, p: int) -> Option<(GValue, int)>
    decreases toks.len() - p, 0int,
{
    if !(0 <= p < toks.len()) {
        None
    } else if kind_at(toks, p, TokKind::Dot) || kind_at(toks, p, TokKind::Star) || kind_at(
        toks,
        p,
        TokKind::Question,
    ) {
        match q_quant(s, toks, p) {
            Some((q, e)) => Some((GValue::Hole(q), e)),
            None => None,
        }
    } else if toks[p].kind == TokKind::Num {
        Some((GValue::Const(tok_text(s, toks[p])), p + 1))
    } else if toks[p].kind == TokKind::Ident && (tok_text(s, toks[p]) == lit_true() || tok_text(
        s,
        toks[p],
    ) == lit_false()) {
        Some((GValue::Const(tok_text(s, toks[p])), p + 1))
    } else if toks[p].kind == TokKind::Ident {
        let name = tok_text(s, toks[p]);
        if kind_at(toks, p + 1, TokKind::LParen) {
            match q_app_args(s, toks, p + 2, seq![]) {
                Some((args, e)) => Some((GValue::App { name, args }, e)),
                None => None,
            }
        } else {
            Some((GValue::Ident(name), p + 1))
        }
    } else {
        None
    }
}

/// One application argument at `p`: `name = value` or a positional value.
pub open spec fn q_app_arg(s: Seq<char>, toks: Seq<Tok>, p: int) -> Option<(GQArg, int)>
    decreases toks.len() - p, 1int,
{
    if !(0 <= p < toks.len()) {
        None
    } else if kind_at(toks, p, TokKind::Ident) && kind_at(toks, p + 1, TokKind::Eq) {
        match q_value(s, toks, p + 2) {
            Some((v, e)) => Some((GQArg::Named { name: tok_text(s, toks[p]), value: v }, e)),
            None => None,
        }
    } else {
        match q_value(s, toks, p) {
            Some((v, e)) => Some((GQArg::Pos(v), e)),
            None => None,
        }
    }
}

/// The arguments from `p` up to the closing `)`, after `acc`.
pub open spec fn q_app_args(s: Seq<char>, toks: Seq<Tok>, p: int, acc: Seq<GQArg>) -> Option<
    (Seq<GQArg>, int),
>
    decreases toks.len() - p, 2int,
{
    if !(0 <= p < toks.len()) {
        None
    } else if toks[p].kind == TokKind::RParen {
        Some((acc, p + 1))
    } else {
        match q_app_arg(s, toks, p) {
            Some((a, e)) => {
                let e2 = if kind_at(toks, e, TokKind::Comma) {
                    e + 1
                } else {
                    e
                };
                if e2 <= p || e2 > toks.len() {
                    None
                } else {
                    q_app_args(s, toks, e2, acc.push(a))
                }
            },
            None => None,
        }
    }
}

/// The refinements from `p` up to the closing `]`, after `acc`.
pub open spec fn q_refs(s: Seq<char>, toks: Seq<Tok>, p: int, acc: Seq<GRefinement>) -> Option<
    (Seq<GRefinement>, int),
>
    decreases toks.len() - p,
{
    if !(0 <= p < toks.len()) {
        None
    } else if toks[p].kind == TokKind::RBracket {
        Some((acc, p + 1))
    } else if !kind_at(toks, p, TokKind::Ident) || !kind_at(toks, p + 1, TokKind::Eq) {
        None
    } else {
        match q_value(s, toks, p + 2) {
            Some((v, e)) => {
                let r = GRefinement { param: tok_text(s, toks[p]), value: v };
                let e2 = if kind_at(toks, e, TokKind::Comma) {
                    e + 1
                } else {
                    e
                };
                if e2 <= p || e2 > toks.len() {
                    None
                } else {
                    q_refs(s, toks, e2, acc.push(r))
                }
            },
            None => None,
        }
    }
}

/// `[let] name: Role[refinements] = value;` at `p`.
pub open spec fn q_binding(s: Seq<char>, toks: Seq<Tok>, p: int) -> Option<(GBinding, int)> {
    let p1 = if ident_is(s, toks, p, word_let()) {
        p + 1
    } else {
        p
    };
    if !kind_at(toks, p1, TokKind::Ident) || !kind_at(toks, p1 + 1, TokKind::Colon) || !kind_at(
        toks,
        p1 + 2,
        TokKind::Ident,
    ) {
        None
    } else {
        let p3 = p1 + 3;
        let refs: Option<(Seq<GRefinement>, int)> = if kind_at(toks, p3, TokKind::LBracket) {
            q_refs(s, toks, p3 + 1, seq![])
        } else {
            Some((seq![], p3))
        };
        match refs {
            None => None,
            Some((rs, p4)) => if !kind_at(toks, p4, TokKind::Eq) {
                None
            } else {
                match q_value(s, toks, p4 + 1) {
                    Some((v, p5)) => if kind_at(toks, p5, TokKind::Semi) {
                        Some(
                            (
                                GBinding {
                                    name: tok_text(s, toks[p1]),
                                    role: tok_text(s, toks[p1 + 2]),
                                    refinements: rs,
                                    value: v,
                                },
                                p5 + 1,
                            ),
                        )
                    } else {
                        None
                    },
                    None => None,
                }
            },
        }
    }
}

/// The bindings from `p` to the end of the tokens, after `acc`.
pub open spec fn q_bindings(s: Seq<char>, toks: Seq<Tok>, p: int, acc: Seq<GBinding>) -> Option<
    Seq<GBinding>,
>
    decreases toks.len() - p,
{
    if !(0 <= p < toks.len()) {
        Some(acc)
    } else {
        match q_binding(s, toks, p) {
            Some((b, e)) => if e <= p || e > toks.len() {
                None
            } else {
                q_bindings(s, toks, e, acc.push(b))
            },
            None => None,
        }
    }
}

/// The optional `depth N;` directive: the depth and where the rest starts.
pub open spec fn q_depth(s: Seq<char>, toks: Seq<Tok>) -> Option<(usize, int)> {
    if ident_is(s, toks, 0, word_depth()) {
        match q_num(s, toks, 1) {
            Some((d, e)) => if kind_at(toks, e, TokKind::Semi) {
                Some((d as usize, e + 1))
            } else {
                None
            },
            None => None,
        }
    } else {
        Some((DEFAULT_DEPTH, 0))
    }
}

/// The optional `N of [@seed]` directive at `p`.
pub open spec fn q_take(s: Seq<char>, toks: Seq<Tok>, p: int) -> Option<(Option<Take>, int)> {
    if kind_at(toks, p, TokKind::Num) && ident_is(s, toks, p + 1, word_of()) {
        match q_num(s, toks, p) {
            None => None,
            Some((n, _)) => {
                let seed: Option<(u64, int)> = if kind_at(toks, p + 2, TokKind::At) {
                    q_num(s, toks, p + 3)
                } else {
                    Some((0u64, p + 2))
                };
                match seed {
                    Some((sd, e)) => Some((Some(Take { n: n as usize, seed: sd }), e)),
                    None => None,
                }
            },
        }
    } else {
        Some((None, p))
    }
}

/// What `parse_query` reads from `s`, or `None` when it is not a query.
/// The text reads as directives with no binding after them.
pub open spec fn empty_query(s: Seq<char>) -> bool {
    match lex(s, 0, true) {
        None => false,
        Some(toks) => match q_depth(s, toks) {
            None => false,
            Some((depth, p)) => match q_take(s, toks, p) {
                None => false,
                Some((take, p2)) => q_bindings(s, toks, p2, seq![]) == Some(Seq::<GBinding>::empty()),
            },
        },
    }
}

pub open spec fn spec_query(s: Seq<char>) -> Option<GQuery> {
    match lex(s, 0, true) {
        None => None,
        Some(toks) => match q_depth(s, toks) {
            None => None,
            Some((depth, p)) => match q_take(s, toks, p) {
                None => None,
                Some((take, p2)) => match q_bindings(s, toks, p2, seq![]) {
                    Some(bs) => if bs.len() == 0 {
                        None
                    } else {
                        Some(GQuery { depth, take, bindings: bs })
                    },
                    None => None,
                },
            },
        },
    }
}

fn read_num(s: &[char], toks: &[Tok], pos: &mut usize) -> (r: Result<u64, String>)
    requires
        toks_in(toks@, s@),
        *old(pos) <= toks@.len(),
    ensures
        match q_num(s@, toks@, *old(pos) as int) {
            Some((v, e)) => r == Ok::<u64, String>(v) && *final(pos) == e,
            None => r is Err,
        },
{
    if !is_kind(toks, *pos, TokKind::Num) {
        return Err(err("expected a number"));
    }
    let t = tok_chars(s, toks[*pos]);
    match parse_u128(t.as_slice()) {
        Some(v) => {
            if v > u64::MAX as u128 {
                return Err(err("bad number"));
            }
            *pos = *pos + 1;
            Ok(v as u64)
        },
        None => Err(err("bad number")),
    }
}

fn read_quant(s: &[char], toks: &[Tok], pos: &mut usize) -> (r: Result<Quant, String>)
    requires
        toks_in(toks@, s@),
        *old(pos) <= toks@.len(),
        toks@.len() < usize::MAX - 4,
    ensures
        match q_quant(s@, toks@, *old(pos) as int) {
            Some((q, e)) => r == Ok::<Quant, String>(q) && *final(pos) == e,
            None => r is Err,
        },
        r is Ok ==> *old(pos) < *final(pos) <= toks@.len(),
{
    if is_kind(toks, *pos, TokKind::Dot) || is_kind(toks, *pos, TokKind::Star) {
        *pos = *pos + 1;
        return Ok(Quant::Exhaustive);
    }
    if !is_kind(toks, *pos, TokKind::Question) {
        return Err(err("expected a hole quantifier"));
    }
    *pos = *pos + 1;
    let n = if is_kind(toks, *pos, TokKind::Num) {
        match read_num(s, toks, pos) {
            Ok(v) => Some(v),
            Err(e) => {
                return Err(e);
            },
        }
    } else {
        None
    };
    let seed = if is_kind(toks, *pos, TokKind::At) {
        *pos = *pos + 1;
        match read_num(s, toks, pos) {
            Ok(v) => v,
            Err(e) => {
                return Err(e);
            },
        }
    } else {
        0
    };
    match n {
        Some(n) => Ok(Quant::N { n: n as usize, seed }),
        None => Ok(Quant::One { seed }),
    }
}

fn is_literal_word(s: &[char], t: Tok) -> (r: bool)
    requires
        t.start < t.end <= s@.len(),
    ensures
        r == (tok_text(s@, t) == lit_true() || tok_text(s@, t) == lit_false()),
{
    proof {
        reveal_strlit("true");
        reveal_strlit("false");
    }
    assert("true"@ =~= lit_true());
    assert("false"@ =~= lit_false());
    tok_is(s, t, "true") || tok_is(s, t, "false")
}

fn read_value(s: &[char], toks: &[Tok], pos: &mut usize) -> (r: Result<QValue, String>)
    requires
        toks_in(toks@, s@),
        *old(pos) <= toks@.len(),
        toks@.len() < usize::MAX - 4,
    ensures
        match q_value(s@, toks@, *old(pos) as int) {
            Some((v, e)) => r is Ok && value_view(r->Ok_0) == v && *final(pos) == e,
            None => r is Err,
        },
        r is Ok ==> *old(pos) < *final(pos) <= toks@.len(),
    decreases toks@.len() - *old(pos), 0int,
{
    if *pos >= toks.len() {
        return Err(err("expected a value"));
    }
    let k = toks[*pos].kind;
    if k == TokKind::Dot || k == TokKind::Star || k == TokKind::Question {
        return match read_quant(s, toks, pos) {
            Ok(q) => Ok(QValue::Hole(q)),
            Err(e) => Err(e),
        };
    }
    if k == TokKind::Num || (k == TokKind::Ident && is_literal_word(s, toks[*pos])) {
        let v = tok_string(s, toks[*pos]);
        *pos = *pos + 1;
        return Ok(QValue::Const(v));
    }
    if k != TokKind::Ident {
        return Err(err("expected a value"));
    }
    let ghost p0 = *pos as int;
    let name = tok_string(s, toks[*pos]);
    *pos = *pos + 1;
    if !is_kind(toks, *pos, TokKind::LParen) {
        return Ok(QValue::Ident(name));
    }
    *pos = *pos + 1;
    let ghost start = *pos as int;
    let mut args: Vec<QArg> = Vec::new();
    assert(qargs_view(args@) =~= seq![]);
    loop
        invariant
            toks_in(toks@, s@),
            toks@.len() < usize::MAX - 4,
            start <= *pos <= toks@.len(),
            start == p0 + 2,
            p0 == *old(pos) as int,
            kind_at(toks@, p0, TokKind::Ident),
            !(tok_text(s@, toks@[p0]) == lit_true() || tok_text(s@, toks@[p0]) == lit_false()),
            kind_at(toks@, p0 + 1, TokKind::LParen),
            name@ == tok_text(s@, toks@[p0]),
            q_app_args(s@, toks@, start, seq![]) == q_app_args(
                s@,
                toks@,
                *pos as int,
                qargs_view(args@),
            ),
        ensures
            kind_at(toks@, *pos as int, TokKind::RParen),
        decreases toks@.len() - *pos,
    {
        let ghost acc = qargs_view(args@);
        let ghost a0 = *pos as int;
        if *pos >= toks.len() {
            assert(q_value(s@, toks@, p0) is None);
            return Err(err("unterminated `(`"));
        }
        if toks[*pos].kind == TokKind::RParen {
            break ;
        }
        let ghost a: QArg;
        if is_kind(toks, *pos, TokKind::Ident) && is_kind(toks, *pos + 1, TokKind::Eq) {
            let pname = tok_string(s, toks[*pos]);
            *pos = *pos + 2;
            let v = match read_value(s, toks, pos) {
                Ok(v) => v,
                Err(e) => {
                    assert(q_app_arg(s@, toks@, a0) is None);
                    assert(q_value(s@, toks@, p0) is None);
                    return Err(e);
                },
            };
            proof {
                a = QArg::Named { name: pname, value: v };
                lemma_qargs_view_push(args@, a);
            }
            args.push(QArg::Named { name: pname, value: v });
        } else {
            let v = match read_value(s, toks, pos) {
                Ok(v) => v,
                Err(e) => {
                    assert(q_app_arg(s@, toks@, a0) is None);
                    assert(q_value(s@, toks@, p0) is None);
                    return Err(e);
                },
            };
            proof {
                a = QArg::Pos(v);
                lemma_qargs_view_push(args@, a);
            }
            args.push(QArg::Pos(v));
        }
        assert(q_app_arg(s@, toks@, a0) == Some((qarg_view(a), *pos as int)));
        if is_kind(toks, *pos, TokKind::Comma) {
            *pos = *pos + 1;
        }
        assert(qargs_view(args@) == acc.push(qarg_view(a)));
        assert(q_app_args(s@, toks@, a0, acc) == q_app_args(
            s@,
            toks@,
            *pos as int,
            qargs_view(args@),
        ));
    }
    *pos = *pos + 1;
    Ok(QValue::App { name, args })
}

fn expect(toks: &[Tok], pos: &mut usize, k: TokKind) -> (r: Result<(), String>)
    requires
        toks@.len() < usize::MAX,
    ensures
        kind_at(toks@, *old(pos) as int, k) ==> r is Ok && *final(pos) == *old(pos) + 1,
        !kind_at(toks@, *old(pos) as int, k) ==> r is Err,
{
    if is_kind(toks, *pos, k) {
        *pos = *pos + 1;
        Ok(())
    } else {
        Err(err("unexpected token"))
    }
}

fn read_binding(s: &[char], toks: &[Tok], pos: &mut usize) -> (r: Result<Binding, String>)
    requires
        toks_in(toks@, s@),
        *old(pos) < toks@.len(),
        toks@.len() < usize::MAX - 4,
    ensures
        match q_binding(s@, toks@, *old(pos) as int) {
            Some((b, e)) => r is Ok && binding_view(r->Ok_0) == b && *final(pos) == e,
            None => r is Err,
        },
        r is Ok ==> *old(pos) < *final(pos) <= toks@.len(),
{
    proof {
        reveal_strlit("let");
    }
    let ghost p0 = *pos as int;
    if is_kind(toks, *pos, TokKind::Ident) && tok_is(s, toks[*pos], "let") {
        *pos = *pos + 1;
    }
    assert("let"@ =~= word_let());
    let ghost p1 = *pos as int;
    if !is_kind(toks, *pos, TokKind::Ident) {
        return Err(err("expected an identifier"));
    }
    let name = tok_string(s, toks[*pos]);
    *pos = *pos + 1;
    match expect(toks, pos, TokKind::Colon) {
        Ok(()) => {},
        Err(e) => {
            return Err(e);
        },
    }
    if !is_kind(toks, *pos, TokKind::Ident) {
        return Err(err("expected an identifier"));
    }
    let role = tok_string(s, toks[*pos]);
    *pos = *pos + 1;
    let mut refinements: Vec<Refinement> = Vec::new();
    assert(refinements_view(refinements@) =~= seq![]);
    let ghost p3 = *pos as int;
    if is_kind(toks, *pos, TokKind::LBracket) {
        *pos = *pos + 1;
        let ghost start = *pos as int;
        assert(refinements_view(refinements@) =~= seq![]);
        loop
            invariant
                toks_in(toks@, s@),
                toks@.len() < usize::MAX - 4,
                start <= *pos <= toks@.len(),
                start == p1 + 4,
                kind_at(toks@, p1 + 3, TokKind::LBracket),
                p0 == *old(pos) as int,
                p1 == (if ident_is(s@, toks@, p0, word_let()) {
                    p0 + 1
                } else {
                    p0
                }),
                kind_at(toks@, p1, TokKind::Ident),
                kind_at(toks@, p1 + 1, TokKind::Colon),
                kind_at(toks@, p1 + 2, TokKind::Ident),
                name@ == tok_text(s@, toks@[p1]),
                role@ == tok_text(s@, toks@[p1 + 2]),
                q_refs(s@, toks@, start, seq![]) == q_refs(
                    s@,
                    toks@,
                    *pos as int,
                    refinements_view(refinements@),
                ),
            ensures
                kind_at(toks@, *pos as int, TokKind::RBracket),
                q_refs(s@, toks@, start, seq![]) == Some(
                    (refinements_view(refinements@), *pos + 1),
                ),
            decreases toks@.len() - *pos,
        {
            let ghost acc = refinements_view(refinements@);
            let ghost a0 = *pos as int;
            if *pos >= toks.len() {
                return Err(err("unterminated `[`"));
            }
            if toks[*pos].kind == TokKind::RBracket {
                break ;
            }
            if !is_kind(toks, *pos, TokKind::Ident) || !is_kind(toks, *pos + 1, TokKind::Eq) {
                return Err(err("expected `param = value`"));
            }
            let param = tok_string(s, toks[*pos]);
            *pos = *pos + 2;
            let value = match read_value(s, toks, pos) {
                Ok(v) => v,
                Err(e) => {
                    return Err(e);
                },
            };
            let ghost r = Refinement { param, value };
            refinements.push(Refinement { param, value });
            assert(refinements_view(refinements@) =~= acc.push(refinement_view(r)));
            if is_kind(toks, *pos, TokKind::Comma) {
                *pos = *pos + 1;
            }
            assert(q_refs(s@, toks@, a0, acc) == q_refs(
                s@,
                toks@,
                *pos as int,
                refinements_view(refinements@),
            ));
        }
        *pos = *pos + 1;
    }
    assert((if kind_at(toks@, p3, TokKind::LBracket) {
        q_refs(s@, toks@, p3 + 1, seq![])
    } else {
        Some((seq![], p3))
    }) == Some((refinements_view(refinements@), *pos as int)));
    match expect(toks, pos, TokKind::Eq) {
        Ok(()) => {},
        Err(e) => {
            return Err(e);
        },
    }
    let value = match read_value(s, toks, pos) {
        Ok(v) => v,
        Err(e) => {
            return Err(e);
        },
    };
    match expect(toks, pos, TokKind::Semi) {
        Ok(()) => {},
        Err(e) => {
            return Err(e);
        },
    }
    Ok(Binding { name, role, refinements, value })
}

/// The bindings from token `start` to the end, in order.
fn read_bindings(s: &[char], toks: &[Tok], start: usize) -> (r: Result<Vec<Binding>, String>)
    requires
        toks_in(toks@, s@),
        toks@.len() < usize::MAX - 4,
        start <= toks@.len(),
    ensures
        match q_bindings(s@, toks@, start as int, seq![]) {
            Some(bs) => r is Ok && bindings_view(r->Ok_0@) == bs,
            None => r is Err,
        },
{
    let mut pos = start;
    let mut bindings: Vec<Binding> = Vec::new();
    assert(bindings_view(bindings@) =~= seq![]);
    while pos < toks.len()
        invariant
            toks_in(toks@, s@),
            toks@.len() < usize::MAX - 4,
            start <= pos <= toks@.len(),
            q_bindings(s@, toks@, start as int, seq![]) == q_bindings(
                s@,
                toks@,
                pos as int,
                bindings_view(bindings@),
            ),
        decreases toks@.len() - pos,
    {
        let ghost acc = bindings_view(bindings@);
        let b = match read_binding(s, toks, &mut pos) {
            Ok(b) => b,
            Err(e) => {
                return Err(e);
            },
        };
        let ghost bg = b;
        bindings.push(b);
        assert(bindings_view(bindings@) =~= acc.push(binding_view(bg)));
    }
    Ok(bindings)
}

/// Parse a whole query: `[depth N;] [N of [@seed]] <binding>; … <target>;`.
#[verifier::rlimit(80)]
#[verifier::spinoff_prover]
pub fn parse_query(text: &str) -> (r: Result<Query, String>)
    requires
        text@.len() < usize::MAX - 4,
    ensures
        r is Ok <==> spec_query(text@) is Some,
        r is Ok ==> query_view(r->Ok_0) == spec_query(text@)->0,
        empty_query(text@) ==> (r matches Err(e) && e@ == "a query needs at least one binding (the target)"@),
{
    proof {
        reveal_strlit("depth");
        reveal_strlit("of");
    }
    let s = chars_of(text);
    let toks = match tokenize(s.as_slice(), true) {
        Some(t) => t,
        None => {
            return Err(err("unexpected character in query"));
        },
    };
    proof {
        crate::lexer::lemma_lex_len(s@, 0, true);
    }
    let s = s.as_slice();
    let toks = toks.as_slice();
    let mut pos: usize = 0;
    let mut depth = DEFAULT_DEPTH;
    assert("depth"@ =~= word_depth());
    assert("of"@ =~= word_of());
    if is_kind(toks, 0, TokKind::Ident) && tok_is(s, toks[0], "depth") {
        pos = 1;
        let d = match read_num(s, toks, &mut pos) {
            Ok(d) => d,
            Err(e) => {
                return Err(e);
            },
        };
        match expect(toks, &mut pos, TokKind::Semi) {
            Ok(()) => {},
            Err(e) => {
                return Err(e);
            },
        }
        depth = d as usize;
    }
    assert(q_depth(s@, toks@) == Some((depth, pos as int)));
    let ghost p = pos as int;
    let mut take: Option<Take> = None;
    if is_kind(toks, pos, TokKind::Num) && is_kind(toks, pos + 1, TokKind::Ident) && tok_is(
        s,
        toks[pos + 1],
        "of",
    ) {
        let n = match read_num(s, toks, &mut pos) {
            Ok(n) => n,
            Err(e) => {
                return Err(e);
            },
        };
        pos = pos + 1;
        let seed = if is_kind(toks, pos, TokKind::At) {
            pos = pos + 1;
            match read_num(s, toks, &mut pos) {
                Ok(v) => v,
                Err(e) => {
                    return Err(e);
                },
            }
        } else {
            0
        };
        take = Some(Take { n: n as usize, seed });
    }
    assert(q_take(s@, toks@, p) == Some((take, pos as int)));
    let ghost start = pos as int;
    assert(spec_query(text@) == (match q_bindings(s@, toks@, start, seq![]) {
        Some(bs) => if bs.len() == 0 {
            None
        } else {
            Some(GQuery { depth, take, bindings: bs })
        },
        None => None,
    }));
    assert(empty_query(text@) == (q_bindings(s@, toks@, start, seq![]) == Some(Seq::<GBinding>::empty())));
    let bindings = match read_bindings(s, toks, pos) {
        Ok(b) => b,
        Err(e) => {
            return Err(e);
        },
    };
    if bindings.len() == 0 {
        return Err(err("a query needs at least one binding (the target)"));
    }
    Ok(Query { depth, take, bindings })
}

} // verus!
