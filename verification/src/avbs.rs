//! The AVBS program language: `Name: Type = Value` bindings (after optional
//! `depth N` / `N of [@seed]` directives) whose values are holes (`_`, `*`,
//! `?N@seed`), applications (`ShellSort<_>`, `insertion(strategy = _, 32)`),
//! captures (`… as p`), unions (`_ where ( A | B )`), set differences
//! (`_ - {A, B}`) and lists. A program parses to an [`AProgram`] and lowers
//! onto the solver's [`Query`] — one per emittable binding, or a whole
//! [`Program`] of algorithm families, named sets and consumer pipelines.
use vstd::prelude::*;
use crate::text::{all_digits, chars_of, is_digit, is_ws, is_whitespace, parse_u128, parse_unsigned, push_char,
    string_is, string_of, trim, trim_chars};
use crate::spec_lang::{lemma_qargs_view_push, lemma_values_view_push, qargs_view, value_view, values_view, Binding,
    GBinding, GQArg, GQuery, GRefinement, GValue, QArg, QValue, Quant, Query, Refinement, Take, DEFAULT_DEPTH};
use crate::registry::{comp_view, comps_view, find, params_view, Component, GComponent, GParam, Registry};


verus! {

// ───────────────────────────── tokens ─────────────────────────────

#[derive(Clone, Copy, Debug, PartialEq, Eq, Structural)]
pub enum AvKind {
    Ident,
    Num,
    Colon,
    Eq,
    Lt,
    Gt,
    LParen,
    RParen,
    LBracket,
    RBracket,
    LBrace,
    RBrace,
    Comma,
    Pipe,
    Minus,
    Amp,
    At,
    Question,
    Star,
}

/// A token: its kind and the source characters `start..end` it spans.
#[derive(Clone, Copy, Debug)]
pub struct AvTok {
    pub kind: AvKind,
    pub start: usize,
    pub end: usize,
}

pub open spec fn av_punct(c: char) -> Option<AvKind> {
    if c == ':' {
        Some(AvKind::Colon)
    } else if c == '=' {
        Some(AvKind::Eq)
    } else if c == '<' {
        Some(AvKind::Lt)
    } else if c == '>' {
        Some(AvKind::Gt)
    } else if c == '(' {
        Some(AvKind::LParen)
    } else if c == ')' {
        Some(AvKind::RParen)
    } else if c == '[' {
        Some(AvKind::LBracket)
    } else if c == ']' {
        Some(AvKind::RBracket)
    } else if c == '{' {
        Some(AvKind::LBrace)
    } else if c == '}' {
        Some(AvKind::RBrace)
    } else if c == ',' {
        Some(AvKind::Comma)
    } else if c == '|' {
        Some(AvKind::Pipe)
    } else if c == '-' {
        Some(AvKind::Minus)
    } else if c == '&' {
        Some(AvKind::Amp)
    } else if c == '@' {
        Some(AvKind::At)
    } else if c == '?' {
        Some(AvKind::Question)
    } else if c == '*' {
        Some(AvKind::Star)
    } else {
        None
    }
}

fn av_punct_exec(c: char) -> (k: Option<AvKind>)
    ensures
        k == av_punct(c),
{
    if c == ':' {
        Some(AvKind::Colon)
    } else if c == '=' {
        Some(AvKind::Eq)
    } else if c == '<' {
        Some(AvKind::Lt)
    } else if c == '>' {
        Some(AvKind::Gt)
    } else if c == '(' {
        Some(AvKind::LParen)
    } else if c == ')' {
        Some(AvKind::RParen)
    } else if c == '[' {
        Some(AvKind::LBracket)
    } else if c == ']' {
        Some(AvKind::RBracket)
    } else if c == '{' {
        Some(AvKind::LBrace)
    } else if c == '}' {
        Some(AvKind::RBrace)
    } else if c == ',' {
        Some(AvKind::Comma)
    } else if c == '|' {
        Some(AvKind::Pipe)
    } else if c == '-' {
        Some(AvKind::Minus)
    } else if c == '&' {
        Some(AvKind::Amp)
    } else if c == '@' {
        Some(AvKind::At)
    } else if c == '?' {
        Some(AvKind::Question)
    } else if c == '*' {
        Some(AvKind::Star)
    } else {
        None
    }
}

/// An ASCII letter, digit or underscore.
pub open spec fn av_word(c: char) -> bool {
    ('a' <= c <= 'z') || ('A' <= c <= 'Z') || ('0' <= c <= '9') || c == '_'
}

/// Where the word starting at `i` ends.
pub open spec fn av_word_end(s: Seq<char>, i: int) -> int
    decreases s.len() - i,
{
    if 0 <= i < s.len() && av_word(s[i]) {
        av_word_end(s, i + 1)
    } else {
        i
    }
}

/// Where a line comment whose body starts at `i` ends: at the next newline,
/// or at the end of the input.
pub open spec fn line_end(s: Seq<char>, i: int) -> int
    decreases s.len() - i,
{
    if i < 0 || i >= s.len() || s[i] == '\n' {
        i
    } else {
        line_end(s, i + 1)
    }
}

/// Just past the `*/` closing a block comment whose body starts at `i`.
pub open spec fn block_end(s: Seq<char>, i: int) -> Option<int>
    decreases s.len() - i,
{
    if i < 0 || i + 1 >= s.len() {
        None
    } else if s[i] == '*' && s[i + 1] == '/' {
        Some(i + 2)
    } else {
        block_end(s, i + 1)
    }
}

proof fn lemma_av_word_end(s: Seq<char>, i: int)
    requires
        0 <= i <= s.len(),
    ensures
        i <= av_word_end(s, i) <= s.len(),
    decreases s.len() - i,
{
    if i < s.len() && av_word(s[i]) {
        lemma_av_word_end(s, i + 1);
    }
}

proof fn lemma_line_end(s: Seq<char>, i: int)
    requires
        0 <= i <= s.len(),
    ensures
        i <= line_end(s, i) <= s.len(),
    decreases s.len() - i,
{
    if i < s.len() && s[i] != '\n' {
        lemma_line_end(s, i + 1);
    }
}

proof fn lemma_block_end(s: Seq<char>, i: int)
    requires
        0 <= i <= s.len(),
    ensures
        block_end(s, i) is Some ==> i + 2 <= block_end(s, i)->0 <= s.len(),
    decreases s.len() - i,
{
    if i + 1 < s.len() && !(s[i] == '*' && s[i + 1] == '/') {
        lemma_block_end(s, i + 1);
    }
}

pub open spec fn av_word_kind(s: Seq<char>, i: int, j: int) -> AvKind {
    if all_digits(s.subrange(i, j)) {
        AvKind::Num
    } else {
        AvKind::Ident
    }
}

pub open spec fn cons_av(t: AvTok, rest: Option<Seq<AvTok>>) -> Option<Seq<AvTok>> {
    match rest {
        Some(r) => Some(seq![t] + r),
        None => None,
    }
}

/// The tokens of `s` from position `i`, skipping whitespace and `#`, `//`
/// and `/* */` comments; `None` on an unexpected character or an unclosed
/// block comment.
pub open spec fn av_lex(s: Seq<char>, i: int) -> Option<Seq<AvTok>>
    decreases s.len() - i,
{
    if i < 0 || i >= s.len() {
        Some(seq![])
    } else if is_ws(s[i]) {
        av_lex(s, i + 1)
    } else if s[i] == '#' || (s[i] == '/' && i + 1 < s.len() && s[i + 1] == '/') {
        let j = line_end(s, i + 1);
        if j <= i || j > s.len() {
            None
        } else {
            av_lex(s, j)
        }
    } else if s[i] == '/' && i + 1 < s.len() && s[i + 1] == '*' {
        match block_end(s, i + 2) {
            Some(j) => if j <= i || j > s.len() {
                None
            } else {
                av_lex(s, j)
            },
            None => None,
        }
    } else if av_punct(s[i]) is Some {
        cons_av(AvTok { kind: av_punct(s[i])->0, start: i as usize, end: (i + 1) as usize }, av_lex(s, i + 1))
    } else if av_word(s[i]) {
        let j = av_word_end(s, i + 1);
        if j <= i || j > s.len() {
            None
        } else {
            cons_av(AvTok { kind: av_word_kind(s, i, j), start: i as usize, end: j as usize }, av_lex(s, j))
        }
    } else {
        None
    }
}

pub open spec fn av_prepend(p: Seq<AvTok>, o: Option<Seq<AvTok>>) -> Option<Seq<AvTok>> {
    match o {
        Some(r) => Some(p + r),
        None => None,
    }
}

fn is_av_word(c: char) -> (b: bool)
    ensures
        b == av_word(c),
{
    ('a' <= c && c <= 'z') || ('A' <= c && c <= 'Z') || ('0' <= c && c <= '9') || c == '_'
}

/// Tokenize an AVBS program.
pub fn av_tokenize(s: &[char]) -> (r: Option<Vec<AvTok>>)
    requires
        s@.len() < usize::MAX - 2,
    ensures
        r is Some <==> av_lex(s@, 0) is Some,
        r is Some ==> r->0@ == av_lex(s@, 0)->0,
{
    let mut out: Vec<AvTok> = Vec::new();
    let mut i: usize = 0;
    assert(av_lex(s@, 0) == av_prepend(out@, av_lex(s@, 0))) by {
        match av_lex(s@, 0) {
            Some(r) => {
                assert(out@ + r =~= r);
            },
            None => {},
        }
    }
    while i < s.len()
        invariant
            i <= s@.len(),
            s@.len() < usize::MAX - 2,
            av_lex(s@, 0) == av_prepend(out@, av_lex(s@, i as int)),
        decreases s@.len() - i,
    {
        let c = s[i];
        let ghost before = out@;
        if is_whitespace(c) {
            i = i + 1;
        } else if c == '#' || (c == '/' && i + 1 < s.len() && s[i + 1] == '/') {
            let mut j = i + 1;
            proof {
                lemma_line_end(s@, i + 1);
            }
            while j < s.len() && s[j] != '\n'
                invariant
                    i + 1 <= j <= s@.len(),
                    line_end(s@, i + 1) == line_end(s@, j as int),
                decreases s@.len() - j,
            {
                j = j + 1;
            }
            i = j;
        } else if c == '/' && i + 1 < s.len() && s[i + 1] == '*' {
            let mut j = i + 2;
            proof {
                lemma_block_end(s@, i + 2);
            }
            while j + 1 < s.len() && !(s[j] == '*' && s[j + 1] == '/')
                invariant
                    i + 2 <= j <= s@.len(),
                    s@.len() < usize::MAX - 2,
                    block_end(s@, i + 2) == block_end(s@, j as int),
                decreases s@.len() - j,
            {
                j = j + 1;
            }
            if j + 1 < s.len() {
                i = j + 2;
            } else {
                return None;
            }
        } else {
            match av_punct_exec(c) {
                Some(k) => {
                    out.push(AvTok { kind: k, start: i, end: i + 1 });
                    i = i + 1;
                    proof {
                        match av_lex(s@, i as int) {
                            Some(r) => {
                                assert(before + (seq![out@.last()] + r) =~= out@ + r);
                            },
                            None => {},
                        }
                    }
                },
                None => {
                    if is_av_word(c) {
                        let mut j = i + 1;
                        proof {
                            lemma_av_word_end(s@, i + 1);
                        }
                        while j < s.len() && is_av_word(s[j])
                            invariant
                                i + 1 <= j <= s@.len(),
                                av_word_end(s@, i + 1) == av_word_end(s@, j as int),
                            decreases s@.len() - j,
                        {
                            j = j + 1;
                        }
                        let mut digits = true;
                        let mut k: usize = i;
                        while k < j
                            invariant
                                i <= k <= j,
                                j <= s@.len(),
                                digits == (forall|m: int| i <= m < k ==> is_digit(#[trigger] s@[m])),
                            decreases j - k,
                        {
                            if !('0' <= s[k] && s[k] <= '9') {
                                digits = false;
                            }
                            k = k + 1;
                        }
                        assert(digits == all_digits(s@.subrange(i as int, j as int))) by {
                            if digits {
                                assert forall|m: int| 0 <= m < j - i implies is_digit(
                                    #[trigger] s@.subrange(i as int, j as int)[m],
                                ) by {
                                    assert(s@.subrange(i as int, j as int)[m] == s@[i + m]);
                                }
                            } else {
                                let m = choose|m: int| i <= m < j && !is_digit(#[trigger] s@[m]);
                                assert(s@.subrange(i as int, j as int)[m - i] == s@[m]);
                            }
                        }
                        let kind = if digits {
                            AvKind::Num
                        } else {
                            AvKind::Ident
                        };
                        out.push(AvTok { kind, start: i, end: j });
                        i = j;
                        proof {
                            match av_lex(s@, i as int) {
                                Some(r) => {
                                    assert(before + (seq![out@.last()] + r) =~= out@ + r);
                                },
                                None => {},
                            }
                        }
                    } else {
                        return None;
                    }
                },
            }
        }
    }
    assert(av_lex(s@, i as int) == Some(Seq::<AvTok>::empty()));
    assert(out@ + Seq::<AvTok>::empty() =~= out@);
    Some(out)
}


// ───────────────────────────── the syntax tree ─────────────────────────────

/// A hole: `_` / `*` (every filler), `?` / `?@seed` (one sampled), `?N` /
/// `?N@seed` (N sampled). Counts and seeds are kept as their digits.
#[derive(Debug)]
pub enum AHole {
    Exhaustive,
    SampleOne { seed: Option<String> },
    SampleN { n: String, seed: Option<String> },
}

/// One term of a value.
#[derive(Debug)]
pub enum ATerm {
    Hole(AHole),
    /// An integer or `true` / `false`.
    Literal(String),
    /// `( value )`.
    Group(Box<AValue>),
    /// `{ a, b, … }`.
    SetLit(Vec<AValue>),
    /// `[ a, b, … ]`.
    ListLit(Vec<AValue>),
    /// A name, with `<…>` or `(…)` arguments if it has any.
    App { head: String, args: Option<Vec<AArg>> },
}

/// `term - term - …`, then an optional `as name` and `where ( … | … )`.
#[derive(Debug)]
pub struct AValue {
    pub terms: Vec<ATerm>,
    pub capture: Option<String>,
    pub alts: Option<Vec<AValue>>,
}

/// An application argument.
#[derive(Debug)]
pub enum AArg {
    Named { name: String, value: AValue },
    Pos(AValue),
}

/// A type annotation atom: `_`, or a name with generic arguments, each of
/// which is an intersection `A & B & …`.
#[derive(Debug)]
pub enum AType {
    Underscore,
    App { head: String, args: Vec<Vec<AType>> },
}

/// `param = value` inside `Role[…]`.
#[derive(Debug)]
pub struct ARefinement {
    pub param: String,
    pub value: AValue,
}

/// `name: A & B [refinements] = value`.
#[derive(Debug)]
pub struct ABinding {
    pub name: String,
    pub ty: Vec<AType>,
    pub refinements: Option<Vec<ARefinement>>,
    pub value: AValue,
}

/// `depth N` or `N of [@seed]`.
#[derive(Debug)]
pub enum ADirective {
    Depth(String),
    Take { n: String, seed: Option<String> },
}

/// A whole program: its leading directives, then its bindings.
#[derive(Debug)]
pub struct AProgram {
    pub directives: Vec<ADirective>,
    pub bindings: Vec<ABinding>,
}

pub ghost enum GHole {
    Exhaustive,
    SampleOne { seed: Option<Seq<char>> },
    SampleN { n: Seq<char>, seed: Option<Seq<char>> },
}

pub ghost enum GTerm {
    Hole(GHole),
    Literal(Seq<char>),
    Group(Box<GAValue>),
    SetLit(Seq<GAValue>),
    ListLit(Seq<GAValue>),
    App { head: Seq<char>, args: Option<Seq<GAArg>> },
}

pub ghost struct GAValue {
    pub terms: Seq<GTerm>,
    pub capture: Option<Seq<char>>,
    pub alts: Option<Seq<GAValue>>,
}

pub ghost enum GAArg {
    Named { name: Seq<char>, value: GAValue },
    Pos(GAValue),
}

pub ghost enum GType {
    Underscore,
    App { head: Seq<char>, args: Seq<Seq<GType>> },
}

pub ghost struct GARefinement {
    pub param: Seq<char>,
    pub value: GAValue,
}

pub ghost struct GABinding {
    pub name: Seq<char>,
    pub ty: Seq<GType>,
    pub refinements: Option<Seq<GARefinement>>,
    pub value: GAValue,
}

pub ghost enum GDirective {
    Depth(Seq<char>),
    Take { n: Seq<char>, seed: Option<Seq<char>> },
}

pub ghost struct GProgram {
    pub directives: Seq<GDirective>,
    pub bindings: Seq<GABinding>,
}

pub open spec fn ostr_view(o: Option<String>) -> Option<Seq<char>> {
    match o {
        Some(x) => Some(x@),
        None => None,
    }
}

pub open spec fn hole_view(h: AHole) -> GHole {
    match h {
        AHole::Exhaustive => GHole::Exhaustive,
        AHole::SampleOne { seed } => GHole::SampleOne { seed: ostr_view(seed) },
        AHole::SampleN { n, seed } => GHole::SampleN { n: n@, seed: ostr_view(seed) },
    }
}

pub open spec fn term_view(t: ATerm) -> GTerm
    decreases t,
{
    match t {
        ATerm::Hole(h) => GTerm::Hole(hole_view(h)),
        ATerm::Literal(x) => GTerm::Literal(x@),
        ATerm::Group(v) => GTerm::Group(Box::new(aval_view(*v))),
        ATerm::SetLit(vs) => GTerm::SetLit(avals_view(vs@)),
        ATerm::ListLit(vs) => GTerm::ListLit(avals_view(vs@)),
        ATerm::App { head, args } => GTerm::App {
            head: head@,
            args: match args {
                Some(a) => Some(aargs_view(a@)),
                None => None,
            },
        },
    }
}

pub open spec fn terms_view(ts: Seq<ATerm>) -> Seq<GTerm>
    decreases ts,
{
    if ts.len() == 0 {
        seq![]
    } else {
        terms_view(ts.drop_last()).push(term_view(ts.last()))
    }
}

pub open spec fn aval_view(v: AValue) -> GAValue
    decreases v,
{
    GAValue {
        terms: terms_view(v.terms@),
        capture: ostr_view(v.capture),
        alts: match v.alts {
            Some(a) => Some(avals_view(a@)),
            None => None,
        },
    }
}

pub open spec fn avals_view(vs: Seq<AValue>) -> Seq<GAValue>
    decreases vs,
{
    if vs.len() == 0 {
        seq![]
    } else {
        avals_view(vs.drop_last()).push(aval_view(vs.last()))
    }
}

pub open spec fn aarg_view(a: AArg) -> GAArg
    decreases a,
{
    match a {
        AArg::Named { name, value } => GAArg::Named { name: name@, value: aval_view(value) },
        AArg::Pos(v) => GAArg::Pos(aval_view(v)),
    }
}

pub open spec fn aargs_view(a: Seq<AArg>) -> Seq<GAArg>
    decreases a,
{
    if a.len() == 0 {
        seq![]
    } else {
        aargs_view(a.drop_last()).push(aarg_view(a.last()))
    }
}

pub open spec fn type_view(t: AType) -> GType
    decreases t,
{
    match t {
        AType::Underscore => GType::Underscore,
        AType::App { head, args } => GType::App { head: head@, args: type_args_view(args@) },
    }
}

pub open spec fn types_view(ts: Seq<AType>) -> Seq<GType>
    decreases ts,
{
    if ts.len() == 0 {
        seq![]
    } else {
        types_view(ts.drop_last()).push(type_view(ts.last()))
    }
}

pub open spec fn type_args_view(a: Seq<Vec<AType>>) -> Seq<Seq<GType>>
    decreases a,
{
    if a.len() == 0 {
        seq![]
    } else {
        type_args_view(a.drop_last()).push(types_view(a.last()@))
    }
}

pub open spec fn refinement_view(r: ARefinement) -> GARefinement {
    GARefinement { param: r.param@, value: aval_view(r.value) }
}

pub open spec fn refinements_view(rs: Seq<ARefinement>) -> Seq<GARefinement> {
    rs.map_values(|r: ARefinement| refinement_view(r))
}

pub open spec fn binding_view(b: ABinding) -> GABinding {
    GABinding {
        name: b.name@,
        ty: types_view(b.ty@),
        refinements: match b.refinements {
            Some(r) => Some(refinements_view(r@)),
            None => None,
        },
        value: aval_view(b.value),
    }
}

pub open spec fn bindings_view(bs: Seq<ABinding>) -> Seq<GABinding> {
    bs.map_values(|b: ABinding| binding_view(b))
}

pub open spec fn directive_view(d: ADirective) -> GDirective {
    match d {
        ADirective::Depth(n) => GDirective::Depth(n@),
        ADirective::Take { n, seed } => GDirective::Take { n: n@, seed: ostr_view(seed) },
    }
}

pub open spec fn directives_view(ds: Seq<ADirective>) -> Seq<GDirective> {
    ds.map_values(|d: ADirective| directive_view(d))
}

pub open spec fn program_view(p: AProgram) -> GProgram {
    GProgram { directives: directives_view(p.directives@), bindings: bindings_view(p.bindings@) }
}


// ───────────────────────────── the grammar ─────────────────────────────

pub open spec fn kind_at(t: Seq<AvTok>, i: int, k: AvKind) -> bool {
    0 <= i < t.len() && t[i].kind == k
}

/// The characters token `i` spans.
pub open spec fn text_at(s: Seq<char>, t: Seq<AvTok>, i: int) -> Seq<char> {
    if 0 <= i < t.len() && t[i].start <= t[i].end <= s.len() {
        s.subrange(t[i].start as int, t[i].end as int)
    } else {
        seq![]
    }
}

/// Token `i` is the word `w`.
pub open spec fn word_at(s: Seq<char>, t: Seq<AvTok>, i: int, w: Seq<char>) -> bool {
    kind_at(t, i, AvKind::Ident) && text_at(s, t, i) == w
}

/// `@ N` at `i`.
pub open spec fn p_seed(s: Seq<char>, t: Seq<AvTok>, i: int) -> Option<(Seq<char>, int)> {
    if kind_at(t, i, AvKind::At) && kind_at(t, i + 1, AvKind::Num) {
        Some((text_at(s, t, i + 1), i + 2))
    } else {
        None
    }
}

/// A hole at `i`: `_`, `*`, `?N[@seed]` or `?[@seed]`.
pub open spec fn p_hole(s: Seq<char>, t: Seq<AvTok>, i: int) -> Option<(GHole, int)> {
    if word_at(s, t, i, "_"@) || kind_at(t, i, AvKind::Star) {
        Some((GHole::Exhaustive, i + 1))
    } else if kind_at(t, i, AvKind::Question) {
        if kind_at(t, i + 1, AvKind::Num) {
            match p_seed(s, t, i + 2) {
                Some((sd, j)) => Some((GHole::SampleN { n: text_at(s, t, i + 1), seed: Some(sd) }, j)),
                None => Some((GHole::SampleN { n: text_at(s, t, i + 1), seed: None }, i + 2)),
            }
        } else {
            match p_seed(s, t, i + 1) {
                Some((sd, j)) => Some((GHole::SampleOne { seed: Some(sd) }, j)),
                None => Some((GHole::SampleOne { seed: None }, i + 1)),
            }
        }
    } else {
        None
    }
}

/// `unary [as name] [where ( value | … )]` at `i`.
pub open spec fn p_value(s: Seq<char>, t: Seq<AvTok>, i: int) -> Option<(GAValue, int)>
    decreases t.len() - i, 4nat,
{
    if i < 0 || i >= t.len() {
        None
    } else {
        match p_unary(s, t, i) {
            None => None,
            Some((terms, j)) => if j <= i || j > t.len() {
                None
            } else {
                let cap = if word_at(s, t, j, "as"@) && kind_at(t, j + 1, AvKind::Ident) {
                    Some(text_at(s, t, j + 1))
                } else {
                    None
                };
                let k = if cap is Some { j + 2 } else { j };
                if word_at(s, t, k, "where"@) && kind_at(t, k + 1, AvKind::LParen) {
                    match p_alts(s, t, k + 2, seq![]) {
                        Some((alts, m)) => if kind_at(t, m, AvKind::RParen) {
                            Some((GAValue { terms, capture: cap, alts: Some(alts) }, m + 1))
                        } else {
                            Some((GAValue { terms, capture: cap, alts: None }, k))
                        },
                        None => Some((GAValue { terms, capture: cap, alts: None }, k)),
                    }
                } else {
                    Some((GAValue { terms, capture: cap, alts: None }, k))
                }
            },
        }
    }
}

/// `term - term - …` at `i`.
pub open spec fn p_unary(s: Seq<char>, t: Seq<AvTok>, i: int) -> Option<(Seq<GTerm>, int)>
    decreases t.len() - i, 3nat,
{
    if i < 0 || i >= t.len() {
        None
    } else {
        match p_term(s, t, i) {
            None => None,
            Some((t0, j)) => if j <= i || j > t.len() {
                None
            } else {
                p_subs(s, t, j, seq![t0])
            },
        }
    }
}

/// The `- term` continuations at `j`, appended to `acc`.
pub open spec fn p_subs(s: Seq<char>, t: Seq<AvTok>, j: int, acc: Seq<GTerm>) -> Option<(Seq<GTerm>, int)>
    decreases t.len() - j, 2nat,
{
    if j < 0 || j > t.len() {
        None
    } else if kind_at(t, j, AvKind::Minus) {
        match p_term(s, t, j + 1) {
            None => None,
            Some((x, k)) => if k <= j + 1 || k > t.len() {
                None
            } else {
                p_subs(s, t, k, acc.push(x))
            },
        }
    } else {
        Some((acc, j))
    }
}

/// One term at `i`.
pub open spec fn p_term(s: Seq<char>, t: Seq<AvTok>, i: int) -> Option<(GTerm, int)>
    decreases t.len() - i, 1nat,
{
    if i < 0 || i >= t.len() {
        None
    } else if p_hole(s, t, i) is Some {
        let (h, j) = p_hole(s, t, i)->0;
        Some((GTerm::Hole(h), j))
    } else if kind_at(t, i, AvKind::Num) || word_at(s, t, i, "true"@) || word_at(s, t, i, "false"@) {
        Some((GTerm::Literal(text_at(s, t, i)), i + 1))
    } else if kind_at(t, i, AvKind::LParen) {
        match p_value(s, t, i + 1) {
            None => None,
            Some((v, j)) => if kind_at(t, j, AvKind::RParen) {
                Some((GTerm::Group(Box::new(v)), j + 1))
            } else {
                None
            },
        }
    } else if kind_at(t, i, AvKind::LBrace) {
        match p_items(s, t, i + 1, AvKind::RBrace, seq![]) {
            None => None,
            Some((vs, j)) => Some((GTerm::SetLit(vs), j)),
        }
    } else if kind_at(t, i, AvKind::LBracket) {
        match p_items(s, t, i + 1, AvKind::RBracket, seq![]) {
            None => None,
            Some((vs, j)) => Some((GTerm::ListLit(vs), j)),
        }
    } else if kind_at(t, i, AvKind::Ident) {
        if kind_at(t, i + 1, AvKind::Lt) {
            match p_args(s, t, i + 2, AvKind::Gt, seq![]) {
                None => None,
                Some((a, j)) => Some((GTerm::App { head: text_at(s, t, i), args: Some(a) }, j)),
            }
        } else if kind_at(t, i + 1, AvKind::LParen) {
            match p_args(s, t, i + 2, AvKind::RParen, seq![]) {
                None => None,
                Some((a, j)) => Some((GTerm::App { head: text_at(s, t, i), args: Some(a) }, j)),
            }
        } else {
            Some((GTerm::App { head: text_at(s, t, i), args: None }, i + 1))
        }
    } else {
        None
    }
}

/// `value, value, … close` at `i` (a trailing comma allowed), appended to
/// `acc`.
pub open spec fn p_items(s: Seq<char>, t: Seq<AvTok>, i: int, close: AvKind, acc: Seq<GAValue>) -> Option<
    (Seq<GAValue>, int),
>
    decreases t.len() - i, 5nat,
{
    if i < 0 || i >= t.len() {
        None
    } else if kind_at(t, i, close) {
        Some((acc, i + 1))
    } else {
        match p_value(s, t, i) {
            None => None,
            Some((v, j)) => if j <= i || j > t.len() {
                None
            } else if kind_at(t, j, close) {
                Some((acc.push(v), j + 1))
            } else if kind_at(t, j, AvKind::Comma) {
                p_items(s, t, j + 1, close, acc.push(v))
            } else {
                None
            },
        }
    }
}

/// `arg, arg, … close` at `i`, each `name = value` or a value, appended to
/// `acc`.
pub open spec fn p_args(s: Seq<char>, t: Seq<AvTok>, i: int, close: AvKind, acc: Seq<GAArg>) -> Option<
    (Seq<GAArg>, int),
>
    decreases t.len() - i, 5nat,
{
    if i < 0 || i >= t.len() {
        None
    } else if kind_at(t, i, close) {
        Some((acc, i + 1))
    } else {
        let named = kind_at(t, i, AvKind::Ident) && kind_at(t, i + 1, AvKind::Eq);
        let start = if named { i + 2 } else { i };
        match p_value(s, t, start) {
            None => None,
            Some((v, j)) => {
                let a = if named { GAArg::Named { name: text_at(s, t, i), value: v } } else { GAArg::Pos(v) };
                if j <= i || j > t.len() {
                    None
                } else if kind_at(t, j, close) {
                    Some((acc.push(a), j + 1))
                } else if kind_at(t, j, AvKind::Comma) {
                    p_args(s, t, j + 1, close, acc.push(a))
                } else {
                    None
                }
            },
        }
    }
}

/// `value | value | …` at `i`, appended to `acc`.
pub open spec fn p_alts(s: Seq<char>, t: Seq<AvTok>, i: int, acc: Seq<GAValue>) -> Option<(Seq<GAValue>, int)>
    decreases t.len() - i, 5nat,
{
    if i < 0 || i >= t.len() {
        None
    } else {
        match p_value(s, t, i) {
            None => None,
            Some((v, j)) => if j <= i || j > t.len() {
                None
            } else if kind_at(t, j, AvKind::Pipe) {
                p_alts(s, t, j + 1, acc.push(v))
            } else {
                Some((acc.push(v), j))
            },
        }
    }
}

/// A type annotation `atom & atom & …` at `i`.
pub open spec fn p_type_ann(s: Seq<char>, t: Seq<AvTok>, i: int) -> Option<(Seq<GType>, int)>
    decreases t.len() - i, 2nat,
{
    if i < 0 || i >= t.len() {
        None
    } else {
        match p_type_atom(s, t, i) {
            None => None,
            Some((a, j)) => if j <= i || j > t.len() {
                None
            } else {
                p_type_more(s, t, j, seq![a])
            },
        }
    }
}

pub open spec fn p_type_more(s: Seq<char>, t: Seq<AvTok>, j: int, acc: Seq<GType>) -> Option<(Seq<GType>, int)>
    decreases t.len() - j, 1nat,
{
    if j < 0 || j > t.len() {
        None
    } else if kind_at(t, j, AvKind::Amp) {
        match p_type_atom(s, t, j + 1) {
            None => None,
            Some((a, k)) => if k <= j + 1 || k > t.len() {
                None
            } else {
                p_type_more(s, t, k, acc.push(a))
            },
        }
    } else {
        Some((acc, j))
    }
}

/// `_`, or a name with optional `<ann, ann, …>`, at `i`.
pub open spec fn p_type_atom(s: Seq<char>, t: Seq<AvTok>, i: int) -> Option<(GType, int)>
    decreases t.len() - i, 0nat,
{
    if i < 0 || i >= t.len() {
        None
    } else if word_at(s, t, i, "_"@) {
        Some((GType::Underscore, i + 1))
    } else if kind_at(t, i, AvKind::Ident) {
        if kind_at(t, i + 1, AvKind::Lt) {
            match p_type_args(s, t, i + 2, seq![]) {
                None => None,
                Some((a, j)) => Some((GType::App { head: text_at(s, t, i), args: a }, j)),
            }
        } else {
            Some((GType::App { head: text_at(s, t, i), args: seq![] }, i + 1))
        }
    } else {
        None
    }
}

pub open spec fn p_type_args(s: Seq<char>, t: Seq<AvTok>, i: int, acc: Seq<Seq<GType>>) -> Option<
    (Seq<Seq<GType>>, int),
>
    decreases t.len() - i, 3nat,
{
    if i < 0 || i >= t.len() {
        None
    } else {
        match p_type_ann(s, t, i) {
            None => None,
            Some((a, j)) => if j <= i || j > t.len() {
                None
            } else if kind_at(t, j, AvKind::Comma) {
                p_type_args(s, t, j + 1, acc.push(a))
            } else if kind_at(t, j, AvKind::Gt) {
                Some((acc.push(a), j + 1))
            } else {
                None
            },
        }
    }
}

/// `param = value, … ]` at `i` (at least one, a trailing comma allowed),
/// appended to `acc`.
pub open spec fn p_refs(s: Seq<char>, t: Seq<AvTok>, i: int, acc: Seq<GARefinement>) -> Option<
    (Seq<GARefinement>, int),
>
    decreases t.len() - i,
{
    if i < 0 || i >= t.len() {
        None
    } else if acc.len() > 0 && kind_at(t, i, AvKind::RBracket) {
        Some((acc, i + 1))
    } else if kind_at(t, i, AvKind::Ident) && kind_at(t, i + 1, AvKind::Eq) {
        match p_value(s, t, i + 2) {
            None => None,
            Some((v, j)) => {
                let r = GARefinement { param: text_at(s, t, i), value: v };
                if j <= i || j > t.len() {
                    None
                } else if kind_at(t, j, AvKind::Comma) {
                    p_refs(s, t, j + 1, acc.push(r))
                } else if kind_at(t, j, AvKind::RBracket) {
                    Some((acc.push(r), j + 1))
                } else {
                    None
                }
            },
        }
    } else {
        None
    }
}

/// `name : type [refinements] = value` at `i`.
pub open spec fn p_binding(s: Seq<char>, t: Seq<AvTok>, i: int) -> Option<(GABinding, int)> {
    if kind_at(t, i, AvKind::Ident) && kind_at(t, i + 1, AvKind::Colon) {
        match p_type_ann(s, t, i + 2) {
            None => None,
            Some((ty, j)) => {
                let rs = if kind_at(t, j, AvKind::LBracket) {
                    p_refs(s, t, j + 1, seq![])
                } else {
                    None
                };
                if kind_at(t, j, AvKind::LBracket) && rs is None {
                    None
                } else {
                    let (refs, k) = match rs {
                        Some((r, k)) => (Some(r), k),
                        None => (None, j),
                    };
                    if kind_at(t, k, AvKind::Eq) {
                        match p_value(s, t, k + 1) {
                            None => None,
                            Some((v, m)) => Some((GABinding { name: text_at(s, t, i), ty, refinements: refs, value: v }, m)),
                        }
                    } else {
                        None
                    }
                }
            },
        }
    } else {
        None
    }
}

/// The leading `depth N` / `N of [@seed]` directives at `i`, appended to
/// `acc`, and where they end.
pub open spec fn p_dirs(s: Seq<char>, t: Seq<AvTok>, i: int, acc: Seq<GDirective>) -> (Seq<GDirective>, int)
    decreases t.len() - i,
{
    if i < 0 || i >= t.len() {
        (acc, i)
    } else if word_at(s, t, i, "depth"@) && kind_at(t, i + 1, AvKind::Num) {
        p_dirs(s, t, i + 2, acc.push(GDirective::Depth(text_at(s, t, i + 1))))
    } else if kind_at(t, i, AvKind::Num) && word_at(s, t, i + 1, "of"@) {
        match p_seed(s, t, i + 2) {
            Some((sd, j)) => p_dirs(s, t, j, acc.push(GDirective::Take { n: text_at(s, t, i), seed: Some(sd) })),
            None => p_dirs(s, t, i + 2, acc.push(GDirective::Take { n: text_at(s, t, i), seed: None })),
        }
    } else {
        (acc, i)
    }
}

/// One or more bindings from `i` to the end, appended to `acc`.
pub open spec fn p_bindings(s: Seq<char>, t: Seq<AvTok>, i: int, acc: Seq<GABinding>) -> Option<Seq<GABinding>>
    decreases t.len() - i,
{
    if i < 0 || i > t.len() {
        None
    } else if i == t.len() {
        if acc.len() > 0 {
            Some(acc)
        } else {
            None
        }
    } else {
        match p_binding(s, t, i) {
            None => None,
            Some((b, j)) => if j <= i || j > t.len() {
                None
            } else {
                p_bindings(s, t, j, acc.push(b))
            },
        }
    }
}

/// The program `text` spells, if it is one.
pub open spec fn program_s(text: Seq<char>) -> Option<GProgram> {
    match av_lex(text, 0) {
        None => None,
        Some(t) => {
            let (ds, i) = p_dirs(text, t, 0, seq![]);
            match p_bindings(text, t, i, seq![]) {
                None => None,
                Some(bs) => Some(GProgram { directives: ds, bindings: bs }),
            }
        },
    }
}


// ───────────────────────────── the parser ─────────────────────────────

fn kind_is(t: &[AvTok], i: usize, k: AvKind) -> (r: bool)
    ensures
        r == kind_at(t@, i as int, k),
{
    i < t.len() && t[i].kind == k
}

fn text_of(s: &[char], t: &[AvTok], i: usize) -> (r: String)
    ensures
        r@ == text_at(s@, t@, i as int),
{
    let mut out = String::new();
    if i < t.len() && t[i].start <= t[i].end && t[i].end <= s.len() {
        let a = t[i].start;
        let b = t[i].end;
        let mut k = a;
        while k < b
            invariant
                a <= k <= b <= s@.len(),
                out@ == s@.subrange(a as int, k as int),
            decreases b - k,
        {
            push_char(&mut out, s[k]);
            k = k + 1;
            assert(out@ =~= s@.subrange(a as int, k as int));
        }
    } else {
        assert(out@ =~= Seq::<char>::empty());
    }
    out
}

fn word_is(s: &[char], t: &[AvTok], i: usize, w: &str) -> (r: bool)
    ensures
        r == word_at(s@, t@, i as int, w@),
{
    kind_is(t, i, AvKind::Ident) && string_is(&text_of(s, t, i), w)
}

fn e_seed(s: &[char], t: &[AvTok], i: usize) -> (r: Option<(String, usize)>)
    requires
        t@.len() < usize::MAX - 4,
        i <= t@.len() + 2,
    ensures
        match (p_seed(s@, t@, i as int), r) {
            (Some((x, j)), Some((y, k))) => y@ == x && k == j,
            (None, None) => true,
            _ => false,
        },
{
    if kind_is(t, i, AvKind::At) && kind_is(t, i + 1, AvKind::Num) {
        Some((text_of(s, t, i + 1), i + 2))
    } else {
        None
    }
}

fn e_hole(s: &[char], t: &[AvTok], i: usize) -> (r: Option<(AHole, usize)>)
    requires
        t@.len() < usize::MAX - 4,
        i <= t@.len(),
    ensures
        match (p_hole(s@, t@, i as int), r) {
            (Some((g, j)), Some((h, k))) => hole_view(h) == g && k == j,
            (None, None) => true,
            _ => false,
        },
{
    if word_is(s, t, i, "_") || kind_is(t, i, AvKind::Star) {
        Some((AHole::Exhaustive, i + 1))
    } else if kind_is(t, i, AvKind::Question) {
        if kind_is(t, i + 1, AvKind::Num) {
            let n = text_of(s, t, i + 1);
            match e_seed(s, t, i + 2) {
                Some((sd, j)) => Some((AHole::SampleN { n, seed: Some(sd) }, j)),
                None => Some((AHole::SampleN { n, seed: None }, i + 2)),
            }
        } else {
            match e_seed(s, t, i + 1) {
                Some((sd, j)) => Some((AHole::SampleOne { seed: Some(sd) }, j)),
                None => Some((AHole::SampleOne { seed: None }, i + 1)),
            }
        }
    } else {
        None
    }
}

proof fn lemma_terms_push(a: Seq<ATerm>, x: ATerm)
    ensures
        terms_view(a.push(x)) == terms_view(a).push(term_view(x)),
{
    assert(a.push(x).drop_last() =~= a);
}

proof fn lemma_avals_push(a: Seq<AValue>, x: AValue)
    ensures
        avals_view(a.push(x)) == avals_view(a).push(aval_view(x)),
{
    assert(a.push(x).drop_last() =~= a);
}

proof fn lemma_aargs_push(a: Seq<AArg>, x: AArg)
    ensures
        aargs_view(a.push(x)) == aargs_view(a).push(aarg_view(x)),
{
    assert(a.push(x).drop_last() =~= a);
}

proof fn lemma_types_push(a: Seq<AType>, x: AType)
    ensures
        types_view(a.push(x)) == types_view(a).push(type_view(x)),
{
    assert(a.push(x).drop_last() =~= a);
}

proof fn lemma_type_args_push(a: Seq<Vec<AType>>, x: Vec<AType>)
    ensures
        type_args_view(a.push(x)) == type_args_view(a).push(types_view(x@)),
{
    assert(a.push(x).drop_last() =~= a);
}

fn e_value(s: &[char], t: &[AvTok], i: usize) -> (r: Option<(AValue, usize)>)
    requires
        t@.len() < usize::MAX - 4,
        i <= t@.len(),
    ensures
        match (p_value(s@, t@, i as int), r) {
            (Some((g, j)), Some((v, k))) => aval_view(v) == g && k == j,
            (None, None) => true,
            _ => false,
        },
    decreases t@.len() - i, 4nat,
{
    if i >= t.len() {
        return None;
    }
    let (terms, j) = match e_unary(s, t, i) {
        None => {
            return None;
        },
        Some(x) => x,
    };
    if j <= i || j > t.len() {
        return None;
    }
    let cap = if word_is(s, t, j, "as") && kind_is(t, j + 1, AvKind::Ident) {
        Some(text_of(s, t, j + 1))
    } else {
        None
    };
    let k = if cap.is_some() {
        j + 2
    } else {
        j
    };
    if word_is(s, t, k, "where") && kind_is(t, k + 1, AvKind::LParen) {
        match e_alts(s, t, k + 2, Vec::new()) {
            Some((alts, m)) => {
                if kind_is(t, m, AvKind::RParen) {
                    Some((AValue { terms, capture: cap, alts: Some(alts) }, m + 1))
                } else {
                    Some((AValue { terms, capture: cap, alts: None }, k))
                }
            },
            None => Some((AValue { terms, capture: cap, alts: None }, k)),
        }
    } else {
        Some((AValue { terms, capture: cap, alts: None }, k))
    }
}

fn e_unary(s: &[char], t: &[AvTok], i: usize) -> (r: Option<(Vec<ATerm>, usize)>)
    requires
        t@.len() < usize::MAX - 4,
        i <= t@.len(),
    ensures
        match (p_unary(s@, t@, i as int), r) {
            (Some((g, j)), Some((v, k))) => terms_view(v@) == g && k == j,
            (None, None) => true,
            _ => false,
        },
    decreases t@.len() - i, 3nat,
{
    if i >= t.len() {
        return None;
    }
    match e_term(s, t, i) {
        None => None,
        Some((t0, j)) => {
            if j <= i || j > t.len() {
                None
            } else {
                let mut acc: Vec<ATerm> = Vec::new();
                let ghost g0 = term_view(t0);
                acc.push(t0);
                proof {
                    lemma_terms_push(Seq::<ATerm>::empty(), acc@[0]);
                    assert(seq![acc@[0]] =~= Seq::<ATerm>::empty().push(acc@[0]));
                    assert(terms_view(acc@) =~= seq![g0]);
                }
                e_subs(s, t, j, acc)
            }
        },
    }
}

fn e_subs(s: &[char], t: &[AvTok], j: usize, acc: Vec<ATerm>) -> (r: Option<(Vec<ATerm>, usize)>)
    requires
        t@.len() < usize::MAX - 4,
        j <= t@.len(),
    ensures
        match (p_subs(s@, t@, j as int, terms_view(acc@)), r) {
            (Some((g, j2)), Some((v, k))) => terms_view(v@) == g && k == j2,
            (None, None) => true,
            _ => false,
        },
    decreases t@.len() - j, 2nat,
{
    if kind_is(t, j, AvKind::Minus) {
        match e_term(s, t, j + 1) {
            None => None,
            Some((x, k)) => {
                if k <= j + 1 || k > t.len() {
                    None
                } else {
                    let mut acc = acc;
                    proof {
                        lemma_terms_push(acc@, x);
                    }
                    acc.push(x);
                    e_subs(s, t, k, acc)
                }
            },
        }
    } else {
        Some((acc, j))
    }
}

fn e_term(s: &[char], t: &[AvTok], i: usize) -> (r: Option<(ATerm, usize)>)
    requires
        t@.len() < usize::MAX - 4,
        i <= t@.len(),
    ensures
        match (p_term(s@, t@, i as int), r) {
            (Some((g, j)), Some((v, k))) => term_view(v) == g && k == j,
            (None, None) => true,
            _ => false,
        },
    decreases t@.len() - i, 1nat,
{
    if i >= t.len() {
        return None;
    }
    match e_hole(s, t, i) {
        Some((h, j)) => {
            return Some((ATerm::Hole(h), j));
        },
        None => {},
    }
    if kind_is(t, i, AvKind::Num) || word_is(s, t, i, "true") || word_is(s, t, i, "false") {
        Some((ATerm::Literal(text_of(s, t, i)), i + 1))
    } else if kind_is(t, i, AvKind::LParen) {
        match e_value(s, t, i + 1) {
            None => None,
            Some((v, j)) => {
                if kind_is(t, j, AvKind::RParen) {
                    Some((ATerm::Group(Box::new(v)), j + 1))
                } else {
                    None
                }
            },
        }
    } else if kind_is(t, i, AvKind::LBrace) {
        match e_items(s, t, i + 1, AvKind::RBrace, Vec::new()) {
            None => None,
            Some((vs, j)) => Some((ATerm::SetLit(vs), j)),
        }
    } else if kind_is(t, i, AvKind::LBracket) {
        match e_items(s, t, i + 1, AvKind::RBracket, Vec::new()) {
            None => None,
            Some((vs, j)) => Some((ATerm::ListLit(vs), j)),
        }
    } else if kind_is(t, i, AvKind::Ident) {
        let head = text_of(s, t, i);
        if kind_is(t, i + 1, AvKind::Lt) {
            match e_args(s, t, i + 2, AvKind::Gt, Vec::new()) {
                None => None,
                Some((a, j)) => Some((ATerm::App { head, args: Some(a) }, j)),
            }
        } else if kind_is(t, i + 1, AvKind::LParen) {
            match e_args(s, t, i + 2, AvKind::RParen, Vec::new()) {
                None => None,
                Some((a, j)) => Some((ATerm::App { head, args: Some(a) }, j)),
            }
        } else {
            Some((ATerm::App { head, args: None }, i + 1))
        }
    } else {
        None
    }
}

fn e_items(s: &[char], t: &[AvTok], i: usize, close: AvKind, acc: Vec<AValue>) -> (r: Option<(Vec<AValue>, usize)>)
    requires
        t@.len() < usize::MAX - 4,
        i <= t@.len(),
    ensures
        match (p_items(s@, t@, i as int, close, avals_view(acc@)), r) {
            (Some((g, j)), Some((v, k))) => avals_view(v@) == g && k == j,
            (None, None) => true,
            _ => false,
        },
    decreases t@.len() - i, 5nat,
{
    if i >= t.len() {
        return None;
    }
    if kind_is(t, i, close) {
        return Some((acc, i + 1));
    }
    match e_value(s, t, i) {
        None => None,
        Some((v, j)) => {
            if j <= i || j > t.len() {
                None
            } else {
                let mut acc = acc;
                proof {
                    lemma_avals_push(acc@, v);
                }
                acc.push(v);
                if kind_is(t, j, close) {
                    Some((acc, j + 1))
                } else if kind_is(t, j, AvKind::Comma) {
                    e_items(s, t, j + 1, close, acc)
                } else {
                    None
                }
            }
        },
    }
}

fn e_args(s: &[char], t: &[AvTok], i: usize, close: AvKind, acc: Vec<AArg>) -> (r: Option<(Vec<AArg>, usize)>)
    requires
        t@.len() < usize::MAX - 4,
        i <= t@.len(),
    ensures
        match (p_args(s@, t@, i as int, close, aargs_view(acc@)), r) {
            (Some((g, j)), Some((v, k))) => aargs_view(v@) == g && k == j,
            (None, None) => true,
            _ => false,
        },
    decreases t@.len() - i, 5nat,
{
    if i >= t.len() {
        return None;
    }
    if kind_is(t, i, close) {
        return Some((acc, i + 1));
    }
    let named = kind_is(t, i, AvKind::Ident) && kind_is(t, i + 1, AvKind::Eq);
    let start = if named {
        i + 2
    } else {
        i
    };
    match e_value(s, t, start) {
        None => None,
        Some((v, j)) => {
            let a = if named {
                AArg::Named { name: text_of(s, t, i), value: v }
            } else {
                AArg::Pos(v)
            };
            if j <= i || j > t.len() {
                None
            } else {
                let mut acc = acc;
                proof {
                    lemma_aargs_push(acc@, a);
                }
                acc.push(a);
                if kind_is(t, j, close) {
                    Some((acc, j + 1))
                } else if kind_is(t, j, AvKind::Comma) {
                    e_args(s, t, j + 1, close, acc)
                } else {
                    None
                }
            }
        },
    }
}

fn e_alts(s: &[char], t: &[AvTok], i: usize, acc: Vec<AValue>) -> (r: Option<(Vec<AValue>, usize)>)
    requires
        t@.len() < usize::MAX - 4,
        i <= t@.len(),
    ensures
        match (p_alts(s@, t@, i as int, avals_view(acc@)), r) {
            (Some((g, j)), Some((v, k))) => avals_view(v@) == g && k == j,
            (None, None) => true,
            _ => false,
        },
    decreases t@.len() - i, 5nat,
{
    if i >= t.len() {
        return None;
    }
    match e_value(s, t, i) {
        None => None,
        Some((v, j)) => {
            if j <= i || j > t.len() {
                None
            } else {
                let mut acc = acc;
                proof {
                    lemma_avals_push(acc@, v);
                }
                acc.push(v);
                if kind_is(t, j, AvKind::Pipe) {
                    e_alts(s, t, j + 1, acc)
                } else {
                    Some((acc, j))
                }
            }
        },
    }
}


fn e_type_ann(s: &[char], t: &[AvTok], i: usize) -> (r: Option<(Vec<AType>, usize)>)
    requires
        t@.len() < usize::MAX - 4,
        i <= t@.len(),
    ensures
        match (p_type_ann(s@, t@, i as int), r) {
            (Some((g, j)), Some((v, k))) => types_view(v@) == g && k == j,
            (None, None) => true,
            _ => false,
        },
    decreases t@.len() - i, 2nat,
{
    if i >= t.len() {
        return None;
    }
    match e_type_atom(s, t, i) {
        None => None,
        Some((a, j)) => {
            if j <= i || j > t.len() {
                None
            } else {
                let mut acc: Vec<AType> = Vec::new();
                proof {
                    lemma_types_push(acc@, a);
                }
                acc.push(a);
                e_type_more(s, t, j, acc)
            }
        },
    }
}

fn e_type_more(s: &[char], t: &[AvTok], j: usize, acc: Vec<AType>) -> (r: Option<(Vec<AType>, usize)>)
    requires
        t@.len() < usize::MAX - 4,
        j <= t@.len(),
    ensures
        match (p_type_more(s@, t@, j as int, types_view(acc@)), r) {
            (Some((g, j2)), Some((v, k))) => types_view(v@) == g && k == j2,
            (None, None) => true,
            _ => false,
        },
    decreases t@.len() - j, 1nat,
{
    if kind_is(t, j, AvKind::Amp) {
        match e_type_atom(s, t, j + 1) {
            None => None,
            Some((a, k)) => {
                if k <= j + 1 || k > t.len() {
                    None
                } else {
                    let mut acc = acc;
                    proof {
                        lemma_types_push(acc@, a);
                    }
                    acc.push(a);
                    e_type_more(s, t, k, acc)
                }
            },
        }
    } else {
        Some((acc, j))
    }
}

fn e_type_atom(s: &[char], t: &[AvTok], i: usize) -> (r: Option<(AType, usize)>)
    requires
        t@.len() < usize::MAX - 4,
        i <= t@.len(),
    ensures
        match (p_type_atom(s@, t@, i as int), r) {
            (Some((g, j)), Some((v, k))) => type_view(v) == g && k == j,
            (None, None) => true,
            _ => false,
        },
    decreases t@.len() - i, 0nat,
{
    if i >= t.len() {
        return None;
    }
    if word_is(s, t, i, "_") {
        Some((AType::Underscore, i + 1))
    } else if kind_is(t, i, AvKind::Ident) {
        let head = text_of(s, t, i);
        if kind_is(t, i + 1, AvKind::Lt) {
            match e_type_args(s, t, i + 2, Vec::new()) {
                None => None,
                Some((a, j)) => Some((AType::App { head, args: a }, j)),
            }
        } else {
            let args: Vec<Vec<AType>> = Vec::new();
            assert(type_args_view(args@) =~= seq![]);
            Some((AType::App { head, args }, i + 1))
        }
    } else {
        None
    }
}

fn e_type_args(s: &[char], t: &[AvTok], i: usize, acc: Vec<Vec<AType>>) -> (r: Option<(Vec<Vec<AType>>, usize)>)
    requires
        t@.len() < usize::MAX - 4,
        i <= t@.len(),
    ensures
        match (p_type_args(s@, t@, i as int, type_args_view(acc@)), r) {
            (Some((g, j)), Some((v, k))) => type_args_view(v@) == g && k == j,
            (None, None) => true,
            _ => false,
        },
    decreases t@.len() - i, 3nat,
{
    if i >= t.len() {
        return None;
    }
    match e_type_ann(s, t, i) {
        None => None,
        Some((a, j)) => {
            if j <= i || j > t.len() {
                None
            } else {
                let mut acc = acc;
                proof {
                    lemma_type_args_push(acc@, a);
                }
                acc.push(a);
                if kind_is(t, j, AvKind::Comma) {
                    e_type_args(s, t, j + 1, acc)
                } else if kind_is(t, j, AvKind::Gt) {
                    Some((acc, j + 1))
                } else {
                    None
                }
            }
        },
    }
}

fn e_refs(s: &[char], t: &[AvTok], i: usize, acc: Vec<ARefinement>) -> (r: Option<(Vec<ARefinement>, usize)>)
    requires
        t@.len() < usize::MAX - 4,
        i <= t@.len(),
    ensures
        match (p_refs(s@, t@, i as int, refinements_view(acc@)), r) {
            (Some((g, j)), Some((v, k))) => refinements_view(v@) == g && k == j,
            (None, None) => true,
            _ => false,
        },
    decreases t@.len() - i,
{
    if i >= t.len() {
        return None;
    }
    if acc.len() > 0 && kind_is(t, i, AvKind::RBracket) {
        return Some((acc, i + 1));
    }
    if kind_is(t, i, AvKind::Ident) && kind_is(t, i + 1, AvKind::Eq) {
        match e_value(s, t, i + 2) {
            None => None,
            Some((v, j)) => {
                let r = ARefinement { param: text_of(s, t, i), value: v };
                if j <= i || j > t.len() {
                    None
                } else {
                    let mut acc = acc;
                    let ghost before = acc@;
                    acc.push(r);
                    assert(refinements_view(acc@) =~= refinements_view(before).push(refinement_view(r)));
                    if kind_is(t, j, AvKind::Comma) {
                        e_refs(s, t, j + 1, acc)
                    } else if kind_is(t, j, AvKind::RBracket) {
                        Some((acc, j + 1))
                    } else {
                        None
                    }
                }
            },
        }
    } else {
        None
    }
}

fn e_binding(s: &[char], t: &[AvTok], i: usize) -> (r: Option<(ABinding, usize)>)
    requires
        t@.len() < usize::MAX - 4,
        i <= t@.len(),
    ensures
        match (p_binding(s@, t@, i as int), r) {
            (Some((g, j)), Some((v, k))) => binding_view(v) == g && k == j,
            (None, None) => true,
            _ => false,
        },
{
    if !(kind_is(t, i, AvKind::Ident) && kind_is(t, i + 1, AvKind::Colon)) {
        return None;
    }
    let (ty, j) = match e_type_ann(s, t, i + 2) {
        None => {
            return None;
        },
        Some(x) => x,
    };
    let (refinements, k) = if kind_is(t, j, AvKind::LBracket) {
        let empty: Vec<ARefinement> = Vec::new();
        assert(refinements_view(empty@) =~= seq![]);
        match e_refs(s, t, j + 1, empty) {
            None => {
                return None;
            },
            Some((rs, k)) => (Some(rs), k),
        }
    } else {
        (None, j)
    };
    if !kind_is(t, k, AvKind::Eq) {
        return None;
    }
    match e_value(s, t, k + 1) {
        None => None,
        Some((value, m)) => Some((ABinding { name: text_of(s, t, i), ty, refinements, value }, m)),
    }
}

fn e_dirs(s: &[char], t: &[AvTok], i: usize, acc: Vec<ADirective>) -> (r: (Vec<ADirective>, usize))
    requires
        t@.len() < usize::MAX - 4,
        i <= t@.len(),
    ensures
        (directives_view(r.0@), r.1 as int) == p_dirs(s@, t@, i as int, directives_view(acc@)),
        r.1 <= t@.len(),
    decreases t@.len() - i,
{
    if i >= t.len() {
        return (acc, i);
    }
    if word_is(s, t, i, "depth") && kind_is(t, i + 1, AvKind::Num) {
        let mut acc = acc;
        let d = ADirective::Depth(text_of(s, t, i + 1));
        let ghost before = acc@;
        acc.push(d);
        assert(directives_view(acc@) =~= directives_view(before).push(directive_view(d)));
        e_dirs(s, t, i + 2, acc)
    } else if kind_is(t, i, AvKind::Num) && word_is(s, t, i + 1, "of") {
        let n = text_of(s, t, i);
        let mut acc = acc;
        let ghost before = acc@;
        match e_seed(s, t, i + 2) {
            Some((sd, j)) => {
                let d = ADirective::Take { n, seed: Some(sd) };
                acc.push(d);
                assert(directives_view(acc@) =~= directives_view(before).push(directive_view(d)));
                e_dirs(s, t, j, acc)
            },
            None => {
                let d = ADirective::Take { n, seed: None };
                acc.push(d);
                assert(directives_view(acc@) =~= directives_view(before).push(directive_view(d)));
                e_dirs(s, t, i + 2, acc)
            },
        }
    } else {
        (acc, i)
    }
}

fn e_bindings(s: &[char], t: &[AvTok], i: usize, acc: Vec<ABinding>) -> (r: Option<Vec<ABinding>>)
    requires
        t@.len() < usize::MAX - 4,
        i <= t@.len(),
    ensures
        match (p_bindings(s@, t@, i as int, bindings_view(acc@)), r) {
            (Some(g), Some(v)) => bindings_view(v@) == g,
            (None, None) => true,
            _ => false,
        },
    decreases t@.len() - i,
{
    if i == t.len() {
        if acc.len() > 0 {
            return Some(acc);
        } else {
            return None;
        }
    }
    match e_binding(s, t, i) {
        None => None,
        Some((b, j)) => {
            if j <= i || j > t.len() {
                None
            } else {
                let mut acc = acc;
                let ghost before = acc@;
                acc.push(b);
                assert(bindings_view(acc@) =~= bindings_view(before).push(binding_view(b)));
                e_bindings(s, t, j, acc)
            }
        },
    }
}

/// The AVBS parser, as a type for callers that name the grammar by its parser.
pub struct AvbsParser;

impl AvbsParser {
    /// Parse a whole AVBS program; the same as [`parse`].
    pub fn parse(text: &str) -> (r: Result<AProgram, String>)
        requires
            text@.len() < usize::MAX - 4,
        ensures
            r is Ok <==> program_s(text@) is Some,
            r is Ok ==> program_view(r->Ok_0) == program_s(text@)->0,
    {
        crate::avbs::parse(text)
    }
}

/// Parse an AVBS program: its leading directives and its bindings. The error
/// names the stage that failed.
pub fn parse(text: &str) -> (r: Result<AProgram, String>)
    requires
        text@.len() < usize::MAX - 4,
    ensures
        r is Ok <==> program_s(text@) is Some,
        r is Ok ==> program_view(r->Ok_0) == program_s(text@)->0,
{
    let chars = chars_of(text);
    let toks = match av_tokenize(chars.as_slice()) {
        Some(t) => t,
        None => {
            return Err(crate::text::owned("unexpected character or unclosed comment"));
        },
    };
    proof {
        lemma_av_lex_len(chars@, 0);
    }
    let s = chars.as_slice();
    let t = toks.as_slice();
    let no_dirs: Vec<ADirective> = Vec::new();
    assert(directives_view(no_dirs@) =~= seq![]);
    let (directives, i) = e_dirs(s, t, 0, no_dirs);
    let no_bindings: Vec<ABinding> = Vec::new();
    assert(bindings_view(no_bindings@) =~= seq![]);
    match e_bindings(s, t, i, no_bindings) {
        Some(bindings) => Ok(AProgram { directives, bindings }),
        None => Err(crate::text::owned("syntax error: expected `name: Type = value` bindings")),
    }
}

proof fn lemma_av_lex_len(s: Seq<char>, i: int)
    requires
        0 <= i <= s.len(),
        av_lex(s, i) is Some,
    ensures
        (av_lex(s, i)->0).len() <= s.len() - i,
    decreases s.len() - i,
{
    if i < s.len() {
        if is_ws(s[i]) {
            lemma_av_lex_len(s, i + 1);
        } else if s[i] == '#' || (s[i] == '/' && i + 1 < s.len() && s[i + 1] == '/') {
            lemma_line_end(s, i + 1);
            lemma_av_lex_len(s, line_end(s, i + 1));
        } else if s[i] == '/' && i + 1 < s.len() && s[i + 1] == '*' {
            lemma_block_end(s, i + 2);
            lemma_av_lex_len(s, block_end(s, i + 2)->0);
        } else if av_punct(s[i]) is Some {
            lemma_av_lex_len(s, i + 1);
        } else if av_word(s[i]) {
            lemma_av_word_end(s, i + 1);
            lemma_av_lex_len(s, av_word_end(s, i + 1));
        }
    }
}


// ───────────────────────────── lowering ─────────────────────────────

/// Role builtins wrap a concrete type; `List` / `Mains` belong to the
/// aggregation and consumer track.
pub open spec fn is_wrapper_name(n: Seq<char>) -> bool {
    n == "SortingAlgorithm"@ || n == "Selection"@ || n == "List"@ || n == "Mains"@
}

/// The role an algorithm wrapper gives its binding.
pub open spec fn wrapper_role(n: Seq<char>) -> Option<Seq<char>> {
    if n == "SortingAlgorithm"@ {
        Some("Sort"@)
    } else if n == "Selection"@ {
        Some("QuickSelect"@)
    } else {
        None
    }
}

pub open spec fn head_end(t: Seq<char>, i: int) -> int
    decreases t.len() - i,
{
    if i < 0 || i >= t.len() || t[i] == '<' || is_ws(t[i]) {
        i
    } else {
        head_end(t, i + 1)
    }
}

/// The leading identifier of a `type` template: `ShellSort<{seq}>` → `ShellSort`.
pub open spec fn type_head(tmpl: Seq<char>) -> Seq<char> {
    let t = trim(tmpl);
    t.take(head_end(t, 0))
}

/// The first component (in catalog order) whose type template has head `h`.
pub open spec fn head_from(reg: Seq<GComponent>, h: Seq<char>, i: int) -> Option<Seq<char>>
    decreases reg.len() - i,
{
    if i < 0 || i >= reg.len() {
        None
    } else if type_head(reg[i].type_tmpl) == h {
        Some(reg[i].name)
    } else {
        head_from(reg, h, i + 1)
    }
}

pub open spec fn head_comp(reg: Seq<GComponent>, h: Seq<char>) -> Option<Seq<char>> {
    head_from(reg, h, 0)
}

pub open spec fn num_usize(d: Seq<char>) -> Option<usize> {
    match parse_unsigned(d, usize::MAX as nat) {
        Some(v) => Some(v as usize),
        None => None,
    }
}

pub open spec fn num_u64(d: Seq<char>) -> Option<u64> {
    match parse_unsigned(d, u64::MAX as nat) {
        Some(v) => Some(v as u64),
        None => None,
    }
}

pub open spec fn seed_or_zero(seed: Option<Seq<char>>) -> Option<u64> {
    match seed {
        None => Some(0),
        Some(d) => num_u64(d),
    }
}

/// The quantifier a hole lowers to.
pub open spec fn quant_of(h: GHole) -> Option<Quant> {
    match h {
        GHole::Exhaustive => Some(Quant::Exhaustive),
        GHole::SampleOne { seed } => match seed_or_zero(seed) {
            Some(sd) => Some(Quant::One { seed: sd }),
            None => None,
        },
        GHole::SampleN { n, seed } => match (num_usize(n), seed_or_zero(seed)) {
            (Some(k), Some(sd)) => Some(Quant::N { n: k, seed: sd }),
            _ => None,
        },
    }
}

/// A value lowered onto the query language: the `where` union replaces the
/// hole it follows (and takes its quantifier); the capture binds the result.
pub open spec fn low_value(reg: Seq<GComponent>, v: GAValue) -> Option<GValue>
    decreases v,
{
    match low_unary(reg, v.terms) {
        None => None,
        Some(base) => {
            let with_alts = match v.alts {
                None => Some(base),
                Some(alts) => match base {
                    GValue::Hole(q) => match low_values(reg, alts) {
                        Some(ls) => Some(GValue::Where { quant: q, alts: ls }),
                        None => None,
                    },
                    _ => None,
                },
            };
            match with_alts {
                None => None,
                Some(w) => match v.capture {
                    Some(name) => Some(GValue::Capture { name, inner: Box::new(w) }),
                    None => Some(w),
                },
            }
        },
    }
}

pub open spec fn low_values(reg: Seq<GComponent>, vs: Seq<GAValue>) -> Option<Seq<GValue>>
    decreases vs,
{
    if vs.len() == 0 {
        Some(seq![])
    } else {
        match (low_values(reg, vs.drop_last()), low_value(reg, vs.last())) {
            (Some(a), Some(x)) => Some(a.push(x)),
            _ => None,
        }
    }
}

/// `base - s1 - s2 …` lowered to a difference node (or the base alone).
pub open spec fn low_unary(reg: Seq<GComponent>, ts: Seq<GTerm>) -> Option<GValue>
    decreases ts,
{
    if ts.len() == 0 {
        None
    } else {
        match low_term(reg, ts[0]) {
            None => None,
            Some(base) => if ts.len() == 1 {
                Some(base)
            } else {
                match low_subs(reg, ts.subrange(1, ts.len() as int)) {
                    Some(subs) => Some(GValue::Diff { base: Box::new(base), subtrahends: subs }),
                    None => None,
                }
            },
        }
    }
}

/// The subtrahends: a `{…}` set literal becomes a set node, anything else a
/// term.
pub open spec fn low_subs(reg: Seq<GComponent>, ts: Seq<GTerm>) -> Option<Seq<GValue>>
    decreases ts,
{
    if ts.len() == 0 {
        Some(seq![])
    } else {
        let x = match ts.last() {
            GTerm::SetLit(vs) => match low_values(reg, vs) {
                Some(ls) => Some(GValue::SetLit(ls)),
                None => None,
            },
            _ => low_term(reg, ts.last()),
        };
        match (low_subs(reg, ts.drop_last()), x) {
            (Some(a), Some(y)) => Some(a.push(y)),
            _ => None,
        }
    }
}

pub open spec fn low_term(reg: Seq<GComponent>, t: GTerm) -> Option<GValue>
    decreases t,
{
    match t {
        GTerm::Hole(h) => match quant_of(h) {
            Some(q) => Some(GValue::Hole(q)),
            None => None,
        },
        GTerm::Literal(x) => Some(GValue::Const(x)),
        GTerm::Group(v) => low_value(reg, *v),
        GTerm::SetLit(_) => None,
        GTerm::ListLit(_) => None,
        GTerm::App { head, args } => match args {
            None => if is_wrapper_name(head) {
                None
            } else {
                match head_comp(reg, head) {
                    Some(c) => Some(GValue::Ident(c)),
                    None => Some(GValue::Ident(head)),
                }
            },
            Some(a) => if is_wrapper_name(head) {
                match low_wrap_args(reg, a) {
                    Some(la) => Some(GValue::App { name: head, args: la }),
                    None => None,
                }
            } else {
                match head_comp(reg, head) {
                    None => None,
                    Some(c) => match find(reg, c) {
                        None => None,
                        Some(k) => match (low_named(reg, a), low_pos(reg, a, free_params(reg[k].params, named_of(a)))) {
                            (Some(n), Some(p)) => Some(GValue::App { name: c, args: n + p }),
                            _ => None,
                        },
                    },
                }
            },
        },
    }
}

/// A wrapper's arguments: each a positional type.
pub open spec fn low_wrap_args(reg: Seq<GComponent>, a: Seq<GAArg>) -> Option<Seq<GQArg>>
    decreases a,
{
    if a.len() == 0 {
        Some(seq![])
    } else {
        match a.last() {
            GAArg::Pos(v) => match (low_wrap_args(reg, a.drop_last()), low_value(reg, v)) {
                (Some(x), Some(y)) => Some(x.push(GQArg::Pos(y))),
                _ => None,
            },
            GAArg::Named { .. } => None,
        }
    }
}

/// The names given to named arguments.
pub open spec fn named_of(a: Seq<GAArg>) -> Seq<Seq<char>>
    decreases a.len(),
{
    if a.len() == 0 {
        seq![]
    } else {
        match a.last() {
            GAArg::Named { name, .. } => named_of(a.drop_last()).push(name),
            GAArg::Pos(_) => named_of(a.drop_last()),
        }
    }
}

/// The parameters not already named, in declaration order.
pub open spec fn free_params(ps: Seq<GParam>, named: Seq<Seq<char>>) -> Seq<Seq<char>>
    decreases ps.len(),
{
    if ps.len() == 0 {
        seq![]
    } else if named.contains(ps.last().name) {
        free_params(ps.drop_last(), named)
    } else {
        free_params(ps.drop_last(), named).push(ps.last().name)
    }
}

/// The named arguments, in order, lowered.
pub open spec fn low_named(reg: Seq<GComponent>, a: Seq<GAArg>) -> Option<Seq<GQArg>>
    decreases a,
{
    if a.len() == 0 {
        Some(seq![])
    } else {
        match a.last() {
            GAArg::Named { name, value } => match (low_named(reg, a.drop_last()), low_value(reg, value)) {
                (Some(x), Some(y)) => Some(x.push(GQArg::Named { name, value: y })),
                _ => None,
            },
            GAArg::Pos(_) => low_named(reg, a.drop_last()),
        }
    }
}

/// The positional arguments bound, in order, to the parameters `free`;
/// more positional arguments than free parameters is an error.
pub open spec fn low_pos(reg: Seq<GComponent>, a: Seq<GAArg>, free: Seq<Seq<char>>) -> Option<Seq<GQArg>>
    decreases a,
{
    if a.len() == 0 {
        Some(seq![])
    } else {
        match a[0] {
            GAArg::Named { .. } => low_pos(reg, a.subrange(1, a.len() as int), free),
            GAArg::Pos(v) => if free.len() == 0 {
                None
            } else {
                match (low_value(reg, v), low_pos(reg, a.subrange(1, a.len() as int), free.subrange(1, free.len() as int))) {
                    (Some(x), Some(rest)) => Some(seq![GQArg::Named { name: free[0], value: x }] + rest),
                    _ => None,
                }
            },
        }
    }
}


// ───────────────────────────── lowering, executable ─────────────────────────────

fn owned_s(x: &str) -> (r: String)
    ensures
        r@ == x@,
{
    crate::text::owned(x)
}

fn copy_s(x: &String) -> (r: String)
    ensures
        r@ == x@,
{
    crate::text::copy_string(x)
}

fn is_wrapper_exec(n: &String) -> (r: bool)
    ensures
        r == is_wrapper_name(n@),
{
    string_is(n, "SortingAlgorithm") || string_is(n, "Selection") || string_is(n, "List") || string_is(n, "Mains")
}

fn wrapper_role_exec(n: &String) -> (r: Result<String, String>)
    ensures
        match wrapper_role(n@) {
            Some(x) => r is Ok && r->Ok_0@ == x,
            None => r is Err,
        },
{
    if string_is(n, "SortingAlgorithm") {
        Ok(owned_s("Sort"))
    } else if string_is(n, "Selection") {
        Ok(owned_s("QuickSelect"))
    } else {
        let mut m = owned_s("`");
        crate::text::push_str(&mut m, n.as_str());
        crate::text::push_str(&mut m, "<…>` is not lowerable yet (lists/consumers)");
        Err(m)
    }
}

/// The leading identifier of a `type` template.
pub fn type_head_exec(tmpl: &String) -> (r: String)
    ensures
        r@ == type_head(tmpl@),
{
    let c = chars_of(tmpl.as_str());
    let t = trim_chars(c.as_slice());
    let mut i: usize = 0;
    while i < t.len() && t[i] != '<' && !is_whitespace(t[i])
        invariant
            i <= t@.len(),
            head_end(t@, 0) == head_end(t@, i as int),
        decreases t@.len() - i,
    {
        i = i + 1;
    }
    let mut out = String::new();
    let mut k: usize = 0;
    while k < i
        invariant
            k <= i <= t@.len(),
            out@ == t@.take(k as int),
        decreases i - k,
    {
        push_char(&mut out, t[k]);
        k = k + 1;
        assert(out@ =~= t@.take(k as int));
    }
    out
}

/// The component whose type head is `h`, first in catalog order.
fn head_comp_exec(reg: &Registry, h: &String) -> (r: Option<String>)
    ensures
        ostr_view(r) == head_comp(reg@, h@),
{
    let cs = reg.iter();
    let mut i: usize = 0;
    while i < cs.len()
        invariant
            i <= cs@.len(),
            comps_view(cs@) == reg@,
            head_comp(reg@, h@) == head_from(reg@, h@, i as int),
        decreases cs@.len() - i,
    {
        let th = type_head_exec(&cs[i].type_tmpl);
        assert(reg@[i as int] == comp_view(cs@[i as int]));
        if string_is(&th, h.as_str()) {
            return Some(copy_s(&cs[i].name));
        }
        i = i + 1;
    }
    None
}

fn num_usize_exec(d: &String) -> (r: Result<usize, String>)
    ensures
        match num_usize(d@) {
            Some(v) => r is Ok && r->Ok_0 == v,
            None => r is Err,
        },
{
    let c = chars_of(d.as_str());
    match parse_u128(c.as_slice()) {
        Some(v) => {
            if v <= usize::MAX as u128 {
                Ok(v as usize)
            } else {
                Err(bad_integer(d))
            }
        },
        None => Err(bad_integer(d)),
    }
}

fn num_u64_exec(d: &String) -> (r: Result<u64, String>)
    ensures
        match num_u64(d@) {
            Some(v) => r is Ok && r->Ok_0 == v,
            None => r is Err,
        },
{
    let c = chars_of(d.as_str());
    match parse_u128(c.as_slice()) {
        Some(v) => {
            if v <= u64::MAX as u128 {
                Ok(v as u64)
            } else {
                Err(bad_integer(d))
            }
        },
        None => Err(bad_integer(d)),
    }
}

fn bad_integer(d: &String) -> (r: String)
    ensures
        r@ == "bad integer `"@ + d@ + "`"@,
{
    let mut m = owned_s("bad integer `");
    crate::text::push_str(&mut m, d.as_str());
    crate::text::push_str(&mut m, "`");
    m
}

fn seed_exec(seed: &Option<String>) -> (r: Result<u64, String>)
    ensures
        match seed_or_zero(ostr_view(*seed)) {
            Some(v) => r is Ok && r->Ok_0 == v,
            None => r is Err,
        },
{
    match seed {
        None => Ok(0),
        Some(d) => num_u64_exec(d),
    }
}

fn quant_exec(h: &AHole) -> (r: Result<Quant, String>)
    ensures
        match quant_of(hole_view(*h)) {
            Some(q) => r is Ok && r->Ok_0 == q,
            None => r is Err,
        },
{
    match h {
        AHole::Exhaustive => Ok(Quant::Exhaustive),
        AHole::SampleOne { seed } => {
            let sd = seed_exec(seed)?;
            Ok(Quant::One { seed: sd })
        },
        AHole::SampleN { n, seed } => {
            let k = num_usize_exec(n)?;
            let sd = seed_exec(seed)?;
            Ok(Quant::N { n: k, seed: sd })
        },
    }
}


proof fn lemma_terms_index(ts: Seq<ATerm>)
    ensures
        terms_view(ts).len() == ts.len(),
        forall|i: int| 0 <= i < ts.len() ==> #[trigger] terms_view(ts)[i] == term_view(ts[i]),
    decreases ts.len(),
{
    if ts.len() > 0 {
        lemma_terms_index(ts.drop_last());
    }
}

proof fn lemma_avals_index(vs: Seq<AValue>)
    ensures
        avals_view(vs).len() == vs.len(),
        forall|i: int| 0 <= i < vs.len() ==> #[trigger] avals_view(vs)[i] == aval_view(vs[i]),
    decreases vs.len(),
{
    if vs.len() > 0 {
        lemma_avals_index(vs.drop_last());
    }
}

proof fn lemma_aargs_index(a: Seq<AArg>)
    ensures
        aargs_view(a).len() == a.len(),
        forall|i: int| 0 <= i < a.len() ==> #[trigger] aargs_view(a)[i] == aarg_view(a[i]),
    decreases a.len(),
{
    if a.len() > 0 {
        lemma_aargs_index(a.drop_last());
    }
}

proof fn lemma_avals_take(vs: Seq<AValue>, k: int)
    requires
        0 <= k <= vs.len(),
    ensures
        avals_view(vs.take(k)) == avals_view(vs).take(k),
        avals_view(vs).len() == vs.len(),
{
    lemma_avals_index(vs);
    lemma_avals_index(vs.take(k));
    assert(avals_view(vs.take(k)) =~= avals_view(vs).take(k));
}

proof fn lemma_aargs_take(a: Seq<AArg>, k: int)
    requires
        0 <= k <= a.len(),
    ensures
        aargs_view(a.take(k)) == aargs_view(a).take(k),
        aargs_view(a).len() == a.len(),
{
    lemma_aargs_index(a);
    lemma_aargs_index(a.take(k));
    assert(aargs_view(a.take(k)) =~= aargs_view(a).take(k));
}

pub open spec fn prepend_args(p: Seq<GQArg>, o: Option<Seq<GQArg>>) -> Option<Seq<GQArg>> {
    match o {
        Some(r) => Some(p + r),
        None => None,
    }
}

/// A value lowered onto the query language.
pub fn lower_value(reg: &Registry, v: &AValue) -> (r: Result<QValue, String>)
    ensures
        match low_value(reg@, aval_view(*v)) {
            Some(g) => r is Ok && value_view(r->Ok_0) == g,
            None => r is Err,
        },
    decreases v,
{
    let ghost gv = aval_view(*v);
    let base = match lower_unary(reg, &v.terms) {
        Ok(b) => b,
        Err(e) => {
            assert(low_unary(reg@, gv.terms) is None);
            return Err(e);
        },
    };
    assert(low_unary(reg@, gv.terms) == Some(value_view(base)));
    let w = match &v.alts {
        None => base,
        Some(alts) => match base {
            QValue::Hole(q) => {
                let ls = match lower_values(reg, alts) {
                    Ok(ls) => ls,
                    Err(e) => {
                        assert(low_values(reg@, avals_view(alts@)) is None);
                        return Err(e);
                    },
                };
                QValue::Where { quant: q, alts: ls }
            },
            _ => {
                assert(!(value_view(base) is Hole));
                return Err(owned_s("`where ( … )` requires a hole base, e.g. `_ where ( … )` or `?3 where ( … )`"));
            },
        },
    };
    let ghost with_alts = match gv.alts {
        None => Some(value_view(base)),
        Some(alts) => match value_view(base) {
            GValue::Hole(q) => match low_values(reg@, alts) {
                Some(ls) => Some(GValue::Where { quant: q, alts: ls }),
                None => None,
            },
            _ => None,
        },
    };
    assert(with_alts == Some(value_view(w)));
    match &v.capture {
        Some(name) => {
            let r = QValue::Capture { name: copy_s(name), inner: Box::new(w) };
            assert(value_view(r) == GValue::Capture { name: name@, inner: Box::new(value_view(w)) });
            Ok(r)
        },
        None => Ok(w),
    }
}

fn lower_values(reg: &Registry, vs: &Vec<AValue>) -> (r: Result<Vec<QValue>, String>)
    ensures
        match low_values(reg@, avals_view(vs@)) {
            Some(g) => r is Ok && values_view(r->Ok_0@) == g,
            None => r is Err,
        },
    decreases vs,
{
    let mut out: Vec<QValue> = Vec::new();
    let mut i: usize = 0;
    proof {
        lemma_avals_index(vs@);
        assert(vs@.take(0) =~= Seq::<AValue>::empty());
        assert(values_view(out@) =~= seq![]);
    }
    while i < vs.len()
        invariant
            i <= vs@.len(),
            low_values(reg@, avals_view(vs@.take(i as int))) == Some(values_view(out@)),
        decreases vs@.len() - i,
    {
        proof {
            assert(vs@.take(i + 1) =~= vs@.take(i as int).push(vs@[i as int]));
            lemma_avals_push(vs@.take(i as int), vs@[i as int]);
            assert(avals_view(vs@.take(i + 1)).drop_last() =~= avals_view(vs@.take(i as int)));
        }
        match lower_value(reg, &vs[i]) {
            Ok(x) => {
                proof {
                    lemma_values_view_push(out@, x);
                }
                out.push(x);
            },
            Err(e) => {
                proof {
                    lemma_avals_take(vs@, i + 1);
                    lemma_values_none(reg@, avals_view(vs@), i + 1);
                }
                return Err(e);
            },
        }
        i = i + 1;
    }
    assert(vs@.take(i as int) =~= vs@);
    Ok(out)
}

fn lower_unary(reg: &Registry, ts: &Vec<ATerm>) -> (r: Result<QValue, String>)
    ensures
        match low_unary(reg@, terms_view(ts@)) {
            Some(g) => r is Ok && value_view(r->Ok_0) == g,
            None => r is Err,
        },
    decreases ts,
{
    proof {
        lemma_terms_index(ts@);
    }
    if ts.len() == 0 {
        return Err(owned_s("empty value"));
    }
    let base = lower_term(reg, &ts[0])?;
    if ts.len() == 1 {
        return Ok(base);
    }
    let ghost tv = terms_view(ts@);
    let mut subs: Vec<QValue> = Vec::new();
    let mut k: usize = 1;
    assert(tv.subrange(1, 1) =~= Seq::<GTerm>::empty());
    assert(values_view(subs@) =~= seq![]);
    while k < ts.len()
        invariant
            1 <= k <= ts@.len(),
            tv == terms_view(ts@),
            tv.len() == ts@.len(),
            forall|i: int| 0 <= i < ts@.len() ==> #[trigger] tv[i] == term_view(ts@[i]),
            low_subs(reg@, tv.subrange(1, k as int)) == Some(values_view(subs@)),
        decreases ts@.len() - k,
    {
        assert(tv.subrange(1, k + 1).drop_last() =~= tv.subrange(1, k as int));
        assert(tv.subrange(1, k + 1).last() == tv[k as int]);
        proof {
            let sub = tv.subrange(1, tv.len() as int);
            assert(sub.take(k as int) =~= tv.subrange(1, k + 1));
        }
        let x = match &ts[k] {
            ATerm::SetLit(vs) => match lower_values(reg, vs) {
                Ok(ls) => QValue::SetLit(ls),
                Err(e) => {
                    proof {
                        lemma_subs_none(reg@, tv.subrange(1, tv.len() as int), k as int);
                    }
                    return Err(e);
                },
            },
            _ => match lower_term(reg, &ts[k]) {
                Ok(y) => y,
                Err(e) => {
                    proof {
                        lemma_subs_none(reg@, tv.subrange(1, tv.len() as int), k as int);
                    }
                    return Err(e);
                },
            },
        };
        proof {
            lemma_values_view_push(subs@, x);
        }
        subs.push(x);
        k = k + 1;
    }
    assert(tv.subrange(1, k as int) =~= tv.subrange(1, tv.len() as int));
    Ok(QValue::Diff { base: Box::new(base), subtrahends: subs })
}

fn lower_term(reg: &Registry, t: &ATerm) -> (r: Result<QValue, String>)
    ensures
        match low_term(reg@, term_view(*t)) {
            Some(g) => r is Ok && value_view(r->Ok_0) == g,
            None => r is Err,
        },
    decreases t,
{
    match t {
        ATerm::Hole(h) => {
            let q = quant_exec(h)?;
            Ok(QValue::Hole(q))
        },
        ATerm::Literal(x) => Ok(QValue::Const(copy_s(x))),
        ATerm::Group(v) => lower_value(reg, v),
        ATerm::SetLit(_) => Err(owned_s("set/list literals are only meaningful after `-`")),
        ATerm::ListLit(_) => Err(owned_s("set/list literals are only meaningful after `-`")),
        ATerm::App { head, args } => lower_application(reg, head, args),
    }
}

/// An application lowered: a role wrapper keeps its name and its positional
/// type arguments; any other head resolves to the catalog component with that
/// type head (a bare unknown name stays a variable reference), whose named
/// arguments pass through and whose positional ones bind, in order, to the
/// parameters not named.
fn lower_application(reg: &Registry, head: &String, args: &Option<Vec<AArg>>) -> (r: Result<QValue, String>)
    ensures
        match low_term(reg@, GTerm::App { head: head@, args: match *args {
            Some(a) => Some(aargs_view(a@)),
            None => None,
        } }) {
            Some(g) => r is Ok && value_view(r->Ok_0) == g,
            None => r is Err,
        },
    decreases args,
{
    let is_wrap = is_wrapper_exec(head);
    match args {
        None => {
            if is_wrap {
                let mut m = owned_s("`");
                crate::text::push_str(&mut m, head.as_str());
                crate::text::push_str(&mut m, "<…>` needs a type argument");
                return Err(m);
            }
            match head_comp_exec(reg, head) {
                Some(c) => Ok(QValue::Ident(c)),
                None => Ok(QValue::Ident(copy_s(head))),
            }
        },
        Some(a) => {
            if is_wrap {
                let la = lower_wrap_args(reg, a)?;
                return Ok(QValue::App { name: copy_s(head), args: la });
            }
            let c = match head_comp_exec(reg, head) {
                Some(c) => c,
                None => {
                    let mut m = owned_s("unknown component `");
                    crate::text::push_str(&mut m, head.as_str());
                    crate::text::push_str(&mut m, "` — no catalog type has that head");
                    return Err(m);
                },
            };
            let comp = match reg.get(c.as_str()) {
                Some(comp) => comp,
                None => {
                    return Err(owned_s("component not in catalog"));
                },
            };
            let named = lower_named(reg, a)?;
            let names = named_of_exec(a);
            let free = free_params_exec(comp, &names);
            let pos = lower_pos(reg, a, &free)?;
            let mut out = named;
            let ghost nv = qargs_view(out@);
            let mut i: usize = 0;
            while i < pos.len()
                invariant
                    i <= pos@.len(),
                    qargs_view(out@) == nv + qargs_view(pos@.take(i as int)),
                decreases pos@.len() - i,
            {
                let q = copy_qarg(&pos[i]);
                proof {
                    assert(pos@.take(i + 1) =~= pos@.take(i as int).push(pos@[i as int]));
                    lemma_qargs_view_push(pos@.take(i as int), pos@[i as int]);
                    lemma_qargs_view_push(out@, q);
                    assert((nv + qargs_view(pos@.take(i as int))).push(crate::spec_lang::qarg_view(q)) =~= nv
                        + qargs_view(pos@.take(i as int)).push(crate::spec_lang::qarg_view(q)));
                }
                out.push(q);
                i = i + 1;
            }
            assert(pos@.take(i as int) =~= pos@);
            Ok(QValue::App { name: c, args: out })
        },
    }
}

fn copy_qarg(a: &QArg) -> (r: QArg)
    ensures
        crate::spec_lang::qarg_view(r) == crate::spec_lang::qarg_view(*a),
{
    match a {
        QArg::Named { name, value } => QArg::Named { name: copy_s(name), value: crate::spec_lang::copy_value(value) },
        QArg::Pos(v) => QArg::Pos(crate::spec_lang::copy_value(v)),
    }
}

fn lower_wrap_args(reg: &Registry, a: &Vec<AArg>) -> (r: Result<Vec<QArg>, String>)
    ensures
        match low_wrap_args(reg@, aargs_view(a@)) {
            Some(g) => r is Ok && qargs_view(r->Ok_0@) == g,
            None => r is Err,
        },
    decreases a,
{
    let mut out: Vec<QArg> = Vec::new();
    let mut i: usize = 0;
    proof {
        lemma_aargs_index(a@);
        assert(a@.take(0) =~= Seq::<AArg>::empty());
        assert(qargs_view(out@) =~= seq![]);
    }
    while i < a.len()
        invariant
            i <= a@.len(),
            low_wrap_args(reg@, aargs_view(a@.take(i as int))) == Some(qargs_view(out@)),
        decreases a@.len() - i,
    {
        proof {
            assert(a@.take(i + 1) =~= a@.take(i as int).push(a@[i as int]));
            lemma_aargs_push(a@.take(i as int), a@[i as int]);
        }
        proof {
            assert(aargs_view(a@.take(i + 1)).drop_last() =~= aargs_view(a@.take(i as int)));
            lemma_aargs_take(a@, i + 1);
        }
        match &a[i] {
            AArg::Pos(v) => {
                match lower_value(reg, v) {
                    Ok(x) => {
                        proof {
                            lemma_qargs_view_push(out@, QArg::Pos(x));
                        }
                        out.push(QArg::Pos(x));
                    },
                    Err(e) => {
                        proof {
                            lemma_wrap_args_none(reg@, aargs_view(a@), i + 1);
                        }
                        return Err(e);
                    },
                }
            },
            AArg::Named { .. } => {
                proof {
                    assert(low_wrap_args(reg@, aargs_view(a@.take(i + 1))) is None);
                    lemma_wrap_args_none(reg@, aargs_view(a@), i + 1);
                }
                return Err(owned_s("a role wrapper takes a positional type argument"));
            },
        }
        i = i + 1;
    }
    assert(a@.take(i as int) =~= a@);
    Ok(out)
}

proof fn lemma_values_none(reg: Seq<GComponent>, a: Seq<GAValue>, k: int)
    requires
        0 <= k <= a.len(),
        low_values(reg, a.take(k)) is None,
    ensures
        low_values(reg, a) is None,
    decreases a.len() - k,
{
    if k < a.len() {
        assert(a.take(k + 1).drop_last() =~= a.take(k));
        lemma_values_none(reg, a, k + 1);
    } else {
        assert(a.take(k) =~= a);
    }
}

proof fn lemma_subs_none(reg: Seq<GComponent>, a: Seq<GTerm>, k: int)
    requires
        0 <= k <= a.len(),
        low_subs(reg, a.take(k)) is None,
    ensures
        low_subs(reg, a) is None,
    decreases a.len() - k,
{
    if k < a.len() {
        assert(a.take(k + 1).drop_last() =~= a.take(k));
        lemma_subs_none(reg, a, k + 1);
    } else {
        assert(a.take(k) =~= a);
    }
}

proof fn lemma_wrap_args_none(reg: Seq<GComponent>, a: Seq<GAArg>, k: int)
    requires
        0 <= k <= a.len(),
        low_wrap_args(reg, a.take(k)) is None,
    ensures
        low_wrap_args(reg, a) is None,
    decreases a.len() - k,
{
    if k < a.len() {
        assert(a.take(k + 1).drop_last() =~= a.take(k));
        lemma_wrap_args_none(reg, a, k + 1);
    } else {
        assert(a.take(k) =~= a);
    }
}


fn lower_named(reg: &Registry, a: &Vec<AArg>) -> (r: Result<Vec<QArg>, String>)
    ensures
        match low_named(reg@, aargs_view(a@)) {
            Some(g) => r is Ok && qargs_view(r->Ok_0@) == g,
            None => r is Err,
        },
    decreases a,
{
    let mut out: Vec<QArg> = Vec::new();
    let mut i: usize = 0;
    proof {
        lemma_aargs_index(a@);
        assert(a@.take(0) =~= Seq::<AArg>::empty());
        assert(qargs_view(out@) =~= seq![]);
    }
    while i < a.len()
        invariant
            i <= a@.len(),
            low_named(reg@, aargs_view(a@.take(i as int))) == Some(qargs_view(out@)),
        decreases a@.len() - i,
    {
        proof {
            assert(a@.take(i + 1) =~= a@.take(i as int).push(a@[i as int]));
            lemma_aargs_push(a@.take(i as int), a@[i as int]);
            assert(aargs_view(a@.take(i + 1)).drop_last() =~= aargs_view(a@.take(i as int)));
        }
        match &a[i] {
            AArg::Named { name, value } => {
                match lower_value(reg, value) {
                    Ok(x) => {
                        let q = QArg::Named { name: copy_s(name), value: x };
                        proof {
                            lemma_qargs_view_push(out@, q);
                        }
                        out.push(q);
                    },
                    Err(e) => {
                        proof {
                            lemma_aargs_take(a@, i + 1);
                            assert(aargs_view(a@.take(i + 1)).drop_last() =~= aargs_view(a@.take(i as int)));
                            lemma_named_none(reg@, aargs_view(a@), i + 1);
                        }
                        return Err(e);
                    },
                }
            },
            AArg::Pos(_) => {},
        }
        i = i + 1;
    }
    assert(a@.take(i as int) =~= a@);
    Ok(out)
}

proof fn lemma_named_none(reg: Seq<GComponent>, a: Seq<GAArg>, k: int)
    requires
        0 <= k <= a.len(),
        low_named(reg, a.take(k)) is None,
    ensures
        low_named(reg, a) is None,
    decreases a.len() - k,
{
    if k < a.len() {
        assert(a.take(k + 1).drop_last() =~= a.take(k));
        lemma_named_none(reg, a, k + 1);
    } else {
        assert(a.take(k) =~= a);
    }
}

fn named_of_exec(a: &Vec<AArg>) -> (r: Vec<String>)
    ensures
        crate::text::string_views(r@) == named_of(aargs_view(a@)),
{
    let mut out: Vec<String> = Vec::new();
    let mut i: usize = 0;
    proof {
        lemma_aargs_index(a@);
        assert(a@.take(0) =~= Seq::<AArg>::empty());
        assert(crate::text::string_views(out@) =~= seq![]);
    }
    while i < a.len()
        invariant
            i <= a@.len(),
            named_of(aargs_view(a@.take(i as int))) == crate::text::string_views(out@),
        decreases a@.len() - i,
    {
        proof {
            assert(a@.take(i + 1) =~= a@.take(i as int).push(a@[i as int]));
            lemma_aargs_push(a@.take(i as int), a@[i as int]);
            assert(aargs_view(a@.take(i + 1)).drop_last() =~= aargs_view(a@.take(i as int)));
        }
        match &a[i] {
            AArg::Named { name, .. } => {
                let n = copy_s(name);
                proof {
                    crate::text::lemma_string_views_push(out@, n);
                }
                out.push(n);
            },
            AArg::Pos(_) => {},
        }
        i = i + 1;
    }
    assert(a@.take(i as int) =~= a@);
    out
}

fn contains_name(v: &Vec<String>, x: &String) -> (r: bool)
    ensures
        r == crate::text::string_views(v@).contains(x@),
{
    crate::resolve::contains_string(v, x)
}

fn free_params_exec(comp: &Component, names: &Vec<String>) -> (r: Vec<String>)
    ensures
        crate::text::string_views(r@) == free_params(params_view(comp.params@), crate::text::string_views(names@)),
{
    let ps = &comp.params;
    let ghost pv = params_view(ps@);
    let ghost nv = crate::text::string_views(names@);
    let mut out: Vec<String> = Vec::new();
    let mut i: usize = 0;
    assert(pv.take(0) =~= Seq::<GParam>::empty());
    assert(crate::text::string_views(out@) =~= seq![]);
    while i < ps.len()
        invariant
            i <= ps@.len(),
            pv == params_view(ps@),
            nv == crate::text::string_views(names@),
            free_params(pv.take(i as int), nv) == crate::text::string_views(out@),
        decreases ps@.len() - i,
    {
        assert(pv.take(i + 1).drop_last() =~= pv.take(i as int));
        assert(pv.take(i + 1).last() == crate::registry::param_view(ps@[i as int]));
        if !contains_name(names, &ps[i].name) {
            let n = copy_s(&ps[i].name);
            proof {
                crate::text::lemma_string_views_push(out@, n);
            }
            out.push(n);
        }
        i = i + 1;
    }
    assert(pv.take(i as int) =~= pv);
    out
}

fn lower_pos(reg: &Registry, a: &Vec<AArg>, free: &Vec<String>) -> (r: Result<Vec<QArg>, String>)
    ensures
        match low_pos(reg@, aargs_view(a@), crate::text::string_views(free@)) {
            Some(g) => r is Ok && qargs_view(r->Ok_0@) == g,
            None => r is Err,
        },
    decreases a,
{
    let ghost av = aargs_view(a@);
    let ghost fv = crate::text::string_views(free@);
    let mut out: Vec<QArg> = Vec::new();
    let mut i: usize = 0;
    let mut f: usize = 0;
    proof {
        lemma_aargs_index(a@);
        assert(av.subrange(0, av.len() as int) =~= av);
        assert(fv.subrange(0, fv.len() as int) =~= fv);
        assert(qargs_view(out@) =~= seq![]);
        assert(prepend_args(seq![], low_pos(reg@, av, fv)) == low_pos(reg@, av, fv)) by {
            match low_pos(reg@, av, fv) {
                Some(x) => {
                    assert(Seq::<GQArg>::empty() + x =~= x);
                },
                None => {},
            }
        }
    }
    while i < a.len()
        invariant
            i <= a@.len(),
            f <= free@.len(),
            av == aargs_view(a@),
            av.len() == a@.len(),
            forall|k: int| 0 <= k < a@.len() ==> #[trigger] av[k] == aarg_view(a@[k]),
            fv == crate::text::string_views(free@),
            fv.len() == free@.len(),
            low_pos(reg@, av, fv) == prepend_args(
                qargs_view(out@),
                low_pos(reg@, av.subrange(i as int, av.len() as int), fv.subrange(f as int, fv.len() as int)),
            ),
        decreases a@.len() - i,
    {
        let ghost rest = av.subrange(i as int, av.len() as int);
        let ghost rf = fv.subrange(f as int, fv.len() as int);
        assert(rest[0] == av[i as int]);
        assert(rest.subrange(1, rest.len() as int) =~= av.subrange(i + 1, av.len() as int));
        match &a[i] {
            AArg::Named { .. } => {},
            AArg::Pos(v) => {
                if f >= free.len() {
                    proof {
                        assert(rf.len() == 0);
                    }
                    let mut m = owned_s("too many positional args");
                    return Err(m);
                }
                assert(rf[0] == fv[f as int]);
                assert(rf.subrange(1, rf.len() as int) =~= fv.subrange(f + 1, fv.len() as int));
                match lower_value(reg, v) {
                    Ok(x) => {
                        let q = QArg::Named { name: copy_s(&free[f]), value: x };
                        proof {
                            lemma_qargs_view_push(out@, q);
                            assert(fv[f as int] == free@[f as int]@);
                            match low_pos(reg@, av.subrange(i + 1, av.len() as int), fv.subrange(f + 1, fv.len() as int)) {
                                Some(tail) => {
                                    assert(qargs_view(out@).push(crate::spec_lang::qarg_view(q)) + tail =~= qargs_view(out@) + (seq![crate::spec_lang::qarg_view(q)] + tail));
                                },
                                None => {},
                            }
                        }
                        out.push(q);
                        f = f + 1;
                    },
                    Err(e) => {
                        return Err(e);
                    },
                }
            },
        }
        i = i + 1;
    }
    proof {
        assert(av.subrange(i as int, av.len() as int).len() == 0);
        assert(qargs_view(out@) + Seq::<GQArg>::empty() =~= qargs_view(out@));
    }
    Ok(out)
}


// ───────────────────────────── bindings and programs ─────────────────────────────

pub open spec fn low_refs(reg: Seq<GComponent>, rs: Seq<GARefinement>) -> Option<Seq<GRefinement>>
    decreases rs.len(),
{
    if rs.len() == 0 {
        Some(seq![])
    } else {
        match (low_refs(reg, rs.drop_last()), low_value(reg, rs.last().value)) {
            (Some(a), Some(v)) => Some(a.push(GRefinement { param: rs.last().param, value: v })),
            _ => None,
        }
    }
}

/// The binding role its annotation names, for a value that is not a role
/// wrapper: a bare role, or a wrapper's role; `_` names none.
pub open spec fn role_from_type(ty: Seq<GType>) -> Option<Seq<char>> {
    if ty.len() == 0 {
        None
    } else {
        match ty[0] {
            GType::Underscore => None,
            GType::App { head, .. } => if is_wrapper_name(head) {
                wrapper_role(head)
            } else {
                Some(head)
            },
        }
    }
}

/// A binding lowered, and whether it is emittable: a value wrapped in a role
/// builtin (`SortingAlgorithm<X>`) becomes the binding's role and inner
/// value; any other value keeps the role its annotation names.
pub open spec fn low_binding(reg: Seq<GComponent>, b: GABinding) -> Option<(GBinding, bool)> {
    let refs = match b.refinements {
        Some(rs) => low_refs(reg, rs),
        None => Some(seq![]),
    };
    match (refs, low_value(reg, b.value)) {
        (Some(rf), Some(v)) => {
            let plain = match role_from_type(b.ty) {
                Some(role) => Some((GBinding { name: b.name, role, refinements: rf, value: v }, false)),
                None => None,
            };
            match v {
                GValue::App { name: w, args } => if is_wrapper_name(w) {
                    match wrapper_role(w) {
                        Some(role) => if args.len() == 0 {
                            None
                        } else {
                            let inner = match args[0] {
                                GQArg::Pos(x) => x,
                                GQArg::Named { value, .. } => value,
                            };
                            Some((GBinding { name: b.name, role, refinements: rf, value: inner }, true))
                        },
                        None => None,
                    }
                } else {
                    plain
                },
                _ => plain,
            }
        },
        _ => None,
    }
}

/// The recursion bound and `N of` sampler after the directives, in order.
pub open spec fn dir_state(ds: Seq<GDirective>) -> Option<(usize, Option<Take>)>
    decreases ds.len(),
{
    if ds.len() == 0 {
        Some((DEFAULT_DEPTH, None))
    } else {
        match dir_state(ds.drop_last()) {
            None => None,
            Some((d, t)) => match ds.last() {
                GDirective::Depth(n) => match num_usize(n) {
                    Some(k) => Some((k, t)),
                    None => None,
                },
                GDirective::Take { n, seed } => match (num_usize(n), seed_or_zero(seed)) {
                    (Some(k), Some(sd)) => Some((d, Some(Take { n: k, seed: sd }))),
                    _ => None,
                },
            },
        }
    }
}

/// One query per binding, each under the program's directives.
pub open spec fn low_queries(reg: Seq<GComponent>, bs: Seq<GABinding>, d: usize, t: Option<Take>) -> Option<Seq<GQuery>>
    decreases bs.len(),
{
    if bs.len() == 0 {
        Some(seq![])
    } else {
        match (low_queries(reg, bs.drop_last(), d, t), low_binding(reg, bs.last())) {
            (Some(qs), Some((b, _))) => Some(qs.push(GQuery { depth: d, take: t, bindings: seq![b] })),
            _ => None,
        }
    }
}

pub open spec fn low_program(reg: Seq<GComponent>, p: GProgram) -> Option<Seq<GQuery>> {
    match dir_state(p.directives) {
        None => None,
        Some((d, t)) => match low_queries(reg, p.bindings, d, t) {
            Some(qs) => if qs.len() == 0 {
                None
            } else {
                Some(qs)
            },
            None => None,
        },
    }
}

fn lower_refs(reg: &Registry, rs: &Vec<ARefinement>) -> (r: Result<Vec<Refinement>, String>)
    ensures
        match low_refs(reg@, refinements_view(rs@)) {
            Some(g) => r is Ok && crate::spec_lang::refinements_view(r->Ok_0@) == g,
            None => r is Err,
        },
{
    let ghost rv = refinements_view(rs@);
    let mut out: Vec<Refinement> = Vec::new();
    let mut i: usize = 0;
    assert(rv.take(0) =~= Seq::<GARefinement>::empty());
    assert(crate::spec_lang::refinements_view(out@) =~= seq![]);
    while i < rs.len()
        invariant
            i <= rs@.len(),
            rv == refinements_view(rs@),
            low_refs(reg@, rv.take(i as int)) == Some(crate::spec_lang::refinements_view(out@)),
        decreases rs@.len() - i,
    {
        assert(rv.take(i + 1).drop_last() =~= rv.take(i as int));
        assert(rv.take(i + 1).last() == refinement_view(rs@[i as int]));
        match lower_value(reg, &rs[i].value) {
            Ok(v) => {
                let x = Refinement { param: copy_s(&rs[i].param), value: v };
                let ghost before = out@;
                out.push(x);
                assert(crate::spec_lang::refinements_view(out@) =~= crate::spec_lang::refinements_view(before).push(
                    crate::spec_lang::refinement_view(x),
                ));
            },
            Err(e) => {
                proof {
                    lemma_refs_none(reg@, rv, i + 1);
                }
                return Err(e);
            },
        }
        i = i + 1;
    }
    assert(rv.take(i as int) =~= rv);
    Ok(out)
}

proof fn lemma_refs_none(reg: Seq<GComponent>, a: Seq<GARefinement>, k: int)
    requires
        0 <= k <= a.len(),
        low_refs(reg, a.take(k)) is None,
    ensures
        low_refs(reg, a) is None,
    decreases a.len() - k,
{
    if k < a.len() {
        assert(a.take(k + 1).drop_last() =~= a.take(k));
        lemma_refs_none(reg, a, k + 1);
    } else {
        assert(a.take(k) =~= a);
    }
}

fn role_from_type_exec(ty: &Vec<AType>) -> (r: Result<String, String>)
    ensures
        match role_from_type(types_view(ty@)) {
            Some(x) => r is Ok && r->Ok_0@ == x,
            None => r is Err,
        },
{
    proof {
        lemma_types_index(ty@);
    }
    if ty.len() == 0 {
        return Err(owned_s("empty type annotation"));
    }
    match &ty[0] {
        AType::Underscore => Err(owned_s("cannot infer the binding role from `_` (value is not a role wrapper)")),
        AType::App { head, .. } => {
            if is_wrapper_exec(head) {
                wrapper_role_exec(head)
            } else {
                Ok(copy_s(head))
            }
        },
    }
}

proof fn lemma_types_index(ts: Seq<AType>)
    ensures
        types_view(ts).len() == ts.len(),
        forall|i: int| 0 <= i < ts.len() ==> #[trigger] types_view(ts)[i] == type_view(ts[i]),
    decreases ts.len(),
{
    if ts.len() > 0 {
        lemma_types_index(ts.drop_last());
    }
}

/// A binding lowered, and whether it is emittable (a role-wrapped value).
pub fn lower_binding(reg: &Registry, b: &ABinding) -> (r: Result<(Binding, bool), String>)
    ensures
        match low_binding(reg@, binding_view(*b)) {
            Some((g, e)) => r is Ok && crate::spec_lang::binding_view(r->Ok_0.0) == g && r->Ok_0.1 == e,
            None => r is Err,
        },
{
    let refinements = match &b.refinements {
        Some(rs) => lower_refs(reg, rs)?,
        None => {
            let v: Vec<Refinement> = Vec::new();
            assert(crate::spec_lang::refinements_view(v@) =~= seq![]);
            v
        },
    };
    let raw = lower_value(reg, &b.value)?;
    let ghost rv = value_view(raw);
    match raw {
        QValue::App { name: w, args } => {
            if is_wrapper_exec(&w) {
                let role = wrapper_role_exec(&w)?;
                proof {
                    crate::spec_lang::lemma_qargs_view_len(args@);
                }
                if args.len() == 0 {
                    let mut m = owned_s("`");
                    crate::text::push_str(&mut m, w.as_str());
                    crate::text::push_str(&mut m, "<…>` takes one type argument");
                    return Err(m);
                }
                proof {
                    crate::spec_lang::lemma_qargs_view_len(args@);
                }
                let inner = match &args[0] {
                    QArg::Pos(v) => crate::spec_lang::copy_value(v),
                    QArg::Named { value, .. } => crate::spec_lang::copy_value(value),
                };
                return Ok((Binding { name: copy_s(&b.name), role, refinements, value: inner }, true));
            }
            let role = role_from_type_exec(&b.ty)?;
            let value = QValue::App { name: w, args };
            assert(value_view(value) == rv);
            Ok((Binding { name: copy_s(&b.name), role, refinements, value }, false))
        },
        other => {
            let role = role_from_type_exec(&b.ty)?;
            Ok((Binding { name: copy_s(&b.name), role, refinements, value: other }, false))
        },
    }
}


pub open spec fn queries_view(qs: Seq<Query>) -> Seq<GQuery> {
    qs.map_values(|q: Query| crate::spec_lang::query_view(q))
}

fn directive_state(ds: &Vec<ADirective>) -> (r: Result<(usize, Option<Take>), String>)
    ensures
        match dir_state(directives_view(ds@)) {
            Some(st) => r is Ok && r->Ok_0 == st,
            None => r is Err,
        },
{
    let ghost dv = directives_view(ds@);
    let mut depth = DEFAULT_DEPTH;
    let mut take: Option<Take> = None;
    let mut i: usize = 0;
    assert(dv.take(0) =~= Seq::<GDirective>::empty());
    while i < ds.len()
        invariant
            i <= ds@.len(),
            dv == directives_view(ds@),
            dir_state(dv.take(i as int)) == Some((depth, take)),
        decreases ds@.len() - i,
    {
        assert(dv.take(i + 1).drop_last() =~= dv.take(i as int));
        assert(dv.take(i + 1).last() == directive_view(ds@[i as int]));
        match &ds[i] {
            ADirective::Depth(n) => match num_usize_exec(n) {
                Ok(k) => {
                    depth = k;
                },
                Err(e) => {
                    proof {
                        lemma_dirs_none(dv, i + 1);
                    }
                    return Err(e);
                },
            },
            ADirective::Take { n, seed } => match (num_usize_exec(n), seed_exec(seed)) {
                (Ok(k), Ok(sd)) => {
                    take = Some(Take { n: k, seed: sd });
                },
                _ => {
                    proof {
                        lemma_dirs_none(dv, i + 1);
                    }
                    return Err(owned_s("bad `N of @seed` directive"));
                },
            },
        }
        i = i + 1;
    }
    assert(dv.take(i as int) =~= dv);
    Ok((depth, take))
}

proof fn lemma_dirs_none(a: Seq<GDirective>, k: int)
    requires
        0 <= k <= a.len(),
        dir_state(a.take(k)) is None,
    ensures
        dir_state(a) is None,
    decreases a.len() - k,
{
    if k < a.len() {
        assert(a.take(k + 1).drop_last() =~= a.take(k));
        lemma_dirs_none(a, k + 1);
    } else {
        assert(a.take(k) =~= a);
    }
}

proof fn lemma_queries_none(reg: Seq<GComponent>, a: Seq<GABinding>, d: usize, t: Option<Take>, k: int)
    requires
        0 <= k <= a.len(),
        low_queries(reg, a.take(k), d, t) is None,
    ensures
        low_queries(reg, a, d, t) is None,
    decreases a.len() - k,
{
    if k < a.len() {
        assert(a.take(k + 1).drop_last() =~= a.take(k));
        lemma_queries_none(reg, a, d, t, k + 1);
    } else {
        assert(a.take(k) =~= a);
    }
}

/// Lower a program to one query per binding, each under the program's
/// `depth` and `N of` directives.
pub fn lower_program(text: &str, reg: &Registry) -> (r: Result<Vec<Query>, String>)
    requires
        text@.len() < usize::MAX - 4,
    ensures
        match program_s(text@) {
            None => r is Err,
            Some(p) => match low_program(reg@, p) {
                Some(qs) => r is Ok && queries_view(r->Ok_0@) == qs,
                None => r is Err,
            },
        },
{
    let prog = parse(text)?;
    let (depth, take) = directive_state(&prog.directives)?;
    let ghost bv = bindings_view(prog.bindings@);
    let mut queries: Vec<Query> = Vec::new();
    let mut i: usize = 0;
    assert(bv.take(0) =~= Seq::<GABinding>::empty());
    assert(queries_view(queries@) =~= seq![]);
    while i < prog.bindings.len()
        invariant
            i <= prog.bindings@.len(),
            bv == bindings_view(prog.bindings@),
            program_s(text@) == Some(program_view(prog)),
            dir_state(directives_view(prog.directives@)) == Some((depth, take)),
            low_queries(reg@, bv.take(i as int), depth, take) == Some(queries_view(queries@)),
        decreases prog.bindings@.len() - i,
    {
        assert(bv.take(i + 1).drop_last() =~= bv.take(i as int));
        assert(bv.take(i + 1).last() == binding_view(prog.bindings@[i as int]));
        match lower_binding(reg, &prog.bindings[i]) {
            Ok((b, _)) => {
                let ghost gb = crate::spec_lang::binding_view(b);
                let mut bs: Vec<Binding> = Vec::new();
                bs.push(b);
                let q = Query { depth, take, bindings: bs };
                assert(crate::spec_lang::bindings_view(bs@) =~= seq![gb]);
                let ghost before = queries@;
                queries.push(q);
                assert(queries_view(queries@) =~= queries_view(before).push(crate::spec_lang::query_view(q)));
            },
            Err(e) => {
                proof {
                    lemma_queries_none(reg@, bv, depth, take, i + 1);
                }
                return Err(e);
            },
        }
        i = i + 1;
    }
    assert(bv.take(i as int) =~= bv);
    if queries.len() == 0 {
        return Err(owned_s("program has no emittable bindings"));
    }
    Ok(queries)
}


/// An emittable algorithm family and the query it lowers to.
#[derive(Debug, Clone, PartialEq)]
pub struct NamedAlgo {
    pub name: String,
    pub query: Query,
}

/// `Name: List<…> = [members]`: a union over algorithm families and other sets.
#[derive(Debug, Clone, PartialEq)]
pub struct NamedSet {
    pub name: String,
    pub members: Vec<String>,
}

/// `name: List<Mains<Target>> = [mains…]`: consumers run over a set.
#[derive(Debug, Clone, PartialEq)]
pub struct ConsumerDecl {
    pub name: String,
    pub target: String,
    pub mains: Vec<String>,
}

/// A whole lowered program.
#[derive(Debug, Clone, PartialEq)]
pub struct Program {
    pub algos: Vec<NamedAlgo>,
    pub sets: Vec<NamedSet>,
    pub consumers: Vec<ConsumerDecl>,
}

/// A consumer with the concrete algorithm labels it runs over.
#[derive(Debug, Clone, PartialEq)]
pub struct ResolvedConsumer {
    pub name: String,
    pub mains: Vec<String>,
    pub algo_labels: Vec<String>,
}

pub ghost struct GLowered {
    pub algos: Seq<(Seq<char>, GQuery)>,
    pub sets: Seq<(Seq<char>, Seq<Seq<char>>)>,
    pub consumers: Seq<(Seq<char>, Seq<char>, Seq<Seq<char>>)>,
    pub helpers: Seq<GBinding>,
    pub declared: Seq<Seq<char>>,
}

pub open spec fn atom_head(a: GType) -> Seq<char> {
    match a {
        GType::Underscore => "_"@,
        GType::App { head, .. } => head,
    }
}

/// The first atom of a type's first generic argument.
pub open spec fn first_arg_atom(a: GType) -> Option<GType> {
    match a {
        GType::App { args, .. } => if args.len() > 0 && args[0].len() > 0 {
            Some(args[0][0])
        } else {
            None
        },
        GType::Underscore => None,
    }
}

/// A list member: its first term, which must be a bare name.
pub open spec fn single_ident(v: GAValue) -> Option<Seq<char>> {
    if v.terms.len() == 0 {
        None
    } else {
        match v.terms[0] {
            GTerm::App { head, args } => if args is None {
                Some(head)
            } else {
                None
            },
            _ => None,
        }
    }
}

pub open spec fn idents(vs: Seq<GAValue>) -> Option<Seq<Seq<char>>>
    decreases vs.len(),
{
    if vs.len() == 0 {
        Some(seq![])
    } else {
        match (idents(vs.drop_last()), single_ident(vs.last())) {
            (Some(a), Some(x)) => Some(a.push(x)),
            _ => None,
        }
    }
}

/// A list binding's value: exactly `[name, name, …]`.
pub open spec fn list_idents(v: GAValue) -> Option<Seq<Seq<char>>> {
    if v.capture is Some || v.alts is Some || v.terms.len() != 1 {
        None
    } else {
        match v.terms[0] {
            GTerm::ListLit(ms) => idents(ms),
            _ => None,
        }
    }
}

/// One binding classified: a consumer list, a named set, an emittable
/// family (with every helper so far prepended), or a helper.
pub open spec fn classify_step(reg: Seq<GComponent>, st: GLowered, b: GABinding, d: usize, t: Option<Take>) -> Option<
    GLowered,
> {
    if st.declared.contains(b.name) || b.ty.len() == 0 {
        None
    } else {
        let st1 = GLowered { declared: st.declared.push(b.name), ..st };
        let primary = b.ty[0];
        if atom_head(primary) == "List"@ {
            match first_arg_atom(primary) {
                None => None,
                Some(elem) => if atom_head(elem) == "Mains"@ {
                    match (first_arg_atom(elem), list_idents(b.value)) {
                        (Some(tg), Some(ms)) => Some(
                            GLowered { consumers: st1.consumers.push((b.name, atom_head(tg), ms)), ..st1 },
                        ),
                        _ => None,
                    }
                } else {
                    match list_idents(b.value) {
                        Some(ms) => Some(GLowered { sets: st1.sets.push((b.name, ms)), ..st1 }),
                        None => None,
                    }
                },
            }
        } else {
            match low_binding(reg, b) {
                None => None,
                Some((gb, emit)) => if emit {
                    Some(
                        GLowered {
                            algos: st1.algos.push(
                                (b.name, GQuery { depth: d, take: t, bindings: st1.helpers.push(gb) }),
                            ),
                            ..st1
                        },
                    )
                } else {
                    Some(GLowered { helpers: st1.helpers.push(gb), ..st1 })
                },
            }
        }
    }
}

pub open spec fn empty_lowered() -> GLowered {
    GLowered { algos: seq![], sets: seq![], consumers: seq![], helpers: seq![], declared: seq![] }
}

pub open spec fn classify(reg: Seq<GComponent>, bs: Seq<GABinding>, d: usize, t: Option<Take>) -> Option<GLowered>
    decreases bs.len(),
{
    if bs.len() == 0 {
        Some(empty_lowered())
    } else {
        match classify(reg, bs.drop_last(), d, t) {
            Some(st) => classify_step(reg, st, bs.last(), d, t),
            None => None,
        }
    }
}

/// The whole program lowered: its families, sets and consumers; a program
/// with none of them is an error.
pub open spec fn low_whole(reg: Seq<GComponent>, p: GProgram) -> Option<GLowered> {
    match dir_state(p.directives) {
        None => None,
        Some((d, t)) => match classify(reg, p.bindings, d, t) {
            None => None,
            Some(st) => if st.algos.len() == 0 && st.sets.len() == 0 && st.consumers.len() == 0 {
                None
            } else {
                Some(st)
            },
        },
    }
}

pub open spec fn algos_view(a: Seq<NamedAlgo>) -> Seq<(Seq<char>, GQuery)> {
    a.map_values(|x: NamedAlgo| (x.name@, crate::spec_lang::query_view(x.query)))
}

pub open spec fn sets_view(a: Seq<NamedSet>) -> Seq<(Seq<char>, Seq<Seq<char>>)> {
    a.map_values(|x: NamedSet| (x.name@, crate::text::string_views(x.members@)))
}

pub open spec fn consumers_view(a: Seq<ConsumerDecl>) -> Seq<(Seq<char>, Seq<char>, Seq<Seq<char>>)> {
    a.map_values(|x: ConsumerDecl| (x.name@, x.target@, crate::text::string_views(x.mains@)))
}


fn copy_refinements(a: &Vec<Refinement>) -> (r: Vec<Refinement>)
    ensures
        crate::spec_lang::refinements_view(r@) == crate::spec_lang::refinements_view(a@),
{
    let mut out: Vec<Refinement> = Vec::new();
    let mut i: usize = 0;
    while i < a.len()
        invariant
            i <= a@.len(),
            crate::spec_lang::refinements_view(out@) == crate::spec_lang::refinements_view(a@.take(i as int)),
        decreases a@.len() - i,
    {
        let x = Refinement { param: copy_s(&a[i].param), value: crate::spec_lang::copy_value(&a[i].value) };
        let ghost before = out@;
        out.push(x);
        proof {
            assert(a@.take(i + 1) =~= a@.take(i as int).push(a@[i as int]));
            assert(crate::spec_lang::refinements_view(before.push(x)) =~= crate::spec_lang::refinements_view(before).push(
                crate::spec_lang::refinement_view(x),
            ));
            assert(crate::spec_lang::refinements_view(a@.take(i as int).push(a@[i as int]))
                =~= crate::spec_lang::refinements_view(a@.take(i as int)).push(
                crate::spec_lang::refinement_view(a@[i as int]),
            ));
        }
        i = i + 1;
    }
    assert(a@.take(i as int) =~= a@);
    out
}

fn copy_bindings(a: &Vec<Binding>) -> (r: Vec<Binding>)
    ensures
        crate::spec_lang::bindings_view(r@) == crate::spec_lang::bindings_view(a@),
{
    let mut out: Vec<Binding> = Vec::new();
    let mut i: usize = 0;
    while i < a.len()
        invariant
            i <= a@.len(),
            crate::spec_lang::bindings_view(out@) == crate::spec_lang::bindings_view(a@.take(i as int)),
        decreases a@.len() - i,
    {
        let x = Binding {
            name: copy_s(&a[i].name),
            role: copy_s(&a[i].role),
            refinements: copy_refinements(&a[i].refinements),
            value: crate::spec_lang::copy_value(&a[i].value),
        };
        let ghost before = out@;
        out.push(x);
        proof {
            assert(a@.take(i + 1) =~= a@.take(i as int).push(a@[i as int]));
            assert(crate::spec_lang::bindings_view(before.push(x)) =~= crate::spec_lang::bindings_view(before).push(
                crate::spec_lang::binding_view(x),
            ));
            assert(crate::spec_lang::bindings_view(a@.take(i as int).push(a@[i as int]))
                =~= crate::spec_lang::bindings_view(a@.take(i as int)).push(
                crate::spec_lang::binding_view(a@[i as int]),
            ));
        }
        i = i + 1;
    }
    assert(a@.take(i as int) =~= a@);
    out
}

fn atom_head_exec(a: &AType) -> (r: String)
    ensures
        r@ == atom_head(type_view(*a)),
{
    match a {
        AType::Underscore => owned_s("_"),
        AType::App { head, .. } => copy_s(head),
    }
}

fn first_arg_atom_exec(a: &AType) -> (r: Option<&AType>)
    ensures
        match first_arg_atom(type_view(*a)) {
            Some(g) => r is Some && type_view(*r->0) == g,
            None => r is None,
        },
{
    match a {
        AType::App { args, .. } => {
            proof {
                lemma_type_args_index(args@);
            }
            if args.len() > 0 {
                proof {
                    lemma_types_index(args@[0]@);
                }
                if args[0].len() > 0 {
                    return Some(&args[0][0]);
                }
            }
            None
        },
        AType::Underscore => None,
    }
}

proof fn lemma_type_args_index(a: Seq<Vec<AType>>)
    ensures
        type_args_view(a).len() == a.len(),
        forall|i: int| 0 <= i < a.len() ==> #[trigger] type_args_view(a)[i] == types_view(a[i]@),
    decreases a.len(),
{
    if a.len() > 0 {
        lemma_type_args_index(a.drop_last());
    }
}

fn single_ident_exec(v: &AValue) -> (r: Result<String, String>)
    ensures
        match single_ident(aval_view(*v)) {
            Some(x) => r is Ok && r->Ok_0@ == x,
            None => r is Err,
        },
{
    proof {
        lemma_terms_index(v.terms@);
    }
    if v.terms.len() == 0 {
        return Err(owned_s("empty list member"));
    }
    match &v.terms[0] {
        ATerm::App { head, args } => {
            if args.is_none() {
                Ok(copy_s(head))
            } else {
                let mut m = owned_s("list member `");
                crate::text::push_str(&mut m, head.as_str());
                crate::text::push_str(&mut m, "` must be a bare name");
                Err(m)
            }
        },
        _ => Err(owned_s("a list member must be a bare name")),
    }
}

fn list_idents_exec(v: &AValue) -> (r: Result<Vec<String>, String>)
    ensures
        match list_idents(aval_view(*v)) {
            Some(x) => r is Ok && crate::text::string_views(r->Ok_0@) == x,
            None => r is Err,
        },
{
    proof {
        lemma_terms_index(v.terms@);
    }
    if v.capture.is_some() || v.alts.is_some() {
        return Err(owned_s("a list binding's value cannot carry a capture or `where`"));
    }
    if v.terms.len() != 1 {
        return Err(owned_s("a list binding's value cannot be a set difference"));
    }
    match &v.terms[0] {
        ATerm::ListLit(ms) => {
            let ghost mv = avals_view(ms@);
            proof {
                lemma_avals_index(ms@);
                assert(aval_view(*v).terms[0] == term_view(v.terms@[0]));
            }
            let mut out: Vec<String> = Vec::new();
            let mut i: usize = 0;
            assert(mv.take(0) =~= Seq::<GAValue>::empty());
            assert(crate::text::string_views(out@) =~= seq![]);
            while i < ms.len()
                invariant
                    i <= ms@.len(),
                    mv == avals_view(ms@),
                    mv.len() == ms@.len(),
                    list_idents(aval_view(*v)) == idents(mv),
                    forall|k: int| 0 <= k < ms@.len() ==> #[trigger] mv[k] == aval_view(ms@[k]),
                    idents(mv.take(i as int)) == Some(crate::text::string_views(out@)),
                decreases ms@.len() - i,
            {
                assert(mv.take(i + 1).drop_last() =~= mv.take(i as int));
                assert(mv.take(i + 1).last() == mv[i as int]);
                match single_ident_exec(&ms[i]) {
                    Ok(x) => {
                        proof {
                            crate::text::lemma_string_views_push(out@, x);
                        }
                        out.push(x);
                    },
                    Err(e) => {
                        proof {
                            lemma_idents_none(mv, i + 1);
                        }
                        return Err(e);
                    },
                }
                i = i + 1;
            }
            assert(mv.take(i as int) =~= mv);
            Ok(out)
        },
        _ => Err(owned_s("expected a `[…]` list value")),
    }
}

proof fn lemma_idents_none(a: Seq<GAValue>, k: int)
    requires
        0 <= k <= a.len(),
        idents(a.take(k)) is None,
    ensures
        idents(a) is None,
    decreases a.len() - k,
{
    if k < a.len() {
        assert(a.take(k + 1).drop_last() =~= a.take(k));
        lemma_idents_none(a, k + 1);
    } else {
        assert(a.take(k) =~= a);
    }
}


proof fn lemma_classify_none(reg: Seq<GComponent>, a: Seq<GABinding>, d: usize, t: Option<Take>, k: int)
    requires
        0 <= k <= a.len(),
        classify(reg, a.take(k), d, t) is None,
    ensures
        classify(reg, a, d, t) is None,
    decreases a.len() - k,
{
    if k < a.len() {
        assert(a.take(k + 1).drop_last() =~= a.take(k));
        lemma_classify_none(reg, a, d, t, k + 1);
    } else {
        assert(a.take(k) =~= a);
    }
}

/// Lower a whole program: algorithm families (every helper binding declared
/// before a family is prepended to its query, so the family can share their
/// variables), named sets and consumer lists. Binding names are unique.
pub fn lower(text: &str, reg: &Registry) -> (r: Result<Program, String>)
    requires
        text@.len() < usize::MAX - 4,
    ensures
        match program_s(text@) {
            None => r is Err,
            Some(p) => match low_whole(reg@, p) {
                Some(st) => r is Ok && algos_view(r->Ok_0.algos@) == st.algos && sets_view(r->Ok_0.sets@) == st.sets
                    && consumers_view(r->Ok_0.consumers@) == st.consumers,
                None => r is Err,
            },
        },
{
    let prog = parse(text)?;
    let (depth, take) = directive_state(&prog.directives)?;
    let ghost bv = bindings_view(prog.bindings@);
    let mut algos: Vec<NamedAlgo> = Vec::new();
    let mut sets: Vec<NamedSet> = Vec::new();
    let mut consumers: Vec<ConsumerDecl> = Vec::new();
    let mut helpers: Vec<Binding> = Vec::new();
    let mut declared: Vec<String> = Vec::new();
    let mut i: usize = 0;
    assert(bv.take(0) =~= Seq::<GABinding>::empty());
    proof {
        assert(algos_view(algos@) =~= seq![]);
        assert(sets_view(sets@) =~= seq![]);
        assert(consumers_view(consumers@) =~= seq![]);
        assert(crate::spec_lang::bindings_view(helpers@) =~= seq![]);
        assert(crate::text::string_views(declared@) =~= seq![]);
    }
    while i < prog.bindings.len()
        invariant
            i <= prog.bindings@.len(),
            bv == bindings_view(prog.bindings@),
            program_s(text@) == Some(program_view(prog)),
            dir_state(directives_view(prog.directives@)) == Some((depth, take)),
            classify(reg@, bv.take(i as int), depth, take) == Some(
                GLowered {
                    algos: algos_view(algos@),
                    sets: sets_view(sets@),
                    consumers: consumers_view(consumers@),
                    helpers: crate::spec_lang::bindings_view(helpers@),
                    declared: crate::text::string_views(declared@),
                },
            ),
        decreases prog.bindings@.len() - i,
    {
        let b = &prog.bindings[i];
        let ghost st = GLowered {
            algos: algos_view(algos@),
            sets: sets_view(sets@),
            consumers: consumers_view(consumers@),
            helpers: crate::spec_lang::bindings_view(helpers@),
            declared: crate::text::string_views(declared@),
        };
        let ghost gb = binding_view(*b);
        assert(bv.take(i + 1).drop_last() =~= bv.take(i as int));
        assert(bv.take(i + 1).last() == gb);
        proof {
            lemma_types_index(b.ty@);
        }
        if contains_name(&declared, &b.name) || b.ty.len() == 0 {
            proof {
                lemma_classify_none(reg@, bv, depth, take, i + 1);
            }
            if b.ty.len() == 0 {
                return Err(owned_s("empty type annotation"));
            }
            let mut m = owned_s("duplicate binding name `");
            crate::text::push_str(&mut m, b.name.as_str());
            crate::text::push_str(&mut m, "` — names must be unique");
            return Err(m);
        }
        let nm = copy_s(&b.name);
        proof {
            crate::text::lemma_string_views_push(declared@, nm);
        }
        declared.push(nm);
        let primary = &b.ty[0];
        let ph = atom_head_exec(primary);
        if string_is(&ph, "List") {
            let elem = match first_arg_atom_exec(primary) {
                Some(e) => e,
                None => {
                    proof {
                        lemma_classify_none(reg@, bv, depth, take, i + 1);
                    }
                    return Err(owned_s("`List<…>` needs an element type"));
                },
            };
            let eh = atom_head_exec(elem);
            if string_is(&eh, "Mains") {
                let target = match first_arg_atom_exec(elem) {
                    Some(tg) => atom_head_exec(tg),
                    None => {
                        proof {
                            lemma_classify_none(reg@, bv, depth, take, i + 1);
                        }
                        return Err(owned_s("`Mains<…>` needs a target set"));
                    },
                };
                let mains = match list_idents_exec(&b.value) {
                    Ok(ms) => ms,
                    Err(e) => {
                        proof {
                            lemma_classify_none(reg@, bv, depth, take, i + 1);
                        }
                        return Err(e);
                    },
                };
                let c = ConsumerDecl { name: copy_s(&b.name), target, mains };
                let ghost before = consumers@;
                consumers.push(c);
                assert(consumers_view(consumers@) =~= consumers_view(before).push((c.name@, c.target@, crate::text::string_views(c.mains@))));
            } else {
                let members = match list_idents_exec(&b.value) {
                    Ok(ms) => ms,
                    Err(e) => {
                        proof {
                            lemma_classify_none(reg@, bv, depth, take, i + 1);
                        }
                        return Err(e);
                    },
                };
                let x = NamedSet { name: copy_s(&b.name), members };
                let ghost before = sets@;
                sets.push(x);
                assert(sets_view(sets@) =~= sets_view(before).push((x.name@, crate::text::string_views(x.members@))));
            }
        } else {
            match lower_binding(reg, b) {
                Err(e) => {
                    proof {
                        lemma_classify_none(reg@, bv, depth, take, i + 1);
                    }
                    return Err(e);
                },
                Ok((lb, emit)) => {
                    if emit {
                        let mut bindings = copy_bindings(&helpers);
                        let ghost hb = crate::spec_lang::bindings_view(bindings@);
                        let ghost lbv = crate::spec_lang::binding_view(lb);
                        bindings.push(lb);
                        assert(crate::spec_lang::bindings_view(bindings@) =~= hb.push(lbv));
                        let q = Query { depth, take, bindings };
                        let a = NamedAlgo { name: copy_s(&b.name), query: q };
                        let ghost before = algos@;
                        algos.push(a);
                        assert(algos_view(algos@) =~= algos_view(before).push((a.name@, crate::spec_lang::query_view(a.query))));
                    } else {
                        let ghost before = helpers@;
                        let ghost lbv = crate::spec_lang::binding_view(lb);
                        helpers.push(lb);
                        assert(crate::spec_lang::bindings_view(helpers@) =~= crate::spec_lang::bindings_view(before).push(lbv));
                    }
                },
            }
        }
        i = i + 1;
    }
    assert(bv.take(i as int) =~= bv);
    if algos.len() == 0 && sets.len() == 0 && consumers.len() == 0 {
        return Err(owned_s("program has no emittable / set / consumer bindings"));
    }
    Ok(Program { algos, sets, consumers })
}


// ───────────────────────────── programs ─────────────────────────────

/// The first position of the family named `name`.
pub open spec fn algo_at(a: Seq<(Seq<char>, GQuery)>, name: Seq<char>, i: int) -> Option<int>
    decreases a.len() - i,
{
    if i < 0 || i >= a.len() {
        None
    } else if a[i].0 == name {
        Some(i)
    } else {
        algo_at(a, name, i + 1)
    }
}

/// The first position of the set named `name`.
pub open spec fn set_at(a: Seq<(Seq<char>, Seq<Seq<char>>)>, name: Seq<char>, i: int) -> Option<int>
    decreases a.len() - i,
{
    if i < 0 || i >= a.len() {
        None
    } else if a[i].0 == name {
        Some(i)
    } else {
        set_at(a, name, i + 1)
    }
}

/// The family names `name` covers, depth first, each set or family visited
/// once: the output so far and the names visited so far are threaded
/// through; `fuel` bounds the nesting.
pub open spec fn collect(
    algos: Seq<(Seq<char>, GQuery)>,
    sets: Seq<(Seq<char>, Seq<Seq<char>>)>,
    name: Seq<char>,
    seen: Seq<Seq<char>>,
    out: Seq<Seq<char>>,
    fuel: nat,
) -> Option<(Seq<Seq<char>>, Seq<Seq<char>>)>
    decreases fuel, 1nat, 0int,
{
    if seen.contains(name) {
        Some((out, seen))
    } else if algo_at(algos, name, 0) is Some {
        Some((out.push(name), seen.push(name)))
    } else {
        match set_at(sets, name, 0) {
            Some(k) => if 0 <= k < sets.len() {
                collect_members(algos, sets, sets[k].1, 0, seen.push(name), out, fuel)
            } else {
                None
            },
            None => None,
        }
    }
}

pub open spec fn collect_members(
    algos: Seq<(Seq<char>, GQuery)>,
    sets: Seq<(Seq<char>, Seq<Seq<char>>)>,
    ms: Seq<Seq<char>>,
    j: int,
    seen: Seq<Seq<char>>,
    out: Seq<Seq<char>>,
    fuel: nat,
) -> Option<(Seq<Seq<char>>, Seq<Seq<char>>)>
    decreases fuel, 0nat, ms.len() - j,
{
    if j < 0 || j >= ms.len() {
        Some((out, seen))
    } else if fuel == 0 {
        None
    } else {
        match collect(algos, sets, ms[j], seen, out, (fuel - 1) as nat) {
            Some((o2, s2)) => collect_members(algos, sets, ms, j + 1, s2, o2, fuel),
            None => None,
        }
    }
}

/// What the traversal keeps true: no family is listed twice, and every family
/// listed has been visited.
pub open spec fn listed_once(seen: Seq<Seq<char>>, out: Seq<Seq<char>>) -> bool {
    &&& crate::cardinality::no_dups(out)
    &&& forall|i: int| 0 <= i < out.len() ==> seen.contains(#[trigger] out[i])
}

/// Collecting from a state where nothing is listed twice and everything
/// listed was visited keeps it so, only ever adds to the names visited and
/// to the families listed, and lists only families.
pub proof fn collect_lists_each_family_once(
    algos: Seq<(Seq<char>, GQuery)>,
    sets: Seq<(Seq<char>, Seq<Seq<char>>)>,
    name: Seq<char>,
    seen: Seq<Seq<char>>,
    out: Seq<Seq<char>>,
    fuel: nat,
)
    requires
        listed_once(seen, out),
        forall|i: int| 0 <= i < out.len() ==> algo_at(algos, #[trigger] out[i], 0) is Some,
    ensures
        collect(algos, sets, name, seen, out, fuel) matches Some((o2, s2)) ==> listed_once(s2, o2)
            && o2.len() >= out.len() && o2.take(out.len() as int) == out
            && (forall|x: Seq<char>| seen.contains(x) ==> #[trigger] s2.contains(x))
            && (forall|i: int| 0 <= i < o2.len() ==> algo_at(algos, #[trigger] o2[i], 0) is Some),
    decreases fuel, 1nat, 0int,
{
    if seen.contains(name) {
        assert(out.take(out.len() as int) =~= out);
    } else if algo_at(algos, name, 0) is Some {
        let o2 = out.push(name);
        let s2 = seen.push(name);
        assert forall|i: int, j: int| 0 <= i < j < o2.len() implies o2[i] != o2[j] by {
            if j == out.len() {
                assert(seen.contains(out[i]));
            }
        }
        assert forall|i: int| 0 <= i < o2.len() implies s2.contains(#[trigger] o2[i]) by {
            if i < out.len() {
                assert(seen.contains(out[i]));
                let k = choose|k: int| 0 <= k < seen.len() && seen[k] == out[i];
                assert(s2[k] == out[i]);
            } else {
                assert(s2[seen.len() as int] == name);
            }
        }
        assert forall|x: Seq<char>| seen.contains(x) implies #[trigger] s2.contains(x) by {
            let k = choose|k: int| 0 <= k < seen.len() && seen[k] == x;
            assert(s2[k] == x);
        }
        assert(o2.take(out.len() as int) =~= out);
    } else {
        match set_at(sets, name, 0) {
            Some(k) => if 0 <= k < sets.len() {
                let s1 = seen.push(name);
                assert forall|i: int| 0 <= i < out.len() implies s1.contains(#[trigger] out[i]) by {
                    assert(seen.contains(out[i]));
                    let q = choose|q: int| 0 <= q < seen.len() && seen[q] == out[i];
                    assert(s1[q] == out[i]);
                }
                collect_members_list_each_family_once(algos, sets, sets[k].1, 0, s1, out, fuel);
                assert forall|x: Seq<char>| seen.contains(x) implies #[trigger] s1.contains(x) by {
                    let q = choose|q: int| 0 <= q < seen.len() && seen[q] == x;
                    assert(s1[q] == x);
                }
            },
            None => {},
        }
    }
}

/// The same, over the members of a set from the `j`-th on.
pub proof fn collect_members_list_each_family_once(
    algos: Seq<(Seq<char>, GQuery)>,
    sets: Seq<(Seq<char>, Seq<Seq<char>>)>,
    ms: Seq<Seq<char>>,
    j: int,
    seen: Seq<Seq<char>>,
    out: Seq<Seq<char>>,
    fuel: nat,
)
    requires
        listed_once(seen, out),
        forall|i: int| 0 <= i < out.len() ==> algo_at(algos, #[trigger] out[i], 0) is Some,
    ensures
        collect_members(algos, sets, ms, j, seen, out, fuel) matches Some((o2, s2)) ==> listed_once(s2, o2)
            && o2.len() >= out.len() && o2.take(out.len() as int) == out
            && (forall|x: Seq<char>| seen.contains(x) ==> #[trigger] s2.contains(x))
            && (forall|i: int| 0 <= i < o2.len() ==> algo_at(algos, #[trigger] o2[i], 0) is Some),
    decreases fuel, 0nat, ms.len() - j,
{
    if j < 0 || j >= ms.len() {
        assert(out.take(out.len() as int) =~= out);
    } else if fuel == 0 {
    } else {
        collect_lists_each_family_once(algos, sets, ms[j], seen, out, (fuel - 1) as nat);
        match collect(algos, sets, ms[j], seen, out, (fuel - 1) as nat) {
            Some((o1, s1)) => {
                collect_members_list_each_family_once(algos, sets, ms, j + 1, s1, o1, fuel);
                match collect_members(algos, sets, ms, j + 1, s1, o1, fuel) {
                    Some((o2, s2)) => {
                        assert(o2.take(out.len() as int) =~= o2.take(o1.len() as int).take(out.len() as int));
                    },
                    None => {},
                }
            },
            None => {},
        }
    }
}

/// Visiting `x` is complete in (`seen`, `out`): a family is listed, and a
/// set's members have all been visited.
pub open spec fn visit_complete(
    algos: Seq<(Seq<char>, GQuery)>,
    sets: Seq<(Seq<char>, Seq<Seq<char>>)>,
    x: Seq<char>,
    seen: Seq<Seq<char>>,
    out: Seq<Seq<char>>,
) -> bool {
    &&& algo_at(algos, x, 0) is Some ==> out.contains(x)
    &&& algo_at(algos, x, 0) is None ==> forall|k: int|
        set_at(sets, x, 0) == Some(k) && 0 <= k < sets.len() ==> forall|m: Seq<char>|
            #[trigger] sets[k].1.contains(m) ==> seen.contains(m)
}

/// Every name visited since `seen0` is completely visited in (`seen`, `out`).
pub open spec fn new_visits_complete(
    algos: Seq<(Seq<char>, GQuery)>,
    sets: Seq<(Seq<char>, Seq<Seq<char>>)>,
    seen0: Seq<Seq<char>>,
    seen: Seq<Seq<char>>,
    out: Seq<Seq<char>>,
) -> bool {
    forall|x: Seq<char>| #[trigger] seen.contains(x) && !seen0.contains(x) ==> visit_complete(algos, sets, x, seen, out)
}

proof fn lemma_visit_complete_grows(
    algos: Seq<(Seq<char>, GQuery)>,
    sets: Seq<(Seq<char>, Seq<Seq<char>>)>,
    x: Seq<char>,
    s1: Seq<Seq<char>>,
    o1: Seq<Seq<char>>,
    s2: Seq<Seq<char>>,
    o2: Seq<Seq<char>>,
)
    requires
        visit_complete(algos, sets, x, s1, o1),
        forall|y: Seq<char>| s1.contains(y) ==> #[trigger] s2.contains(y),
        forall|y: Seq<char>| o1.contains(y) ==> #[trigger] o2.contains(y),
    ensures
        visit_complete(algos, sets, x, s2, o2),
{
    if algo_at(algos, x, 0) is None {
        assert forall|k: int| set_at(sets, x, 0) == Some(k) && 0 <= k < sets.len() implies forall|m: Seq<char>|
            #[trigger] sets[k].1.contains(m) ==> s2.contains(m) by {
            assert forall|m: Seq<char>| #[trigger] sets[k].1.contains(m) implies s2.contains(m) by {
                assert(s1.contains(m));
            }
        }
    }
}

/// Collecting `name` visits it, keeps what was visited and listed, and
/// completes every name it newly visits.
pub proof fn collect_completes_its_visits(
    algos: Seq<(Seq<char>, GQuery)>,
    sets: Seq<(Seq<char>, Seq<Seq<char>>)>,
    name: Seq<char>,
    seen: Seq<Seq<char>>,
    out: Seq<Seq<char>>,
    fuel: nat,
)
    ensures
        collect(algos, sets, name, seen, out, fuel) matches Some((o2, s2)) ==> s2.contains(name)
            && (forall|y: Seq<char>| seen.contains(y) ==> #[trigger] s2.contains(y))
            && (forall|y: Seq<char>| out.contains(y) ==> #[trigger] o2.contains(y))
            && new_visits_complete(algos, sets, seen, s2, o2),
    decreases fuel, 1nat, 0int,
{
    if seen.contains(name) {
    } else if algo_at(algos, name, 0) is Some {
        let o2 = out.push(name);
        let s2 = seen.push(name);
        assert(s2[seen.len() as int] == name);
        assert(o2[out.len() as int] == name);
        assert forall|y: Seq<char>| seen.contains(y) implies #[trigger] s2.contains(y) by {
            let q = choose|q: int| 0 <= q < seen.len() && seen[q] == y;
            assert(s2[q] == y);
        }
        assert forall|y: Seq<char>| out.contains(y) implies #[trigger] o2.contains(y) by {
            let q = choose|q: int| 0 <= q < out.len() && out[q] == y;
            assert(o2[q] == y);
        }
        assert forall|x: Seq<char>| #[trigger] s2.contains(x) && !seen.contains(x) implies visit_complete(algos, sets, x, s2, o2) by {
            let q = choose|q: int| 0 <= q < s2.len() && s2[q] == x;
            if q < seen.len() {
                assert(seen[q] == x);
            }
        }
    } else {
        match set_at(sets, name, 0) {
            Some(k) => if 0 <= k < sets.len() {
                let s1 = seen.push(name);
                let ms = sets[k].1;
                collect_members_complete_their_visits(algos, sets, ms, 0, s1, out, fuel);
                match collect_members(algos, sets, ms, 0, s1, out, fuel) {
                    Some((o2, s2)) => {
                        assert(s1[seen.len() as int] == name);
                        assert(s1.contains(name));
                        assert forall|y: Seq<char>| seen.contains(y) implies #[trigger] s2.contains(y) by {
                            let q = choose|q: int| 0 <= q < seen.len() && seen[q] == y;
                            assert(s1[q] == y);
                            assert(s1.contains(y));
                        }
                        assert forall|x: Seq<char>| #[trigger] s2.contains(x) && !seen.contains(x) implies visit_complete(
                            algos,
                            sets,
                            x,
                            s2,
                            o2,
                        ) by {
                            if x == name {
                                assert forall|m: Seq<char>| #[trigger] sets[k].1.contains(m) implies s2.contains(m) by {
                                    let j = choose|j: int| 0 <= j < ms.len() && ms[j] == m;
                                }
                            } else {
                                assert(!s1.contains(x)) by {
                                    if s1.contains(x) {
                                        let q = choose|q: int| 0 <= q < s1.len() && s1[q] == x;
                                        if q < seen.len() {
                                            assert(seen[q] == x);
                                        }
                                    }
                                }
                            }
                        }
                    },
                    None => {},
                }
            },
            None => {},
        }
    }
}

/// The same over the members of a set from the `j`-th on: each is visited.
pub proof fn collect_members_complete_their_visits(
    algos: Seq<(Seq<char>, GQuery)>,
    sets: Seq<(Seq<char>, Seq<Seq<char>>)>,
    ms: Seq<Seq<char>>,
    j: int,
    seen: Seq<Seq<char>>,
    out: Seq<Seq<char>>,
    fuel: nat,
)
    requires
        0 <= j,
    ensures
        collect_members(algos, sets, ms, j, seen, out, fuel) matches Some((o2, s2)) ==> (forall|jj: int|
            j <= jj < ms.len() ==> s2.contains(#[trigger] ms[jj]))
            && (forall|y: Seq<char>| seen.contains(y) ==> #[trigger] s2.contains(y))
            && (forall|y: Seq<char>| out.contains(y) ==> #[trigger] o2.contains(y))
            && new_visits_complete(algos, sets, seen, s2, o2),
    decreases fuel, 0nat, ms.len() - j,
{
    if j >= ms.len() {
    } else if fuel == 0 {
    } else {
        collect_completes_its_visits(algos, sets, ms[j], seen, out, (fuel - 1) as nat);
        match collect(algos, sets, ms[j], seen, out, (fuel - 1) as nat) {
            Some((o1, s1)) => {
                collect_members_complete_their_visits(algos, sets, ms, j + 1, s1, o1, fuel);
                match collect_members(algos, sets, ms, j + 1, s1, o1, fuel) {
                    Some((o2, s2)) => {
                        assert forall|jj: int| j <= jj < ms.len() implies s2.contains(#[trigger] ms[jj]) by {
                            if jj == j {
                                assert(s1.contains(ms[j]));
                            }
                        }
                        assert forall|x: Seq<char>| #[trigger] s2.contains(x) && !seen.contains(x) implies visit_complete(
                            algos,
                            sets,
                            x,
                            s2,
                            o2,
                        ) by {
                            if s1.contains(x) {
                                lemma_visit_complete_grows(algos, sets, x, s1, o1, s2, o2);
                            }
                        }
                    },
                    None => {},
                }
            },
            None => {},
        }
    }
}

/// `y` is reached from `x` in at most `n` steps, each from a set (that is not
/// also a family) to one of its members.
pub open spec fn reaches(
    algos: Seq<(Seq<char>, GQuery)>,
    sets: Seq<(Seq<char>, Seq<Seq<char>>)>,
    x: Seq<char>,
    y: Seq<char>,
    n: nat,
) -> bool
    decreases n,
{
    x == y || (n > 0 && algo_at(algos, x, 0) is None && exists|k: int, z: Seq<char>|
        set_at(sets, x, 0) == Some(k) && 0 <= k < sets.len() && #[trigger] sets[k].1.contains(z) && reaches(
            algos,
            sets,
            z,
            y,
            (n - 1) as nat,
        ))
}

proof fn lemma_reached_is_visited(
    algos: Seq<(Seq<char>, GQuery)>,
    sets: Seq<(Seq<char>, Seq<Seq<char>>)>,
    x: Seq<char>,
    y: Seq<char>,
    n: nat,
    seen: Seq<Seq<char>>,
    out: Seq<Seq<char>>,
)
    requires
        seen.contains(x),
        new_visits_complete(algos, sets, seq![], seen, out),
        reaches(algos, sets, x, y, n),
    ensures
        seen.contains(y),
    decreases n,
{
    if x != y {
        let (k, z) = choose|k: int, z: Seq<char>|
            set_at(sets, x, 0) == Some(k) && 0 <= k < sets.len() && #[trigger] sets[k].1.contains(z) && reaches(
                algos,
                sets,
                z,
                y,
                (n - 1) as nat,
            );
        assert(visit_complete(algos, sets, x, seen, out));
        assert(seen.contains(z));
        lemma_reached_is_visited(algos, sets, z, y, (n - 1) as nat, seen, out);
    }
}

/// Flattening a name from scratch lists every family reachable from it.
pub proof fn collect_lists_every_reachable_family(
    algos: Seq<(Seq<char>, GQuery)>,
    sets: Seq<(Seq<char>, Seq<Seq<char>>)>,
    name: Seq<char>,
    fuel: nat,
    y: Seq<char>,
    n: nat,
)
    requires
        reaches(algos, sets, name, y, n),
        algo_at(algos, y, 0) is Some,
    ensures
        collect(algos, sets, name, seq![], seq![], fuel) matches Some((o2, _)) ==> o2.contains(y),
{
    collect_completes_its_visits(algos, sets, name, seq![], seq![], fuel);
    match collect(algos, sets, name, seq![], seq![], fuel) {
        Some((o2, s2)) => {
            lemma_reached_is_visited(algos, sets, name, y, n, s2, o2);
            assert(visit_complete(algos, sets, y, s2, o2));
        },
        None => {},
    }
}

impl Program {
    /// The family named `name`, first declared wins.
    pub fn algo(&self, name: &str) -> (r: Option<&NamedAlgo>)
        ensures
            match algo_at(algos_view(self.algos@), name@, 0) {
                Some(i) => r is Some && *r->0 == self.algos@[i],
                None => r is None,
            },
    {
        let ghost av = algos_view(self.algos@);
        let mut i: usize = 0;
        while i < self.algos.len()
            invariant
                i <= self.algos@.len(),
                av == algos_view(self.algos@),
                algo_at(av, name@, 0) == algo_at(av, name@, i as int),
            decreases self.algos@.len() - i,
        {
            if crate::text::str_eq(self.algos[i].name.as_str(), name) {
                return Some(&self.algos[i]);
            }
            i = i + 1;
        }
        None
    }

    /// The set named `name`, first declared wins.
    pub fn set(&self, name: &str) -> (r: Option<&NamedSet>)
        ensures
            match set_at(sets_view(self.sets@), name@, 0) {
                Some(i) => r is Some && *r->0 == self.sets@[i],
                None => r is None,
            },
    {
        let ghost sv = sets_view(self.sets@);
        let mut i: usize = 0;
        while i < self.sets.len()
            invariant
                i <= self.sets@.len(),
                sv == sets_view(self.sets@),
                set_at(sv, name@, 0) == set_at(sv, name@, i as int),
            decreases self.sets@.len() - i,
        {
            if crate::text::str_eq(self.sets[i].name.as_str(), name) {
                return Some(&self.sets[i]);
            }
            i = i + 1;
        }
        None
    }

    /// Flatten a family or set name to the family names it covers,
    /// transitively, in order; diamonds and cycles are visited once. A name
    /// that is neither is an error.
    pub fn resolve_algos(&self, name: &str) -> (r: Result<Vec<String>, String>)
        ensures
            match collect(
                algos_view(self.algos@),
                sets_view(self.sets@),
                name@,
                seq![],
                seq![],
                self.sets@.len(),
            ) {
                Some((out, _)) => r is Ok && crate::text::string_views(r->Ok_0@) == out,
                None => r is Err,
            },
            r matches Ok(v) ==> crate::cardinality::no_dups(crate::text::string_views(v@)),
            r matches Ok(v) ==> forall|i: int|
                0 <= i < v@.len() ==> algo_at(algos_view(self.algos@), #[trigger] v@[i]@, 0) is Some,
            r matches Ok(v) ==> forall|y: Seq<char>, n: nat|
                #[trigger] reaches(algos_view(self.algos@), sets_view(self.sets@), name@, y, n) && algo_at(
                    algos_view(self.algos@),
                    y,
                    0,
                ) is Some ==> crate::text::string_views(v@).contains(y),
    {
        proof {
            collect_lists_each_family_once(
                algos_view(self.algos@),
                sets_view(self.sets@),
                name@,
                seq![],
                seq![],
                self.sets@.len(),
            );
        }
        let mut out: Vec<String> = Vec::new();
        let mut seen: Vec<String> = Vec::new();
        assert(crate::text::string_views(out@) =~= seq![]);
        assert(crate::text::string_views(seen@) =~= seq![]);
        let n = owned_s(name);
        match self.collect_algos(&n, &mut out, &mut seen, self.sets.len()) {
            Ok(()) => {
                proof {
                    assert forall|i: int| 0 <= i < out@.len() implies algo_at(algos_view(self.algos@), #[trigger] out@[i]@, 0) is Some by {
                        assert(crate::text::string_views(out@)[i] == out@[i]@);
                    }
                    assert forall|y: Seq<char>, n: nat|
                        #[trigger] reaches(algos_view(self.algos@), sets_view(self.sets@), name@, y, n) && algo_at(
                            algos_view(self.algos@),
                            y,
                            0,
                        ) is Some implies crate::text::string_views(out@).contains(y) by {
                        collect_lists_every_reachable_family(
                            algos_view(self.algos@),
                            sets_view(self.sets@),
                            name@,
                            self.sets@.len() as nat,
                            y,
                            n,
                        );
                    }
                }
                Ok(out)
            },
            Err(e) => Err(e),
        }
    }

    fn collect_algos(&self, name: &String, out: &mut Vec<String>, seen: &mut Vec<String>, fuel: usize) -> (r: Result<(), String>)
        ensures
            match collect(
                algos_view(self.algos@),
                sets_view(self.sets@),
                name@,
                crate::text::string_views(old(seen)@),
                crate::text::string_views(old(out)@),
                fuel as nat,
            ) {
                Some((o, sn)) => r is Ok && crate::text::string_views(final(out)@) == o
                    && crate::text::string_views(final(seen)@) == sn,
                None => r is Err,
            },
        decreases fuel, 1nat, 0int,
    {
        if contains_name(seen, name) {
            return Ok(());
        }
        let nm = copy_s(name);
        proof {
            crate::text::lemma_string_views_push(seen@, nm);
        }
        seen.push(nm);
        if self.algo(name.as_str()).is_some() {
            let nm2 = copy_s(name);
            proof {
                crate::text::lemma_string_views_push(out@, nm2);
            }
            out.push(nm2);
            return Ok(());
        }
        match self.set(name.as_str()) {
            Some(st) => {
                let ghost sv = sets_view(self.sets@);
                proof {
                    lemma_set_at_bound(sv, name@, 0);
                    let k = set_at(sv, name@, 0)->0;
                    assert(sv[k].1 == crate::text::string_views(st.members@));
                }
                self.collect_member_list(&st.members, 0, out, seen, fuel)
            },
            None => {
                let mut m = owned_s("`");
                crate::text::push_str(&mut m, name.as_str());
                crate::text::push_str(&mut m, "` is not an algorithm or list binding in this program");
                Err(m)
            },
        }
    }

    fn collect_member_list(
        &self,
        ms: &Vec<String>,
        j: usize,
        out: &mut Vec<String>,
        seen: &mut Vec<String>,
        fuel: usize,
    ) -> (r: Result<(), String>)
        ensures
            match collect_members(
                algos_view(self.algos@),
                sets_view(self.sets@),
                crate::text::string_views(ms@),
                j as int,
                crate::text::string_views(old(seen)@),
                crate::text::string_views(old(out)@),
                fuel as nat,
            ) {
                Some((o, sn)) => r is Ok && crate::text::string_views(final(out)@) == o
                    && crate::text::string_views(final(seen)@) == sn,
                None => r is Err,
            },
        decreases fuel, 0nat, ms@.len() - j,
    {
        if j >= ms.len() {
            return Ok(());
        }
        if fuel == 0 {
            return Err(owned_s("lists nest deeper than the program declares"));
        }
        assert(crate::text::string_views(ms@)[j as int] == ms@[j as int]@);
        match self.collect_algos(&ms[j], out, seen, fuel - 1) {
            Ok(()) => self.collect_member_list(ms, j + 1, out, seen, fuel),
            Err(e) => Err(e),
        }
    }
}

/// The sorts a family's query stands for with the default size budget;
/// `None` where solving it fails.
pub open spec fn family_sorts(reg: Seq<GComponent>, q: GQuery) -> Option<Seq<crate::spec_lang::GNode>> {
    let cv = crate::solve::caps_of_bindings(q.bindings);
    let pk = crate::cardinality::est_bindings(reg, q.bindings, q.depth as nat).peak;
    if pk is Huge || crate::cardinality::card_value(pk) > crate::cardinality::DEFAULT_MAX_GROUND
        || crate::solve::order_bindings(q.bindings, cv) is None {
        None
    } else {
        crate::semantics::query_sorts(reg, q, cv)
    }
}

/// The resolved labels of the trees; `None` where one does not resolve.
pub open spec fn labels_of(reg: Seq<GComponent>, ns: Seq<crate::spec_lang::GNode>) -> Option<Seq<Seq<char>>>
    decreases ns.len(),
{
    if ns.len() == 0 {
        Some(seq![])
    } else {
        match labels_of(reg, ns.drop_last()) {
            None => None,
            Some(ls) => match crate::resolve::res_node(reg, ns.last(), reg.len()) {
                None => None,
                Some(r) => Some(ls.push(r.label)),
            },
        }
    }
}

/// The labels of every family named, in order, repeats included.
pub open spec fn family_labels(reg: Seq<GComponent>, algos: Seq<(Seq<char>, GQuery)>, names: Seq<Seq<char>>) -> Option<
    Seq<Seq<char>>,
>
    decreases names.len(),
{
    if names.len() == 0 {
        Some(seq![])
    } else {
        match family_labels(reg, algos, names.drop_last()) {
            None => None,
            Some(acc) => match algo_at(algos, names.last(), 0) {
                None => None,
                Some(i) => match family_sorts(reg, algos[i].1) {
                    None => None,
                    Some(ns) => match labels_of(reg, ns) {
                        None => None,
                        Some(ls) => Some(acc + ls),
                    },
                },
            },
        }
    }
}

/// The labels a consumer over `target` runs over: each once, first
/// occurrence first.
pub open spec fn consumer_labels(
    reg: Seq<GComponent>,
    algos: Seq<(Seq<char>, GQuery)>,
    sets: Seq<(Seq<char>, Seq<Seq<char>>)>,
    target: Seq<char>,
) -> Option<Seq<Seq<char>>> {
    match collect(algos, sets, target, seq![], seq![], sets.len()) {
        None => None,
        Some((names, _)) => match family_labels(reg, algos, names) {
            None => None,
            Some(ls) => Some(crate::resolve::union_into(seq![], ls)),
        },
    }
}

/// The labels of each consumer in turn; `None` at the first that fails.
pub open spec fn consumers_labels(
    reg: Seq<GComponent>,
    algos: Seq<(Seq<char>, GQuery)>,
    sets: Seq<(Seq<char>, Seq<Seq<char>>)>,
    targets: Seq<Seq<char>>,
) -> Option<Seq<Seq<Seq<char>>>>
    decreases targets.len(),
{
    if targets.len() == 0 {
        Some(seq![])
    } else {
        match consumers_labels(reg, algos, sets, targets.drop_last()) {
            None => None,
            Some(acc) => match consumer_labels(reg, algos, sets, targets.last()) {
                None => None,
                Some(ls) => Some(acc.push(ls)),
            },
        }
    }
}

/// A consumer runs over each label at most once.
pub proof fn consumer_labels_are_distinct(
    reg: Seq<GComponent>,
    algos: Seq<(Seq<char>, GQuery)>,
    sets: Seq<(Seq<char>, Seq<Seq<char>>)>,
    target: Seq<char>,
)
    ensures
        consumer_labels(reg, algos, sets, target) matches Some(ls) ==> crate::cardinality::no_dups(ls),
{
    match collect(algos, sets, target, seq![], seq![], sets.len()) {
        Some((names, _)) => match family_labels(reg, algos, names) {
            Some(ls) => {
                assert(crate::cardinality::no_dups(Seq::<Seq<char>>::empty()));
                crate::cardinality::lemma_union_into_no_dups(seq![], ls);
            },
            None => {},
        },
        None => {},
    }
}

pub open spec fn consumer_targets(cs: Seq<ConsumerDecl>) -> Seq<Seq<char>> {
    cs.map_values(|c: ConsumerDecl| c.target@)
}

proof fn lemma_family_labels_none(reg: Seq<GComponent>, algos: Seq<(Seq<char>, GQuery)>, names: Seq<Seq<char>>, k: int)
    requires
        0 <= k <= names.len(),
        family_labels(reg, algos, names.take(k)) is None,
    ensures
        family_labels(reg, algos, names) is None,
    decreases names.len(),
{
    if k == names.len() {
        assert(names.take(k) =~= names);
    } else {
        assert(names.drop_last().take(k) =~= names.take(k));
        lemma_family_labels_none(reg, algos, names.drop_last(), k);
    }
}

proof fn lemma_consumers_labels_none(
    reg: Seq<GComponent>,
    algos: Seq<(Seq<char>, GQuery)>,
    sets: Seq<(Seq<char>, Seq<Seq<char>>)>,
    ts: Seq<Seq<char>>,
    k: int,
)
    requires
        0 <= k <= ts.len(),
        consumers_labels(reg, algos, sets, ts.take(k)) is None,
    ensures
        consumers_labels(reg, algos, sets, ts) is None,
    decreases ts.len(),
{
    if k == ts.len() {
        assert(ts.take(k) =~= ts);
    } else {
        assert(ts.drop_last().take(k) =~= ts.take(k));
        lemma_consumers_labels_none(reg, algos, sets, ts.drop_last(), k);
    }
}

impl Program {
    /// The labels of the sorts a family's query solves to, appended to `raw`.
    fn push_family_labels(q: &Query, reg: &Registry, raw: &mut Vec<String>) -> (r: Result<(), String>)
        requires
            reg.wf(),
            q.bindings@.len() > 0,
        ensures
            match family_sorts(reg@, crate::spec_lang::query_view(*q)) {
                None => r is Err,
                Some(ns) => match labels_of(reg@, ns) {
                    None => r is Err,
                    Some(ls) => r is Ok && crate::text::string_views(final(raw)@) == crate::text::string_views(
                        old(raw)@,
                    ) + ls,
                },
            },
    {
        let solved = match crate::solve::solve(q, reg) {
            Ok(s) => s,
            Err(e) => {
                assert(family_sorts(reg@, crate::spec_lang::query_view(*q)) is None);
                return Err(e);
            },
        };
        let ghost ns = crate::enumerate::nodes_view(solved.sorts@);
        let ghost r0 = crate::text::string_views(raw@);
        assert(family_sorts(reg@, crate::spec_lang::query_view(*q)) == Some(ns));
        let mut t: usize = 0;
        assert(ns.take(0) =~= seq![]);
        assert(r0 + seq![] =~= r0);
        while t < solved.sorts.len()
            invariant
                t <= solved.sorts@.len(),
                family_sorts(reg@, crate::spec_lang::query_view(*q)) == Some(ns),
                ns == crate::enumerate::nodes_view(solved.sorts@),
                r0 == crate::text::string_views(old(raw)@),
                labels_of(reg@, ns.take(t as int)) matches Some(ls) && crate::text::string_views(raw@) == r0 + ls,
            decreases solved.sorts@.len() - t,
        {
            assert(ns.take(t + 1).drop_last() =~= ns.take(t as int));
            assert(ns.take(t + 1).last() == crate::spec_lang::node_view(solved.sorts@[t as int]));
            let ghost ls0 = labels_of(reg@, ns.take(t as int))->0;
            match crate::resolve::resolve(&solved.sorts[t], reg) {
                Ok(res) => {
                    let l = res.label;
                    proof {
                        crate::text::lemma_string_views_push(raw@, l);
                    }
                    raw.push(l);
                    assert(r0 + ls0.push(l@) =~= (r0 + ls0).push(l@));
                },
                Err(e) => {
                    proof {
                        lemma_labels_of_none(reg@, ns, t + 1);
                    }
                    return Err(e);
                },
            }
            t = t + 1;
        }
        assert(ns.take(t as int) =~= ns);
        Ok(())
    }

    /// The labels of every family named, in order.
    fn labels_for(&self, names: &Vec<String>, reg: &Registry) -> (r: Result<Vec<String>, String>)
        requires
            reg.wf(),
            forall|i: int| 0 <= i < self.algos@.len() ==> #[trigger] self.algos@[i].query.bindings@.len() > 0,
        ensures
            match family_labels(reg@, algos_view(self.algos@), crate::text::string_views(names@)) {
                Some(ls) => r is Ok && crate::text::string_views(r->Ok_0@) == ls,
                None => r is Err,
            },
    {
        let ghost av = algos_view(self.algos@);
        let ghost nv = crate::text::string_views(names@);
        let mut raw: Vec<String> = Vec::new();
        let mut j: usize = 0;
        assert(nv.take(0) =~= seq![]);
        assert(crate::text::string_views(raw@) =~= seq![]);
        while j < names.len()
            invariant
                reg.wf(),
                forall|k: int| 0 <= k < self.algos@.len() ==> #[trigger] self.algos@[k].query.bindings@.len() > 0,
                j <= names@.len(),
                av == algos_view(self.algos@),
                nv == crate::text::string_views(names@),
                family_labels(reg@, av, nv.take(j as int)) == Some(crate::text::string_views(raw@)),
            decreases names@.len() - j,
        {
            assert(nv.take(j + 1).drop_last() =~= nv.take(j as int));
            assert(nv.take(j + 1).last() == names@[j as int]@);
            let algo = match self.algo(names[j].as_str()) {
                Some(a) => a,
                None => {
                    proof {
                        lemma_family_labels_none(reg@, av, nv, j + 1);
                    }
                    let mut m = owned_s("`");
                    crate::text::push_str(&mut m, names[j].as_str());
                    crate::text::push_str(&mut m, "` is not an algorithm binding in this program");
                    return Err(m);
                },
            };
            proof {
                lemma_algo_at_bound(av, names@[j as int]@, 0);
            }
            match Self::push_family_labels(&algo.query, reg, &mut raw) {
                Ok(()) => {},
                Err(e) => {
                    proof {
                        lemma_family_labels_none(reg@, av, nv, j + 1);
                    }
                    return Err(e);
                },
            }
            j = j + 1;
        }
        assert(nv.take(j as int) =~= nv);
        Ok(raw)
    }

    /// Resolve every consumer against `reg`: flatten its target to families,
    /// solve each family and collect the labels of the sorts it yields, each
    /// label once, first occurrence first.
    pub fn resolve_consumers(&self, reg: &Registry) -> (r: Result<Vec<ResolvedConsumer>, String>)
        requires
            reg.wf(),
            forall|i: int| 0 <= i < self.algos@.len() ==> #[trigger] self.algos@[i].query.bindings@.len() > 0,
        ensures
            match consumers_labels(
                reg@,
                algos_view(self.algos@),
                sets_view(self.sets@),
                consumer_targets(self.consumers@),
            ) {
                None => r is Err,
                Some(ls) => r matches Ok(v) && v@.len() == self.consumers@.len() && forall|i: int|
                    0 <= i < v@.len() ==> {
                        &&& (#[trigger] v@[i]).name@ == self.consumers@[i].name@
                        &&& crate::text::string_views(v@[i].mains@) == crate::text::string_views(
                            self.consumers@[i].mains@,
                        )
                        &&& crate::text::string_views(v@[i].algo_labels@) == ls[i]
                    },
            },
    {
        let ghost av = algos_view(self.algos@);
        let ghost sv = sets_view(self.sets@);
        let ghost ts = consumer_targets(self.consumers@);
        let mut out: Vec<ResolvedConsumer> = Vec::new();
        let mut i: usize = 0;
        assert(ts.take(0) =~= seq![]);
        while i < self.consumers.len()
            invariant
                reg.wf(),
                forall|k: int| 0 <= k < self.algos@.len() ==> #[trigger] self.algos@[k].query.bindings@.len() > 0,
                i <= self.consumers@.len(),
                av == algos_view(self.algos@),
                sv == sets_view(self.sets@),
                ts == consumer_targets(self.consumers@),
                out@.len() == i,
                consumers_labels(reg@, av, sv, ts.take(i as int)) matches Some(ls) && ls.len() == i && forall|k: int|
                    0 <= k < i ==> {
                        &&& (#[trigger] out@[k]).name@ == self.consumers@[k].name@
                        &&& crate::text::string_views(out@[k].mains@) == crate::text::string_views(
                            self.consumers@[k].mains@,
                        )
                        &&& crate::text::string_views(out@[k].algo_labels@) == ls[k]
                    },
            decreases self.consumers@.len() - i,
        {
            assert(ts.take(i + 1).drop_last() =~= ts.take(i as int));
            assert(ts.take(i + 1).last() == self.consumers@[i as int].target@);
            let ghost acc = consumers_labels(reg@, av, sv, ts.take(i as int))->0;
            let c = &self.consumers[i];
            let names = match self.resolve_algos(c.target.as_str()) {
                Ok(v) => v,
                Err(e) => {
                    proof {
                        lemma_consumers_labels_none(reg@, av, sv, ts, i + 1);
                    }
                    return Err(e);
                },
            };
            let raw = match self.labels_for(&names, reg) {
                Ok(r) => r,
                Err(e) => {
                    proof {
                        lemma_consumers_labels_none(reg@, av, sv, ts, i + 1);
                    }
                    return Err(e);
                },
            };
            let mut labels: Vec<String> = Vec::new();
            assert(crate::text::string_views(labels@) =~= seq![]);
            crate::resolve::union_into_exec(&mut labels, &raw);
            let rc = ResolvedConsumer {
                name: copy_s(&c.name),
                mains: crate::text::copy_strings(&c.mains),
                algo_labels: labels,
            };
            out.push(rc);
            proof {
                let ls2 = acc.push(crate::text::string_views(rc.algo_labels@));
                assert(consumers_labels(reg@, av, sv, ts.take(i + 1)) == Some(ls2));
                assert forall|k: int| 0 <= k < i + 1 implies {
                    &&& (#[trigger] out@[k]).name@ == self.consumers@[k].name@
                    &&& crate::text::string_views(out@[k].mains@) == crate::text::string_views(
                        self.consumers@[k].mains@,
                    )
                    &&& crate::text::string_views(out@[k].algo_labels@) == ls2[k]
                } by {
                    if k < i {
                        assert(ls2[k] == acc[k]);
                    }
                }
            }
            i = i + 1;
        }
        assert(ts.take(i as int) =~= ts);
        Ok(out)
    }
}

proof fn lemma_labels_of_none(reg: Seq<GComponent>, ns: Seq<crate::spec_lang::GNode>, k: int)
    requires
        0 <= k <= ns.len(),
        labels_of(reg, ns.take(k)) is None,
    ensures
        labels_of(reg, ns) is None,
    decreases ns.len(),
{
    if k == ns.len() {
        assert(ns.take(k) =~= ns);
    } else {
        assert(ns.drop_last().take(k) =~= ns.take(k));
        lemma_labels_of_none(reg, ns.drop_last(), k);
    }
}

proof fn lemma_algo_at_bound(a: Seq<(Seq<char>, GQuery)>, name: Seq<char>, i: int)
    requires
        0 <= i,
    ensures
        algo_at(a, name, i) matches Some(k) ==> i <= k < a.len() && a[k].0 == name,
    decreases a.len() - i,
{
    if 0 <= i < a.len() && a[i].0 != name {
        lemma_algo_at_bound(a, name, i + 1);
    }
}

proof fn lemma_set_at_bound(a: Seq<(Seq<char>, Seq<Seq<char>>)>, name: Seq<char>, i: int)
    requires
        0 <= i,
    ensures
        set_at(a, name, i) matches Some(k) ==> i <= k < a.len() && a[k].0 == name,
    decreases a.len() - i,
{
    if 0 <= i < a.len() && a[i].0 != name {
        lemma_set_at_bound(a, name, i + 1);
    }
}

} // verus!
