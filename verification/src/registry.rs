//! The text catalog: `registry.spec` parsed into a component graph.
use vstd::prelude::*;
use crate::text::{
    chars_eq, chars_of, copy_string, lines, owned, parse_u128, parse_unsigned, push_decimal,
    push_str, split_first_word, split_first_word_chars, split_lines, split_on, split_on_char,
    split_words, string_of, string_views, trim, trim_chars, views, words,
    lemma_string_views_push, lemma_views_take_push,
};

verus! {

#[derive(Debug, Clone)]
pub enum ParamKind {
    /// Filled by a nested component that `provides` `role`; `default` names the
    /// component used when the slot is omitted (`None` = required).
    Type { role: String, default: Option<String> },
    /// Filled by a literal token; `values` is the finite set a const hole ranges
    /// over (empty = literal-only, a hole degenerates to `default`).
    Const { default: Option<String>, values: Vec<String> },
    /// A referenceable structural param that is never emitted; it lets a
    /// refinement (`Partition[pivot = p]`) thread a role constraint.
    Project { role: String },
}

#[derive(Debug, Clone)]
pub struct Param {
    pub name: String,
    pub kind: ParamKind,
}

#[derive(Debug, Clone)]
pub struct Component {
    pub name: String,
    pub type_tmpl: String,
    pub label_tmpl: String,
    pub provides: Vec<String>,
    pub params: Vec<Param>,
    /// Module paths to bring into scope for `type_tmpl`; unioned with nested
    /// children's during resolve.
    pub uses: Vec<String>,
    /// Which driver/battery this component emits as (`None` for slot fillers).
    pub category: Option<String>,
    /// True if the algorithm runs faster on nearly-sorted input.
    pub adaptive: bool,
    /// True if the algorithm's trace is intentionally nondeterministic.
    pub nondeterministic: bool,
    /// Contract-defined upper bound on input size.
    pub max_input: Option<usize>,
    /// Picker sub-path beneath the category root.
    pub menu: Vec<String>,
}

/// The catalog: components keyed by their (unique) name.
#[derive(Debug)]
pub struct Registry {
    pub components: Vec<Component>,
}

// ───────────────────────────── abstract views ─────────────────────────────

pub ghost enum GParamKind {
    Type { role: Seq<char>, default: Option<Seq<char>> },
    Const { default: Option<Seq<char>>, values: Seq<Seq<char>> },
    Project { role: Seq<char> },
}

pub ghost struct GParam {
    pub name: Seq<char>,
    pub kind: GParamKind,
}

pub ghost struct GComponent {
    pub name: Seq<char>,
    pub type_tmpl: Seq<char>,
    pub label_tmpl: Seq<char>,
    pub provides: Seq<Seq<char>>,
    pub params: Seq<GParam>,
    pub uses: Seq<Seq<char>>,
    pub category: Option<Seq<char>>,
    pub adaptive: bool,
    pub nondeterministic: bool,
    pub max_input: Option<usize>,
    pub menu: Seq<Seq<char>>,
}

pub open spec fn opt_view(o: Option<String>) -> Option<Seq<char>> {
    match o {
        Some(s) => Some(s@),
        None => None,
    }
}

pub open spec fn kind_view(k: ParamKind) -> GParamKind {
    match k {
        ParamKind::Type { role, default } => GParamKind::Type {
            role: role@,
            default: opt_view(default),
        },
        ParamKind::Const { default, values } => GParamKind::Const {
            default: opt_view(default),
            values: string_views(values@),
        },
        ParamKind::Project { role } => GParamKind::Project { role: role@ },
    }
}

pub open spec fn param_view(p: Param) -> GParam {
    GParam { name: p.name@, kind: kind_view(p.kind) }
}

pub open spec fn params_view(ps: Seq<Param>) -> Seq<GParam> {
    ps.map_values(|p: Param| param_view(p))
}

pub open spec fn comp_view(c: Component) -> GComponent {
    GComponent {
        name: c.name@,
        type_tmpl: c.type_tmpl@,
        label_tmpl: c.label_tmpl@,
        provides: string_views(c.provides@),
        params: params_view(c.params@),
        uses: string_views(c.uses@),
        category: opt_view(c.category),
        adaptive: c.adaptive,
        nondeterministic: c.nondeterministic,
        max_input: c.max_input,
        menu: string_views(c.menu@),
    }
}

pub open spec fn comps_view(cs: Seq<Component>) -> Seq<GComponent> {
    cs.map_values(|c: Component| comp_view(c))
}

impl View for Registry {
    type V = Seq<GComponent>;

    open spec fn view(&self) -> Seq<GComponent> {
        comps_view(self.components@)
    }
}

/// No two components share a name.
pub open spec fn unique_names(cs: Seq<GComponent>) -> bool {
    forall|i: int, j: int| 0 <= i < cs.len() && 0 <= j < cs.len() && i != j ==> cs[i].name != cs[j].name
}

impl Registry {
    pub open spec fn wf(&self) -> bool {
        unique_names(self@)
    }
}

/// The first position at or after `i` of the component named `name`.
pub open spec fn find_from(cs: Seq<GComponent>, name: Seq<char>, i: int) -> Option<int>
    decreases cs.len() - i,
{
    if i < 0 || i >= cs.len() {
        None
    } else if cs[i].name == name {
        Some(i)
    } else {
        find_from(cs, name, i + 1)
    }
}

/// The position of the component named `name`.
pub open spec fn find(cs: Seq<GComponent>, name: Seq<char>) -> Option<int> {
    find_from(cs, name, 0)
}

pub proof fn lemma_find_from(cs: Seq<GComponent>, name: Seq<char>, i: int)
    requires
        0 <= i,
    ensures
        match find_from(cs, name, i) {
            Some(k) => i <= k < cs.len() && cs[k].name == name && forall|j: int|
                i <= j < k ==> cs[j].name != name,
            None => forall|j: int| i <= j < cs.len() ==> cs[j].name != name,
        },
    decreases cs.len() - i,
{
    if i < cs.len() && cs[i].name != name {
        lemma_find_from(cs, name, i + 1);
    }
}

/// Insert `c`, replacing a component of the same name (a map insert).
pub open spec fn insert_comp(cs: Seq<GComponent>, c: GComponent) -> Seq<GComponent> {
    match find(cs, c.name) {
        Some(i) => cs.update(i, c),
        None => cs.push(c),
    }
}

pub proof fn lemma_insert_unique(cs: Seq<GComponent>, c: GComponent)
    requires
        unique_names(cs),
    ensures
        unique_names(insert_comp(cs, c)),
{
    lemma_find_from(cs, c.name, 0);
}

// ───────────────────────────── the catalog grammar ─────────────────────────────

pub open spec fn kw_component() -> Seq<char> {
    seq!['c', 'o', 'm', 'p', 'o', 'n', 'e', 'n', 't']
}

pub open spec fn kw_end() -> Seq<char> {
    seq!['e', 'n', 'd']
}

pub open spec fn kw_type() -> Seq<char> {
    seq!['t', 'y', 'p', 'e']
}

pub open spec fn kw_label() -> Seq<char> {
    seq!['l', 'a', 'b', 'e', 'l']
}

pub open spec fn kw_provides() -> Seq<char> {
    seq!['p', 'r', 'o', 'v', 'i', 'd', 'e', 's']
}

pub open spec fn kw_uses() -> Seq<char> {
    seq!['u', 's', 'e', 's']
}

pub open spec fn kw_category() -> Seq<char> {
    seq!['c', 'a', 't', 'e', 'g', 'o', 'r', 'y']
}

pub open spec fn kw_menu() -> Seq<char> {
    seq!['m', 'e', 'n', 'u']
}

pub open spec fn kw_adaptive() -> Seq<char> {
    seq!['a', 'd', 'a', 'p', 't', 'i', 'v', 'e']
}

pub open spec fn kw_nondeterministic() -> Seq<char> {
    seq!['n', 'o', 'n', 'd', 'e', 't', 'e', 'r', 'm', 'i', 'n', 'i', 's', 't', 'i', 'c']
}

pub open spec fn kw_max_input() -> Seq<char> {
    seq!['m', 'a', 'x', '_', 'i', 'n', 'p', 'u', 't']
}

pub open spec fn kw_slot() -> Seq<char> {
    seq!['s', 'l', 'o', 't']
}

pub open spec fn kw_const() -> Seq<char> {
    seq!['c', 'o', 'n', 's', 't']
}

pub open spec fn kw_project() -> Seq<char> {
    seq!['p', 'r', 'o', 'j', 'e', 'c', 't']
}

pub open spec fn kw_values() -> Seq<char> {
    seq!['v', 'a', 'l', 'u', 'e', 's']
}

pub open spec fn kw_true() -> Seq<char> {
    seq!['t', 'r', 'u', 'e']
}


pub open spec fn new_comp(name: Seq<char>) -> GComponent {
    GComponent {
        name,
        type_tmpl: seq![],
        label_tmpl: seq![],
        provides: seq![],
        params: seq![],
        uses: seq![],
        category: None,
        adaptive: false,
        nondeterministic: false,
        max_input: None,
        menu: seq![],
    }
}

/// The trimmed, non-empty `/`-separated segments of a `menu` line.
pub open spec fn menu_segments(pieces: Seq<Seq<char>>) -> Seq<Seq<char>>
    decreases pieces.len(),
{
    if pieces.len() == 0 {
        seq![]
    } else {
        let t = trim(pieces[0]);
        (if t.len() > 0 {
            seq![t]
        } else {
            seq![]
        }) + menu_segments(pieces.drop_first())
    }
}

/// A `const <name> [<default>] [values <v>...]` line's default and value set.
pub open spec fn const_parts(w: Seq<Seq<char>>) -> (Option<Seq<char>>, Seq<Seq<char>>) {
    if w.len() < 2 {
        (None, seq![])
    } else if w[1] == kw_values() {
        (None, w.skip(2))
    } else {
        (Some(w[1]), if w.len() >= 3 && w[2] == kw_values() {
            w.skip(3)
        } else {
            seq![]
        })
    }
}

/// One field line `kw rest` applied to the component being read; `None` when
/// the line is malformed or the keyword unknown.
pub open spec fn field_line(c: GComponent, kw: Seq<char>, rest: Seq<char>) -> Option<GComponent> {
    let w = words(rest);
    if kw == kw_type() {
        Some(GComponent { type_tmpl: trim(rest), ..c })
    } else if kw == kw_label() {
        Some(GComponent { label_tmpl: trim(rest), ..c })
    } else if kw == kw_provides() {
        Some(GComponent { provides: w, ..c })
    } else if kw == kw_uses() {
        Some(GComponent { uses: c.uses + w, ..c })
    } else if kw == kw_category() {
        Some(GComponent { category: Some(trim(rest)), ..c })
    } else if kw == kw_menu() {
        Some(GComponent { menu: menu_segments(split_on(rest, '/')), ..c })
    } else if kw == kw_adaptive() {
        Some(GComponent { adaptive: trim(rest) == kw_true(), ..c })
    } else if kw == kw_nondeterministic() {
        Some(GComponent { nondeterministic: trim(rest) == kw_true(), ..c })
    } else if kw == kw_max_input() {
        match parse_unsigned(trim(rest), usize::MAX as nat) {
            Some(v) => Some(GComponent { max_input: Some(v as usize), ..c }),
            None => None,
        }
    } else if kw == kw_slot() {
        if w.len() < 2 {
            None
        } else {
            Some(
                GComponent {
                    params: c.params.push(
                        GParam {
                            name: w[0],
                            kind: GParamKind::Type {
                                role: w[1],
                                default: if w.len() >= 3 {
                                    Some(w[2])
                                } else {
                                    None
                                },
                            },
                        },
                    ),
                    ..c
                },
            )
        }
    } else if kw == kw_const() {
        if w.len() < 1 {
            None
        } else {
            Some(
                GComponent {
                    params: c.params.push(
                        GParam {
                            name: w[0],
                            kind: GParamKind::Const {
                                default: const_parts(w).0,
                                values: const_parts(w).1,
                            },
                        },
                    ),
                    ..c
                },
            )
        }
    } else if kw == kw_project() {
        if w.len() < 2 {
            None
        } else {
            Some(
                GComponent {
                    params: c.params.push(
                        GParam { name: w[0], kind: GParamKind::Project { role: w[1] } },
                    ),
                    ..c
                },
            )
        }
    } else {
        None
    }
}

/// Why a field line is refused (meaningful where `field_line` gives `None`).
pub open spec fn field_err(kw: Seq<char>, rest: Seq<char>) -> Seq<char> {
    let w = words(rest);
    if kw == kw_max_input() {
        "max_input needs an integer"@
    } else if kw == kw_slot() {
        if w.len() < 1 {
            "slot needs a name"@
        } else {
            "slot needs a role"@
        }
    } else if kw == kw_const() {
        "const needs a name"@
    } else if kw == kw_project() {
        if w.len() < 1 {
            "project needs a name"@
        } else {
            "project needs a role"@
        }
    } else {
        "unknown keyword `"@ + kw + "`"@
    }
}

/// The prefix every catalog error carries: the 1-based line number.
pub open spec fn line_prefix(i: nat) -> Seq<char> {
    "registry line "@ + crate::text::decimal(i + 1) + ": "@
}

/// The message of a raw line the state refuses (meaningful where `reg_line`
/// gives `None`), the line being the `i`-th (from 0).
pub open spec fn line_msg(st: RegState, raw: Seq<char>, i: nat) -> Seq<char> {
    let (kw, rest) = split_first_word(trim(raw));
    if kw == kw_end() {
        line_prefix(i) + "`end` outside a component"@
    } else {
        match st.cur {
            None => line_prefix(i) + "field outside a component"@,
            Some(_) => line_prefix(i) + field_err(kw, rest),
        }
    }
}

/// The message of the first line the reader refuses, the lines starting
/// at the `i`-th; empty where none is refused.
pub open spec fn reg_lines_err(st: RegState, ls: Seq<Seq<char>>, i: nat) -> Seq<char>
    decreases ls.len(),
{
    if ls.len() == 0 {
        seq![]
    } else {
        match reg_line(st, ls[0]) {
            Some(st2) => reg_lines_err(st2, ls.drop_first(), i + 1),
            None => line_msg(st, ls[0], i),
        }
    }
}

/// The message a malformed catalog is refused with.
pub open spec fn reg_error(text: Seq<char>) -> Seq<char> {
    reg_lines_err(RegState { comps: seq![], cur: None }, lines(text), 0)
}

/// The reader's state: the components so far and the one being read.
pub ghost struct RegState {
    pub comps: Seq<GComponent>,
    pub cur: Option<GComponent>,
}

pub open spec fn flush(st: RegState) -> Seq<GComponent> {
    match st.cur {
        Some(c) => insert_comp(st.comps, c),
        None => st.comps,
    }
}

/// One raw line of the catalog applied to the state; `None` on an error.
pub open spec fn reg_line(st: RegState, raw: Seq<char>) -> Option<RegState> {
    let line = trim(raw);
    if line.len() == 0 || line[0] == '#' {
        Some(st)
    } else {
        let (kw, rest) = split_first_word(line);
        if kw == kw_component() {
            Some(RegState { comps: flush(st), cur: Some(new_comp(trim(rest))) })
        } else if kw == kw_end() {
            match st.cur {
                Some(c) => Some(RegState { comps: insert_comp(st.comps, c), cur: None }),
                None => None,
            }
        } else {
            match st.cur {
                None => None,
                Some(c) => match field_line(c, kw, rest) {
                    Some(c2) => Some(RegState { comps: st.comps, cur: Some(c2) }),
                    None => None,
                },
            }
        }
    }
}

pub open spec fn reg_lines(st: RegState, ls: Seq<Seq<char>>) -> Option<RegState>
    decreases ls.len(),
{
    if ls.len() == 0 {
        Some(st)
    } else {
        match reg_line(st, ls[0]) {
            Some(st2) => reg_lines(st2, ls.drop_first()),
            None => None,
        }
    }
}

/// The catalog `text` describes, or `None` when it is malformed.
pub open spec fn reg_parse(text: Seq<char>) -> Option<Seq<GComponent>> {
    match reg_lines(RegState { comps: seq![], cur: None }, lines(text)) {
        Some(st) => Some(flush(st)),
        None => None,
    }
}

/// A raw catalog line that is blank or a comment.
pub open spec fn skipped_line(raw: Seq<char>) -> bool {
    trim(raw).len() == 0 || trim(raw)[0] == '#'
}

/// The words a `uses` line lists; none for any other line.
pub open spec fn uses_of_line(raw: Seq<char>) -> Seq<Seq<char>> {
    if skipped_line(raw) {
        seq![]
    } else if split_first_word(trim(raw)).0 == kw_uses() {
        words(split_first_word(trim(raw)).1)
    } else {
        seq![]
    }
}

/// The words of all `uses` lines among `ls`, in order.
pub open spec fn uses_of_lines(ls: Seq<Seq<char>>) -> Seq<Seq<char>>
    decreases ls.len(),
{
    if ls.len() == 0 {
        seq![]
    } else {
        uses_of_line(ls[0]) + uses_of_lines(ls.drop_first())
    }
}

/// A line read inside a component: neither `component` nor `end`.
pub open spec fn inside_line(raw: Seq<char>) -> bool {
    skipped_line(raw) || (split_first_word(trim(raw)).0 != kw_component() && split_first_word(trim(raw)).0
        != kw_end())
}

/// While a component is open, its imports only grow: after reading lines
/// that neither open nor close a component, its `uses` are those it had,
/// followed by the words of every `uses` line read, in order.
pub proof fn uses_lines_accumulate(st: RegState, ls: Seq<Seq<char>>)
    requires
        st.cur is Some,
        forall|i: int| 0 <= i < ls.len() ==> inside_line(#[trigger] ls[i]),
        reg_lines(st, ls) is Some,
    ensures
        reg_lines(st, ls)->0.cur is Some,
        reg_lines(st, ls)->0.cur->0.uses == st.cur->0.uses + uses_of_lines(ls),
    decreases ls.len(),
{
    if ls.len() == 0 {
        assert(st.cur->0.uses + seq![] =~= st.cur->0.uses);
    } else {
        let c = st.cur->0;
        let st2 = reg_line(st, ls[0])->0;
        assert(inside_line(ls[0]));
        assert(st2.cur is Some);
        assert(st2.cur->0.uses == c.uses + uses_of_line(ls[0]));
        let rest = ls.drop_first();
        assert forall|i: int| 0 <= i < rest.len() implies inside_line(#[trigger] rest[i]) by {
            assert(rest[i] == ls[i + 1]);
        }
        uses_lines_accumulate(st2, rest);
        assert(c.uses + uses_of_line(ls[0]) + uses_of_lines(rest) =~= c.uses + uses_of_lines(ls));
    }
}

fn is_kw_component(v: &[char]) -> (r: bool)
    ensures
        r == (v@ == kw_component()),
{
    proof {
        reveal_strlit("component");
    }
    let k = chars_of("component");
    assert(k@ =~= kw_component());
    chars_eq(v, k.as_slice())
}

fn is_kw_end(v: &[char]) -> (r: bool)
    ensures
        r == (v@ == kw_end()),
{
    proof {
        reveal_strlit("end");
    }
    let k = chars_of("end");
    assert(k@ =~= kw_end());
    chars_eq(v, k.as_slice())
}

fn is_kw_type(v: &[char]) -> (r: bool)
    ensures
        r == (v@ == kw_type()),
{
    proof {
        reveal_strlit("type");
    }
    let k = chars_of("type");
    assert(k@ =~= kw_type());
    chars_eq(v, k.as_slice())
}

fn is_kw_label(v: &[char]) -> (r: bool)
    ensures
        r == (v@ == kw_label()),
{
    proof {
        reveal_strlit("label");
    }
    let k = chars_of("label");
    assert(k@ =~= kw_label());
    chars_eq(v, k.as_slice())
}

fn is_kw_provides(v: &[char]) -> (r: bool)
    ensures
        r == (v@ == kw_provides()),
{
    proof {
        reveal_strlit("provides");
    }
    let k = chars_of("provides");
    assert(k@ =~= kw_provides());
    chars_eq(v, k.as_slice())
}

fn is_kw_uses(v: &[char]) -> (r: bool)
    ensures
        r == (v@ == kw_uses()),
{
    proof {
        reveal_strlit("uses");
    }
    let k = chars_of("uses");
    assert(k@ =~= kw_uses());
    chars_eq(v, k.as_slice())
}

fn is_kw_category(v: &[char]) -> (r: bool)
    ensures
        r == (v@ == kw_category()),
{
    proof {
        reveal_strlit("category");
    }
    let k = chars_of("category");
    assert(k@ =~= kw_category());
    chars_eq(v, k.as_slice())
}

fn is_kw_menu(v: &[char]) -> (r: bool)
    ensures
        r == (v@ == kw_menu()),
{
    proof {
        reveal_strlit("menu");
    }
    let k = chars_of("menu");
    assert(k@ =~= kw_menu());
    chars_eq(v, k.as_slice())
}

fn is_kw_adaptive(v: &[char]) -> (r: bool)
    ensures
        r == (v@ == kw_adaptive()),
{
    proof {
        reveal_strlit("adaptive");
    }
    let k = chars_of("adaptive");
    assert(k@ =~= kw_adaptive());
    chars_eq(v, k.as_slice())
}

fn is_kw_nondeterministic(v: &[char]) -> (r: bool)
    ensures
        r == (v@ == kw_nondeterministic()),
{
    proof {
        reveal_strlit("nondeterministic");
    }
    let k = chars_of("nondeterministic");
    assert(k@ =~= kw_nondeterministic());
    chars_eq(v, k.as_slice())
}

fn is_kw_max_input(v: &[char]) -> (r: bool)
    ensures
        r == (v@ == kw_max_input()),
{
    proof {
        reveal_strlit("max_input");
    }
    let k = chars_of("max_input");
    assert(k@ =~= kw_max_input());
    chars_eq(v, k.as_slice())
}

fn is_kw_slot(v: &[char]) -> (r: bool)
    ensures
        r == (v@ == kw_slot()),
{
    proof {
        reveal_strlit("slot");
    }
    let k = chars_of("slot");
    assert(k@ =~= kw_slot());
    chars_eq(v, k.as_slice())
}

fn is_kw_const(v: &[char]) -> (r: bool)
    ensures
        r == (v@ == kw_const()),
{
    proof {
        reveal_strlit("const");
    }
    let k = chars_of("const");
    assert(k@ =~= kw_const());
    chars_eq(v, k.as_slice())
}

fn is_kw_project(v: &[char]) -> (r: bool)
    ensures
        r == (v@ == kw_project()),
{
    proof {
        reveal_strlit("project");
    }
    let k = chars_of("project");
    assert(k@ =~= kw_project());
    chars_eq(v, k.as_slice())
}

fn is_kw_values(v: &[char]) -> (r: bool)
    ensures
        r == (v@ == kw_values()),
{
    proof {
        reveal_strlit("values");
    }
    let k = chars_of("values");
    assert(k@ =~= kw_values());
    chars_eq(v, k.as_slice())
}

fn is_kw_true(v: &[char]) -> (r: bool)
    ensures
        r == (v@ == kw_true()),
{
    proof {
        reveal_strlit("true");
    }
    let k = chars_of("true");
    assert(k@ =~= kw_true());
    chars_eq(v, k.as_slice())
}


fn string_vec(ws: Vec<Vec<char>>) -> (out: Vec<String>)
    ensures
        string_views(out@) == views(ws@),
{
    let mut out: Vec<String> = Vec::new();
    let mut i: usize = 0;
    while i < ws.len()
        invariant
            i <= ws@.len(),
            string_views(out@) == views(ws@.take(i as int)),
        decreases ws@.len() - i,
    {
        let s = string_of(ws[i].as_slice());
        proof {
            lemma_string_views_push(out@, s);
            lemma_views_take_push(ws@, i as int);
        }
        out.push(s);
        i = i + 1;
    }
    assert(ws@.take(i as int) =~= ws@);
    out
}

fn append_strings(v: &mut Vec<String>, ws: &Vec<String>)
    ensures
        string_views(final(v)@) == string_views(old(v)@) + string_views(ws@),
{
    let mut k: usize = 0;
    let ghost u0 = string_views(v@);
    while k < ws.len()
        invariant
            k <= ws@.len(),
            string_views(v@) == u0 + string_views(ws@).take(k as int),
        decreases ws@.len() - k,
    {
        let x = copy_string(&ws[k]);
        proof {
            lemma_string_views_push(v@, x);
        }
        v.push(x);
        assert(u0 + string_views(ws@).take(k + 1) =~= (u0 + string_views(ws@).take(k as int)).push(
            x@,
        ));
        k = k + 1;
    }
    assert(string_views(ws@).take(k as int) =~= string_views(ws@));
}

fn new_component(name: String) -> (c: Component)
    ensures
        comp_view(c) == new_comp(name@),
{
    let c = Component {
        name,
        type_tmpl: String::new(),
        label_tmpl: String::new(),
        provides: Vec::new(),
        params: Vec::new(),
        uses: Vec::new(),
        category: None,
        adaptive: false,
        nondeterministic: false,
        max_input: None,
        menu: Vec::new(),
    };
    assert(string_views(c.provides@) =~= seq![]);
    assert(string_views(c.uses@) =~= seq![]);
    assert(string_views(c.menu@) =~= seq![]);
    assert(params_view(c.params@) =~= seq![]);
    c
}

fn find_exec(comps: &Vec<Component>, name: &[char]) -> (r: Option<usize>)
    ensures
        match r {
            Some(i) => find(comps_view(comps@), name@) == Some(i as int) && i < comps@.len(),
            None => find(comps_view(comps@), name@) is None,
        },
{
    proof {
        lemma_find_from(comps_view(comps@), name@, 0);
    }
    let mut i: usize = 0;
    while i < comps.len()
        invariant
            i <= comps@.len(),
            find(comps_view(comps@), name@) == find_from(comps_view(comps@), name@, i as int),
        decreases comps@.len() - i,
    {
        let n = chars_of(comps[i].name.as_str());
        if chars_eq(n.as_slice(), name) {
            return Some(i);
        }
        i = i + 1;
    }
    None
}

fn insert_exec(comps: &mut Vec<Component>, c: Component)
    ensures
        comps_view(final(comps)@) == insert_comp(comps_view(old(comps)@), comp_view(c)),
{
    let n = chars_of(c.name.as_str());
    let ghost cv = comp_view(c);
    match find_exec(comps, n.as_slice()) {
        Some(i) => {
            comps.set(i, c);
            assert(comps_view(comps@) =~= comps_view(old(comps)@).update(i as int, cv));
        },
        None => {
            comps.push(c);
            assert(comps_view(comps@) =~= comps_view(old(comps)@).push(cv));
        },
    }
}

fn menu_exec(rest: &[char]) -> (out: Vec<String>)
    ensures
        string_views(out@) == menu_segments(split_on(rest@, '/')),
{
    let pieces = split_on_char(rest, '/');
    let mut out: Vec<String> = Vec::new();
    let mut i: usize = 0;
    assert(views(pieces@).skip(0) =~= views(pieces@));
    assert(string_views(out@) + menu_segments(views(pieces@)) =~= menu_segments(views(pieces@)));
    while i < pieces.len()
        invariant
            i <= pieces@.len(),
            menu_segments(views(pieces@)) == string_views(out@) + menu_segments(
                views(pieces@).skip(i as int),
            ),
        decreases pieces@.len() - i,
    {
        let ghost rest_v = views(pieces@).skip(i as int);
        assert(rest_v.drop_first() =~= views(pieces@).skip(i + 1));
        let ghost before = string_views(out@);
        let t = trim_chars(pieces[i].as_slice());
        if t.len() > 0 {
            let x = string_of(t.as_slice());
            proof {
                lemma_string_views_push(out@, x);
            }
            out.push(x);
            assert(string_views(out@) =~= before + seq![t@]);
            assert(string_views(out@) + menu_segments(views(pieces@).skip(i + 1)) =~= before + (
            seq![t@] + menu_segments(rest_v.drop_first())));
        } else {
            assert(before + menu_segments(views(pieces@).skip(i + 1)) =~= before + (seq![]
                + menu_segments(rest_v.drop_first())));
        }
        i = i + 1;
    }
    assert(views(pieces@).skip(i as int) =~= seq![]);
    assert(string_views(out@) + seq![] =~= string_views(out@));
    out
}

fn line_err(lineno: usize, m: &str) -> (r: String)
    ensures
        r@ == "registry line "@ + crate::text::decimal((lineno + 1) as nat) + ": "@ + m@,
{
    let mut s = owned("registry line ");
    push_decimal(&mut s, lineno as u128 + 1);
    push_str(&mut s, ": ");
    push_str(&mut s, m);
    s
}

fn field_exec(c: Component, kw: &[char], rest: &[char], lineno: usize) -> (r: Result<
    Component,
    String,
>)
    ensures
        match field_line(comp_view(c), kw@, rest@) {
            Some(c2) => r is Ok && comp_view(r->Ok_0) == c2,
            None => r is Err,
        },
        r is Err ==> r->Err_0@ == line_prefix(lineno as nat) + field_err(kw@, rest@),
{
    let mut c = c;
    let ghost c0 = comp_view(c);
    let w = split_words(rest);
    if is_kw_type(kw) {
        let t = trim_chars(rest);
        c.type_tmpl = string_of(t.as_slice());
        assert(comp_view(c) == GComponent { type_tmpl: trim(rest@), ..c0 });
    } else if is_kw_label(kw) {
        let t = trim_chars(rest);
        c.label_tmpl = string_of(t.as_slice());
        assert(comp_view(c) == GComponent { label_tmpl: trim(rest@), ..c0 });
    } else if is_kw_provides(kw) {
        c.provides = string_vec(w);
        assert(comp_view(c) == GComponent { provides: words(rest@), ..c0 });
    } else if is_kw_uses(kw) {
        let ws = string_vec(w);
        append_strings(&mut c.uses, &ws);
        assert(comp_view(c) == GComponent { uses: c0.uses + words(rest@), ..c0 });
    } else if is_kw_category(kw) {
        let t = trim_chars(rest);
        c.category = Some(string_of(t.as_slice()));
        assert(comp_view(c) == GComponent { category: Some(trim(rest@)), ..c0 });
    } else if is_kw_menu(kw) {
        c.menu = menu_exec(rest);
        assert(comp_view(c) == GComponent { menu: menu_segments(split_on(rest@, '/')), ..c0 });
    } else if is_kw_adaptive(kw) {
        let t = trim_chars(rest);
        c.adaptive = is_kw_true(t.as_slice());
        assert(comp_view(c) == GComponent { adaptive: trim(rest@) == kw_true(), ..c0 });
    } else if is_kw_nondeterministic(kw) {
        let t = trim_chars(rest);
        c.nondeterministic = is_kw_true(t.as_slice());
        assert(comp_view(c) == GComponent { nondeterministic: trim(rest@) == kw_true(), ..c0 });
    } else if is_kw_max_input(kw) {
        let t = trim_chars(rest);
        match parse_u128(t.as_slice()) {
            Some(v) => {
                if v > usize::MAX as u128 {
                    return Err(line_err(lineno, "max_input needs an integer"));
                }
                c.max_input = Some(v as usize);
            },
            None => {
                return Err(line_err(lineno, "max_input needs an integer"));
            },
        }
    } else if is_kw_slot(kw) {
        if w.len() < 1 {
            return Err(line_err(lineno, "slot needs a name"));
        }
        if w.len() < 2 {
            return Err(line_err(lineno, "slot needs a role"));
        }
        let default = if w.len() >= 3 {
            Some(string_of(w[2].as_slice()))
        } else {
            None
        };
        let p = Param {
            name: string_of(w[0].as_slice()),
            kind: ParamKind::Type { role: string_of(w[1].as_slice()), default },
        };
        let ghost pv = param_view(p);
        c.params.push(p);
        assert(params_view(c.params@) =~= c0.params.push(pv));
    } else if is_kw_const(kw) {
        if w.len() < 1 {
            return Err(line_err(lineno, "const needs a name"));
        }
        let mut default: Option<String> = None;
        let mut values: Vec<String> = Vec::new();
        assert(string_views(values@) =~= seq![]);
        if w.len() >= 2 {
            if is_kw_values(w[1].as_slice()) {
                let mut k: usize = 2;
                while k < w.len()
                    invariant
                        2 <= k <= w@.len(),
                        string_views(values@) == views(w@).subrange(2, k as int),
                    decreases w@.len() - k,
                {
                    let x = string_of(w[k].as_slice());
                    proof {
                        lemma_string_views_push(values@, x);
                    }
                    values.push(x);
                    assert(views(w@).subrange(2, k + 1) =~= views(w@).subrange(2, k as int).push(w@[k as int]@));
                    k = k + 1;
                }
                assert(views(w@).subrange(2, k as int) =~= views(w@).skip(2));
            } else {
                default = Some(string_of(w[1].as_slice()));
                if w.len() >= 3 && is_kw_values(w[2].as_slice()) {
                    let mut k: usize = 3;
                    while k < w.len()
                        invariant
                            3 <= k <= w@.len(),
                            string_views(values@) == views(w@).subrange(3, k as int),
                        decreases w@.len() - k,
                    {
                        let x = string_of(w[k].as_slice());
                        proof {
                            lemma_string_views_push(values@, x);
                        }
                        values.push(x);
                        assert(views(w@).subrange(3, k + 1) =~= views(w@).subrange(3, k as int).push(w@[k as int]@));
                        k = k + 1;
                    }
                    assert(views(w@).subrange(3, k as int) =~= views(w@).skip(3));
                }
            }
        }
        let p = Param {
            name: string_of(w[0].as_slice()),
            kind: ParamKind::Const { default, values },
        };
        let ghost pv = param_view(p);
        c.params.push(p);
        assert(params_view(c.params@) =~= c0.params.push(pv));
    } else if is_kw_project(kw) {
        if w.len() < 1 {
            return Err(line_err(lineno, "project needs a name"));
        }
        if w.len() < 2 {
            return Err(line_err(lineno, "project needs a role"));
        }
        let p = Param {
            name: string_of(w[0].as_slice()),
            kind: ParamKind::Project { role: string_of(w[1].as_slice()) },
        };
        let ghost pv = param_view(p);
        c.params.push(p);
        assert(params_view(c.params@) =~= c0.params.push(pv));
    } else {
        let mut m = owned("unknown keyword `");
        crate::text::push_chars(&mut m, kw);
        push_str(&mut m, "`");
        return Err(line_err(lineno, m.as_str()));
    }
    Ok(c)
}

pub open spec fn state_of(comps: Seq<Component>, cur: Option<Component>) -> RegState {
    RegState {
        comps: comps_view(comps),
        cur: match cur {
            Some(c) => Some(comp_view(c)),
            None => None,
        },
    }
}

impl Registry {
    /// Parse the catalog text.
    pub fn parse(text: &str) -> (r: Result<Registry, String>)
        ensures
            r is Ok <==> reg_parse(text@) is Some,
            r is Ok ==> r->Ok_0@ == reg_parse(text@)->0 && r->Ok_0.wf(),
            r is Err ==> r->Err_0@ == reg_error(text@),
    {
        let chars = chars_of(text);
        let ls = split_lines(chars.as_slice());
        let mut comps: Vec<Component> = Vec::new();
        let mut cur: Option<Component> = None;
        let mut i: usize = 0;
        assert(views(ls@).skip(0) =~= views(ls@));
        assert(comps_view(comps@) =~= seq![]);
        while i < ls.len()
            invariant
                i <= ls@.len(),
                views(ls@) == lines(text@),
                reg_lines(RegState { comps: seq![], cur: None }, lines(text@)) == reg_lines(
                    state_of(comps@, cur),
                    views(ls@).skip(i as int),
                ),
                reg_error(text@) == reg_lines_err(state_of(comps@, cur), views(ls@).skip(i as int), i as nat),
                unique_names(comps_view(comps@)),
            decreases ls@.len() - i,
        {
            let ghost st = state_of(comps@, cur);
            let ghost rest_ls = views(ls@).skip(i as int);
            assert(rest_ls.drop_first() =~= views(ls@).skip(i + 1));
            assert(rest_ls[0] == ls@[i as int]@);
            let line = trim_chars(ls[i].as_slice());
            if line.len() == 0 || line[0] == '#' {
                i = i + 1;
                continue ;
            }
            let (kw, rest) = split_first_word_chars(line.as_slice());
            if is_kw_component(kw.as_slice()) {
                match cur.take() {
                    Some(c) => {
                        proof {
                            lemma_insert_unique(comps_view(comps@), comp_view(c));
                        }
                        insert_exec(&mut comps, c);
                    },
                    None => {},
                }
                let t = trim_chars(rest.as_slice());
                cur = Some(new_component(string_of(t.as_slice())));
            } else if is_kw_end(kw.as_slice()) {
                match cur.take() {
                    Some(c) => {
                        proof {
                            lemma_insert_unique(comps_view(comps@), comp_view(c));
                        }
                        insert_exec(&mut comps, c);
                    },
                    None => {
                        return Err(line_err(i, "`end` outside a component"));
                    },
                }
            } else {
                match cur.take() {
                    None => {
                        return Err(line_err(i, "field outside a component"));
                    },
                    Some(c) => {
                        match field_exec(c, kw.as_slice(), rest.as_slice(), i) {
                            Ok(c2) => {
                                cur = Some(c2);
                            },
                            Err(e) => {
                                return Err(e);
                            },
                        }
                    },
                }
            }
            i = i + 1;
        }
        match cur.take() {
            Some(c) => {
                proof {
                    lemma_insert_unique(comps_view(comps@), comp_view(c));
                }
                insert_exec(&mut comps, c);
            },
            None => {},
        }
        Ok(Registry { components: comps })
    }

    /// The component named `name`.
    pub fn get(&self, name: &str) -> (r: Option<&Component>)
        ensures
            match find(self@, name@) {
                Some(i) => r is Some && comp_view(*r->0) == self@[i],
                None => r is None,
            },
    {
        let n = chars_of(name);
        match find_exec(&self.components, n.as_slice()) {
            Some(i) => Some(&self.components[i]),
            None => None,
        }
    }

    /// Every component, in catalog order.
    pub fn iter(&self) -> (r: &[Component])
        ensures
            comps_view(r@) == self@,
    {
        self.components.as_slice()
    }
}

} // verus!

verus! {

// ───────────────────────────── name order ─────────────────────────────

/// Lexicographic order on names, character by character (the order `str`
/// comparison gives).
pub open spec fn lex_lt(a: Seq<char>, b: Seq<char>) -> bool
    decreases a.len(),
{
    if a.len() == 0 {
        b.len() > 0
    } else if b.len() == 0 {
        false
    } else if (a[0] as int) < (b[0] as int) {
        true
    } else if a[0] == b[0] {
        lex_lt(a.drop_first(), b.drop_first())
    } else {
        false
    }
}

pub proof fn lemma_lex_irreflexive(a: Seq<char>)
    ensures
        !lex_lt(a, a),
    decreases a.len(),
{
    if a.len() > 0 {
        lemma_lex_irreflexive(a.drop_first());
    }
}

pub proof fn lemma_lex_transitive(a: Seq<char>, b: Seq<char>, c: Seq<char>)
    requires
        lex_lt(a, b),
        lex_lt(b, c),
    ensures
        lex_lt(a, c),
    decreases a.len(),
{
    if a.len() > 0 && b.len() > 0 && c.len() > 0 && a[0] == b[0] && b[0] == c[0] {
        lemma_lex_transitive(a.drop_first(), b.drop_first(), c.drop_first());
    }
}

pub proof fn lemma_lex_total(a: Seq<char>, b: Seq<char>)
    requires
        a != b,
    ensures
        lex_lt(a, b) || lex_lt(b, a),
    decreases a.len(),
{
    if a.len() > 0 && b.len() > 0 && a[0] == b[0] {
        if a.drop_first() == b.drop_first() {
            assert(a =~= seq![a[0]] + a.drop_first());
            assert(b =~= seq![b[0]] + b.drop_first());
        }
        lemma_lex_total(a.drop_first(), b.drop_first());
    } else if a.len() > 0 && b.len() > 0 && a[0] != b[0] {
    } else if a.len() == 0 && b.len() == 0 {
        assert(a =~= b);
    }
}

fn name_lt(a: &[char], b: &[char]) -> (r: bool)
    ensures
        r == lex_lt(a@, b@),
{
    let mut i: usize = 0;
    assert(a@.skip(0) =~= a@);
    assert(b@.skip(0) =~= b@);
    while i < a.len() && i < b.len()
        invariant
            i <= a@.len(),
            i <= b@.len(),
            lex_lt(a@, b@) == lex_lt(a@.skip(i as int), b@.skip(i as int)),
        decreases a@.len() - i,
    {
        let ca = a[i];
        let cb = b[i];
        let ghost sa = a@.skip(i as int);
        let ghost sb = b@.skip(i as int);
        assert(sa[0] == ca && sb[0] == cb);
        if ca < cb {
            return true;
        }
        if ca != cb {
            return false;
        }
        assert(sa.drop_first() =~= a@.skip(i + 1));
        assert(sb.drop_first() =~= b@.skip(i + 1));
        i = i + 1;
    }
    if i < b.len() {
        assert(a@.skip(i as int).len() == 0);
        true
    } else {
        assert(b@.skip(i as int).len() == 0);
        false
    }
}

/// `x` inserted into `s` before the first component whose name is greater.
pub open spec fn ins_by_name(s: Seq<GComponent>, x: GComponent) -> Seq<GComponent>
    decreases s.len(),
{
    if s.len() == 0 {
        seq![x]
    } else if lex_lt(x.name, s[0].name) {
        seq![x] + s
    } else {
        seq![s[0]] + ins_by_name(s.drop_first(), x)
    }
}

/// The components among the first `j` of `cs` that provide `role`, in name
/// order.
pub open spec fn providers_upto(cs: Seq<GComponent>, role: Seq<char>, j: nat) -> Seq<GComponent>
    decreases j,
{
    if j == 0 || j > cs.len() {
        seq![]
    } else {
        let prev = providers_upto(cs, role, (j - 1) as nat);
        if cs[j - 1].provides.contains(role) {
            ins_by_name(prev, cs[j - 1])
        } else {
            prev
        }
    }
}

/// The components of `cs` that provide `role`, in name order.
pub open spec fn providers(cs: Seq<GComponent>, role: Seq<char>) -> Seq<GComponent> {
    providers_upto(cs, role, cs.len())
}

proof fn lemma_ins_by_name(s: Seq<GComponent>, x: GComponent, p: int)
    requires
        0 <= p <= s.len(),
        forall|q: int| 0 <= q < p ==> !lex_lt(x.name, s[q].name),
        p < s.len() ==> lex_lt(x.name, s[p].name),
    ensures
        ins_by_name(s, x) == s.insert(p, x),
    decreases s.len(),
{
    if s.len() == 0 {
        assert(s.insert(p, x) =~= seq![x]);
    } else if p == 0 {
        assert(s.insert(p, x) =~= seq![x] + s);
    } else {
        let t = s.drop_first();
        assert forall|q: int| 0 <= q < p - 1 implies !lex_lt(x.name, t[q].name) by {
            assert(t[q] == s[q + 1]);
        }
        lemma_ins_by_name(t, x, p - 1);
        assert(s.insert(p, x) =~= seq![s[0]] + t.insert(p - 1, x));
    }
}

/// Names strictly increasing along `cs`.
pub open spec fn sorted_by_name(cs: Seq<GComponent>) -> bool {
    forall|i: int, j: int| 0 <= i < j < cs.len() ==> lex_lt(cs[i].name, cs[j].name)
}

pub open spec fn refs_view(rs: Seq<&Component>) -> Seq<GComponent> {
    rs.map_values(|r: &Component| comp_view(*r))
}

/// The position of the first param named `name`.
pub open spec fn find_param(ps: Seq<GParam>, name: Seq<char>) -> Option<int>
    decreases ps.len(),
{
    if ps.len() == 0 {
        None
    } else if ps.last().name == name && find_param(ps.drop_last(), name) is None {
        Some(ps.len() - 1)
    } else {
        find_param(ps.drop_last(), name)
    }
}

/// The role a param contributes to whatever is bound to it.
pub open spec fn kind_role(k: GParamKind) -> Option<Seq<char>> {
    match k {
        GParamKind::Type { role, .. } => Some(role),
        GParamKind::Project { role } => Some(role),
        GParamKind::Const { .. } => None,
    }
}

impl Component {
    /// A referenceable param by name (any kind).
    pub fn param(&self, name: &str) -> (r: Option<&Param>)
        ensures
            match find_param(params_view(self.params@), name@) {
                Some(i) => r is Some && param_view(*r->0) == params_view(self.params@)[i],
                None => r is None,
            },
    {
        let n = chars_of(name);
        let mut i: usize = 0;
        while i < self.params.len()
            invariant
                i <= self.params@.len(),
                n@ == name@,
                find_param(params_view(self.params@).take(i as int), name@) is None,
            decreases self.params@.len() - i,
        {
            let ghost pv = params_view(self.params@);
            assert(pv.take(i + 1).drop_last() =~= pv.take(i as int));
            assert(pv[i as int] == param_view(self.params@[i as int]));
            assert(pv.take(i + 1).last() == pv[i as int]);
            let pn = chars_of(self.params[i].name.as_str());
            if chars_eq(pn.as_slice(), n.as_slice()) {
                proof {
                    lemma_find_param_prefix(pv, name@, i as int);
                }
                return Some(&self.params[i]);
            }
            i = i + 1;
        }
        assert(params_view(self.params@).take(i as int) =~= params_view(self.params@));
        None
    }

    /// The role a referenceable param contributes: `Type`/`Project` carry
    /// one, `Const` none.
    pub fn param_role(&self, name: &str) -> (r: Option<&str>)
        ensures
            match find_param(params_view(self.params@), name@) {
                Some(i) => match kind_role(params_view(self.params@)[i].kind) {
                    Some(role) => r is Some && r->0@ == role,
                    None => r is None,
                },
                None => r is None,
            },
    {
        match self.param(name) {
            Some(p) => match &p.kind {
                ParamKind::Type { role, .. } => Some(role.as_str()),
                ParamKind::Project { role } => Some(role.as_str()),
                ParamKind::Const { .. } => None,
            },
            None => None,
        }
    }
}

pub proof fn lemma_find_param_in(ps: Seq<GParam>, name: Seq<char>)
    ensures
        find_param(ps, name) matches Some(i) ==> 0 <= i < ps.len() && ps[i].name == name,
    decreases ps.len(),
{
    if ps.len() > 0 {
        lemma_find_param_in(ps.drop_last(), name);
    }
}

proof fn lemma_find_param_prefix(ps: Seq<GParam>, name: Seq<char>, i: int)
    requires
        0 <= i < ps.len(),
        ps[i].name == name,
        find_param(ps.take(i), name) is None,
    ensures
        find_param(ps, name) == Some(i),
    decreases ps.len(),
{
    if i == ps.len() - 1 {
        assert(ps.drop_last() =~= ps.take(i));
    } else {
        assert(ps.drop_last().take(i) =~= ps.take(i));
        lemma_find_param_prefix(ps.drop_last(), name, i);
    }
}

impl Registry {
    /// Every component that can satisfy `role`, sorted by name.
    pub fn providing(&self, role: &str) -> (r: Vec<&Component>)
        requires
            self.wf(),
        ensures
            refs_view(r@) == providers(self@, role@),
            sorted_by_name(refs_view(r@)),
            forall|x: GComponent|
                refs_view(r@).contains(x) <==> (self@.contains(x) && x.provides.contains(role@)),
    {
        let rv = chars_of(role);
        let mut out: Vec<&Component> = Vec::new();
        let mut j: usize = 0;
        let ghost all = self@;
        while j < self.components.len()
            invariant
                j <= self.components@.len(),
                all == self@,
                unique_names(all),
                rv@ == role@,
                sorted_by_name(refs_view(out@)),
                refs_view(out@) == providers_upto(all, role@, j as nat),
                forall|x: GComponent|
                    refs_view(out@).contains(x) <==> (exists|k: int|
                        0 <= k < j && #[trigger] all[k] == x && x.provides.contains(role@)),
            decreases self.components@.len() - j,
        {
            let c = &self.components[j];
            assert(comp_view(*c) == all[j as int]);
            if provides_role(c, rv.as_slice()) {
                let cn = chars_of(c.name.as_str());
                let mut p: usize = 0;
                while p < out.len()
                    invariant
                        p <= out@.len(),
                        cn@ == all[j as int].name,
                        forall|q: int| 0 <= q < p ==> !lex_lt(cn@, refs_view(out@)[q].name),
                    ensures
                        p <= out@.len(),
                        forall|q: int| 0 <= q < p ==> !lex_lt(cn@, refs_view(out@)[q].name),
                        p < out@.len() ==> lex_lt(cn@, refs_view(out@)[p as int].name),
                    decreases out@.len() - p,
                {
                    let on = chars_of(out[p].name.as_str());
                    assert(refs_view(out@)[p as int] == comp_view(*out@[p as int]));
                    if name_lt(cn.as_slice(), on.as_slice()) {
                        break;
                    }
                    p = p + 1;
                }
                let ghost before = refs_view(out@);
                proof {
                    assert forall|q: int| 0 <= q < before.len() implies before[q].name != cn@ by {
                        assert(before.contains(before[q]));
                        let k = choose|k: int|
                            0 <= k < j && #[trigger] all[k] == before[q] && before[q].provides.contains(role@);
                        assert(k != j);
                    }
                    assert forall|q: int| 0 <= q < p implies lex_lt(before[q].name, cn@) by {
                        lemma_lex_total(before[q].name, cn@);
                    }
                }
                out.insert(p, c);
                let ghost after = refs_view(out@);
                assert(after =~= before.insert(p as int, all[j as int]));
                proof {
                    lemma_ins_by_name(before, all[j as int], p as int);
                    lemma_insert_sorted(before, all[j as int], p as int);
                    assert forall|x: GComponent|
                        after.contains(x) <==> (exists|k: int|
                            0 <= k < j + 1 && #[trigger] all[k] == x && x.provides.contains(
                                role@,
                            )) by {
                        if after.contains(x) {
                            let q = choose|q: int| 0 <= q < after.len() && after[q] == x;
                            if q != p {
                                let q2 = if q < p { q } else { q - 1 };
                                assert(before[q2] == x);
                                assert(before.contains(x));
                            }
                        }
                        if exists|k: int| 0 <= k < j + 1 && #[trigger] all[k] == x && x.provides.contains(role@) {
                            let k = choose|k: int| 0 <= k < j + 1 && #[trigger] all[k] == x && x.provides.contains(role@);
                            if k < j {
                                assert(before.contains(x));
                                let q = choose|q: int| 0 <= q < before.len() && before[q] == x;
                                if q < p {
                                    assert(after[q] == x);
                                } else {
                                    assert(after[q + 1] == x);
                                }
                            } else {
                                assert(after[p as int] == x);
                            }
                        }
                    }
                }
            } else {
                proof {
                    assert forall|x: GComponent|
                        refs_view(out@).contains(x) <==> (exists|k: int|
                            0 <= k < j + 1 && #[trigger] all[k] == x && x.provides.contains(
                                role@,
                            )) by {
                        if exists|k: int| 0 <= k < j + 1 && #[trigger] all[k] == x && x.provides.contains(role@) {
                            let k = choose|k: int| 0 <= k < j + 1 && #[trigger] all[k] == x && x.provides.contains(role@);
                            assert(k < j);
                        }
                    }
                }
            }
            j = j + 1;
        }
        assert(refs_view(out@) == providers(self@, role@));
        proof {
            assert forall|x: GComponent|
                refs_view(out@).contains(x) <==> (self@.contains(x) && x.provides.contains(role@)) by {
                if self@.contains(x) && x.provides.contains(role@) {
                    let k = choose|k: int| 0 <= k < self@.len() && self@[k] == x;
                    assert(all[k] == x);
                }
            }
        }
        out
    }
}

proof fn lemma_insert_sorted(s: Seq<GComponent>, x: GComponent, p: int)
    requires
        0 <= p <= s.len(),
        sorted_by_name(s),
        forall|q: int| 0 <= q < p ==> lex_lt(s[q].name, x.name),
        p < s.len() ==> lex_lt(x.name, s[p].name),
    ensures
        sorted_by_name(s.insert(p, x)),
{
    let t = s.insert(p, x);
    assert forall|a: int, b: int| 0 <= a < b < t.len() implies lex_lt(t[a].name, t[b].name) by {
        if a < p && b == p {
        } else if a < p && b > p {
            assert(t[b] == s[b - 1]);
            if b - 1 > a {
            }
        } else if a == p {
            assert(t[b] == s[b - 1]);
            if b - 1 > p {
                lemma_lex_transitive(x.name, s[p].name, s[b - 1].name);
            }
        } else if a > p {
            assert(t[a] == s[a - 1] && t[b] == s[b - 1]);
        }
    }
}

fn provides_role(c: &Component, role: &[char]) -> (r: bool)
    ensures
        r == comp_view(*c).provides.contains(role@),
{
    let mut i: usize = 0;
    while i < c.provides.len()
        invariant
            i <= c.provides@.len(),
            forall|k: int| 0 <= k < i ==> string_views(c.provides@)[k] != role@,
        decreases c.provides@.len() - i,
    {
        let pc = chars_of(c.provides[i].as_str());
        if chars_eq(pc.as_slice(), role) {
            assert(string_views(c.provides@)[i as int] == role@);
            return true;
        }
        i = i + 1;
    }
    false
}

/// Strings strictly increasing in name order.
pub open spec fn strictly_sorted(s: Seq<Seq<char>>) -> bool {
    forall|i: int, j: int| 0 <= i < j < s.len() ==> lex_lt(s[i], s[j])
}

/// Insert `x`, not yet present, into a strictly sorted list of strings.
pub fn insert_sorted_string(out: &mut Vec<String>, x: String)
    requires
        strictly_sorted(string_views(old(out)@)),
        !string_views(old(out)@).contains(x@),
    ensures
        strictly_sorted(string_views(final(out)@)),
        forall|y: Seq<char>|
            string_views(final(out)@).contains(y) <==> (string_views(old(out)@).contains(y) || y
                == x@),
{
    let xc = chars_of(x.as_str());
    let mut p: usize = 0;
    while p < out.len()
        invariant
            p <= out@.len(),
            xc@ == x@,
            forall|q: int| 0 <= q < p ==> !lex_lt(x@, string_views(out@)[q]),
        ensures
            p <= out@.len(),
            forall|q: int| 0 <= q < p ==> !lex_lt(x@, string_views(out@)[q]),
            p < out@.len() ==> lex_lt(x@, string_views(out@)[p as int]),
        decreases out@.len() - p,
    {
        let oc = chars_of(out[p].as_str());
        assert(string_views(out@)[p as int] == out@[p as int]@);
        if name_lt(xc.as_slice(), oc.as_slice()) {
            break;
        }
        p = p + 1;
    }
    let ghost before = string_views(out@);
    proof {
        assert forall|q: int| 0 <= q < p implies lex_lt(before[q], x@) by {
            assert(before.contains(before[q]));
            lemma_lex_total(before[q], x@);
        }
    }
    out.insert(p, x);
    let ghost after = string_views(out@);
    assert(after =~= before.insert(p as int, x@));
    proof {
        assert forall|a: int, b: int| 0 <= a < b < after.len() implies lex_lt(after[a], after[b]) by {
            if a < p && b == p {
            } else if a < p && b > p {
                assert(after[b] == before[b - 1]);
            } else if a == p {
                assert(after[b] == before[b - 1]);
                if b - 1 > p {
                    lemma_lex_transitive(x@, before[p as int], before[b - 1]);
                }
            } else if a > p {
                assert(after[a] == before[a - 1] && after[b] == before[b - 1]);
            }
        }
        assert forall|y: Seq<char>| after.contains(y) <==> (before.contains(y) || y == x@) by {
            if after.contains(y) {
                let q = choose|q: int| 0 <= q < after.len() && after[q] == y;
                if q < p {
                    assert(before[q] == y);
                } else if q > p {
                    assert(before[q - 1] == y);
                }
            }
            if before.contains(y) {
                let q = choose|q: int| 0 <= q < before.len() && before[q] == y;
                if q < p {
                    assert(after[q] == y);
                } else {
                    assert(after[q + 1] == y);
                }
            }
            if y == x@ {
                assert(after[p as int] == y);
            }
        }
    }
}

} // verus!
