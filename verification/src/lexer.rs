//! The tokenizer shared by the spec-tree form (`quick_sort< partition = LL >`)
//! and the let-binding query language (`let p: Pivot = .;`). A token is a
//! kind plus the span of source characters it covers.
use vstd::prelude::*;
use crate::text::{is_digit, is_ws, is_whitespace, is_word, is_word_char, all_digits, chars_of, chars_eq, string_of};

verus! {

#[derive(Clone, Copy, Debug, PartialEq, Eq, Structural)]
pub enum TokKind {
    Ident,
    Num,
    Lt,
    Gt,
    Eq,
    Comma,
    Colon,
    Semi,
    LParen,
    RParen,
    LBracket,
    RBracket,
    Dot,
    Star,
    Question,
    At,
}

/// A token: its kind and the source characters `start..end` it spans.
#[derive(Clone, Copy, Debug)]
pub struct Tok {
    pub kind: TokKind,
    pub start: usize,
    pub end: usize,
}

/// The single-character tokens. The spec-tree form knows `< > = ,`; the query
/// language knows `: ; ( ) [ ] = , . * ? @`.
pub open spec fn punct(c: char, query: bool) -> Option<TokKind> {
    if !query {
        if c == '<' {
            Some(TokKind::Lt)
        } else if c == '>' {
            Some(TokKind::Gt)
        } else if c == '=' {
            Some(TokKind::Eq)
        } else if c == ',' {
            Some(TokKind::Comma)
        } else {
            None
        }
    } else {
        if c == ':' {
            Some(TokKind::Colon)
        } else if c == ';' {
            Some(TokKind::Semi)
        } else if c == '(' {
            Some(TokKind::LParen)
        } else if c == ')' {
            Some(TokKind::RParen)
        } else if c == '[' {
            Some(TokKind::LBracket)
        } else if c == ']' {
            Some(TokKind::RBracket)
        } else if c == '=' {
            Some(TokKind::Eq)
        } else if c == ',' {
            Some(TokKind::Comma)
        } else if c == '.' {
            Some(TokKind::Dot)
        } else if c == '*' {
            Some(TokKind::Star)
        } else if c == '?' {
            Some(TokKind::Question)
        } else if c == '@' {
            Some(TokKind::At)
        } else {
            None
        }
    }
}

fn punct_exec(c: char, query: bool) -> (k: Option<TokKind>)
    ensures
        k == punct(c, query),
{
    if !query {
        if c == '<' {
            Some(TokKind::Lt)
        } else if c == '>' {
            Some(TokKind::Gt)
        } else if c == '=' {
            Some(TokKind::Eq)
        } else if c == ',' {
            Some(TokKind::Comma)
        } else {
            None
        }
    } else {
        if c == ':' {
            Some(TokKind::Colon)
        } else if c == ';' {
            Some(TokKind::Semi)
        } else if c == '(' {
            Some(TokKind::LParen)
        } else if c == ')' {
            Some(TokKind::RParen)
        } else if c == '[' {
            Some(TokKind::LBracket)
        } else if c == ']' {
            Some(TokKind::RBracket)
        } else if c == '=' {
            Some(TokKind::Eq)
        } else if c == ',' {
            Some(TokKind::Comma)
        } else if c == '.' {
            Some(TokKind::Dot)
        } else if c == '*' {
            Some(TokKind::Star)
        } else if c == '?' {
            Some(TokKind::Question)
        } else if c == '@' {
            Some(TokKind::At)
        } else {
            None
        }
    }
}

/// Where the word starting at `i` ends (the first non-word character).
pub open spec fn word_end(s: Seq<char>, i: int) -> int
    decreases s.len() - i,
{
    if 0 <= i < s.len() && is_word_char(s[i]) {
        word_end(s, i + 1)
    } else {
        i
    }
}

/// Where a `#` line comment whose body starts at `i` ends: just past the next
/// `\n`, or at the end of the input.
pub open spec fn comment_end(s: Seq<char>, i: int) -> int
    decreases s.len() - i,
{
    if i < 0 || i >= s.len() {
        i
    } else if s[i] == '\n' {
        i + 1
    } else {
        comment_end(s, i + 1)
    }
}

pub proof fn lemma_word_end(s: Seq<char>, i: int)
    requires
        0 <= i <= s.len(),
    ensures
        i <= word_end(s, i) <= s.len(),
        forall|k: int| i <= k < word_end(s, i) ==> is_word_char(#[trigger] s[k]),
    decreases s.len() - i,
{
    if i < s.len() && is_word_char(s[i]) {
        lemma_word_end(s, i + 1);
    }
}

pub proof fn lemma_comment_end(s: Seq<char>, i: int)
    requires
        0 <= i <= s.len(),
    ensures
        i <= comment_end(s, i) <= s.len(),
    decreases s.len() - i,
{
    if i < s.len() && s[i] != '\n' {
        lemma_comment_end(s, i + 1);
    }
}

pub open spec fn word_kind(s: Seq<char>, i: int, j: int) -> TokKind {
    if all_digits(s.subrange(i, j)) {
        TokKind::Num
    } else {
        TokKind::Ident
    }
}

pub open spec fn cons_tok(t: Tok, rest: Option<Seq<Tok>>) -> Option<Seq<Tok>> {
    match rest {
        Some(r) => Some(seq![t] + r),
        None => None,
    }
}

/// The tokens of `s` from position `i`; `None` on an unexpected character.
pub open spec fn lex(s: Seq<char>, i: int, query: bool) -> Option<Seq<Tok>>
    decreases s.len() - i,
{
    if i < 0 || i >= s.len() {
        Some(seq![])
    } else if is_ws(s[i]) {
        lex(s, i + 1, query)
    } else if query && s[i] == '#' {
        let j = comment_end(s, i + 1);
        if j <= i || j > s.len() {
            None
        } else {
            lex(s, j, query)
        }
    } else if punct(s[i], query) is Some {
        cons_tok(Tok { kind: punct(s[i], query)->0, start: i as usize, end: (i + 1) as usize }, lex(s, i + 1, query))
    } else if is_word_char(s[i]) {
        let j = word_end(s, i + 1);
        if j <= i || j > s.len() {
            None
        } else {
            cons_tok(Tok { kind: word_kind(s, i, j), start: i as usize, end: j as usize }, lex(s, j, query))
        }
    } else {
        None
    }
}

/// Every token of `toks` spans a well-formed part of `s`.
pub open spec fn toks_in(toks: Seq<Tok>, s: Seq<char>) -> bool {
    forall|k: int| 0 <= k < toks.len() ==> #[trigger] toks[k].start < toks[k].end && toks[k].end <= s.len()
}

pub open spec fn tok_text(s: Seq<char>, t: Tok) -> Seq<char> {
    s.subrange(t.start as int, t.end as int)
}

pub proof fn lemma_lex_in(s: Seq<char>, i: int, query: bool)
    requires
        0 <= i <= s.len(),
        s.len() < usize::MAX,
        lex(s, i, query) is Some,
    ensures
        toks_in(lex(s, i, query)->0, s),
    decreases s.len() - i,
{
    if i < s.len() {
        if is_ws(s[i]) {
            lemma_lex_in(s, i + 1, query);
        } else if query && s[i] == '#' {
            lemma_comment_end(s, i + 1);
            lemma_lex_in(s, comment_end(s, i + 1), query);
        } else if punct(s[i], query) is Some {
            lemma_lex_in(s, i + 1, query);
            let r = lex(s, i + 1, query)->0;
            let t = Tok { kind: punct(s[i], query)->0, start: i as usize, end: (i + 1) as usize };
            assert forall|k: int| 0 <= k < (seq![t] + r).len() implies #[trigger] (seq![t] + r)[k].start
                < (seq![t] + r)[k].end && (seq![t] + r)[k].end <= s.len() by {
                if k > 0 {
                    assert((seq![t] + r)[k] == r[k - 1]);
                }
            }
        } else if is_word_char(s[i]) {
            lemma_word_end(s, i + 1);
            let j = word_end(s, i + 1);
            lemma_lex_in(s, j, query);
            let r = lex(s, j, query)->0;
            let t = Tok { kind: word_kind(s, i, j), start: i as usize, end: j as usize };
            assert forall|k: int| 0 <= k < (seq![t] + r).len() implies #[trigger] (seq![t] + r)[k].start
                < (seq![t] + r)[k].end && (seq![t] + r)[k].end <= s.len() by {
                if k > 0 {
                    assert((seq![t] + r)[k] == r[k - 1]);
                }
            }
        }
    }
}

pub proof fn lemma_lex_len(s: Seq<char>, i: int, query: bool)
    requires
        0 <= i <= s.len(),
        lex(s, i, query) is Some,
    ensures
        (lex(s, i, query)->0).len() <= s.len() - i,
    decreases s.len() - i,
{
    if i < s.len() {
        if is_ws(s[i]) {
            lemma_lex_len(s, i + 1, query);
        } else if query && s[i] == '#' {
            lemma_comment_end(s, i + 1);
            lemma_lex_len(s, comment_end(s, i + 1), query);
        } else if punct(s[i], query) is Some {
            lemma_lex_len(s, i + 1, query);
        } else if is_word_char(s[i]) {
            lemma_word_end(s, i + 1);
            lemma_lex_len(s, word_end(s, i + 1), query);
        }
    }
}

pub open spec fn prepend(p: Seq<Tok>, o: Option<Seq<Tok>>) -> Option<Seq<Tok>> {
    match o {
        Some(r) => Some(p + r),
        None => None,
    }
}

/// Tokenize `s`. `query` selects the query language's punctuation and `#`
/// line comments; otherwise the spec-tree punctuation.
pub fn tokenize(s: &[char], query: bool) -> (r: Option<Vec<Tok>>)
    requires
        s@.len() < usize::MAX,
    ensures
        r is Some <==> lex(s@, 0, query) is Some,
        r is Some ==> r->0@ == lex(s@, 0, query)->0,
        r is Some ==> toks_in(r->0@, s@),
{
    let mut out: Vec<Tok> = Vec::new();
    let mut i: usize = 0;
    assert(lex(s@, 0, query) == prepend(out@, lex(s@, 0, query))) by {
        match lex(s@, 0, query) {
            Some(r) => {
                assert(out@ + r =~= r);
            },
            None => {},
        }
    }
    while i < s.len()
        invariant
            i <= s@.len(),
            s@.len() < usize::MAX,
            lex(s@, 0, query) == prepend(out@, lex(s@, i as int, query)),
        decreases s@.len() - i,
    {
        let c = s[i];
        let ghost before = out@;
        if is_whitespace(c) {
            i = i + 1;
        } else if query && c == '#' {
            let mut j = i + 1;
            proof {
                lemma_comment_end(s@, i + 1);
            }
            while j < s.len() && s[j] != '\n'
                invariant
                    i + 1 <= j <= s@.len(),
                    comment_end(s@, i + 1) == comment_end(s@, j as int),
                decreases s@.len() - j,
            {
                j = j + 1;
            }
            if j < s.len() {
                j = j + 1;
            }
            i = j;
        } else {
            match punct_exec(c, query) {
                Some(k) => {
                    out.push(Tok { kind: k, start: i, end: i + 1 });
                    i = i + 1;
                    proof {
                        match lex(s@, i as int, query) {
                            Some(r) => {
                                assert(before + (seq![out@.last()] + r) =~= out@ + r);
                            },
                            None => {},
                        }
                    }
                },
                None => {
                    if is_word(c) {
                        let mut j = i + 1;
                        proof {
                            lemma_word_end(s@, i + 1);
                        }
                        while j < s.len() && is_word(s[j])
                            invariant
                                i + 1 <= j <= s@.len(),
                                word_end(s@, i + 1) == word_end(s@, j as int),
                            decreases s@.len() - j,
                        {
                            j = j + 1;
                        }
                        let mut digits = true;
                        let mut k: usize = i;
                        while k < j
                            invariant
                                i <= k <= j,
                                j <= s@.len(),
                                digits == (forall|m: int| i <= m < k ==> is_digit(#[trigger] s@[m])),
                            decreases j - k,
                        {
                            if !('0' <= s[k] && s[k] <= '9') {
                                digits = false;
                            }
                            k = k + 1;
                        }
                        assert(digits == all_digits(s@.subrange(i as int, j as int))) by {
                            if digits {
                                assert forall|m: int| 0 <= m < j - i implies is_digit(
                                    #[trigger] s@.subrange(i as int, j as int)[m],
                                ) by {
                                    assert(s@.subrange(i as int, j as int)[m] == s@[i + m]);
                                }
                            } else {
                                let m = choose|m: int| i <= m < j && !is_digit(#[trigger] s@[m]);
                                assert(s@.subrange(i as int, j as int)[m - i] == s@[m]);
                            }
                        }
                        let kind = if digits {
                            TokKind::Num
                        } else {
                            TokKind::Ident
                        };
                        out.push(Tok { kind, start: i, end: j });
                        i = j;
                        proof {
                            match lex(s@, i as int, query) {
                                Some(r) => {
                                    assert(before + (seq![out@.last()] + r) =~= out@ + r);
                                },
                                None => {},
                            }
                        }
                    } else {
                        return None;
                    }
                },
            }
        }
    }
    assert(out@ + seq![] =~= out@);
    proof {
        lemma_lex_in(s@, 0, query);
    }
    Some(out)
}

/// The characters of token `t`.
pub fn tok_chars(s: &[char], t: Tok) -> (out: Vec<char>)
    requires
        t.start < t.end <= s@.len(),
    ensures
        out@ == tok_text(s@, t),
{
    let mut out: Vec<char> = Vec::new();
    let mut k = t.start;
    while k < t.end
        invariant
            t.start <= k <= t.end,
            t.end <= s@.len(),
            out@ == s@.subrange(t.start as int, k as int),
        decreases t.end - k,
    {
        out.push(s[k]);
        k = k + 1;
        assert(out@ =~= s@.subrange(t.start as int, k as int));
    }
    out
}

/// The text of token `t` as a `String`.
pub fn tok_string(s: &[char], t: Tok) -> (out: String)
    requires
        t.start < t.end <= s@.len(),
    ensures
        out@ == tok_text(s@, t),
{
    let v = tok_chars(s, t);
    string_of(v.as_slice())
}

/// Does token `t` spell `w`?
pub fn tok_is(s: &[char], t: Tok, w: &str) -> (r: bool)
    requires
        t.start < t.end <= s@.len(),
    ensures
        r == (tok_text(s@, t) == w@),
{
    let v = tok_chars(s, t);
    let wc = chars_of(w);
    chars_eq(v.as_slice(), wc.as_slice())
}

} // verus!
