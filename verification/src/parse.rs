//! The Swede parser: source text to the typed AST, plus syntax errors.
//!
//! A hand-written recursive-descent reader for recipe and menu files.
//! Whitespace is insignificant except inside strings and
//! metadata values; `//` comments run to the end of the line. On a syntax
//! error the offending statement is skipped up to the next line and parsing
//! resumes, so the AST holds every statement that did parse.

use vstd::prelude::*;
use crate::ast::{
    Amount, Annotation, Arg, Basis, Binding, Call, Equip, EquipItem, Expr, File, Ingredient, Link,
    Menu, MenuEntry, MenuTarget, Meta, NodeRef, Output, Recipe, Span, SubRef, Temp, Timer,
};
use crate::amount::{
    amount_is, parse_amount_in, parse_temp_in, parse_timer_in, parse_lag_in, spec_lag, spec_temp, spec_timer, spec_unquote,
    unquote_in,
};
use crate::text::{is_ws, spec_is_ws, string_of, chars_of, trim_range, trim_lo, trim_hi, push_str};

verus! {

/// A syntax-level error.
#[derive(Debug)]
pub struct SyntaxError {
    pub message: String,
    pub span: Span,
}

/// The result of parsing: the file (if any) and every syntax error.
#[derive(Debug)]
pub struct Lowered {
    pub file: Option<File>,
    pub errors: Vec<SyntaxError>,
}

/// Number of newlines in `s[0..p]`.
pub open spec fn spec_row(s: Seq<char>, p: int) -> int
    decreases p,
{
    if p <= 0 {
        0
    } else {
        spec_row(s, p - 1) + if s[p - 1] == '\n' {
            1int
        } else {
            0int
        }
    }
}

/// Distance from the start of the line holding offset `p`.
pub open spec fn spec_col(s: Seq<char>, p: int) -> int
    decreases p,
{
    if p <= 0 {
        0
    } else if s[p - 1] == '\n' {
        0
    } else {
        spec_col(s, p - 1) + 1
    }
}

/// A span whose row and column are those of its start in `s`.
pub open spec fn span_at(sp: Span, s: Seq<char>) -> bool {
    sp.start_row == spec_row(s, sp.start_byte as int) && sp.start_col == spec_col(s, sp.start_byte as int)
}

/// The span `[lo, hi)`, with the row and column of `lo`.
pub fn mk_span(s: &[char], lo: usize, hi: usize) -> (r: Span)
    requires
        s@.len() < usize::MAX,
        lo <= hi <= s@.len(),
    ensures
        r.start_byte == lo,
        r.end_byte == hi,
        r.start_row == spec_row(s@, lo as int),
        r.start_col == spec_col(s@, lo as int),
{
    let mut row: usize = 0;
    let mut col: usize = 0;
    let mut i: usize = 0;
    while i < lo
        invariant
            s@.len() < usize::MAX,
            i <= lo <= s@.len(),
            row == spec_row(s@, i as int),
            col == spec_col(s@, i as int),
            row <= i,
            col <= i,
        decreases lo - i,
    {
        if s[i] == '\n' {
            row = row + 1;
            col = 0;
        } else {
            col = col + 1;
        }
        i = i + 1;
    }
    Span { start_byte: lo, end_byte: hi, start_row: row, start_col: col }
}

/// Where the trivia (whitespace, and `//` comments up to their line's end)
/// starting at `pos` stops; `in_comment` says whether `pos` lies inside a
/// comment.
#[verifier::opaque]
pub open spec fn trivia_from(s: Seq<char>, pos: int, in_comment: bool) -> int
    decreases s.len() - pos,
{
    if pos < 0 || pos >= s.len() {
        pos
    } else if in_comment {
        trivia_from(s, pos + 1, s[pos] != '\n')
    } else if spec_is_ws(s[pos]) {
        trivia_from(s, pos + 1, false)
    } else if s[pos] == '/' && pos + 1 < s.len() && s[pos + 1] == '/' {
        trivia_from(s, pos + 2, true)
    } else {
        pos
    }
}

/// The first offset at or after `pos` that is neither whitespace nor inside
/// a `//` comment.
pub open spec fn trivia_end(s: Seq<char>, pos: int) -> int {
    trivia_from(s, pos, false)
}

/// Inside a comment, trivia runs on through the line's end.
proof fn lemma_comment_run(s: Seq<char>, i: int, e: int)
    requires
        0 <= i <= e <= s.len(),
        forall|j: int| i <= j < e ==> s[j] != '\n',
        e < s.len() ==> s[e] == '\n',
    ensures
        trivia_from(s, i, true) == trivia_from(s, e, false),
    decreases e - i,
{
    reveal(trivia_from);
    if i < e {
        lemma_comment_run(s, i + 1, e);
    } else if e < s.len() {
        assert(spec_is_ws(s[e]));
        assert(trivia_from(s, e, true) == trivia_from(s, e + 1, false));
    }
}

/// Skips whitespace and `//` comments.
pub fn skip_trivia(s: &[char], pos: usize) -> (r: usize)
    requires
        s@.len() < usize::MAX,
        pos <= s@.len(),
    ensures
        pos <= r <= s@.len(),
        r == trivia_end(s@, pos as int),
{
    proof {
        reveal(trivia_from);
    }
    let mut i = pos;
    while i < s.len()
        invariant
            s@.len() < usize::MAX,
            pos <= i <= s@.len(),
            trivia_end(s@, i as int) == trivia_end(s@, pos as int),
        decreases s@.len() - i,
    {
        proof {
            reveal(trivia_from);
        }
        if is_ws(s[i]) {
            i = i + 1;
        } else if s[i] == '/' && i + 1 < s.len() && s[i + 1] == '/' {
            let e = line_end(s, i + 2);
            proof {
                lemma_comment_run(s@, i + 2, e as int);
            }
            i = e;
        } else {
            return i;
        }
    }
    i
}

/// Skips spaces and tabs only (not newlines).
fn skip_blank(s: &[char], pos: usize) -> (r: usize)
    requires
        s@.len() < usize::MAX,
        pos <= s@.len(),
    ensures
        pos <= r <= s@.len(),
        r == crate::fmt::blanks_end(s@, pos as int),
        forall|i: int| pos <= i < r ==> (s@[i] == ' ' || s@[i] == '\t'),
        r < s@.len() ==> s@[r as int] != ' ' && s@[r as int] != '\t',
{
    let mut i = pos;
    while i < s.len() && (s[i] == ' ' || s[i] == '\t')
        invariant
            s@.len() < usize::MAX,
            pos <= i <= s@.len(),
            forall|j: int| pos <= j < i ==> (s@[j] == ' ' || s@[j] == '\t'),
            crate::fmt::blanks_end(s@, i as int) == crate::fmt::blanks_end(s@, pos as int),
        decreases s@.len() - i,
    {
        i = i + 1;
    }
    i
}

/// The end of the line holding `p`: the offset of its `\n`, or the end of
/// text.
#[verifier::opaque]
pub open spec fn line_stop(s: Seq<char>, p: int) -> int
    decreases s.len() - p,
{
    if 0 <= p < s.len() && s[p] != '\n' {
        line_stop(s, p + 1)
    } else {
        p
    }
}

/// The end of the current line (the offset of its `\n`, or the end of text).
pub fn line_end(s: &[char], pos: usize) -> (r: usize)
    requires
        s@.len() < usize::MAX,
        pos <= s@.len(),
    ensures
        pos <= r <= s@.len(),
        r == line_stop(s@, pos as int),
        forall|i: int| pos <= i < r ==> s@[i] != '\n',
        r < s@.len() ==> s@[r as int] == '\n',
{
    proof {
        reveal(line_stop);
    }
    let mut i = pos;
    while i < s.len() && s[i] != '\n'
        invariant
            s@.len() < usize::MAX,
            pos <= i <= s@.len(),
            forall|j: int| pos <= j < i ==> s@[j] != '\n',
            line_stop(s@, i as int) == line_stop(s@, pos as int),
        decreases s@.len() - i,
    {
        proof {
            reveal(line_stop);
        }
        i = i + 1;
    }
    i
}

pub open spec fn is_ident_start(c: char) -> bool {
    'a' <= c && c <= 'z'
}

pub open spec fn is_ident_char(c: char) -> bool {
    ('a' <= c && c <= 'z') || ('0' <= c && c <= '9') || c == '_'
}

/// The end of the run of identifier characters from `i`.
#[verifier::opaque]
pub open spec fn ident_tail(s: Seq<char>, i: int) -> int
    decreases s.len() - i,
{
    if 0 <= i < s.len() && is_ident_char(s[i]) {
        ident_tail(s, i + 1)
    } else {
        i
    }
}

/// The end of the identifier at `pos`, or `pos` if none starts there.
pub open spec fn ident_stop(s: Seq<char>, pos: int) -> int {
    if 0 <= pos < s.len() && is_ident_start(s[pos]) {
        ident_tail(s, pos + 1)
    } else {
        pos
    }
}

/// An identifier `[a-z][a-z0-9_]*` at `pos`: its end, or `pos` if none.
pub fn ident_end(s: &[char], pos: usize) -> (r: usize)
    requires
        s@.len() < usize::MAX,
        pos <= s@.len(),
    ensures
        pos <= r <= s@.len(),
        r == ident_stop(s@, pos as int),
        r > pos ==> is_ident_start(s@[pos as int]),
        forall|i: int| pos <= i < r ==> is_ident_char(#[trigger] s@[i]),
{
    proof {
        reveal(ident_tail);
    }
    if pos >= s.len() || !('a' <= s[pos] && s[pos] <= 'z') {
        return pos;
    }
    let mut i = pos + 1;
    while i < s.len() && (('a' <= s[i] && s[i] <= 'z') || ('0' <= s[i] && s[i] <= '9') || s[i]
        == '_')
        invariant
            s@.len() < usize::MAX,
            pos < i <= s@.len(),
            is_ident_start(s@[pos as int]),
            forall|j: int| pos <= j < i ==> is_ident_char(#[trigger] s@[j]),
            ident_tail(s@, i as int) == ident_stop(s@, pos as int),
        decreases s@.len() - i,
    {
        proof {
            reveal(ident_tail);
        }
        i = i + 1;
    }
    i
}

/// Whether `s[lo..hi]` is the word `w`.
pub fn is_word(s: &[char], lo: usize, hi: usize, w: &[char]) -> (r: bool)
    requires
        s@.len() < usize::MAX,
        lo <= hi <= s@.len(),
    ensures
        r == (s@.subrange(lo as int, hi as int) == w@),
{
    if hi - lo != w.len() {
        return false;
    }
    let mut i: usize = 0;
    while i < w.len()
        invariant
            s@.len() < usize::MAX,
            hi - lo == w@.len(),
            lo <= hi <= s@.len(),
            forall|j: int| 0 <= j < i ==> s@[lo + j] == w@[j],
        decreases w@.len() - i,
    {
        if s[lo + i] != w[i] {
            assert(s@.subrange(lo as int, hi as int)[i as int] != w@[i as int]);
            return false;
        }
        i = i + 1;
    }
    assert(s@.subrange(lo as int, hi as int) =~= w@);
    true
}

/// A syntax error as reported: its message, at a position in the text.
pub open spec fn error_at(e: SyntaxError, s: Seq<char>) -> bool {
    &&& e.message@ == "syntax error"@
    &&& e.span.start_byte <= s.len()
    &&& e.span.end_byte == if e.span.start_byte < s.len() {
        e.span.start_byte + 1
    } else {
        e.span.start_byte as int
    }
    &&& span_at(e.span, s)
}

/// The syntax error reported at `pos`: it covers the character there.
pub fn syntax_error(s: &[char], pos: usize) -> (r: SyntaxError)
    requires
        s@.len() < usize::MAX,
        pos <= s@.len(),
    ensures
        r.message@ == "syntax error"@,
        error_at(r, s@),
        r.span.start_byte == pos,
        r.span.end_byte == if pos < s@.len() {
            pos + 1
        } else {
            pos as int
        },
{
    let hi = if pos < s.len() {
        pos + 1
    } else {
        pos
    };
    let mut message = String::new();
    push_str(&mut message, "syntax error");
    SyntaxError { message, span: mk_span(s, pos, hi) }
}

/// The first `]`, `[` or line break at or after `i` (or the end of text).
#[verifier::opaque]
pub open spec fn bracket_stop(s: Seq<char>, i: int) -> int
    decreases s.len() - i,
{
    if 0 <= i < s.len() && s[i] != ']' && s[i] != '\n' && s[i] != '[' {
        bracket_stop(s, i + 1)
    } else {
        i
    }
}

/// The first `}` or line break at or after `i` (or the end of text).
#[verifier::opaque]
pub open spec fn brace_stop(s: Seq<char>, i: int) -> int
    decreases s.len() - i,
{
    if 0 <= i < s.len() && s[i] != '}' && s[i] != '\n' {
        brace_stop(s, i + 1)
    } else {
        i
    }
}

/// The closing `"` of a string whose text starts at `i` (a backslash escapes
/// the character after it), or the end of text.
#[verifier::opaque]
pub open spec fn string_stop(s: Seq<char>, i: int) -> int
    decreases s.len() - i,
{
    if 0 <= i < s.len() {
        if s[i] == '\\' && i + 1 < s.len() {
            string_stop(s, i + 2)
        } else if s[i] == '"' {
            i
        } else {
            string_stop(s, i + 1)
        }
    } else {
        i
    }
}

/// `[amount]` at `p`, ending at `e`: it closes at the first `]`, and the
/// amount is the text inside, classified, with that text as its span.
pub open spec fn bracket_amount_at(s: Seq<char>, p: int, a: Amount, e: int) -> bool {
    let c = bracket_stop(s, p + 1);
    &&& 0 <= p < s.len() && s[p] == '['
    &&& c < s.len() && s[c] == ']' && e == c + 1
    &&& amount_is(a, s.subrange(p + 1, c), a.spec_span())
    &&& a.spec_span().start_byte == p + 1 && a.spec_span().end_byte == c
    &&& span_at(a.spec_span(), s)
}

/// A node reference as it reads: an identifier, and `.member` if a dot
/// follows.
pub open spec fn ref_faithful(n: NodeRef, s: Seq<char>) -> bool {
    let p = n.span.start_byte as int;
    let e = ident_stop(s, p);
    &&& span_at(n.span, s)
    &&& p < e
    &&& n.name@ == s.subrange(p, e)
    &&& match n.member {
        Some(m) => e < s.len() && s[e] == '.' && e + 1 < ident_stop(s, e + 1) && m@ == s.subrange(e + 1, ident_stop(s, e + 1))
            && n.span.end_byte == ident_stop(s, e + 1),
        None => !(e < s.len() && s[e] == '.') && n.span.end_byte == e,
    }
}

/// Equipment as it reads: `!` and its name, then the temperature token in
/// braces if one follows.
pub open spec fn equip_faithful(q: Equip, s: Seq<char>) -> bool {
    let p = q.span.start_byte as int;
    let e = ident_stop(s, p + 1);
    let t = trivia_end(s, e);
    let braced = t < s.len() && s[t] == '{';
    let be = brace_stop(s, t + 1);
    &&& 0 <= p < s.len() && s[p] == '!'
    &&& span_at(q.span, s)
    &&& p + 1 < e
    &&& q.name@ == s.subrange(p + 1, e)
    &&& braced ==> be < s.len() && s[be] == '}' && q.span.end_byte == be + 1
    &&& !braced ==> q.temp is None && q.span.end_byte == e
    &&& q.temp matches Some(tp) ==> braced && Some(tp) == spec_temp(s.subrange(t, be + 1), tp.span) && tp.span.start_byte
        == t && tp.span.end_byte == be + 1 && span_at(tp.span, s)
    &&& (braced && q.temp is None) ==> spec_temp(s.subrange(t, be + 1), q.span) is None
}

/// An ingredient as it reads: its name, the bracketed amount right after it,
/// then the quoted qualifier if one follows.
pub open spec fn ingredient_faithful(g: Ingredient, s: Seq<char>) -> bool {
    let p = g.span.start_byte as int;
    let e = ident_stop(s, p);
    let c = bracket_stop(s, e + 1);
    let q = trivia_end(s, c + 1);
    let quoted = q < s.len() && s[q] == '"';
    &&& span_at(g.span, s)
    &&& p < e
    &&& g.name@ == s.subrange(p, e)
    &&& bracket_amount_at(s, e, g.amount, c + 1)
    &&& quoted ==> string_stop(s, q + 1) < s.len() && g.span.end_byte == string_stop(s, q + 1) + 1
    &&& !quoted ==> g.qualifier is None && g.span.end_byte == c + 1
    &&& g.qualifier matches Some(x) ==> quoted && x@ == spec_unquote(s.subrange(q, g.span.end_byte as int))
    &&& quoted ==> g.qualifier is Some
}

/// The first `)` or line break at or after `i` (or the end of text).
#[verifier::opaque]
pub open spec fn paren_stop(s: Seq<char>, i: int) -> int
    decreases s.len() - i,
{
    if 0 <= i < s.len() && s[i] != ')' && s[i] != '\n' {
        paren_stop(s, i + 1)
    } else {
        i
    }
}

/// A link as it reads: `&`, the word `by`, `during` or `lag`, then its
/// argument in parentheses (a node reference, or a duration for `lag`).
pub open spec fn link_faithful(l: Link, s: Seq<char>) -> bool {
    let p = l.spec_span().start_byte as int;
    let we = ident_stop(s, p + 1);
    let word = s.subrange(p + 1, we);
    let i = trivia_end(s, we);
    let j = trivia_end(s, i + 1);
    &&& 0 <= p < s.len() && s[p] == '&'
    &&& span_at(l.spec_span(), s)
    &&& i < s.len() && s[i] == '('
    &&& match l {
        Link::By { target, span } => {
            let k = trivia_end(s, target.span.end_byte as int);
            &&& word == seq!['b', 'y']
            &&& target.span.start_byte == j && ref_faithful(target, s)
            &&& k < s.len() && s[k] == ')' && span.end_byte == k + 1
        },
        Link::During { target, span } => {
            let k = trivia_end(s, target.span.end_byte as int);
            &&& word == seq!['d', 'u', 'r', 'i', 'n', 'g']
            &&& target.span.start_byte == j && ref_faithful(target, s)
            &&& k < s.len() && s[k] == ')' && span.end_byte == k + 1
        },
        Link::Lag { duration, span } => {
            let k = paren_stop(s, j);
            &&& word == seq!['l', 'a', 'g']
            &&& k < s.len() && s[k] == ')' && span.end_byte == k + 1
            &&& Some(duration) == spec_lag(s.subrange(j, k))
        },
    }
}

/// The span a timer was read from.
pub open spec fn timer_span(t: Timer) -> Span {
    match t {
        Timer::Active(r) => r.span,
        Timer::Passive(r) => r.span,
        Timer::Unbounded { span } => span,
    }
}

/// The end of the digits, dots, slashes and dashes from `i`.
#[verifier::opaque]
pub open spec fn num_run(s: Seq<char>, i: int) -> int
    decreases s.len() - i,
{
    if 0 <= i < s.len() && (('0' <= s[i] && s[i] <= '9') || s[i] == '.' || s[i] == '/' || s[i] == '-') {
        num_run(s, i + 1)
    } else {
        i
    }
}

/// The end of the timer token at `i` (which holds `@` or `~`): `~?`, or the
/// number run and its unit letter.
pub open spec fn timer_token_end(s: Seq<char>, i: int) -> int {
    if s[i] == '~' && i + 1 < s.len() && s[i + 1] == '?' {
        i + 2
    } else {
        num_run(s, i + 1) + 1
    }
}

/// An annotation as it reads: a temperature in braces, a timer token, a
/// quoted string, a bracketed flag name, or a link.
pub open spec fn ann_faithful(a: Annotation, s: Seq<char>) -> bool {
    match a {
        Annotation::Temp(t) => {
            let p = t.span.start_byte as int;
            &&& 0 <= p < s.len() && s[p] == '{'
            &&& span_at(t.span, s)
            &&& brace_stop(s, p + 1) < s.len() && s[brace_stop(s, p + 1)] == '}'
            &&& t.span.end_byte == brace_stop(s, p + 1) + 1
            &&& Some(t) == spec_temp(s.subrange(p, t.span.end_byte as int), t.span)
        },
        Annotation::Timer(t) => {
            let sp = timer_span(t);
            let p = sp.start_byte as int;
            &&& 0 <= p < s.len() && (s[p] == '@' || s[p] == '~')
            &&& span_at(sp, s)
            &&& sp.end_byte == timer_token_end(s, p) <= s.len()
            &&& Some(t) == spec_timer(s.subrange(p, sp.end_byte as int), sp)
        },
        Annotation::Doc { text, span } => {
            let p = span.start_byte as int;
            &&& 0 <= p < s.len() && s[p] == '"'
            &&& span_at(span, s)
            &&& string_stop(s, p + 1) < s.len() && span.end_byte == string_stop(s, p + 1) + 1
            &&& text@ == spec_unquote(s.subrange(p, span.end_byte as int))
        },
        Annotation::Flag { name, span } => {
            let p = span.start_byte as int;
            let a = trivia_end(s, p + 1);
            let ne = ident_stop(s, a);
            &&& 0 <= p < s.len() && s[p] == '['
            &&& span_at(span, s)
            &&& a < ne && name@ == s.subrange(a, ne)
            &&& trivia_end(s, ne) < s.len() && s[trivia_end(s, ne)] == ']' && span.end_byte == trivia_end(s, ne) + 1
        },
        Annotation::Link(l) => link_faithful(l, s),
    }
}

/// Where an annotation's text starts and ends.
pub open spec fn ann_span(a: Annotation) -> Span {
    match a {
        Annotation::Temp(t) => t.span,
        Annotation::Timer(t) => timer_span(t),
        Annotation::Doc { span, .. } => span,
        Annotation::Flag { span, .. } => span,
        Annotation::Link(l) => l.spec_span(),
    }
}

pub open spec fn ann_bounds(anns: Seq<Annotation>) -> Seq<(int, int)> {
    Seq::new(anns.len(), |k: int| (ann_span(anns[k]).start_byte as int, ann_span(anns[k]).end_byte as int))
}

/// Whether a character starts an annotation token.
pub open spec fn ann_starter(c: char) -> bool {
    c == '{' || c == '@' || c == '~' || c == '"' || c == '[' || c == '&'
}

/// Whether the annotation token `s[t..e]` reads as an annotation: a
/// temperature, timer or lag that does not read as one is dropped.
pub open spec fn token_kept(s: Seq<char>, t: int, e: int) -> bool {
    let sp = Span { start_byte: 0, end_byte: 0, start_row: 0, start_col: 0 };
    if s[t] == '{' {
        spec_temp(s.subrange(t, e), sp) is Some
    } else if s[t] == '@' || s[t] == '~' {
        spec_timer(s.subrange(t, e), sp) is Some
    } else if s[t] == '&' {
        let we = ident_stop(s, t + 1);
        let j = trivia_end(s, trivia_end(s, we) + 1);
        s.subrange(t + 1, we) != seq!['l', 'a', 'g'] || spec_lag(s.subrange(j, e - 1)) is Some
    } else {
        true
    }
}

/// The bounds of the tokens that are kept, in order.
pub open spec fn kept_bounds(s: Seq<char>, toks: Seq<(int, int)>) -> Seq<(int, int)>
    decreases toks.len(),
{
    if toks.len() == 0 {
        Seq::empty()
    } else {
        let prev = kept_bounds(s, toks.drop_last());
        if token_kept(s, toks.last().0, toks.last().1) {
            prev.push(toks.last())
        } else {
            prev
        }
    }
}

/// The annotation tokens after a value ending at `v`: each starts, past
/// trivia, where the one before ends, with an annotation character; the
/// list ends at `end` (the last token's end, or `v`), where no further token
/// starts.
pub open spec fn tokens_after(s: Seq<char>, v: int, toks: Seq<(int, int)>, end: int) -> bool {
    &&& tokens_chain(s, v, toks)
    &&& end == if toks.len() == 0 {
        v
    } else {
        toks.last().1
    }
    &&& !(trivia_end(s, end) < s.len() && ann_starter(s[trivia_end(s, end)]))
}

/// Tokens that follow each other from `v`: each starts, past trivia, where
/// the one before ends, with an annotation character.
pub open spec fn tokens_chain(s: Seq<char>, v: int, toks: Seq<(int, int)>) -> bool
    decreases toks.len(),
{
    if toks.len() == 0 {
        true
    } else {
        let prev = toks.drop_last();
        let x = toks.last();
        &&& tokens_chain(s, v, prev)
        &&& x.0 == trivia_end(s, if prev.len() == 0 { v } else { prev.last().1 })
        &&& x.0 < x.1 && x.0 < s.len() && ann_starter(s[x.0])
    }
}

proof fn lemma_kept_push(s: Seq<char>, toks: Seq<(int, int)>, x: (int, int), kept: bool)
    requires
        kept == token_kept(s, x.0, x.1),
    ensures
        kept_bounds(s, toks.push(x)) == if kept {
            kept_bounds(s, toks).push(x)
        } else {
            kept_bounds(s, toks)
        },
{
    assert(toks.push(x).drop_last() =~= toks);
}

proof fn lemma_tokens_push(s: Seq<char>, v: int, toks: Seq<(int, int)>, x: (int, int))
    requires
        tokens_chain(s, v, toks),
        x.0 == trivia_end(s, if toks.len() == 0 { v } else { toks.last().1 }),
        x.0 < x.1,
        x.0 < s.len(),
        ann_starter(s[x.0]),
    ensures
        tokens_chain(s, v, toks.push(x)),
{
    assert(toks.push(x).drop_last() =~= toks);
}

/// The annotations after a value ending at `v` are exactly the tokens there
/// that read as annotations, and they end at `end`.
pub open spec fn anns_after(s: Seq<char>, v: int, anns: Seq<Annotation>, end: int) -> bool {
    exists|toks: Seq<(int, int)>| #[trigger] tokens_after(s, v, toks, end) && ann_bounds(anns) == kept_bounds(s, toks)
}

/// An equipment-list item as it reads.
pub open spec fn item_faithful(i: EquipItem, s: Seq<char>) -> bool {
    match i {
        EquipItem::Equip(q) => equip_faithful(q, s),
        EquipItem::NodeRef(n) => ref_faithful(n, s),
    }
}

/// Where an item's text starts and ends.
pub open spec fn arg_span(a: Arg) -> Span {
    match a {
        Arg::Call(c) => c.span,
        Arg::Ingredient(g) => g.span,
        Arg::Equip(q) => q.span,
        Arg::NodeRef(n) => n.span,
    }
}

pub open spec fn item_span(i: EquipItem) -> Span {
    match i {
        EquipItem::Equip(q) => q.span,
        EquipItem::NodeRef(n) => n.span,
    }
}

pub open spec fn arg_bounds(args: Seq<Arg>) -> Seq<(int, int)> {
    Seq::new(args.len(), |k: int| (arg_span(args[k]).start_byte as int, arg_span(args[k]).end_byte as int))
}

pub open spec fn item_bounds(items: Seq<EquipItem>) -> Seq<(int, int)> {
    Seq::new(items.len(), |k: int| (item_span(items[k]).start_byte as int, item_span(items[k]).end_byte as int))
}

/// Where the item after the last of `b` starts: past the separator that
/// follows it (or at `first` if there is none yet).
pub open spec fn next_start(b: Seq<(int, int)>, s: Seq<char>, first: int) -> int {
    if b.len() == 0 {
        first
    } else {
        trivia_end(s, trivia_end(s, b.last().1) + 1)
    }
}

/// Items that follow each other in the text: the first at `first`, each
/// next one after trivia, `sep` and trivia.
pub open spec fn chained(b: Seq<(int, int)>, s: Seq<char>, first: int, sep: char) -> bool {
    forall|k: int|
        0 <= k < b.len() ==> (#[trigger] b[k]).0 == next_start(b.take(k), s, first) && (k > 0 ==> trivia_end(
            s,
            b[k - 1].1,
        ) < s.len() && s[trivia_end(s, b[k - 1].1)] == sep)
}

/// A call as it reads: its verb, `(`, the arguments (each as it reads), the
/// equipment list after `;`, and `)`.
pub open spec fn call_faithful(c: Call, s: Seq<char>) -> bool
    decreases c.args@, 1int,
{
    let p = c.span.start_byte as int;
    let ve = ident_stop(s, p);
    &&& p < ve
    &&& c.verb@ == s.subrange(p, ve)
    &&& c.verb_span.start_byte == p && c.verb_span.end_byte == ve
    &&& span_at(c.verb_span, s) && span_at(c.span, s)
    &&& trivia_end(s, ve) < s.len() && s[trivia_end(s, ve)] == '('
    &&& args_faithful(c.args@, s)
    &&& forall|i: int| 0 <= i < c.equipment@.len() ==> item_faithful(#[trigger] c.equipment@[i], s)
    &&& call_layout(c, s)
}

/// The layout of a call's list: arguments chained by `,` from after the `(`,
/// then `;` and the equipment chained by `,` if there is any, then `)`.
pub open spec fn call_layout(c: Call, s: Seq<char>) -> bool {
    let first = trivia_end(s, trivia_end(s, ident_stop(s, c.span.start_byte as int)) + 1);
    let ab = arg_bounds(c.args@);
    let eb = item_bounds(c.equipment@);
    let after = if ab.len() == 0 {
        first
    } else {
        trivia_end(s, ab.last().1)
    };
    let close = if eb.len() == 0 {
        after
    } else {
        trivia_end(s, eb.last().1)
    };
    &&& chained(ab, s, first, ',')
    &&& eb.len() > 0 ==> ab.len() > 0 && after < s.len() && s[after] == ';' && chained(eb, s, trivia_end(s, after + 1), ',')
    &&& close < s.len() && s[close] == ')' && c.span.end_byte == close + 1
}

/// Each argument as it reads.
pub open spec fn args_faithful(args: Seq<Arg>, s: Seq<char>) -> bool
    decreases args, 0int,
{
    if args.len() == 0 {
        true
    } else {
        &&& args_faithful(args.drop_last(), s)
        &&& match args.last() {
            Arg::Call(cc) => call_faithful(cc, s),
            Arg::Ingredient(g) => ingredient_faithful(g, s),
            Arg::Equip(q) => equip_faithful(q, s),
            Arg::NodeRef(n) => ref_faithful(n, s) && plain_ref_at(s, n.span.start_byte as int),
        }
    }
}

/// A reference in argument position: neither a call (no `(` after it) nor
/// an ingredient (no `[` right after its name).
pub open spec fn plain_ref_at(s: Seq<char>, p: int) -> bool {
    let e = ident_stop(s, p);
    &&& !(trivia_end(s, e) < s.len() && s[trivia_end(s, e)] == '(')
    &&& !(e < s.len() && s[e] == '[')
}

/// An identifier never ends before it starts, and is not empty where an
/// identifier character starts it.
pub proof fn lemma_ident_stop_ge(s: Seq<char>, i: int)
    ensures
        ident_stop(s, i) >= i,
        0 <= i < s.len() && is_ident_start(s[i]) ==> ident_stop(s, i) > i,
{
    if 0 <= i < s.len() && is_ident_start(s[i]) {
        lemma_ident_tail_ge(s, i + 1);
    }
}

/// A run of identifier characters never ends before it starts.
pub proof fn lemma_ident_tail_ge(s: Seq<char>, i: int)
    ensures
        ident_tail(s, i) >= i,
    decreases s.len() - i,
{
    reveal(ident_tail);
    if 0 <= i < s.len() && is_ident_char(s[i]) {
        lemma_ident_tail_ge(s, i + 1);
    }
}

/// The segments of a `/`-separated path starting at `i`.
pub open spec fn path_seq(s: Seq<char>, i: int) -> Seq<Seq<char>>
    decreases s.len() - i,
{
    let e = ident_stop(s, i);
    let seg = seq![s.subrange(i, e)];
    if i < e && e < s.len() && s[e] == '/' {
        proof {
            lemma_ident_stop_ge(s, i);
        }
        seg + path_seq(s, e + 1)
    } else {
        seg
    }
}

/// Where a `/`-separated path starting at `i` ends.
pub open spec fn path_stop(s: Seq<char>, i: int) -> int
    decreases s.len() - i,
{
    let e = ident_stop(s, i);
    if i < e && e < s.len() && s[e] == '/' {
        proof {
            lemma_ident_stop_ge(s, i);
        }
        path_stop(s, e + 1)
    } else {
        e
    }
}

/// Where a renaming pair read at `j` ends: past the trivia after its second
/// name.
pub open spec fn pair_stop(s: Seq<char>, j: int) -> int {
    let a = trivia_end(s, ident_stop(s, j));
    trivia_end(s, ident_stop(s, trivia_end(s, a + 2)))
}

/// A renaming pair `from -> to` as it reads at `j`.
pub open spec fn pair_at(s: Seq<char>, j: int, p: (String, String)) -> bool {
    let fe = ident_stop(s, j);
    let a = trivia_end(s, fe);
    let b = trivia_end(s, a + 2);
    let te = ident_stop(s, b);
    &&& j < fe && p.0@ == s.subrange(j, fe)
    &&& a + 1 < s.len() && s[a] == '-' && s[a + 1] == '>'
    &&& b < te && p.1@ == s.subrange(b, te)
}

/// Where the pair after the first `k` pairs from `j0` starts.
pub open spec fn pair_start(s: Seq<char>, j0: int, k: int) -> int
    decreases k,
{
    if k <= 0 {
        j0
    } else {
        trivia_end(s, pair_stop(s, pair_start(s, j0, k - 1)) + 1)
    }
}

/// Renaming pairs read from `j0`: each at its start, separated by `,`, the
/// last closed by `)` at `close`.
pub open spec fn remaps_at(s: Seq<char>, j0: int, rs: Seq<(String, String)>, close: int) -> bool {
    &&& rs.len() > 0
    &&& forall|k: int| 0 <= k < rs.len() ==> pair_at(s, pair_start(s, j0, k), #[trigger] rs[k])
    &&& forall|k: int|
        0 <= k < rs.len() - 1 ==> pair_stop(s, #[trigger] pair_start(s, j0, k)) < s.len() && s[pair_stop(
            s,
            pair_start(s, j0, k),
        )] == ','
    &&& close == pair_stop(s, pair_start(s, j0, rs.len() - 1)) && close < s.len() && s[close] == ')'
}

/// A sub-recipe reference as it reads: `<+`, the path, `#anchor` if a `#`
/// follows, `>`, then the bracketed amount if a `[` follows right after.
pub open spec fn subref_faithful(r: SubRef, s: Seq<char>) -> bool {
    let p = r.span.start_byte as int;
    let pe = path_stop(s, p + 2);
    let hashed = pe < s.len() && s[pe] == '#';
    let gt = if hashed {
        ident_stop(s, pe + 1)
    } else {
        pe
    };
    &&& p + 1 < s.len() && s[p] == '<' && s[p + 1] == '+'
    &&& span_at(r.span, s)
    &&& crate::text::views(r.path@) == path_seq(s, p + 2)
    &&& forall|k: int| 0 <= k < r.path@.len() ==> (#[trigger] r.path@[k])@.len() > 0
    &&& match r.anchor {
        Some(x) => hashed && pe + 1 < gt && x@ == s.subrange(pe + 1, gt),
        None => !hashed,
    }
    &&& gt < s.len() && s[gt] == '>'
    &&& match r.amount {
        Some(a) => bracket_amount_at(s, gt + 1, a, bracket_stop(s, gt + 2) + 1),
        None => !(gt + 1 < s.len() && s[gt + 1] == '['),
    }
    &&& subref_tail(r, s, gt)
}

/// The renamings of a sub-recipe reference: in parentheses after its amount
/// (or its `>`), if a `(` follows; the reference ends after them.
pub open spec fn subref_tail(r: SubRef, s: Seq<char>, gt: int) -> bool {
    let after = match r.amount {
        Some(_) => bracket_stop(s, gt + 2) + 1,
        None => gt + 1,
    };
    let t = trivia_end(s, after);
    let paren = t < s.len() && s[t] == '(';
    &&& paren ==> remaps_at(s, trivia_end(s, t + 1), r.remap@, r.span.end_byte - 1)
    &&& !paren ==> r.remap@.len() == 0 && r.span.end_byte == after
}

/// A binding's value as it reads (a call or a node reference; a sub-recipe
/// reference starts with `<+`).
pub open spec fn expr_faithful(x: Expr, s: Seq<char>) -> bool {
    match x {
        Expr::Call(c) => call_faithful(c, s),
        Expr::NodeRef(n) => ref_faithful(n, s) && !(trivia_end(s, ident_stop(s, n.span.start_byte as int)) < s.len()
            && s[trivia_end(s, ident_stop(s, n.span.start_byte as int))] == '('),
        Expr::SubRef(r) => subref_faithful(r, s),
    }
}

// ───────────────────── where each reader stops ─────────────────────
//
// Each reader below either reads a piece of text from a position and gives
// the offset after it (`Ok`), or stops at the offset where the text cannot
// be read (`Err`). These spec functions say, from the text alone, which of
// the two happens and where; the readers' contracts are stated over them,
// and so is the parse of a whole file.

/// Where a reader ended, as `Ok(end)` or `Err(where)`.
pub open spec fn res_pos<T>(r: Result<(T, usize), usize>) -> Result<int, int> {
    match r {
        Ok((_, e)) => Ok(e as int),
        Err(e) => Err(e as int),
    }
}

/// Where a reader that gives only an end stopped.
pub open spec fn res_at(r: Result<usize, usize>) -> Result<int, int> {
    match r {
        Ok(e) => Ok(e as int),
        Err(e) => Err(e as int),
    }
}

/// A node reference `name` or `name.member`.
pub open spec fn node_ref_res(s: Seq<char>, pos: int) -> Result<int, int> {
    let e = ident_stop(s, pos);
    if e == pos {
        Err(pos)
    } else if e < s.len() && s[e] == '.' {
        let e2 = ident_stop(s, e + 1);
        if e2 == e + 1 {
            Err(e + 1)
        } else {
            Ok(e2)
        }
    } else {
        Ok(e)
    }
}

/// `[amount]` at `pos`: closed by the first `]` before a `[` or line break.
pub open spec fn bracket_res(s: Seq<char>, pos: int) -> Result<int, int> {
    let i = bracket_stop(s, pos + 1);
    if i >= s.len() || s[i] != ']' {
        Err(i)
    } else {
        Ok(i + 1)
    }
}

/// A quoted string at `pos`: closed by its unescaped `"`.
pub open spec fn string_res(s: Seq<char>, pos: int) -> Result<int, int> {
    let c = string_stop(s, pos + 1);
    if c < s.len() {
        Ok(c + 1)
    } else {
        Err(s.len() as int)
    }
}

/// `{...}` at `pos`: closed by `}` before a line break.
pub open spec fn brace_res(s: Seq<char>, pos: int) -> Result<int, int> {
    let c = brace_stop(s, pos + 1);
    if c < s.len() && s[c] == '}' {
        Ok(c + 1)
    } else {
        Err(c)
    }
}

/// `!name` at `pos`, with an optional `{temp}` after trivia.
pub open spec fn equip_res(s: Seq<char>, pos: int) -> Result<int, int> {
    let e = ident_stop(s, pos + 1);
    if e == pos + 1 {
        Err(pos + 1)
    } else {
        let t = trivia_end(s, e);
        if t < s.len() && s[t] == '{' {
            brace_res(s, t)
        } else {
            Ok(e)
        }
    }
}

/// An ingredient `name[amount]` whose bracket starts at `e`, with an
/// optional quoted qualifier after trivia.
pub open spec fn ingredient_res(s: Seq<char>, e: int) -> Result<int, int> {
    match bracket_res(s, e) {
        Ok(ae) => {
            let q = trivia_end(s, ae);
            if q < s.len() && s[q] == '"' {
                string_res(s, q)
            } else {
                Ok(ae)
            }
        },
        Err(x) => Err(x),
    }
}

/// A call `verb(args; equipment)` whose verb starts at `pos`.
pub open spec fn call_res(s: Seq<char>, pos: int) -> Result<int, int>
    decreases s.len() - pos, 0int,
{
    if !(0 <= pos < s.len()) {
        Err(pos)
    } else {
        let i0 = trivia_end(s, ident_stop(s, pos));
        if i0 >= s.len() || s[i0] != '(' {
            Err(i0)
        } else {
            let i = trivia_end(s, i0 + 1);
            if i < s.len() && s[i] == ')' {
                Ok(i + 1)
            } else if !(pos < i <= s.len()) {
                Err(i)
            } else {
                call_items_res(s, i, false)
            }
        }
    }
}

/// One argument (or equipment item, after `;`) of a call at `i`.
pub open spec fn call_item_res(s: Seq<char>, i: int, in_equip: bool) -> Result<int, int>
    decreases s.len() - i, 1int,
{
    if !(0 <= i < s.len()) {
        Err(i)
    } else if s[i] == '!' {
        equip_res(s, i)
    } else {
        let e = ident_stop(s, i);
        if e == i {
            Err(i)
        } else {
            let t = trivia_end(s, e);
            if !in_equip && t < s.len() && s[t] == '(' {
                call_res(s, i)
            } else if !in_equip && e < s.len() && s[e] == '[' {
                ingredient_res(s, e)
            } else {
                node_ref_res(s, i)
            }
        }
    }
}

/// The arguments of a call from `i` on, up to and past its `)`.
pub open spec fn call_items_res(s: Seq<char>, i: int, in_equip: bool) -> Result<int, int>
    decreases s.len() - i, 2int,
{
    if !(0 <= i < s.len()) {
        Err(i)
    } else {
        match call_item_res(s, i, in_equip) {
            Err(x) => Err(x),
            Ok(n) => {
                let j = trivia_end(s, n);
                if !(i < n <= s.len()) {
                    Err(i)
                } else if j >= s.len() {
                    Err(j)
                } else if s[j] == ')' {
                    Ok(j + 1)
                } else if s[j] == ',' || (s[j] == ';' && !in_equip) {
                    let k = trivia_end(s, j + 1);
                    if !(i < k <= s.len()) {
                        Err(i)
                    } else {
                        call_items_res(s, k, in_equip || s[j] == ';')
                    }
                } else {
                    Err(j)
                }
            }
        }
    }
}

/// The path of a sub-recipe reference from `i`: names separated by `/`.
pub open spec fn path_res(s: Seq<char>, i: int) -> Result<int, int>
    decreases s.len() - i,
{
    let e = ident_stop(s, i);
    if e == i {
        Err(i)
    } else if e < s.len() && s[e] == '/' {
        if !(i < e + 1 <= s.len()) {
            Err(i)
        } else {
            path_res(s, e + 1)
        }
    } else {
        Ok(e)
    }
}

/// The renamings `(a -> b, ...)` of a sub-recipe reference from `j`.
pub open spec fn remap_res(s: Seq<char>, j: int) -> Result<int, int>
    decreases s.len() - j,
{
    let fe = ident_stop(s, j);
    if fe == j {
        Err(j)
    } else {
        let a = trivia_end(s, fe);
        if a + 1 >= s.len() || s[a] != '-' || s[a + 1] != '>' {
            Err(a)
        } else {
            let b = trivia_end(s, a + 2);
            let te = ident_stop(s, b);
            if te == b {
                Err(b)
            } else {
                let c = trivia_end(s, te);
                if c < s.len() && s[c] == ',' {
                    let k = trivia_end(s, c + 1);
                    if !(j < k <= s.len()) {
                        Err(j)
                    } else {
                        remap_res(s, k)
                    }
                } else if c < s.len() && s[c] == ')' {
                    Ok(c + 1)
                } else {
                    Err(c)
                }
            }
        }
    }
}

/// A sub-recipe reference `<+path#anchor>[amount](renamings)` at `pos`.
pub open spec fn subref_res(s: Seq<char>, pos: int) -> Result<int, int> {
    if !(pos + 1 < s.len() && s[pos + 1] == '+') {
        Err(pos)
    } else {
        match path_res(s, pos + 2) {
            Err(x) => Err(x),
            Ok(i1) => {
                let anchored = if i1 < s.len() && s[i1] == '#' {
                    let e = ident_stop(s, i1 + 1);
                    if e == i1 + 1 {
                        Err(i1 + 1)
                    } else {
                        Ok(e)
                    }
                } else {
                    Ok(i1)
                };
                match anchored {
                    Err(x) => Err(x),
                    Ok(i2) => if i2 >= s.len() || s[i2] != '>' {
                        Err(i2)
                    } else {
                        let amounted = if i2 + 1 < s.len() && s[i2 + 1] == '[' {
                            bracket_res(s, i2 + 1)
                        } else {
                            Ok(i2 + 1)
                        };
                        match amounted {
                            Err(x) => Err(x),
                            Ok(end) => {
                                let t = trivia_end(s, end);
                                if t < s.len() && s[t] == '(' {
                                    remap_res(s, trivia_end(s, t + 1))
                                } else {
                                    Ok(end)
                                }
                            },
                        }
                    },
                }
            },
        }
    }
}

/// A link `&by(n)`, `&during(n)` or `&lag(d)` at `pos`.
pub open spec fn link_res(s: Seq<char>, pos: int) -> Result<int, int> {
    let we = ident_stop(s, pos + 1);
    let w = s.subrange(pos + 1, we);
    let is_lag = w == seq!['l', 'a', 'g'];
    if !(w == seq!['b', 'y'] || w == seq!['d', 'u', 'r', 'i', 'n', 'g'] || is_lag) {
        Err(pos)
    } else {
        let i = trivia_end(s, we);
        if i >= s.len() || s[i] != '(' {
            Err(i)
        } else {
            let j = trivia_end(s, i + 1);
            if is_lag {
                let k = paren_stop(s, j);
                if k >= s.len() || s[k] != ')' {
                    Err(k)
                } else {
                    Ok(k + 1)
                }
            } else {
                match node_ref_res(s, j) {
                    Err(x) => Err(x),
                    Ok(ne) => {
                        let k = trivia_end(s, ne);
                        if k >= s.len() || s[k] != ')' {
                            Err(k)
                        } else {
                            Ok(k + 1)
                        }
                    },
                }
            }
        }
    }
}

/// A timer token `~?`, or `@`/`~` with a number run and a unit letter.
pub open spec fn timer_res(s: Seq<char>, i: int) -> Result<int, int> {
    if s[i] == '~' && i + 1 < s.len() && s[i + 1] == '?' {
        Ok(i + 2)
    } else {
        let e = num_run(s, i + 1);
        if e < s.len() && (s[e] == 's' || s[e] == 'm' || s[e] == 'h' || s[e] == 'd') {
            Ok(e + 1)
        } else {
            Err(e)
        }
    }
}

/// A flag `[name]` at `i`.
pub open spec fn flag_res(s: Seq<char>, i: int) -> Result<int, int> {
    let a = trivia_end(s, i + 1);
    let ne = ident_stop(s, a);
    if ne == a {
        Err(a)
    } else {
        let b = trivia_end(s, ne);
        if b >= s.len() || s[b] != ']' {
            Err(b)
        } else {
            Ok(b + 1)
        }
    }
}

/// One annotation token at `i`, by its first character.
pub open spec fn annotation_res(s: Seq<char>, i: int) -> Result<int, int> {
    let c = s[i];
    if c == '{' {
        brace_res(s, i)
    } else if c == '@' || c == '~' {
        timer_res(s, i)
    } else if c == '"' {
        string_res(s, i)
    } else if c == '[' {
        flag_res(s, i)
    } else if c == '&' {
        link_res(s, i)
    } else {
        Err(i)
    }
}

/// The annotations after `end`: tokens read while one starts after trivia.
pub open spec fn anns_res(s: Seq<char>, end: int) -> Result<int, int>
    decreases s.len() - end,
{
    let i = trivia_end(s, end);
    if !(0 <= i < s.len()) || !ann_starter(s[i]) {
        Ok(end)
    } else {
        match annotation_res(s, i) {
            Err(x) => Err(x),
            Ok(e) => if !(end < e <= s.len()) {
                Err(end)
            } else {
                anns_res(s, e)
            },
        }
    }
}

/// A value at `pos`: a sub-recipe reference, a call, or a node reference.
pub open spec fn expr_res(s: Seq<char>, pos: int) -> Result<int, int> {
    if 0 <= pos < s.len() && s[pos] == '<' {
        subref_res(s, pos)
    } else {
        let e = ident_stop(s, pos);
        if e == pos {
            Err(pos)
        } else {
            let t = trivia_end(s, e);
            if t < s.len() && s[t] == '(' {
                call_res(s, pos)
            } else {
                node_ref_res(s, pos)
            }
        }
    }
}

/// The outputs of a binding from `i`, up to the start of its value (after
/// `=` and trivia).
pub open spec fn outputs_res(s: Seq<char>, i: int) -> Result<int, int>
    decreases s.len() - i,
{
    let e = ident_stop(s, i);
    if e == i {
        Err(i)
    } else {
        let amounted = if e < s.len() && s[e] == '[' {
            bracket_res(s, e)
        } else {
            Ok(e)
        };
        match amounted {
            Err(x) => Err(x),
            Ok(oe) => {
                let t = trivia_end(s, oe);
                if t < s.len() && s[t] == ',' {
                    let k = trivia_end(s, t + 1);
                    if !(i < k <= s.len()) {
                        Err(i)
                    } else {
                        outputs_res(s, k)
                    }
                } else if t < s.len() && s[t] == '=' {
                    Ok(trivia_end(s, t + 1))
                } else {
                    Err(t)
                }
            },
        }
    }
}

/// A binding `outputs = value annotations` at `pos`.
pub open spec fn binding_res(s: Seq<char>, pos: int) -> Result<int, int> {
    match outputs_res(s, pos) {
        Err(x) => Err(x),
        Ok(v) => match expr_res(s, v) {
            Err(x) => Err(x),
            Ok(ve) => anns_res(s, ve),
        },
    }
}

/// A metadata line `:key value` at `pos`: it runs to the end of the line.
pub open spec fn meta_res(s: Seq<char>, pos: int) -> Result<int, int> {
    let ke = ident_stop(s, pos + 1);
    if ke == pos + 1 {
        Err(pos + 1)
    } else {
        Ok(line_stop(s, ke))
    }
}

/// `basis name = amount` at `pos`, the keyword ending at `ke`: the amount
/// runs to the line's end or a comment, trimmed, and may not be empty.
pub open spec fn basis_res(s: Seq<char>, pos: int, ke: int) -> Result<int, int> {
    let n = trivia_end(s, ke);
    let ne = ident_stop(s, n);
    if ne == n || n == ke {
        Err(n)
    } else {
        let q = trivia_end(s, ne);
        if q >= s.len() || s[q] != '=' {
            Err(q)
        } else {
            let ae = comment_stop(s, q + 1, line_stop(s, q + 1));
            let ta = trim_lo(s, q + 1, ae);
            let tb = trim_hi(s, q + 1, ae);
            if ta == tb {
                Err(ta)
            } else {
                Ok(tb)
            }
        }
    }
}

/// The links after a menu entry's recipe, from `end`.
pub open spec fn links_res(s: Seq<char>, end: int) -> Result<int, int>
    decreases s.len() - end,
{
    let i = trivia_end(s, end);
    if !(0 <= i < s.len() && s[i] == '&') {
        Ok(end)
    } else {
        match link_res(s, i) {
            Err(x) => Err(x),
            Ok(e) => if !(end < e <= s.len()) {
                Err(end)
            } else {
                links_res(s, e)
            },
        }
    }
}

/// A menu entry `alias = recipe links` at `pos`.
pub open spec fn entry_res(s: Seq<char>, pos: int) -> Result<int, int> {
    let ae = ident_stop(s, pos);
    if ae == pos {
        Err(pos)
    } else {
        let q = trivia_end(s, ae);
        if q >= s.len() || s[q] != '=' {
            Err(q)
        } else {
            let t = trivia_end(s, q + 1);
            let target = if t < s.len() && s[t] == '<' {
                subref_res(s, t)
            } else {
                let e = ident_stop(s, t);
                if e == t {
                    Err(t)
                } else {
                    Ok(e)
                }
            };
            match target {
                Err(x) => Err(x),
                Ok(te) => links_res(s, te),
            }
        }
    }
}

/// A node reference `name` or `alias.node` at `pos`.
fn parse_node_ref(s: &[char], pos: usize) -> (r: Result<(NodeRef, usize), usize>)
    requires
        s@.len() < usize::MAX,
        pos <= s@.len(),
    ensures
        r matches Ok((n, e)) ==> pos < e <= s@.len() && n.span.start_byte == pos && n.span.end_byte
            == e && ref_faithful(n, s@),
        r matches Err(e) ==> e <= s@.len(),
        res_pos(r) == node_ref_res(s@, pos as int),
{
    let e = ident_end(s, pos);
    if e == pos {
        return Err(pos);
    }
    let name = string_of(s, pos, e);
    if e < s.len() && s[e] == '.' {
        let e2 = ident_end(s, e + 1);
        if e2 == e + 1 {
            return Err(e + 1);
        }
        let member = string_of(s, e + 1, e2);
        return Ok((NodeRef { name, member: Some(member), span: mk_span(s, pos, e2) }, e2));
    }
    Ok((NodeRef { name, member: None, span: mk_span(s, pos, e) }, e))
}

/// `[ amount ]` at `pos` (which holds `[`); the amount's span is its inner text.
fn parse_bracket_amount(s: &[char], pos: usize) -> (r: Result<(Amount, usize), usize>)
    requires
        s@.len() < usize::MAX,
        pos < s@.len(),
        s@[pos as int] == '[',
    ensures
        r matches Ok((a, e)) ==> pos < e <= s@.len() && bracket_amount_at(s@, pos as int, a, e as int),
        r matches Err(e) ==> e <= s@.len(),
        res_pos(r) == bracket_res(s@, pos as int),
{
    proof {
        reveal(bracket_stop);
    }
    let mut i = pos + 1;
    while i < s.len() && s[i] != ']' && s[i] != '\n' && s[i] != '['
        invariant
            s@.len() < usize::MAX,
            pos < i <= s@.len(),
            bracket_stop(s@, i as int) == bracket_stop(s@, pos + 1),
        decreases s@.len() - i,
    {
        proof {
            reveal(bracket_stop);
        }
        i = i + 1;
    }
    if i >= s.len() || s[i] != ']' {
        return Err(i);
    }
    let span = mk_span(s, pos + 1, i);
    Ok((parse_amount_in(s, pos + 1, i, span), i + 1))
}

/// A `"..."` string at `pos` (which holds `"`): its end.
fn string_end(s: &[char], pos: usize) -> (r: Result<usize, usize>)
    requires
        s@.len() < usize::MAX,
        pos < s@.len(),
    ensures
        r matches Ok(e) ==> pos < e <= s@.len() && e == string_stop(s@, pos + 1) + 1 && string_stop(s@, pos + 1) < s@.len(),
        r matches Err(e) ==> e <= s@.len(),
        res_at(r) == string_res(s@, pos as int),
{
    proof {
        reveal(string_stop);
    }
    let mut i = pos + 1;
    while i < s.len()
        invariant
            s@.len() < usize::MAX,
            pos < i <= s@.len(),
            string_stop(s@, i as int) == string_stop(s@, pos + 1),
        decreases s@.len() - i,
    {
        proof {
            reveal(string_stop);
        }
        if s[i] == '\\' && i + 1 < s.len() {
            i = i + 2;
        } else if s[i] == '"' {
            return Ok(i + 1);
        } else {
            i = i + 1;
        }
    }
    Err(s.len())
}

/// A `{...}` temperature token at `pos` (which holds `{`): its end.
fn brace_end(s: &[char], pos: usize) -> (r: Result<usize, usize>)
    requires
        s@.len() < usize::MAX,
        pos < s@.len(),
    ensures
        r matches Ok(e) ==> pos < e <= s@.len() && e == brace_stop(s@, pos + 1) + 1 && s@[e - 1] == '}',
        r matches Err(e) ==> e <= s@.len() && !(brace_stop(s@, pos + 1) < s@.len() && s@[brace_stop(s@, pos + 1)] == '}'),
        res_at(r) == brace_res(s@, pos as int),
{
    proof {
        reveal(brace_stop);
    }
    let mut i = pos + 1;
    while i < s.len() && s[i] != '}' && s[i] != '\n'
        invariant
            s@.len() < usize::MAX,
            pos < i <= s@.len(),
            brace_stop(s@, i as int) == brace_stop(s@, pos + 1),
        decreases s@.len() - i,
    {
        proof {
            reveal(brace_stop);
        }
        i = i + 1;
    }
    if i >= s.len() || s[i] != '}' {
        return Err(i);
    }
    Ok(i + 1)
}

/// `!name [{temp}]` at `pos` (which holds `!`).
fn parse_equip(s: &[char], pos: usize) -> (r: Result<(Equip, usize), usize>)
    requires
        s@.len() < usize::MAX,
        pos < s@.len(),
        s@[pos as int] == '!',
    ensures
        r matches Ok((q, e)) ==> pos < e <= s@.len() && q.span.start_byte == pos && q.span.end_byte == e
            && equip_faithful(q, s@),
        r matches Err(e) ==> e <= s@.len(),
        res_pos(r) == equip_res(s@, pos as int),
{
    let e = ident_end(s, pos + 1);
    if e == pos + 1 {
        return Err(pos + 1);
    }
    let name = string_of(s, pos + 1, e);
    let t = skip_trivia(s, e);
    if t < s.len() && s[t] == '{' {
        let be = match brace_end(s, t) {
            Ok(be) => be,
            Err(x) => {
                return Err(x);
            },
        };
        let temp = parse_temp_in(s, t, be, mk_span(s, t, be));
        return Ok((Equip { name, temp, span: mk_span(s, pos, be) }, be));
    }
    Ok((Equip { name, temp: None, span: mk_span(s, pos, e) }, e))
}

proof fn lemma_args_push(args: Seq<Arg>, a: Arg, s: Seq<char>)
    ensures
        args_faithful(args.push(a), s) == (args_faithful(args, s) && match a {
            Arg::Call(cc) => call_faithful(cc, s),
            Arg::Ingredient(g) => ingredient_faithful(g, s),
            Arg::Equip(q) => equip_faithful(q, s),
            Arg::NodeRef(n) => ref_faithful(n, s) && plain_ref_at(s, n.span.start_byte as int),
        }),
{
    assert(args.push(a).drop_last() =~= args);
}

/// A call `verb(args; equipment)` whose verb occupies `s[pos..ve]`.
#[verifier::rlimit(30)]
fn parse_call(s: &[char], pos: usize, ve: usize) -> (r: Result<(Call, usize), usize>)
    requires
        s@.len() < usize::MAX,
        pos < ve <= s@.len(),
        ve == ident_stop(s@, pos as int),
    ensures
        r matches Ok((c, e)) ==> ve < e <= s@.len() && c.span.start_byte == pos && c.span.end_byte == e
            && call_faithful(c, s@),
        r matches Err(e) ==> e <= s@.len(),
        res_pos(r) == call_res(s@, pos as int),
    decreases s@.len() - pos,
{
    let verb = string_of(s, pos, ve);
    let verb_span = mk_span(s, pos, ve);
    let mut i = skip_trivia(s, ve);
    if i >= s.len() || s[i] != '(' {
        return Err(i);
    }
    i = skip_trivia(s, i + 1);
    let ghost first = i as int;
    let ghost mut after: int = 0;
    assert(args_faithful(Seq::<Arg>::empty(), s@));
    let mut args: Vec<Arg> = Vec::new();
    let mut equipment: Vec<EquipItem> = Vec::new();
    let mut in_equip = false;
    // empty argument list
    if i < s.len() && s[i] == ')' {
        assert(arg_bounds(args@) =~= Seq::<(int, int)>::empty());
        assert(item_bounds(equipment@) =~= Seq::<(int, int)>::empty());
        return Ok((Call { verb, verb_span, args, equipment, span: mk_span(s, pos, i + 1) }, i + 1));
    }
    assert(arg_bounds(args@) =~= Seq::<(int, int)>::empty());
    assert(item_bounds(equipment@) =~= Seq::<(int, int)>::empty());
    loop
        invariant
            s@.len() < usize::MAX,
            pos < ve < i <= s@.len(),
            ve == ident_stop(s@, pos as int),
            trivia_end(s@, ve as int) < s@.len() && s@[trivia_end(s@, ve as int)] == '(',
            first == trivia_end(s@, trivia_end(s@, ve as int) + 1),
            verb@ == s@.subrange(pos as int, ve as int),
            verb_span.start_byte == pos && verb_span.end_byte == ve,
            span_at(verb_span, s@),
            args_faithful(args@, s@),
            forall|k: int| 0 <= k < equipment@.len() ==> item_faithful(#[trigger] equipment@[k], s@),
            chained(arg_bounds(args@), s@, first, ','),
            !in_equip ==> equipment@.len() == 0 && i == next_start(arg_bounds(args@), s@, first) && (args@.len()
                > 0 ==> trivia_end(s@, arg_bounds(args@).last().1) < s@.len() && s@[trivia_end(
                s@,
                arg_bounds(args@).last().1,
            )] == ','),
            in_equip ==> args@.len() > 0 && after == trivia_end(s@, arg_bounds(args@).last().1) && after
                < s@.len() && s@[after] == ';' && chained(item_bounds(equipment@), s@, trivia_end(s@, after + 1), ',')
                && i == next_start(item_bounds(equipment@), s@, trivia_end(s@, after + 1)) && (equipment@.len() > 0
                ==> trivia_end(s@, item_bounds(equipment@).last().1) < s@.len() && s@[trivia_end(
                s@,
                item_bounds(equipment@).last().1,
            )] == ','),
            call_items_res(s@, i as int, in_equip) == call_res(s@, pos as int),
        decreases s@.len() - i,
    {
        if i >= s.len() {
            return Err(i);
        }
        let start = i;
        let ghost args0 = args@;
        let ghost eq0 = equipment@;
        if s[i] == '!' {
            let (eq, e) = match parse_equip(s, i) {
                Ok(x) => x,
                Err(x) => {
                    assert(call_item_res(s@, i as int, in_equip) == Err::<int, int>(x as int));
                    return Err(x);
                },
            };
            if in_equip {
                equipment.push(EquipItem::Equip(eq));
                assert(equipment@.last() == EquipItem::Equip(eq));
            } else {
                proof {
                    lemma_args_push(args@, Arg::Equip(eq), s@);
                }
                args.push(Arg::Equip(eq));
            }
            i = e;
        } else {
            let e = ident_end(s, i);
            if e == i {
                assert(call_item_res(s@, i as int, in_equip) == Err::<int, int>(i as int));
                return Err(i);
            }
            let t = skip_trivia(s, e);
            if !in_equip && t < s.len() && s[t] == '(' {
                let (c, ce) = match parse_call(s, i, e) {
                    Ok(x) => x,
                    Err(x) => {
                        return Err(x);
                    },
                };
                proof {
                    lemma_args_push(args@, Arg::Call(c), s@);
                }
                args.push(Arg::Call(c));
                i = ce;
            } else if !in_equip && e < s.len() && s[e] == '[' {
                let (amount, ae) = match parse_bracket_amount(s, e) {
                    Ok(x) => x,
                    Err(x) => {
                        return Err(x);
                    },
                };
                let name = string_of(s, i, e);
                let q = skip_trivia(s, ae);
                if q < s.len() && s[q] == '"' {
                    let qe = match string_end(s, q) {
                        Ok(x) => x,
                        Err(x) => {
                            return Err(x);
                        },
                    };
                    let qualifier = unquote_in(s, q, qe);
                    let g = Ingredient {
                        name,
                        amount,
                        qualifier: Some(qualifier),
                        span: mk_span(s, i, qe),
                    };
                    proof {
                        lemma_args_push(args@, Arg::Ingredient(g), s@);
                    }
                    args.push(Arg::Ingredient(g));
                    i = qe;
                } else {
                    let g = Ingredient { name, amount, qualifier: None, span: mk_span(s, i, ae) };
                    proof {
                        lemma_args_push(args@, Arg::Ingredient(g), s@);
                    }
                    args.push(Arg::Ingredient(g));
                    i = ae;
                }
            } else {
                let (n, ne) = match parse_node_ref(s, i) {
                    Ok(x) => x,
                    Err(x) => {
                        return Err(x);
                    },
                };
                if in_equip {
                    equipment.push(EquipItem::NodeRef(n));
                    assert(equipment@.last() == EquipItem::NodeRef(n));
                } else {
                    proof {
                        lemma_args_push(args@, Arg::NodeRef(n), s@);
                    }
                    args.push(Arg::NodeRef(n));
                }
                i = ne;
            }
        }
        assert(i > start);
        proof {
            if in_equip {
                assert(args@ == args0);
                assert(item_bounds(equipment@) =~= item_bounds(eq0).push((start as int, i as int)));
                lemma_chained_push(item_bounds(eq0), s@, trivia_end(s@, after + 1), ',', (start as int, i as int));
            } else {
                assert(equipment@ == eq0);
                assert(arg_bounds(args@) =~= arg_bounds(args0).push((start as int, i as int)));
                lemma_chained_push(arg_bounds(args0), s@, first, ',', (start as int, i as int));
            }
        }
        i = skip_trivia(s, i);
        if i >= s.len() {
            return Err(i);
        }
        if s[i] == ')' {
            return Ok((Call { verb, verb_span, args, equipment, span: mk_span(s, pos, i + 1) }, i + 1));
        } else if s[i] == ',' {
            i = skip_trivia(s, i + 1);
        } else if s[i] == ';' && !in_equip {
            in_equip = true;
            proof {
                after = i as int;
            }
            i = skip_trivia(s, i + 1);
            assert(item_bounds(equipment@) =~= Seq::<(int, int)>::empty());
        } else {
            return Err(i);
        }
    }
}

proof fn lemma_chained_push(b: Seq<(int, int)>, s: Seq<char>, first: int, sep: char, x: (int, int))
    requires
        chained(b, s, first, sep),
        x.0 == next_start(b, s, first),
        b.len() > 0 ==> trivia_end(s, b.last().1) < s.len() && s[trivia_end(s, b.last().1)] == sep,
    ensures
        chained(b.push(x), s, first, sep),
{
    let c = b.push(x);
    assert forall|k: int| 0 <= k < c.len() implies (#[trigger] c[k]).0 == next_start(c.take(k), s, first) && (k > 0
        ==> trivia_end(s, c[k - 1].1) < s.len() && s[trivia_end(s, c[k - 1].1)] == sep) by {
        if k < b.len() {
            assert(c.take(k) =~= b.take(k));
            assert(c[k] == b[k]);
            if k > 0 {
                assert(c[k - 1] == b[k - 1]);
            }
        } else {
            assert(c.take(k) =~= b);
            if k > 0 {
                assert(c[k - 1] == b.last());
            }
        }
    }
}

/// `<+path[#anchor]>[amount][(a -> b, ...)]` at `pos` (which holds `<`).
#[verifier::rlimit(30)]
fn parse_sub_ref(s: &[char], pos: usize) -> (r: Result<(SubRef, usize), usize>)
    requires
        s@.len() < usize::MAX,
        pos < s@.len(),
        s@[pos as int] == '<',
    ensures
        r matches Ok((x, e)) ==> pos < e <= s@.len() && x.span.start_byte == pos && x.span.end_byte == e
            && subref_faithful(x, s@),
        r matches Err(e) ==> e <= s@.len(),
        res_pos(r) == subref_res(s@, pos as int),
{
    if pos + 1 >= s.len() || s[pos + 1] != '+' {
        return Err(pos);
    }
    let mut path: Vec<String> = Vec::new();
    let mut i = pos + 2;
    loop
        invariant_except_break
            s@.len() < usize::MAX,
            pos + 2 <= i <= s@.len(),
            crate::text::views(path@) + path_seq(s@, i as int) == path_seq(s@, pos + 2),
            path_stop(s@, i as int) == path_stop(s@, pos + 2),
            forall|k: int| 0 <= k < path@.len() ==> (#[trigger] path@[k])@.len() > 0,
            path_res(s@, i as int) == path_res(s@, pos + 2),
            pos + 1 < s@.len() && s@[pos + 1] == '+',
        ensures
            s@.len() < usize::MAX,
            pos + 2 <= i <= s@.len(),
            crate::text::views(path@) == path_seq(s@, pos + 2),
            i == path_stop(s@, pos + 2),
            forall|k: int| 0 <= k < path@.len() ==> (#[trigger] path@[k])@.len() > 0,
            path_res(s@, pos + 2) == Ok::<int, int>(i as int),
        decreases s@.len() - i,
    {
        let e = ident_end(s, i);
        if e == i {
            assert(path_res(s@, i as int) == Err::<int, int>(i as int));
            return Err(i);
        }
        let seg = string_of(s, i, e);
        let ghost p0 = path@;
        path.push(seg);
        assert(crate::text::views(path@) =~= crate::text::views(p0).push(s@.subrange(i as int, e as int)));
        if e < s.len() && s[e] == '/' {
            assert(path_seq(s@, i as int) =~= seq![s@.subrange(i as int, e as int)] + path_seq(s@, e + 1));
            assert(crate::text::views(path@) + path_seq(s@, e + 1) =~= crate::text::views(p0) + path_seq(s@, i as int));
            i = e + 1;
        } else {
            assert(path_seq(s@, i as int) =~= seq![s@.subrange(i as int, e as int)]);
            assert(crate::text::views(path@) =~= crate::text::views(p0) + path_seq(s@, i as int));
            i = e;
            break;
        }
    }
    let mut anchor: Option<String> = None;
    if i < s.len() && s[i] == '#' {
        let e = ident_end(s, i + 1);
        if e == i + 1 {
            return Err(i + 1);
        }
        anchor = Some(string_of(s, i + 1, e));
        i = e;
    }
    if i >= s.len() || s[i] != '>' {
        return Err(i);
    }
    i = i + 1;
    let mut end = i;
    let mut amount: Option<Amount> = None;
    if i < s.len() && s[i] == '[' {
        let (a, ae) = match parse_bracket_amount(s, i) {
            Ok(x) => x,
            Err(x) => {
                return Err(x);
            },
        };
        amount = Some(a);
        i = ae;
        end = ae;
    }
    let mut remap: Vec<(String, String)> = Vec::new();
    let t = skip_trivia(s, i);
    if t < s.len() && s[t] == '(' {
        let mut j = skip_trivia(s, t + 1);
        let ghost j0 = j as int;
        assert(remap_res(s@, j0) == subref_res(s@, pos as int));
        loop
            invariant_except_break
                s@.len() < usize::MAX,
                t < j <= s@.len(),
                pos < end <= s@.len(),
                pos < i <= t,
                j == pair_start(s@, j0, remap@.len() as int),
                remap_res(s@, j as int) == remap_res(s@, j0),
                remap_res(s@, j0) == subref_res(s@, pos as int),
                forall|k: int| 0 <= k < remap@.len() ==> pair_at(s@, pair_start(s@, j0, k), #[trigger] remap@[k]),
                forall|k: int|
                    0 <= k < remap@.len() ==> pair_stop(s@, #[trigger] pair_start(s@, j0, k)) < s@.len() && s@[pair_stop(
                        s@,
                        pair_start(s@, j0, k),
                    )] == ',',
            ensures
                s@.len() < usize::MAX,
                pos < end <= s@.len(),
                pos < i <= t,
                end >= 1,
                remaps_at(s@, j0, remap@, end - 1),
                remap_res(s@, j0) == Ok::<int, int>(end as int),
            decreases s@.len() - j,
        {
            let ghost r0 = remap@;
            let fe = ident_end(s, j);
            if fe == j {
                assert(remap_res(s@, j as int) == Err::<int, int>(j as int));
                return Err(j);
            }
            let from = string_of(s, j, fe);
            let a = skip_trivia(s, fe);
            if a + 1 >= s.len() || s[a] != '-' || s[a + 1] != '>' {
                assert(remap_res(s@, j as int) == Err::<int, int>(a as int));
                return Err(a);
            }
            let b = skip_trivia(s, a + 2);
            let te = ident_end(s, b);
            if te == b {
                return Err(b);
            }
            remap.push((from, string_of(s, b, te)));
            let c = skip_trivia(s, te);
            proof {
                assert(remap@[r0.len() as int] == remap@.last());
                assert(pair_at(s@, j as int, remap@.last()));
                assert(c == pair_stop(s@, j as int));
                assert forall|k: int| 0 <= k < r0.len() implies remap@[k] == r0[k] by {}
            }
            if c < s.len() && s[c] == ',' {
                j = skip_trivia(s, c + 1);
            } else if c < s.len() && s[c] == ')' {
                end = c + 1;
                break;
            } else {
                return Err(c);
            }
        }
    }
    Ok((SubRef { path, anchor, amount, remap, span: mk_span(s, pos, end) }, end))
}

/// `&by(n)`, `&during(n)` or `&lag(d)` at `pos` (which holds `&`).
fn parse_link(s: &[char], pos: usize) -> (r: Result<(Option<Link>, usize), usize>)
    requires
        s@.len() < usize::MAX,
        pos < s@.len(),
        s@[pos as int] == '&',
    ensures
        r matches Ok((l, e)) ==> pos < e <= s@.len() && (l matches Some(x) ==> x.spec_span().start_byte == pos
            && x.spec_span().end_byte == e && link_faithful(x, s@)) && (l is Some <==> token_kept(s@, pos as int, e as int)),
        r matches Err(e) ==> e <= s@.len(),
        res_pos(r) == link_res(s@, pos as int),
{
    proof {
        reveal(paren_stop);
    }
    let we = ident_end(s, pos + 1);
    let is_by = is_word(s, pos + 1, we, &['b', 'y']);
    let is_during = is_word(s, pos + 1, we, &['d', 'u', 'r', 'i', 'n', 'g']);
    let is_lag = is_word(s, pos + 1, we, &['l', 'a', 'g']);
    if !is_by && !is_during && !is_lag {
        return Err(pos);
    }
    let i = skip_trivia(s, we);
    if i >= s.len() || s[i] != '(' {
        return Err(i);
    }
    let j = skip_trivia(s, i + 1);
    if is_lag {
        let mut k = j;
        while k < s.len() && s[k] != ')' && s[k] != '\n'
            invariant
                s@.len() < usize::MAX,
                j <= k <= s@.len(),
                paren_stop(s@, k as int) == paren_stop(s@, j as int),
            decreases s@.len() - k,
        {
            proof {
                reveal(paren_stop);
            }
            k = k + 1;
        }
        if k >= s.len() || s[k] != ')' {
            return Err(k);
        }
        let span = mk_span(s, pos, k + 1);
        return match parse_lag_in(s, j, k) {
            Some(d) => Ok((Some(Link::Lag { duration: d, span }), k + 1)),
            None => Ok((None, k + 1)),
        };
    }
    let (target, ne) = match parse_node_ref(s, j) {
        Ok(x) => x,
        Err(x) => {
            return Err(x);
        },
    };
    let k = skip_trivia(s, ne);
    if k >= s.len() || s[k] != ')' {
        return Err(k);
    }
    let span = mk_span(s, pos, k + 1);
    if is_by {
        Ok((Some(Link::By { target, span }), k + 1))
    } else {
        Ok((Some(Link::During { target, span }), k + 1))
    }
}

proof fn lemma_temp_span_free(text: Seq<char>, a: Span, b: Span)
    ensures
        (spec_temp(text, a) is Some) == (spec_temp(text, b) is Some),
{
}

proof fn lemma_timer_span_free(text: Seq<char>, a: Span, b: Span)
    ensures
        (spec_timer(text, a) is Some) == (spec_timer(text, b) is Some),
{
    let t = crate::number::trimmed(text);
    if t.len() > 0 {
        lemma_range_span_free(t.drop_first(), a, b);
    }
}

proof fn lemma_range_span_free(body: Seq<char>, a: Span, b: Span)
    ensures
        (crate::amount::spec_duration_range(body, a) is Some) == (crate::amount::spec_duration_range(body, b) is Some),
        crate::amount::spec_duration_range(body, a) matches Some(r) ==> r.span == a,
{
}

/// A temperature token `{...}` at `i`.
fn parse_temp_token(s: &[char], i: usize) -> (r: Result<(Option<Annotation>, usize), usize>)
    requires
        s@.len() < usize::MAX,
        i < s@.len(),
        s@[i as int] == '{',
    ensures
        r matches Ok((a, e)) ==> i < e <= s@.len() && (a matches Some(x) ==> ann_faithful(x, s@) && ann_span(x).start_byte == i
            && ann_span(x).end_byte == e) && (a is Some <==> token_kept(s@, i as int, e as int)),
        r matches Err(e) ==> e <= s@.len(),
        res_pos(r) == brace_res(s@, i as int),
{
    let e = match brace_end(s, i) {
        Ok(e) => e,
        Err(x) => {
            return Err(x);
        },
    };
    let sp = mk_span(s, i, e);
    proof {
        lemma_temp_span_free(s@.subrange(i as int, e as int), sp, Span { start_byte: 0, end_byte: 0, start_row: 0, start_col: 0 });
    }
    match parse_temp_in(s, i, e, sp) {
        Some(t) => Ok((Some(Annotation::Temp(t)), e)),
        None => Ok((None, e)),
    }
}

/// A timer token `@...`, `~...` or `~?` at `i`.
fn parse_timer_token(s: &[char], i: usize) -> (r: Result<(Option<Annotation>, usize), usize>)
    requires
        s@.len() < usize::MAX,
        i < s@.len(),
        s@[i as int] == '@' || s@[i as int] == '~',
    ensures
        r matches Ok((a, e)) ==> i < e <= s@.len() && (a matches Some(x) ==> ann_faithful(x, s@) && ann_span(x).start_byte == i
            && ann_span(x).end_byte == e) && (a is Some <==> token_kept(s@, i as int, e as int)),
        r matches Err(e) ==> e <= s@.len(),
        res_pos(r) == timer_res(s@, i as int),
{
    proof {
        reveal(num_run);
    }
    let c = s[i];
    let mut e = i + 1;
    if c == '~' && e < s.len() && s[e] == '?' {
        e = e + 1;
    } else {
        while e < s.len() && (('0' <= s[e] && s[e] <= '9') || s[e] == '.' || s[e] == '/' || s[e] == '-')
            invariant
                s@.len() < usize::MAX,
                i < e <= s@.len(),
                num_run(s@, e as int) == num_run(s@, i + 1),
            decreases s@.len() - e,
        {
            proof {
                reveal(num_run);
            }
            e = e + 1;
        }
        if e < s.len() && (s[e] == 's' || s[e] == 'm' || s[e] == 'h' || s[e] == 'd') {
            e = e + 1;
        } else {
            return Err(e);
        }
    }
    let sp = mk_span(s, i, e);
    proof {
        let text = s@.subrange(i as int, e as int);
        lemma_timer_span_free(text, sp, Span { start_byte: 0, end_byte: 0, start_row: 0, start_col: 0 });
        let t = crate::number::trimmed(text);
        if t.len() > 0 {
            lemma_range_span_free(t.drop_first(), sp, sp);
        }
    }
    match parse_timer_in(s, i, e, sp) {
        Some(t) => Ok((Some(Annotation::Timer(t)), e)),
        None => Ok((None, e)),
    }
}

/// A flag `[name]` at `i`.
fn parse_flag_token(s: &[char], i: usize) -> (r: Result<(Option<Annotation>, usize), usize>)
    requires
        s@.len() < usize::MAX,
        i < s@.len(),
        s@[i as int] == '[',
    ensures
        r matches Ok((a, e)) ==> i < e <= s@.len() && (a matches Some(x) ==> ann_faithful(x, s@) && ann_span(x).start_byte == i
            && ann_span(x).end_byte == e) && (a is Some <==> token_kept(s@, i as int, e as int)),
        r matches Err(e) ==> e <= s@.len(),
        res_pos(r) == flag_res(s@, i as int),
{
    let a = skip_trivia(s, i + 1);
    let ne = ident_end(s, a);
    if ne == a {
        return Err(a);
    }
    let b = skip_trivia(s, ne);
    if b >= s.len() || s[b] != ']' {
        return Err(b);
    }
    Ok((Some(Annotation::Flag { name: string_of(s, a, ne), span: mk_span(s, i, b + 1) }), b + 1))
}

/// One annotation token at `i` (which holds `{`, `@`, `~`, `"`, `[` or
/// `&`), with its end; a temperature, timer or lag that does not read as
/// one gives no annotation.
fn parse_annotation(s: &[char], i: usize) -> (r: Result<(Option<Annotation>, usize), usize>)
    requires
        s@.len() < usize::MAX,
        i < s@.len(),
    ensures
        r matches Ok((a, e)) ==> i < e <= s@.len() && (a matches Some(x) ==> ann_faithful(x, s@) && ann_span(x).start_byte == i
            && ann_span(x).end_byte == e) && (a is Some <==> token_kept(s@, i as int, e as int)),
        r matches Err(e) ==> e <= s@.len(),
        res_pos(r) == annotation_res(s@, i as int),
{
    let c = s[i];
    if c == '{' {
        parse_temp_token(s, i)
    } else if c == '@' || c == '~' {
        parse_timer_token(s, i)
    } else if c == '"' {
        parse_doc_token(s, i)
    } else if c == '[' {
        parse_flag_token(s, i)
    } else if c == '&' {
        parse_link_token(s, i)
    } else {
        Err(i)
    }
}

/// A quoted string `"..."` at `i`.
fn parse_doc_token(s: &[char], i: usize) -> (r: Result<(Option<Annotation>, usize), usize>)
    requires
        s@.len() < usize::MAX,
        i < s@.len(),
        s@[i as int] == '"',
    ensures
        r matches Ok((a, e)) ==> i < e <= s@.len() && (a matches Some(x) ==> ann_faithful(x, s@) && ann_span(x).start_byte == i
            && ann_span(x).end_byte == e) && (a is Some <==> token_kept(s@, i as int, e as int)),
        r matches Err(e) ==> e <= s@.len(),
        res_pos(r) == string_res(s@, i as int),
{
    let e = match string_end(s, i) {
        Ok(e) => e,
        Err(x) => {
            return Err(x);
        },
    };
    Ok((Some(Annotation::Doc { text: unquote_in(s, i, e), span: mk_span(s, i, e) }), e))
}

/// A link `&...(...)` at `i`.
fn parse_link_token(s: &[char], i: usize) -> (r: Result<(Option<Annotation>, usize), usize>)
    requires
        s@.len() < usize::MAX,
        i < s@.len(),
        s@[i as int] == '&',
    ensures
        r matches Ok((a, e)) ==> i < e <= s@.len() && (a matches Some(x) ==> ann_faithful(x, s@) && ann_span(x).start_byte == i
            && ann_span(x).end_byte == e) && (a is Some <==> token_kept(s@, i as int, e as int)),
        r matches Err(e) ==> e <= s@.len(),
        res_pos(r) == link_res(s@, i as int),
{
    let (l, e) = match parse_link(s, i) {
        Ok(x) => x,
        Err(x) => {
            return Err(x);
        },
    };
    match l {
        Some(l) => Ok((Some(Annotation::Link(l)), e)),
        None => Ok((None, e)),
    }
}

/// Annotations after a binding's value (temps, timers, strings, flags,
/// links). Returns them, with the end of the last one (or `pos`).
#[verifier::rlimit(30)]
fn parse_annotations(s: &[char], pos: usize) -> (r: Result<(Vec<Annotation>, usize), usize>)
    requires
        s@.len() < usize::MAX,
        pos <= s@.len(),
    ensures
        r matches Ok((anns, e)) ==> pos <= e <= s@.len() && forall|k: int| 0 <= k < anns@.len() ==> ann_faithful(#[trigger] anns@[k], s@),
        r matches Ok((anns, e)) ==> anns_after(s@, pos as int, anns@, e as int),
        r matches Err(e) ==> e <= s@.len(),
        res_pos(r) == anns_res(s@, pos as int),
{
    let mut anns: Vec<Annotation> = Vec::new();
    let mut end = pos;
    let ghost mut toks: Seq<(int, int)> = Seq::empty();
    assert(ann_bounds(anns@) =~= Seq::<(int, int)>::empty());
    loop
        invariant
            s@.len() < usize::MAX,
            pos <= end <= s@.len(),
            forall|k: int| 0 <= k < anns@.len() ==> ann_faithful(#[trigger] anns@[k], s@),
            tokens_chain(s@, pos as int, toks),
            end == if toks.len() == 0 {
                pos as int
            } else {
                toks.last().1
            },
            ann_bounds(anns@) == kept_bounds(s@, toks),
            anns_res(s@, end as int) == anns_res(s@, pos as int),
        decreases s@.len() - end,
    {
        let i = skip_trivia(s, end);
        if i >= s.len() {
            assert(tokens_after(s@, pos as int, toks, end as int));
            return Ok((anns, end));
        }
        let c = s[i];
        if c == '{' || c == '@' || c == '~' || c == '"' || c == '[' || c == '&' {
            let (a, e) = match parse_annotation(s, i) {
                Ok(x) => x,
                Err(x) => {
                    return Err(x);
                },
            };
            let ghost a0 = anns@;
            let ghost t0 = toks;
            match a {
                Some(x) => anns.push(x),
                None => {},
            }
            proof {
                lemma_tokens_push(s@, pos as int, t0, (i as int, e as int));
                lemma_kept_push(s@, t0, (i as int, e as int), a is Some);
                toks = toks.push((i as int, e as int));
                if a is Some {
                    assert(ann_bounds(anns@) =~= ann_bounds(a0).push((i as int, e as int)));
                } else {
                    assert(anns@ == a0);
                }
            }
            end = e;
        } else {
            assert(tokens_after(s@, pos as int, toks, end as int));
            return Ok((anns, end));
        }
    }
}

/// The value of a binding or basis at `pos`: a call, a sub-recipe reference
/// or a node reference.
fn parse_expr(s: &[char], pos: usize) -> (r: Result<(Expr, usize), usize>)
    requires
        s@.len() < usize::MAX,
        pos <= s@.len(),
    ensures
        r matches Ok((x, e)) ==> pos < e <= s@.len() && expr_faithful(x, s@) && expr_start(x) == pos && expr_end(x) == e,
        r matches Err(e) ==> e <= s@.len(),
        res_pos(r) == expr_res(s@, pos as int),
{
    if pos < s.len() && s[pos] == '<' {
        return match parse_sub_ref(s, pos) {
            Ok((sr, e)) => Ok((Expr::SubRef(sr), e)),
            Err(x) => Err(x),
        };
    }
    let e = ident_end(s, pos);
    if e == pos {
        return Err(pos);
    }
    let t = skip_trivia(s, e);
    if t < s.len() && s[t] == '(' {
        match parse_call(s, pos, e) {
            Ok((c, ce)) => Ok((Expr::Call(c), ce)),
            Err(x) => Err(x),
        }
    } else {
        match parse_node_ref(s, pos) {
            Ok((n, ne)) => Ok((Expr::NodeRef(n), ne)),
            Err(x) => Err(x),
        }
    }
}

/// Whether each output's name is the source text at its span, and the spans
/// lie within the text.
pub open spec fn outputs_faithful(outs: Seq<Output>, s: Seq<char>) -> bool {
    forall|i: int|
        0 <= i < outs.len() ==> (#[trigger] outs[i]).span.within(s.len()) && outs[i].name@
            == s.subrange(outs[i].span.start_byte as int, outs[i].span.end_byte as int) && output_faithful(outs[i], s)
}

/// An output as it reads: an identifier, then its bracketed amount if a `[`
/// follows right after.
pub open spec fn output_faithful(o: Output, s: Seq<char>) -> bool {
    let e = o.span.end_byte as int;
    &&& span_at(o.span, s)
    &&& o.span.start_byte < e == ident_stop(s, o.span.start_byte as int)
    &&& match o.amount {
        Some(a) => bracket_amount_at(s, e, a, bracket_stop(s, e + 1) + 1),
        None => !(e < s.len() && s[e] == '['),
    }
}

/// Where an output's text ends: after its amount if it has one.
pub open spec fn output_stop(o: Output, s: Seq<char>) -> int {
    match o.amount {
        Some(_) => bracket_stop(s, o.span.end_byte + 1) + 1,
        None => o.span.end_byte as int,
    }
}

pub open spec fn output_bounds(outs: Seq<Output>, s: Seq<char>) -> Seq<(int, int)> {
    Seq::new(outs.len(), |k: int| (outs[k].span.start_byte as int, output_stop(outs[k], s)))
}

/// Where a value's text starts.
pub open spec fn expr_start(x: Expr) -> int {
    match x {
        Expr::Call(c) => c.span.start_byte as int,
        Expr::SubRef(r) => r.span.start_byte as int,
        Expr::NodeRef(n) => n.span.start_byte as int,
    }
}

/// Where a value's text ends.
pub open spec fn expr_end(x: Expr) -> int {
    match x {
        Expr::Call(c) => c.span.end_byte as int,
        Expr::SubRef(r) => r.span.end_byte as int,
        Expr::NodeRef(n) => n.span.end_byte as int,
    }
}

/// The layout of a binding: its outputs chained by `,` from its start, then
/// `=`, then its value, then its annotations, where it ends.
pub open spec fn binding_layout(b: Binding, s: Seq<char>) -> bool {
    let ob = output_bounds(b.outputs@, s);
    let eq = trivia_end(s, ob.last().1);
    &&& ob.len() > 0
    &&& chained(ob, s, b.span.start_byte as int, ',')
    &&& eq < s.len() && s[eq] == '='
    &&& expr_start(b.value) == trivia_end(s, eq + 1)
    &&& anns_after(s, expr_end(b.value), b.annotations@, b.span.end_byte as int)
}

/// A binding `outputs = value annotations` at `pos`.
#[verifier::rlimit(30)]
fn parse_binding(s: &[char], pos: usize) -> (r: Result<(Binding, usize), usize>)
    requires
        s@.len() < usize::MAX,
        pos < s@.len(),
    ensures
        r matches Ok((b, e)) ==> pos < e <= s@.len() && b.span.start_byte == pos
            && b.span.end_byte == e && outputs_faithful(b.outputs@, s@) && expr_faithful(b.value, s@)
            && (forall|k: int| 0 <= k < b.annotations@.len() ==> ann_faithful(#[trigger] b.annotations@[k], s@))
            && binding_layout(b, s@) && span_at(b.span, s@),
        r matches Err(e) ==> e <= s@.len(),
        res_pos(r) == binding_res(s@, pos as int),
{
    let mut outputs: Vec<Output> = Vec::new();
    let mut i = pos;
    assert(output_bounds(outputs@, s@) =~= Seq::<(int, int)>::empty());
    loop
        invariant_except_break
            s@.len() < usize::MAX,
            pos <= i <= s@.len(),
            outputs_faithful(outputs@, s@),
            chained(output_bounds(outputs@, s@), s@, pos as int, ','),
            i == next_start(output_bounds(outputs@, s@), s@, pos as int),
            outputs@.len() > 0 ==> trivia_end(s@, output_bounds(outputs@, s@).last().1) < s@.len() && s@[trivia_end(
                s@,
                output_bounds(outputs@, s@).last().1,
            )] == ',',
            outputs_res(s@, i as int) == outputs_res(s@, pos as int),
        ensures
            s@.len() < usize::MAX,
            pos <= i <= s@.len(),
            outputs_faithful(outputs@, s@),
            chained(output_bounds(outputs@, s@), s@, pos as int, ','),
            outputs@.len() > 0,
            trivia_end(s@, output_bounds(outputs@, s@).last().1) < s@.len() && s@[trivia_end(
                s@,
                output_bounds(outputs@, s@).last().1,
            )] == '=',
            i == trivia_end(s@, trivia_end(s@, output_bounds(outputs@, s@).last().1) + 1),
            outputs_res(s@, pos as int) == Ok::<int, int>(i as int),
        decreases s@.len() - i,
    {
        let ghost o0 = outputs@;
        let e = ident_end(s, i);
        if e == i {
            return Err(i);
        }
        let name = string_of(s, i, e);
        let mut oe = e;
        let mut amount: Option<Amount> = None;
        if e < s.len() && s[e] == '[' {
            let (a, ae) = match parse_bracket_amount(s, e) {
                Ok(x) => x,
                Err(x) => {
                    return Err(x);
                },
            };
            amount = Some(a);
            oe = ae;
        }
        let ghost nm = name@;
        outputs.push(Output { name, amount, span: mk_span(s, i, e) });
        proof {
            assert forall|q: int| 0 <= q < outputs@.len() implies (#[trigger] outputs@[q]).span.within(
                s@.len(),
            ) && outputs@[q].name@ == s@.subrange(
                outputs@[q].span.start_byte as int,
                outputs@[q].span.end_byte as int,
            ) by {}
            assert(output_bounds(outputs@, s@) =~= output_bounds(o0, s@).push((i as int, oe as int)));
            lemma_chained_push(output_bounds(o0, s@), s@, pos as int, ',', (i as int, oe as int));
        }
        let t = skip_trivia(s, oe);
        if t < s.len() && s[t] == ',' {
            i = skip_trivia(s, t + 1);
        } else if t < s.len() && s[t] == '=' {
            i = skip_trivia(s, t + 1);
            break;
        } else {
            return Err(t);
        }
    }
    let (value, ve) = match parse_expr(s, i) {
        Ok(x) => x,
        Err(x) => {
            return Err(x);
        },
    };
    let (annotations, end) = match parse_annotations(s, ve) {
        Ok(x) => x,
        Err(x) => {
            return Err(x);
        },
    };
    Ok((Binding { outputs, value, annotations, span: mk_span(s, pos, end) }, end))
}

/// `:key value` at `pos` (which holds `:`); the value is the rest of the line,
/// trimmed, taken verbatim (comments are not scanned there).
fn parse_meta(s: &[char], pos: usize) -> (r: Result<(Meta, usize), usize>)
    requires
        s@.len() < usize::MAX,
        pos < s@.len(),
        s@[pos as int] == ':',
    ensures
        r matches Ok((m, e)) ==> pos < e <= s@.len() && m.span.start_byte == pos && m.span.end_byte == e
            && meta_faithful(m, s@),
        r matches Err(e) ==> e <= s@.len(),
        res_pos(r) == meta_res(s@, pos as int),
{
    let ke = ident_end(s, pos + 1);
    if ke == pos + 1 {
        return Err(pos + 1);
    }
    let le = line_end(s, ke);
    let (va, vb) = trim_range(s, ke, le);
    Ok((
        Meta { key: string_of(s, pos + 1, ke), value: string_of(s, va, vb), span: mk_span(s, pos, le) },
        le,
    ))
}

/// `basis name = amount` at `pos` (which holds the `basis` keyword ending at
/// `ke`); the amount runs to the end of the line (or a comment), and its span
/// keeps the blank after `=`.
fn parse_basis(s: &[char], pos: usize, ke: usize) -> (r: Result<(Basis, usize), usize>)
    requires
        s@.len() < usize::MAX,
        pos < ke <= s@.len(),
        s@.subrange(pos as int, ke as int) == seq!['b', 'a', 's', 'i', 's'],
    ensures
        r matches Ok((b, e)) ==> pos < e <= s@.len() && b.span.start_byte == pos
            && b.span.end_byte == e && basis_faithful(b, s@),
        r matches Err(e) ==> e <= s@.len(),
        res_pos(r) == basis_res(s@, pos as int, ke as int),
{
    proof {
        reveal(comment_stop);
    }
    assert(s@.subrange(pos as int, ke as int).len() == 5);
    let n = skip_trivia(s, ke);
    let ne = ident_end(s, n);
    if ne == n || n == ke {
        return Err(n);
    }
    let name = string_of(s, n, ne);
    let q = skip_trivia(s, ne);
    if q >= s.len() || s[q] != '=' {
        return Err(q);
    }
    let le = line_end(s, q + 1);
    // stop at a trailing comment
    let mut ae = q + 1;
    while ae < le && !(s[ae] == '/' && ae + 1 < le && s[ae + 1] == '/')
        invariant
            s@.len() < usize::MAX,
            q + 1 <= ae <= le <= s@.len(),
            comment_stop(s@, ae as int, le as int) == comment_stop(s@, q + 1, le as int),
        decreases le - ae,
    {
        proof {
            reveal(comment_stop);
        }
        ae = ae + 1;
    }
    let (ta, tb) = trim_range(s, q + 1, ae);
    if ta == tb {
        return Err(ta);
    }
    let amount = parse_amount_in(s, q + 1, tb, mk_span(s, q + 1, tb));
    Ok((Basis { name, amount, span: mk_span(s, pos, tb) }, tb))
}

/// A menu entry `alias = recipe [links]` at `pos`.
fn parse_menu_entry(s: &[char], pos: usize) -> (r: Result<(MenuEntry, usize), usize>)
    requires
        s@.len() < usize::MAX,
        pos < s@.len(),
    ensures
        r matches Ok((m, e)) ==> pos < e <= s@.len() && m.span.start_byte == pos
            && m.span.end_byte == e && entry_faithful(m, s@),
        r matches Err(e) ==> e <= s@.len(),
        res_pos(r) == entry_res(s@, pos as int),
{
    let ae = ident_end(s, pos);
    if ae == pos {
        return Err(pos);
    }
    let alias = string_of(s, pos, ae);
    let q = skip_trivia(s, ae);
    if q >= s.len() || s[q] != '=' {
        return Err(q);
    }
    let t = skip_trivia(s, q + 1);
    let (recipe, te) = if t < s.len() && s[t] == '<' {
        match parse_sub_ref(s, t) {
            Ok((sr, e)) => (MenuTarget::SubRef(sr), e),
            Err(x) => {
                return Err(x);
            },
        }
    } else {
        let e = ident_end(s, t);
        if e == t {
            return Err(t);
        }
        (MenuTarget::Name(string_of(s, t, e)), e)
    };
    let mut links: Vec<Link> = Vec::new();
    let mut end = te;
    loop
        invariant
            s@.len() < usize::MAX,
            pos < end <= s@.len(),
            forall|k: int| 0 <= k < links@.len() ==> link_faithful(#[trigger] links@[k], s@),
            links_res(s@, end as int) == entry_res(s@, pos as int),
        ensures
            pos < end <= s@.len(),
            forall|k: int| 0 <= k < links@.len() ==> link_faithful(#[trigger] links@[k], s@),
            entry_res(s@, pos as int) == Ok::<int, int>(end as int),
        decreases s@.len() - end,
    {
        let i = skip_trivia(s, end);
        if i < s.len() && s[i] == '&' {
            let (l, e) = match parse_link(s, i) {
                Ok(x) => x,
                Err(x) => {
                    return Err(x);
                },
            };
            match l {
                Some(l) => links.push(l),
                None => {},
            }
            end = e;
        } else {
            break;
        }
    }
    Ok((MenuEntry { alias, recipe, links, span: mk_span(s, pos, end) }, end))
}

/// A metadata line as it reads: `:` and a key, then the value, trimmed, up
/// to the end of the line (comment marks included).
pub open spec fn meta_faithful(m: Meta, s: Seq<char>) -> bool {
    let p = m.span.start_byte as int;
    let ke = ident_stop(s, p + 1);
    let le = line_stop(s, ke);
    &&& 0 <= p < s.len() && s[p] == ':'
    &&& span_at(m.span, s)
    &&& p + 1 < ke
    &&& m.key@ == s.subrange(p + 1, ke)
    &&& m.span.end_byte == le
    &&& m.value@ == s.subrange(trim_lo(s, ke, le), trim_hi(s, ke, le))
}

/// The start of a `//` comment in `s[i..le]`, or `le`.
#[verifier::opaque]
pub open spec fn comment_stop(s: Seq<char>, i: int, le: int) -> int
    decreases le - i,
{
    if i < le && !(s[i] == '/' && i + 1 < le && s[i + 1] == '/') {
        comment_stop(s, i + 1, le)
    } else {
        i
    }
}

/// A basis as it reads: the word `basis`, its name, `=`, then the amount:
/// the rest of the line up to a comment, trimmed.
pub open spec fn basis_faithful(b: Basis, s: Seq<char>) -> bool {
    let p = b.span.start_byte as int;
    let n = trivia_end(s, p + 5);
    let ne = ident_stop(s, n);
    let q = trivia_end(s, ne);
    let le = line_stop(s, q + 1);
    let ae = comment_stop(s, q + 1, le);
    let tb = trim_hi(s, q + 1, ae);
    &&& p + 5 <= s.len()
    &&& s.subrange(p, p + 5) == seq!['b', 'a', 's', 'i', 's']
    &&& n < ne
    &&& b.name@ == s.subrange(n, ne)
    &&& q < s.len() && s[q] == '='
    &&& trim_lo(s, q + 1, ae) < tb
    &&& b.span.end_byte == tb
    &&& span_at(b.span, s)
    &&& amount_is(b.amount, s.subrange(q + 1, tb), b.amount.spec_span())
    &&& b.amount.spec_span().start_byte == q + 1 && b.amount.spec_span().end_byte == tb && span_at(b.amount.spec_span(), s)
}

/// A menu entry as it reads: its alias, `=`, then the recipe it names.
pub open spec fn entry_faithful(m: MenuEntry, s: Seq<char>) -> bool {
    let p = m.span.start_byte as int;
    let ae = ident_stop(s, p);
    let q = trivia_end(s, ae);
    let t = trivia_end(s, q + 1);
    &&& p < ae
    &&& span_at(m.span, s)
    &&& m.alias@ == s.subrange(p, ae)
    &&& q < s.len() && s[q] == '='
    &&& m.recipe matches MenuTarget::Name(n) ==> t < ident_stop(s, t) && n@ == s.subrange(t, ident_stop(s, t))
    &&& m.recipe matches MenuTarget::SubRef(r) ==> r.span.start_byte == t && subref_faithful(r, s)
    &&& forall|k: int| 0 <= k < m.links@.len() ==> link_faithful(#[trigger] m.links@[k], s)
}

/// Statements come in source order without overlapping.
pub open spec fn metas_ordered(ms: Seq<Meta>) -> bool {
    forall|i: int, j: int| 0 <= i < j < ms.len() ==> (#[trigger] ms[i]).span.end_byte <= (#[trigger] ms[j]).span.start_byte
}

pub open spec fn bases_ordered(bs: Seq<Basis>) -> bool {
    forall|i: int, j: int| 0 <= i < j < bs.len() ==> (#[trigger] bs[i]).span.end_byte <= (#[trigger] bs[j]).span.start_byte
}

pub open spec fn bindings_ordered(bs: Seq<Binding>) -> bool {
    forall|i: int, j: int| 0 <= i < j < bs.len() ==> (#[trigger] bs[i]).span.end_byte <= (#[trigger] bs[j]).span.start_byte
}

pub open spec fn entries_ordered(es: Seq<MenuEntry>) -> bool {
    forall|i: int, j: int| 0 <= i < j < es.len() ==> (#[trigger] es[i]).span.end_byte <= (#[trigger] es[j]).span.start_byte
}

/// Some statement of a recipe starts at `p`.
pub open spec fn stmt_at(m: Seq<Meta>, b: Seq<Basis>, g: Seq<Binding>, p: int) -> bool {
    ||| exists|i: int| 0 <= i < m.len() && (#[trigger] m[i]).span.start_byte == p
    ||| exists|i: int| 0 <= i < b.len() && (#[trigger] b[i]).span.start_byte == p
    ||| exists|i: int| 0 <= i < g.len() && (#[trigger] g[i]).span.start_byte == p
}

/// After `e` (and trivia) comes another statement or the end of text.
pub open spec fn followed(m: Seq<Meta>, b: Seq<Basis>, g: Seq<Binding>, s: Seq<char>, e: int) -> bool {
    trivia_end(s, e) >= s.len() || stmt_at(m, b, g, trivia_end(s, e))
}

/// The name and each statement are followed by a statement or the end of
/// text, except whatever ends at `pend`.
pub open spec fn tiled_upto(m: Seq<Meta>, b: Seq<Basis>, g: Seq<Binding>, s: Seq<char>, name_end: int, pend: int) -> bool {
    &&& name_end == pend || followed(m, b, g, s, name_end)
    &&& forall|i: int| 0 <= i < m.len() ==> (#[trigger] m[i]).span.end_byte == pend || followed(m, b, g, s, m[i].span.end_byte as int)
    &&& forall|i: int| 0 <= i < b.len() ==> (#[trigger] b[i]).span.end_byte == pend || followed(m, b, g, s, b[i].span.end_byte as int)
    &&& forall|i: int| 0 <= i < g.len() ==> (#[trigger] g[i]).span.end_byte == pend || followed(m, b, g, s, g[i].span.end_byte as int)
}

/// The statements of a recipe cover its text: after the name and after each
/// statement comes (past trivia) another statement or the end of text, so
/// none was skipped.
pub open spec fn recipe_tiled(r: Recipe, s: Seq<char>) -> bool {
    &&& followed(r.meta@, r.bases@, r.bindings@, s, r.name_span.end_byte as int)
    &&& forall|i: int| 0 <= i < r.meta@.len() ==> followed(r.meta@, r.bases@, r.bindings@, s, (#[trigger] r.meta@[i]).span.end_byte as int)
    &&& forall|i: int| 0 <= i < r.bases@.len() ==> followed(r.meta@, r.bases@, r.bindings@, s, (#[trigger] r.bases@[i]).span.end_byte as int)
    &&& forall|i: int| 0 <= i < r.bindings@.len() ==> followed(r.meta@, r.bases@, r.bindings@, s, (#[trigger] r.bindings@[i]).span.end_byte as int)
}

proof fn lemma_followed_grow(
    m: Seq<Meta>,
    b: Seq<Basis>,
    g: Seq<Binding>,
    m2: Seq<Meta>,
    b2: Seq<Basis>,
    g2: Seq<Binding>,
    s: Seq<char>,
    e: int,
)
    requires
        followed(m, b, g, s, e),
        m.len() <= m2.len() && forall|i: int| 0 <= i < m.len() ==> m2[i] == m[i],
        b.len() <= b2.len() && forall|i: int| 0 <= i < b.len() ==> b2[i] == b[i],
        g.len() <= g2.len() && forall|i: int| 0 <= i < g.len() ==> g2[i] == g[i],
    ensures
        followed(m2, b2, g2, s, e),
{
    let p = trivia_end(s, e);
    if p < s.len() {
        if exists|i: int| 0 <= i < m.len() && (#[trigger] m[i]).span.start_byte == p {
            let i = choose|i: int| 0 <= i < m.len() && (#[trigger] m[i]).span.start_byte == p;
            assert(m2[i].span.start_byte == p);
        } else if exists|i: int| 0 <= i < b.len() && (#[trigger] b[i]).span.start_byte == p {
            let i = choose|i: int| 0 <= i < b.len() && (#[trigger] b[i]).span.start_byte == p;
            assert(b2[i].span.start_byte == p);
        } else {
            let i = choose|i: int| 0 <= i < g.len() && (#[trigger] g[i]).span.start_byte == p;
            assert(g2[i].span.start_byte == p);
        }
    }
}

/// One more statement, read at `p` just after `end` and ending at `e`, moves
/// the pending end from `end` to `e`.
proof fn lemma_tiled_step(
    m: Seq<Meta>,
    b: Seq<Basis>,
    g: Seq<Binding>,
    m2: Seq<Meta>,
    b2: Seq<Basis>,
    g2: Seq<Binding>,
    s: Seq<char>,
    name_end: int,
    end: int,
    e: int,
)
    requires
        tiled_upto(m, b, g, s, name_end, end),
        m.len() <= m2.len() && forall|i: int| 0 <= i < m.len() ==> m2[i] == m[i],
        b.len() <= b2.len() && forall|i: int| 0 <= i < b.len() ==> b2[i] == b[i],
        g.len() <= g2.len() && forall|i: int| 0 <= i < g.len() ==> g2[i] == g[i],
        forall|i: int| m.len() <= i < m2.len() ==> (#[trigger] m2[i]).span.end_byte == e,
        forall|i: int| b.len() <= i < b2.len() ==> (#[trigger] b2[i]).span.end_byte == e,
        forall|i: int| g.len() <= i < g2.len() ==> (#[trigger] g2[i]).span.end_byte == e,
        followed(m2, b2, g2, s, end),
    ensures
        tiled_upto(m2, b2, g2, s, name_end, e),
{
    if name_end != end {
        lemma_followed_grow(m, b, g, m2, b2, g2, s, name_end);
    }
    assert forall|i: int| 0 <= i < m2.len() implies (#[trigger] m2[i]).span.end_byte == e || followed(m2, b2, g2, s, m2[i].span.end_byte as int) by {
        if i < m.len() && m[i].span.end_byte != end {
            lemma_followed_grow(m, b, g, m2, b2, g2, s, m[i].span.end_byte as int);
        }
    }
    assert forall|i: int| 0 <= i < b2.len() implies (#[trigger] b2[i]).span.end_byte == e || followed(m2, b2, g2, s, b2[i].span.end_byte as int) by {
        if i < b.len() && b[i].span.end_byte != end {
            lemma_followed_grow(m, b, g, m2, b2, g2, s, b[i].span.end_byte as int);
        }
    }
    assert forall|i: int| 0 <= i < g2.len() implies (#[trigger] g2[i]).span.end_byte == e || followed(m2, b2, g2, s, g2[i].span.end_byte as int) by {
        if i < g.len() && g[i].span.end_byte != end {
            lemma_followed_grow(m, b, g, m2, b2, g2, s, g[i].span.end_byte as int);
        }
    }
}

/// Some statement of a menu starts at `p`.
pub open spec fn menu_stmt_at(m: Seq<Meta>, es: Seq<MenuEntry>, p: int) -> bool {
    ||| exists|i: int| 0 <= i < m.len() && (#[trigger] m[i]).span.start_byte == p
    ||| exists|i: int| 0 <= i < es.len() && (#[trigger] es[i]).span.start_byte == p
}

/// After `e` (and trivia) comes another menu statement or the end of text.
pub open spec fn menu_followed(m: Seq<Meta>, es: Seq<MenuEntry>, s: Seq<char>, e: int) -> bool {
    trivia_end(s, e) >= s.len() || menu_stmt_at(m, es, trivia_end(s, e))
}

pub open spec fn menu_tiled_upto(m: Seq<Meta>, es: Seq<MenuEntry>, s: Seq<char>, name_end: int, pend: int) -> bool {
    &&& name_end == pend || menu_followed(m, es, s, name_end)
    &&& forall|i: int| 0 <= i < m.len() ==> (#[trigger] m[i]).span.end_byte == pend || menu_followed(m, es, s, m[i].span.end_byte as int)
    &&& forall|i: int| 0 <= i < es.len() ==> (#[trigger] es[i]).span.end_byte == pend || menu_followed(m, es, s, es[i].span.end_byte as int)
}

/// The statements of a menu cover its text, as for a recipe.
pub open spec fn menu_tiled(mn: Menu, s: Seq<char>) -> bool {
    &&& menu_followed(mn.meta@, mn.entries@, s, mn.name_span.end_byte as int)
    &&& forall|i: int| 0 <= i < mn.meta@.len() ==> menu_followed(mn.meta@, mn.entries@, s, (#[trigger] mn.meta@[i]).span.end_byte as int)
    &&& forall|i: int| 0 <= i < mn.entries@.len() ==> menu_followed(mn.meta@, mn.entries@, s, (#[trigger] mn.entries@[i]).span.end_byte as int)
}

proof fn lemma_menu_followed_grow(m: Seq<Meta>, es: Seq<MenuEntry>, m2: Seq<Meta>, es2: Seq<MenuEntry>, s: Seq<char>, e: int)
    requires
        menu_followed(m, es, s, e),
        m.len() <= m2.len() && forall|i: int| 0 <= i < m.len() ==> m2[i] == m[i],
        es.len() <= es2.len() && forall|i: int| 0 <= i < es.len() ==> es2[i] == es[i],
    ensures
        menu_followed(m2, es2, s, e),
{
    let p = trivia_end(s, e);
    if p < s.len() {
        if exists|i: int| 0 <= i < m.len() && (#[trigger] m[i]).span.start_byte == p {
            let i = choose|i: int| 0 <= i < m.len() && (#[trigger] m[i]).span.start_byte == p;
            assert(m2[i].span.start_byte == p);
        } else {
            let i = choose|i: int| 0 <= i < es.len() && (#[trigger] es[i]).span.start_byte == p;
            assert(es2[i].span.start_byte == p);
        }
    }
}

proof fn lemma_menu_tiled_step(
    m: Seq<Meta>,
    es: Seq<MenuEntry>,
    m2: Seq<Meta>,
    es2: Seq<MenuEntry>,
    s: Seq<char>,
    name_end: int,
    end: int,
    e: int,
)
    requires
        menu_tiled_upto(m, es, s, name_end, end),
        m.len() <= m2.len() && forall|i: int| 0 <= i < m.len() ==> m2[i] == m[i],
        es.len() <= es2.len() && forall|i: int| 0 <= i < es.len() ==> es2[i] == es[i],
        forall|i: int| m.len() <= i < m2.len() ==> (#[trigger] m2[i]).span.end_byte == e,
        forall|i: int| es.len() <= i < es2.len() ==> (#[trigger] es2[i]).span.end_byte == e,
        menu_followed(m2, es2, s, end),
    ensures
        menu_tiled_upto(m2, es2, s, name_end, e),
{
    if name_end != end {
        lemma_menu_followed_grow(m, es, m2, es2, s, name_end);
    }
    assert forall|i: int| 0 <= i < m2.len() implies (#[trigger] m2[i]).span.end_byte == e || menu_followed(m2, es2, s, m2[i].span.end_byte as int) by {
        if i < m.len() && m[i].span.end_byte != end {
            lemma_menu_followed_grow(m, es, m2, es2, s, m[i].span.end_byte as int);
        }
    }
    assert forall|i: int| 0 <= i < es2.len() implies (#[trigger] es2[i]).span.end_byte == e || menu_followed(m2, es2, s, es2[i].span.end_byte as int) by {
        if i < es.len() && es[i].span.end_byte != end {
            lemma_menu_followed_grow(m, es, m2, es2, s, es[i].span.end_byte as int);
        }
    }
}

pub open spec fn max2(a: int, b: int) -> int {
    if a >= b {
        a
    } else {
        b
    }
}

/// The furthest end among statements (0 if none).
pub open spec fn metas_end(ms: Seq<Meta>) -> int
    decreases ms.len(),
{
    if ms.len() == 0 {
        0
    } else {
        max2(metas_end(ms.drop_last()), ms.last().span.end_byte as int)
    }
}

pub open spec fn bases_end(bs: Seq<Basis>) -> int
    decreases bs.len(),
{
    if bs.len() == 0 {
        0
    } else {
        max2(bases_end(bs.drop_last()), bs.last().span.end_byte as int)
    }
}

pub open spec fn bindings_end(gs: Seq<Binding>) -> int
    decreases gs.len(),
{
    if gs.len() == 0 {
        0
    } else {
        max2(bindings_end(gs.drop_last()), gs.last().span.end_byte as int)
    }
}

pub open spec fn entries_end(es: Seq<MenuEntry>) -> int
    decreases es.len(),
{
    if es.len() == 0 {
        0
    } else {
        max2(entries_end(es.drop_last()), es.last().span.end_byte as int)
    }
}

/// A recipe's text runs from its keyword to the end of its name or of its
/// last statement, whichever is further.
pub open spec fn recipe_extent(r: Recipe) -> int {
    max2(max2(r.name_span.end_byte as int, metas_end(r.meta@)), max2(bases_end(r.bases@), bindings_end(r.bindings@)))
}

/// A menu's text runs from its keyword to the end of its name or of its
/// last statement, whichever is further.
pub open spec fn menu_extent(m: Menu) -> int {
    max2(max2(m.name_span.end_byte as int, metas_end(m.meta@)), entries_end(m.entries@))
}

proof fn lemma_metas_end_le(ms: Seq<Meta>, x: int)
    requires
        forall|i: int| 0 <= i < ms.len() ==> (#[trigger] ms[i]).span.end_byte <= x,
        x >= 0,
    ensures
        metas_end(ms) <= x,
    decreases ms.len(),
{
    if ms.len() > 0 {
        lemma_metas_end_le(ms.drop_last(), x);
    }
}

proof fn lemma_bases_end_le(bs: Seq<Basis>, x: int)
    requires
        forall|i: int| 0 <= i < bs.len() ==> (#[trigger] bs[i]).span.end_byte <= x,
        x >= 0,
    ensures
        bases_end(bs) <= x,
    decreases bs.len(),
{
    if bs.len() > 0 {
        lemma_bases_end_le(bs.drop_last(), x);
    }
}

proof fn lemma_bindings_end_le(gs: Seq<Binding>, x: int)
    requires
        forall|i: int| 0 <= i < gs.len() ==> (#[trigger] gs[i]).span.end_byte <= x,
        x >= 0,
    ensures
        bindings_end(gs) <= x,
    decreases gs.len(),
{
    if gs.len() > 0 {
        lemma_bindings_end_le(gs.drop_last(), x);
    }
}

proof fn lemma_entries_end_le(es: Seq<MenuEntry>, x: int)
    requires
        forall|i: int| 0 <= i < es.len() ==> (#[trigger] es[i]).span.end_byte <= x,
        x >= 0,
    ensures
        entries_end(es) <= x,
    decreases es.len(),
{
    if es.len() > 0 {
        lemma_entries_end_le(es.drop_last(), x);
    }
}

proof fn lemma_ends_le(m: Seq<Meta>, b: Seq<Basis>, g: Seq<Binding>, x: int)
    requires
        x >= 0,
        forall|i: int| 0 <= i < m.len() ==> (#[trigger] m[i]).span.end_byte <= x,
        forall|i: int| 0 <= i < b.len() ==> (#[trigger] b[i]).span.end_byte <= x,
        forall|i: int| 0 <= i < g.len() ==> (#[trigger] g[i]).span.end_byte <= x,
    ensures
        metas_end(m) <= x,
        bases_end(b) <= x,
        bindings_end(g) <= x,
{
    lemma_metas_end_le(m, x);
    lemma_bases_end_le(b, x);
    lemma_bindings_end_le(g, x);
}

proof fn lemma_menu_ends_le(m: Seq<Meta>, es: Seq<MenuEntry>, x: int)
    requires
        x >= 0,
        forall|i: int| 0 <= i < m.len() ==> (#[trigger] m[i]).span.end_byte <= x,
        forall|i: int| 0 <= i < es.len() ==> (#[trigger] es[i]).span.end_byte <= x,
    ensures
        metas_end(m) <= x,
        entries_end(es) <= x,
{
    lemma_metas_end_le(m, x);
    lemma_entries_end_le(es, x);
}

/// What the parser guarantees of a recipe: every basis and binding span lies
/// within the text, in order, and every output name is its source text.
#[verifier::opaque]
pub open spec fn recipe_wf(r: Recipe, s: Seq<char>) -> bool {
    &&& r.name@ == s.subrange(r.name_span.start_byte as int, r.name_span.end_byte as int)
    &&& r.name_span.within(s.len())
    &&& span_at(r.name_span, s) && span_at(r.span, s)
    &&& r.span.end_byte == recipe_extent(r)
    &&& forall|i: int| 0 <= i < r.bindings@.len() ==> span_at((#[trigger] r.bindings@[i]).span, s)
    &&& forall|i: int| 0 <= i < r.meta@.len() ==> meta_faithful(#[trigger] r.meta@[i], s)
    &&& forall|i: int| 0 <= i < r.bases@.len() ==> basis_faithful(#[trigger] r.bases@[i], s)
    &&& metas_ordered(r.meta@)
    &&& bases_ordered(r.bases@)
    &&& bindings_ordered(r.bindings@)
    &&& forall|i: int| 0 <= i < r.bases@.len() ==> (#[trigger] r.bases@[i]).span.within(s.len())
    &&& forall|i: int|
        0 <= i < r.bindings@.len() ==> (#[trigger] r.bindings@[i]).span.within(s.len())
            && r.bindings@[i].span.start_byte < r.bindings@[i].span.end_byte && outputs_faithful(
            r.bindings@[i].outputs@,
            s,
        ) && expr_faithful(r.bindings@[i].value, s) && (forall|k: int|
            0 <= k < r.bindings@[i].annotations@.len() ==> ann_faithful(#[trigger] r.bindings@[i].annotations@[k], s))
            && binding_layout(r.bindings@[i], s)
}

/// What the parser guarantees of a menu: entry spans lie within the text.
#[verifier::opaque]
pub open spec fn menu_wf(m: Menu, s: Seq<char>) -> bool {
    &&& m.name@ == s.subrange(m.name_span.start_byte as int, m.name_span.end_byte as int)
    &&& m.name_span.within(s.len())
    &&& span_at(m.name_span, s) && span_at(m.span, s)
    &&& m.span.end_byte == menu_extent(m)
    &&& forall|i: int| 0 <= i < m.meta@.len() ==> meta_faithful(#[trigger] m.meta@[i], s)
    &&& forall|i: int| 0 <= i < m.entries@.len() ==> entry_faithful(#[trigger] m.entries@[i], s)
    &&& metas_ordered(m.meta@)
    &&& entries_ordered(m.entries@)
    &&& forall|i: int|
        0 <= i < m.entries@.len() ==> (#[trigger] m.entries@[i]).span.within(s.len())
            && m.entries@[i].span.start_byte < m.entries@[i].span.end_byte
}

/// The word a file starts with, after trivia.
pub open spec fn header_word(s: Seq<char>) -> Seq<char> {
    let p = trivia_end(s, 0);
    s.subrange(p, ident_stop(s, p))
}

/// Where the file's name starts: the identifier after the first word.
pub open spec fn name_start(s: Seq<char>) -> int {
    trivia_end(s, ident_stop(s, trivia_end(s, 0)))
}

/// Where the file's name ends.
pub open spec fn name_end(s: Seq<char>) -> int {
    ident_stop(s, name_start(s))
}

/// What the header decides: a file is a recipe or a menu by its first word,
/// is named by the identifier after that word, and lacks no name if it
/// parsed without errors. A text too long to index has no file.
pub open spec fn header_ok(l: Lowered, s: Seq<char>) -> bool {
    &&& s.len() >= usize::MAX ==> l.file is None
    &&& s.len() < usize::MAX ==> {
        &&& (l.file matches Some(File::Recipe(_))) <==> header_word(s) == seq!['r', 'e', 'c', 'i', 'p', 'e']
        &&& (l.file matches Some(File::Menu(_))) <==> header_word(s) == seq!['m', 'e', 'n', 'u']
        &&& l.file matches Some(File::Recipe(r)) ==> r.name_span.start_byte == name_start(s)
            && r.name_span.end_byte == name_end(s) && r.span.start_byte == trivia_end(s, 0)
        &&& l.file matches Some(File::Menu(m)) ==> m.name_span.start_byte == name_start(s)
            && m.name_span.end_byte == name_end(s) && m.span.start_byte == trivia_end(s, 0)
        &&& l.errors@.len() == 0 ==> name_start(s) < name_end(s)
    }
}

pub open spec fn lowered_wf(l: Lowered, s: Seq<char>) -> bool {
    &&& header_ok(l, s)
    &&& parse_determined(l, s)
    &&& s.len() < usize::MAX ==> forall|i: int| 0 <= i < l.errors@.len() ==> error_at(#[trigger] l.errors@[i], s)
    &&& l.errors@.len() == 0 ==> (l.file matches Some(File::Recipe(r)) ==> recipe_tiled(r, s))
    &&& l.errors@.len() == 0 ==> (l.file matches Some(File::Menu(m)) ==> menu_tiled(m, s))
    &&& l.errors@.len() == 0 ==> l.file is Some
    &&& l.file matches Some(File::Recipe(r)) ==> recipe_wf(r, s)
    &&& l.file matches Some(File::Menu(m)) ==> menu_wf(m, s)
}

/// Whether the statement at `p` is a basis line: the word `basis`, then,
/// after trivia, a name.
pub open spec fn basis_at(s: Seq<char>, p: int) -> bool {
    let ke = ident_stop(s, p);
    let after = trivia_end(s, ke);
    ke > p && s.subrange(p, ke) == seq!['b', 'a', 's', 'i', 's'] && after > ke && ident_stop(s, after) > after
}

/// A recipe statement at `p`: its kind (0 metadata, 1 basis, 2 binding),
/// chosen by how it starts, and where reading it stops.
pub open spec fn recipe_stmt(s: Seq<char>, p: int) -> (int, Result<int, int>) {
    if s[p] == ':' {
        (0, meta_res(s, p))
    } else if basis_at(s, p) {
        (1, basis_res(s, p, ident_stop(s, p)))
    } else {
        (2, binding_res(s, p))
    }
}

/// A menu statement at `p`: its kind (0 metadata, 1 entry) and where
/// reading it stops.
pub open spec fn menu_stmt(s: Seq<char>, p: int) -> (int, Result<int, int>) {
    if s[p] == ':' {
        (0, meta_res(s, p))
    } else {
        (1, entry_res(s, p))
    }
}

/// The start of the line after the one holding `p` (or the end of text).
pub open spec fn line_after(s: Seq<char>, p: int) -> int {
    let e = line_stop(s, p);
    if e < s.len() {
        e + 1
    } else {
        e
    }
}

/// The body of a file from `end` on: the kind and span of each statement
/// read, in order, and the offset of each syntax error. After trivia a
/// statement is read; where it cannot be, the error is recorded and
/// reading resumes on the next line.
pub open spec fn body_scan(s: Seq<char>, end: int, menu: bool) -> (Seq<(int, int, int)>, Seq<int>)
    decreases s.len() - end,
{
    let p = trivia_end(s, end);
    if !(0 <= end && 0 <= p < s.len()) {
        (Seq::empty(), Seq::empty())
    } else {
        let st = if menu {
            menu_stmt(s, p)
        } else {
            recipe_stmt(s, p)
        };
        match st.1 {
            Ok(e) => if !(end < e <= s.len()) {
                (Seq::empty(), Seq::empty())
            } else {
                let rest = body_scan(s, e, menu);
                (seq![(st.0, p, e)] + rest.0, rest.1)
            },
            Err(x) => {
                let n = line_after(s, p);
                if !(end < n <= s.len()) {
                    (Seq::empty(), seq![x])
                } else {
                    let rest = body_scan(s, n, menu);
                    (rest.0, seq![x] + rest.1)
                }
            },
        }
    }
}

/// The spans of the statements of kind `k`, in order.
pub open spec fn of_kind(xs: Seq<(int, int, int)>, k: int) -> Seq<(int, int)>
    decreases xs.len(),
{
    if xs.len() == 0 {
        Seq::empty()
    } else {
        let rest = of_kind(xs.drop_last(), k);
        if xs.last().0 == k {
            rest.push((xs.last().1, xs.last().2))
        } else {
            rest
        }
    }
}

pub open spec fn err_starts(es: Seq<SyntaxError>) -> Seq<int> {
    Seq::new(es.len(), |i: int| es[i].span.start_byte as int)
}

pub open spec fn meta_spans(ms: Seq<Meta>) -> Seq<(int, int)> {
    Seq::new(ms.len(), |i: int| (ms[i].span.start_byte as int, ms[i].span.end_byte as int))
}

pub open spec fn basis_spans(bs: Seq<Basis>) -> Seq<(int, int)> {
    Seq::new(bs.len(), |i: int| (bs[i].span.start_byte as int, bs[i].span.end_byte as int))
}

pub open spec fn binding_spans(bs: Seq<Binding>) -> Seq<(int, int)> {
    Seq::new(bs.len(), |i: int| (bs[i].span.start_byte as int, bs[i].span.end_byte as int))
}

pub open spec fn entry_spans(es: Seq<MenuEntry>) -> Seq<(int, int)> {
    Seq::new(es.len(), |i: int| (es[i].span.start_byte as int, es[i].span.end_byte as int))
}

/// What the text alone decides of its parse: where every syntax error lies,
/// and which statements are read, with their spans. A file whose first
/// word is neither `recipe` nor `menu` has one error, there; otherwise a
/// missing name is an error at the name's place, and the body is read from
/// the name's end as `body_scan` says.
pub open spec fn parse_determined(l: Lowered, s: Seq<char>) -> bool {
    let hp = trivia_end(s, 0);
    let ke = ident_stop(s, hp);
    let n = trivia_end(s, ke);
    let ne = ident_stop(s, n);
    let head: Seq<int> = if ne == n || n == ke {
        seq![n]
    } else {
        Seq::empty()
    };
    s.len() < usize::MAX ==> match l.file {
        None => err_starts(l.errors@) == seq![hp],
        Some(File::Recipe(r)) => {
            let sc = body_scan(s, ne, false);
            &&& err_starts(l.errors@) == head + sc.1
            &&& meta_spans(r.meta@) == of_kind(sc.0, 0)
            &&& basis_spans(r.bases@) == of_kind(sc.0, 1)
            &&& binding_spans(r.bindings@) == of_kind(sc.0, 2)
        },
        Some(File::Menu(m)) => {
            let sc = body_scan(s, ne, true);
            &&& err_starts(l.errors@) == head + sc.1
            &&& meta_spans(m.meta@) == of_kind(sc.0, 0)
            &&& entry_spans(m.entries@) == of_kind(sc.0, 1)
        },
    }
}

/// Two parses that the parser's contract admits for one text agree on
/// every syntax error's place, on the kind of file, and on the span of every
/// statement.
pub proof fn law_parse_is_determined(l1: Lowered, l2: Lowered, s: Seq<char>)
    requires
        lowered_wf(l1, s),
        lowered_wf(l2, s),
        s.len() < usize::MAX,
    ensures
        err_starts(l1.errors@) == err_starts(l2.errors@),
        l1.file is None <==> l2.file is None,
        l1.file matches Some(File::Recipe(r1)) ==> (l2.file matches Some(File::Recipe(r2)) && meta_spans(r1.meta@)
            == meta_spans(r2.meta@) && basis_spans(r1.bases@) == basis_spans(r2.bases@) && binding_spans(r1.bindings@)
            == binding_spans(r2.bindings@)),
        l1.file matches Some(File::Menu(m1)) ==> (l2.file matches Some(File::Menu(m2)) && meta_spans(m1.meta@)
            == meta_spans(m2.meta@) && entry_spans(m1.entries@) == entry_spans(m2.entries@)),
{
}

/// The start of the line after the one holding `p` (or the end of text).
fn next_line(s: &[char], p: usize) -> (r: usize)
    requires
        s@.len() < usize::MAX,
        p < s@.len(),
    ensures
        p < r <= s@.len(),
        r == line_after(s@, p as int),
{
    let e = line_end(s, p);
    if e < s.len() {
        e + 1
    } else {
        e
    }
}

#[verifier::rlimit(30)]
fn parse_recipe_body(s: &[char], start: usize, name_lo: usize, name_hi: usize, errors: &mut Vec<
    SyntaxError,
>) -> (r: Recipe)
    requires
        s@.len() < usize::MAX,
        start <= name_lo <= name_hi <= s@.len(),
        forall|i: int| 0 <= i < old(errors)@.len() ==> error_at(#[trigger] old(errors)@[i], s@),
    ensures
        forall|i: int| 0 <= i < final(errors)@.len() ==> error_at(#[trigger] final(errors)@[i], s@),
        recipe_wf(r, s@),
        r.name_span.start_byte == name_lo,
        r.name_span.end_byte == name_hi,
        r.span.start_byte == start,
        final(errors)@.len() >= old(errors)@.len(),
        final(errors)@.len() == old(errors)@.len() ==> recipe_tiled(r, s@),
        err_starts(final(errors)@) == err_starts(old(errors)@) + body_scan(s@, name_hi as int, false).1,
        meta_spans(r.meta@) == of_kind(body_scan(s@, name_hi as int, false).0, 0),
        basis_spans(r.bases@) == of_kind(body_scan(s@, name_hi as int, false).0, 1),
        binding_spans(r.bindings@) == of_kind(body_scan(s@, name_hi as int, false).0, 2),
{
    let mut meta: Vec<Meta> = Vec::new();
    let mut bases: Vec<Basis> = Vec::new();
    let mut bindings: Vec<Binding> = Vec::new();
    let mut end = name_hi;
    let mut last = name_hi;
    let ghost mut done_st: Seq<(int, int, int)> = Seq::empty();
    let ghost mut done_err: Seq<int> = Seq::empty();
    assert(err_starts(errors@) == err_starts(old(errors)@) + done_err);
    assert(meta_spans(meta@) =~= of_kind(done_st, 0));
    assert(basis_spans(bases@) =~= of_kind(done_st, 1));
    assert(binding_spans(bindings@) =~= of_kind(done_st, 2));
    loop
        invariant
            s@.len() < usize::MAX,
            start <= name_lo <= name_hi <= last <= s@.len(),
            name_hi <= end <= s@.len(),
            errors@.len() >= old(errors)@.len(),
            forall|i: int| 0 <= i < errors@.len() ==> error_at(#[trigger] errors@[i], s@),
            forall|i: int| 0 <= i < meta@.len() ==> meta_faithful(#[trigger] meta@[i], s@) && meta@[i].span.end_byte <= end,
            forall|i: int| 0 <= i < bases@.len() ==> basis_faithful(#[trigger] bases@[i], s@) && bases@[i].span.end_byte <= end,
            forall|i: int| 0 <= i < bindings@.len() ==> (#[trigger] bindings@[i]).span.end_byte <= end,
            metas_ordered(meta@),
            bases_ordered(bases@),
            bindings_ordered(bindings@),
            forall|i: int| 0 <= i < bases@.len() ==> (#[trigger] bases@[i]).span.within(s@.len()),
            forall|i: int|
                0 <= i < bindings@.len() ==> (#[trigger] bindings@[i]).span.within(s@.len())
                    && bindings@[i].span.start_byte < bindings@[i].span.end_byte
                    && outputs_faithful(bindings@[i].outputs@, s@) && expr_faithful(bindings@[i].value, s@)
                    && (forall|k: int| 0 <= k < bindings@[i].annotations@.len() ==> ann_faithful(#[trigger] bindings@[i].annotations@[k], s@))
                    && binding_layout(bindings@[i], s@) && span_at(bindings@[i].span, s@),
            errors@.len() == old(errors)@.len() ==> tiled_upto(meta@, bases@, bindings@, s@, name_hi as int, end as int),
            last <= end,
            last == max2(max2(name_hi as int, metas_end(meta@)), max2(bases_end(bases@), bindings_end(bindings@))),
            done_st + body_scan(s@, end as int, false).0 == body_scan(s@, name_hi as int, false).0,
            done_err + body_scan(s@, end as int, false).1 == body_scan(s@, name_hi as int, false).1,
            err_starts(errors@) == err_starts(old(errors)@) + done_err,
            meta_spans(meta@) == of_kind(done_st, 0),
            basis_spans(bases@) == of_kind(done_st, 1),
            binding_spans(bindings@) == of_kind(done_st, 2),
        ensures
            trivia_end(s@, end as int) >= s@.len(),
            done_st == body_scan(s@, name_hi as int, false).0,
            done_err == body_scan(s@, name_hi as int, false).1,
            err_starts(errors@) == err_starts(old(errors)@) + done_err,
            meta_spans(meta@) == of_kind(done_st, 0),
            basis_spans(bases@) == of_kind(done_st, 1),
            binding_spans(bindings@) == of_kind(done_st, 2),
        decreases s@.len() - end,
    {
        let p = skip_trivia(s, end);
        if p >= s.len() {
            assert(body_scan(s@, end as int, false).0 =~= Seq::<(int, int, int)>::empty());
            assert(done_st + body_scan(s@, end as int, false).0 =~= done_st);
            assert(done_err + body_scan(s@, end as int, false).1 =~= done_err);
            break;
        }
        let ghost m0 = meta@;
        let ghost b0 = bases@;
        let ghost g0 = bindings@;
        let ghost mut kind: int = 0;
        let res: Result<usize, usize> = if s[p] == ':' {
            match parse_meta(s, p) {
                Ok((m, e)) => {
                    meta.push(m);
                    Ok(e)
                },
                Err(x) => Err(x),
            }
        } else {
            let ke = ident_end(s, p);
            let after = skip_trivia(s, ke);
            if ke > p && is_word(s, p, ke, &['b', 'a', 's', 'i', 's']) && after > ke && ident_end(
                s,
                after,
            ) > after {
                proof { kind = 1; }
                match parse_basis(s, p, ke) {
                    Ok((b, e)) => {
                        bases.push(b);
                        Ok(e)
                    },
                    Err(x) => Err(x),
                }
            } else {
                proof { kind = 2; }
                match parse_binding(s, p) {
                    Ok((b, e)) => {
                        bindings.push(b);
                        Ok(e)
                    },
                    Err(x) => Err(x),
                }
            }
        };
        assert(recipe_stmt(s@, p as int).0 == kind && recipe_stmt(s@, p as int).1 == res_at(res));
        match res {
            Ok(e) => {
                proof {
                    let x = (kind, p as int, e as int);
                    assert(body_scan(s@, end as int, false).0 == seq![x] + body_scan(s@, e as int, false).0);
                    assert(body_scan(s@, end as int, false).1 == body_scan(s@, e as int, false).1);
                    assert(done_st.push(x) + body_scan(s@, e as int, false).0 =~= done_st + body_scan(s@, end as int, false).0);
                    assert(done_st.push(x).drop_last() =~= done_st);
                    if kind == 0 {
                        assert(meta_spans(meta@) =~= meta_spans(m0).push((p as int, e as int)));
                        assert(bases@ == b0 && bindings@ == g0);
                    } else if kind == 1 {
                        assert(basis_spans(bases@) =~= basis_spans(b0).push((p as int, e as int)));
                        assert(meta@ == m0 && bindings@ == g0);
                    } else {
                        assert(binding_spans(bindings@) =~= binding_spans(g0).push((p as int, e as int)));
                        assert(meta@ == m0 && bases@ == b0);
                    }
                    done_st = done_st.push(x);
                    if errors@.len() == old(errors)@.len() {
                        if meta@.len() > m0.len() {
                            assert(meta@[m0.len() as int].span.start_byte == p);
                        } else if bases@.len() > b0.len() {
                            assert(bases@[b0.len() as int].span.start_byte == p);
                        } else {
                            assert(bindings@[g0.len() as int].span.start_byte == p);
                        }
                        lemma_tiled_step(m0, b0, g0, meta@, bases@, bindings@, s@, name_hi as int, end as int, e as int);
                    }
                    lemma_ends_le(m0, b0, g0, end as int);
                    if meta@.len() > m0.len() {
                        assert(meta@.drop_last() =~= m0);
                    } else if bases@.len() > b0.len() {
                        assert(bases@.drop_last() =~= b0);
                    } else {
                        assert(bindings@.drop_last() =~= g0);
                    }
                }
                end = e;
                last = e;
            },
            Err(x) => {
                let ghost e0 = errors@;
                errors.push(syntax_error(s, x));
                let n = next_line(s, p);
                proof {
                    assert(body_scan(s@, end as int, false).1 == seq![x as int] + body_scan(s@, n as int, false).1);
                    assert(body_scan(s@, end as int, false).0 == body_scan(s@, n as int, false).0);
                    assert(done_err.push(x as int) + body_scan(s@, n as int, false).1 =~= done_err + body_scan(s@, end as int, false).1);
                    assert(err_starts(errors@) =~= err_starts(e0).push(x as int));
                    assert(err_starts(old(errors)@) + done_err.push(x as int) =~= (err_starts(old(errors)@) + done_err).push(x as int));
                    done_err = done_err.push(x as int);
                    assert(meta@ == m0 && bases@ == b0 && bindings@ == g0);
                }
                end = n;
            },
        }
    }
    let name = string_of(s, name_lo, name_hi);
    assert forall|i: int| 0 <= i < bindings@.len() implies span_at((#[trigger] bindings@[i]).span, s@) by {}
    proof {
        reveal(recipe_wf);
    }
    Recipe {
        name,
        name_span: mk_span(s, name_lo, name_hi),
        meta,
        bases,
        bindings,
        span: mk_span(s, start, last),
    }
}

#[verifier::rlimit(30)]
fn parse_menu_body(s: &[char], start: usize, name_lo: usize, name_hi: usize, errors: &mut Vec<
    SyntaxError,
>) -> (r: Menu)
    requires
        s@.len() < usize::MAX,
        start <= name_lo <= name_hi <= s@.len(),
        forall|i: int| 0 <= i < old(errors)@.len() ==> error_at(#[trigger] old(errors)@[i], s@),
    ensures
        forall|i: int| 0 <= i < final(errors)@.len() ==> error_at(#[trigger] final(errors)@[i], s@),
        menu_wf(r, s@),
        r.name_span.start_byte == name_lo,
        r.name_span.end_byte == name_hi,
        r.span.start_byte == start,
        final(errors)@.len() >= old(errors)@.len(),
        final(errors)@.len() == old(errors)@.len() ==> menu_tiled(r, s@),
        err_starts(final(errors)@) == err_starts(old(errors)@) + body_scan(s@, name_hi as int, true).1,
        meta_spans(r.meta@) == of_kind(body_scan(s@, name_hi as int, true).0, 0),
        entry_spans(r.entries@) == of_kind(body_scan(s@, name_hi as int, true).0, 1),
{
    let mut meta: Vec<Meta> = Vec::new();
    let mut entries: Vec<MenuEntry> = Vec::new();
    let mut end = name_hi;
    let mut last = name_hi;
    let ghost mut done_st: Seq<(int, int, int)> = Seq::empty();
    let ghost mut done_err: Seq<int> = Seq::empty();
    assert(err_starts(errors@) == err_starts(old(errors)@) + done_err);
    assert(meta_spans(meta@) =~= of_kind(done_st, 0));
    assert(entry_spans(entries@) =~= of_kind(done_st, 1));
    loop
        invariant
            s@.len() < usize::MAX,
            start <= name_lo <= name_hi <= last <= s@.len(),
            name_hi <= end <= s@.len(),
            errors@.len() >= old(errors)@.len(),
            forall|i: int| 0 <= i < errors@.len() ==> error_at(#[trigger] errors@[i], s@),
            forall|i: int| 0 <= i < meta@.len() ==> meta_faithful(#[trigger] meta@[i], s@) && meta@[i].span.end_byte <= end,
            forall|i: int| 0 <= i < entries@.len() ==> entry_faithful(#[trigger] entries@[i], s@) && entries@[i].span.end_byte <= end,
            metas_ordered(meta@),
            entries_ordered(entries@),
            errors@.len() == old(errors)@.len() ==> menu_tiled_upto(meta@, entries@, s@, name_hi as int, end as int),
            last <= end,
            last == max2(max2(name_hi as int, metas_end(meta@)), entries_end(entries@)),
            forall|i: int|
                0 <= i < entries@.len() ==> (#[trigger] entries@[i]).span.within(s@.len())
                    && entries@[i].span.start_byte < entries@[i].span.end_byte,
            done_st + body_scan(s@, end as int, true).0 == body_scan(s@, name_hi as int, true).0,
            done_err + body_scan(s@, end as int, true).1 == body_scan(s@, name_hi as int, true).1,
            err_starts(errors@) == err_starts(old(errors)@) + done_err,
            meta_spans(meta@) == of_kind(done_st, 0),
            entry_spans(entries@) == of_kind(done_st, 1),
        ensures
            trivia_end(s@, end as int) >= s@.len(),
            done_st == body_scan(s@, name_hi as int, true).0,
            done_err == body_scan(s@, name_hi as int, true).1,
            err_starts(errors@) == err_starts(old(errors)@) + done_err,
            meta_spans(meta@) == of_kind(done_st, 0),
            entry_spans(entries@) == of_kind(done_st, 1),
        decreases s@.len() - end,
    {
        let p = skip_trivia(s, end);
        if p >= s.len() {
            assert(body_scan(s@, end as int, true).0 =~= Seq::<(int, int, int)>::empty());
            assert(done_st + body_scan(s@, end as int, true).0 =~= done_st);
            assert(done_err + body_scan(s@, end as int, true).1 =~= done_err);
            break;
        }
        let ghost m0 = meta@;
        let ghost es0 = entries@;
        let ghost kind: int = if s@[p as int] == ':' { 0 } else { 1 };
        let res: Result<usize, usize> = if s[p] == ':' {
            match parse_meta(s, p) {
                Ok((m, e)) => {
                    meta.push(m);
                    Ok(e)
                },
                Err(x) => Err(x),
            }
        } else {
            match parse_menu_entry(s, p) {
                Ok((m, e)) => {
                    entries.push(m);
                    Ok(e)
                },
                Err(x) => Err(x),
            }
        };
        assert(menu_stmt(s@, p as int).0 == kind && menu_stmt(s@, p as int).1 == res_at(res));
        match res {
            Ok(e) => {
                proof {
                    let x = (kind, p as int, e as int);
                    assert(body_scan(s@, end as int, true).0 == seq![x] + body_scan(s@, e as int, true).0);
                    assert(body_scan(s@, end as int, true).1 == body_scan(s@, e as int, true).1);
                    assert(done_st.push(x) + body_scan(s@, e as int, true).0 =~= done_st + body_scan(s@, end as int, true).0);
                    assert(done_st.push(x).drop_last() =~= done_st);
                    if kind == 0 {
                        assert(meta_spans(meta@) =~= meta_spans(m0).push((p as int, e as int)));
                        assert(entries@ == es0);
                    } else {
                        assert(entry_spans(entries@) =~= entry_spans(es0).push((p as int, e as int)));
                        assert(meta@ == m0);
                    }
                    done_st = done_st.push(x);
                    if errors@.len() == old(errors)@.len() {
                        if meta@.len() > m0.len() {
                            assert(meta@[m0.len() as int].span.start_byte == p);
                        } else {
                            assert(entries@[es0.len() as int].span.start_byte == p);
                        }
                        lemma_menu_tiled_step(m0, es0, meta@, entries@, s@, name_hi as int, end as int, e as int);
                    }
                    lemma_menu_ends_le(m0, es0, end as int);
                    if meta@.len() > m0.len() {
                        assert(meta@.drop_last() =~= m0);
                    } else {
                        assert(entries@.drop_last() =~= es0);
                    }
                }
                end = e;
                last = e;
            },
            Err(x) => {
                let ghost e0 = errors@;
                errors.push(syntax_error(s, x));
                let n = next_line(s, p);
                proof {
                    assert(body_scan(s@, end as int, true).1 == seq![x as int] + body_scan(s@, n as int, true).1);
                    assert(body_scan(s@, end as int, true).0 == body_scan(s@, n as int, true).0);
                    assert(done_err.push(x as int) + body_scan(s@, n as int, true).1 =~= done_err + body_scan(s@, end as int, true).1);
                    assert(err_starts(errors@) =~= err_starts(e0).push(x as int));
                    assert(err_starts(old(errors)@) + done_err.push(x as int) =~= (err_starts(old(errors)@) + done_err).push(x as int));
                    done_err = done_err.push(x as int);
                    assert(meta@ == m0 && entries@ == es0);
                }
                end = n;
            },
        }
    }
    proof {
        reveal(menu_wf);
    }
    Menu {
        name: string_of(s, name_lo, name_hi),
        name_span: mk_span(s, name_lo, name_hi),
        meta,
        entries,
        span: mk_span(s, start, last),
    }
}

/// Parses the characters of a Swede file.
#[verifier::rlimit(30)]
pub fn lower_chars(s: &[char]) -> (r: Lowered)
    ensures
        lowered_wf(r, s@),
{
    let mut errors: Vec<SyntaxError> = Vec::new();
    if s.len() == usize::MAX {
        let mut message = String::new();
        push_str(&mut message, "input too large");
        errors.push(SyntaxError { message, span: Span::empty() });
        return Lowered { file: None, errors };
    }
    let p = skip_trivia(s, 0);
    let ke = ident_end(s, p);
    let is_recipe = is_word(s, p, ke, &['r', 'e', 'c', 'i', 'p', 'e']);
    let is_menu = is_word(s, p, ke, &['m', 'e', 'n', 'u']);
    if !is_recipe && !is_menu {
        errors.push(syntax_error(s, p));
        assert(err_starts(errors@) =~= seq![p as int]);
        return Lowered { file: None, errors };
    }
    let n = skip_trivia(s, ke);
    let ne = ident_end(s, n);
    if ne == n || n == ke {
        errors.push(syntax_error(s, n));
        assert(err_starts(errors@) =~= seq![n as int]);
    } else {
        assert(err_starts(errors@) =~= Seq::<int>::empty());
    }
    let file = if is_recipe {
        File::Recipe(parse_recipe_body(s, p, n, ne, &mut errors))
    } else {
        File::Menu(parse_menu_body(s, p, n, ne, &mut errors))
    };
    Lowered { file: Some(file), errors }
}

/// Parses Swede source into an AST plus any syntax errors.
pub fn lower(source: &str) -> (r: Lowered)
    ensures
        lowered_wf(r, source@),
{
    let cs = chars_of(source);
    lower_chars(cs.as_slice())
}

/// Parses Swede source, returning the AST (if any) and syntax errors.
pub fn parse(source: &str) -> (r: Lowered)
    ensures
        lowered_wf(r, source@),
{
    lower(source)
}

} // verus!
