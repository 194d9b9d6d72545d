//! Swede analysis for editors: offset to editor-position mapping,
//! diagnostics, document symbols, formatting edits and go-to-definition.
//! No server state, so it is usable in-process and testable directly.
//!
//! Offsets count characters of the text; an editor position is a line and
//! a UTF-16 code-unit offset within that line.

use vstd::prelude::*;
use crate::ast::{Expr, File, Span};
use crate::diagnostic::{Diagnostic, Severity};
use crate::parse::{Lowered, lowered_wf, parse};
use crate::text::{chars_of, push_char, push_str};
use crate::validate::{DiagView, file_diags, validate_source, views};

verus! {

/// A line and a UTF-16 offset within it.
#[derive(Debug, Clone, Copy, PartialEq, Eq)]
pub struct Position {
    pub line: u32,
    pub character: u32,
}

/// A range between two positions.
#[derive(Debug, Clone, Copy, PartialEq, Eq)]
pub struct Range {
    pub start: Position,
    pub end: Position,
}

/// The UTF-16 length of one character.
pub open spec fn utf16_width(c: char) -> int {
    if (c as u32) >= 0x10000 {
        2
    } else {
        1
    }
}

/// The UTF-16 length of a text.
pub open spec fn utf16_len(s: Seq<char>) -> int
    decreases s.len(),
{
    if s.len() == 0 {
        0
    } else {
        utf16_len(s.drop_last()) + utf16_width(s.last())
    }
}

/// The number of line breaks in a text.
pub open spec fn count_nl(s: Seq<char>) -> int
    decreases s.len(),
{
    if s.len() == 0 {
        0
    } else {
        count_nl(s.drop_last()) + if s.last() == '\n' {
            1int
        } else {
            0int
        }
    }
}

/// Where the line holding offset `p` begins (just past the last line break
/// before `p`).
pub open spec fn line_begin(s: Seq<char>, p: int) -> int
    decreases p,
{
    if p <= 0 {
        0
    } else if s[p - 1] == '\n' {
        p
    } else {
        line_begin(s, p - 1)
    }
}

/// The start of every line: 0, then one past each line break.
pub open spec fn starts(s: Seq<char>) -> Seq<usize>
    decreases s.len(),
{
    if s.len() == 0 {
        seq![0usize]
    } else if s.last() == '\n' {
        starts(s.drop_last()).push(s.len() as usize)
    } else {
        starts(s.drop_last())
    }
}

/// The editor position of offset `p` (past the end counts as the end).
pub open spec fn spec_position(s: Seq<char>, p: int) -> Position {
    let q = if p > s.len() {
        s.len() as int
    } else {
        p
    };
    Position {
        line: count_nl(s.take(q)) as u32,
        character: utf16_len(s.subrange(line_begin(s, q), q)) as u32,
    }
}

/// Walks a line from `i`, `u` UTF-16 units in, until the target column, a
/// line break or the end of the text.
pub open spec fn walk(s: Seq<char>, i: int, u: int, target: int) -> int
    decreases s.len() - i,
{
    if i < 0 || i >= s.len() || s[i] == '\n' || u >= target {
        i
    } else {
        walk(s, i + 1, u + utf16_width(s[i]), target)
    }
}

/// The offset of an editor position (the inverse of [`spec_position`]): a
/// line past the last is the end of the text, a column past the line's end
/// is the line's end.
pub open spec fn spec_offset(s: Seq<char>, pos: Position) -> int {
    let st = starts(s);
    if pos.line >= st.len() {
        s.len() as int
    } else {
        walk(s, st[pos.line as int] as int, 0, pos.character as int)
    }
}

/// Maps character offsets (what spans use) to editor positions.
pub struct PositionMapper {
    text: Vec<char>,
    line_starts: Vec<usize>,
}

impl PositionMapper {
    pub closed spec fn text(self) -> Seq<char> {
        self.text@
    }

    pub closed spec fn wf(self) -> bool {
        self.line_starts@ == starts(self.text@)
    }

    pub fn new(text: &str) -> (m: PositionMapper)
        ensures
            m.wf(),
            m.text() == text@,
            text@.len() <= usize::MAX,
    {
        let cs = chars_of(text);
        let mut ls: Vec<usize> = Vec::new();
        ls.push(0);
        let mut i: usize = 0;
        assert(cs@.take(0) =~= Seq::<char>::empty());
        while i < cs.len()
            invariant
                i <= cs@.len(),
                ls@ == starts(cs@.take(i as int)),
            decreases cs@.len() - i,
        {
            let ghost t = cs@.take(i + 1);
            assert(t.drop_last() =~= cs@.take(i as int));
            if cs[i] == '\n' {
                ls.push(i + 1);
            }
            i = i + 1;
        }
        assert(cs@.take(cs@.len() as int) =~= cs@);
        let n = cs.len();
        PositionMapper { text: cs, line_starts: ls }
    }

    /// The editor position of an offset.
    pub fn position(&self, offset: usize) -> (r: Position)
        ensures
            r == spec_position(self.text(), offset as int),
    {
        let s = &self.text;
        let q = if offset > s.len() {
            s.len()
        } else {
            offset
        };
        let mut line: u128 = 0;
        let mut begin: usize = 0;
        let mut i: usize = 0;
        while i < q
            invariant
                q <= s@.len(),
                i <= q,
                line == count_nl(s@.take(i as int)),
                line <= i,
                begin == line_begin(s@, i as int),
            decreases q - i,
        {
            assert(s@.take(i + 1).drop_last() =~= s@.take(i as int));
            if s[i] == '\n' {
                line = line + 1;
                begin = i + 1;
            }
            i = i + 1;
        }
        proof {
            lemma_line_begin_le(s@, q as int);
        }
        let mut units: u128 = 0;
        let mut j: usize = begin;
        while j < q
            invariant
                begin <= j <= q <= s@.len(),
                units == utf16_len(s@.subrange(begin as int, j as int)),
                units <= 2 * (j - begin),
            decreases q - j,
        {
            assert(s@.subrange(begin as int, j + 1).drop_last() =~= s@.subrange(begin as int, j as int));
            if (s[j] as u32) >= 0x10000 {
                units = units + 2;
            } else {
                units = units + 1;
            }
            j = j + 1;
        }
        Position { line: line as u32, character: units as u32 }
    }

    /// The editor range of `[start, end)`.
    pub fn range(&self, start: usize, end: usize) -> (r: Range)
        ensures
            r.start == spec_position(self.text(), start as int),
            r.end == spec_position(self.text(), end as int),
    {
        Range { start: self.position(start), end: self.position(end) }
    }

    /// The offset of an editor position (the inverse of
    /// [`PositionMapper::position`]).
    pub fn offset(&self, pos: Position) -> (r: usize)
        requires
            self.wf(),
        ensures
            r == spec_offset(self.text(), pos),
    {
        let line = pos.line as usize;
        if line >= self.line_starts.len() {
            return self.text.len();
        }
        let s = &self.text;
        let start = self.line_starts[line];
        proof {
            lemma_starts_in(s@);
        }
        let target = pos.character as u64;
        let mut u: u64 = 0;
        let mut i: usize = start;
        while i < s.len() && s[i] != '\n' && u < target
            invariant
                start <= i <= s@.len(),
                target <= u32::MAX,
                u <= target + 1,
                walk(s@, start as int, 0, target as int) == walk(s@, i as int, u as int, target as int),
            decreases s@.len() - i,
        {
            if (s[i] as u32) >= 0x10000 {
                u = u + 2;
            } else {
                u = u + 1;
            }
            i = i + 1;
        }
        i
    }
}

proof fn lemma_line_begin_le(s: Seq<char>, p: int)
    requires
        0 <= p <= s.len(),
    ensures
        0 <= line_begin(s, p) <= p,
    decreases p,
{
    if p > 0 && s[p - 1] != '\n' {
        lemma_line_begin_le(s, p - 1);
    }
}

/// Line starts lie within the text.
proof fn lemma_starts_in(s: Seq<char>)
    ensures
        forall|i: int| 0 <= i < starts(s).len() ==> (#[trigger] starts(s)[i]) <= s.len(),
    decreases s.len(),
{
    if s.len() > 0 {
        lemma_starts_in(s.drop_last());
        let prev = starts(s.drop_last());
        assert forall|i: int| 0 <= i < starts(s).len() implies (#[trigger] starts(s)[i]) <= s.len() by {
            if i < prev.len() {
                assert(starts(s)[i] == prev[i]);
            }
        }
    }
}

/// How a diagnostic reads in an editor.
#[derive(Debug)]
pub struct EditorDiagnostic {
    pub range: Range,
    pub severity: Severity,
    pub code: String,
    pub source: String,
    pub message: String,
}

/// A diagnostic as the editor shows it: its span (at least one character
/// wide) as a range, tagged with the `swede` source.
pub open spec fn editor_diag_is(e: EditorDiagnostic, d: DiagView, s: Seq<char>) -> bool {
    let end = if d.span.end_byte > d.span.start_byte + 1 {
        d.span.end_byte as int
    } else {
        d.span.start_byte + 1
    };
    &&& e.range.start == spec_position(s, d.span.start_byte as int)
    &&& e.range.end == spec_position(s, end)
    &&& e.severity == d.severity
    &&& e.code@ == d.code
    &&& e.source@ == "swede"@
    &&& e.message@ == d.message
}

/// Converts coded diagnostics for the editor.
pub fn editor_diagnostics(text: &str, ds: &Vec<Diagnostic>) -> (r: Vec<EditorDiagnostic>)
    ensures
        r@.len() == ds@.len(),
        forall|i: int| 0 <= i < ds@.len() ==> editor_diag_is(#[trigger] r@[i], ds@[i]@, text@),
{
    let mapper = PositionMapper::new(text);
    let ghost len = text@.len();
    let mut out: Vec<EditorDiagnostic> = Vec::new();
    let mut i: usize = 0;
    while i < ds.len()
        invariant
            mapper.text() == text@,
            text@.len() <= usize::MAX,
            i <= ds@.len(),
            out@.len() == i,
            forall|k: int| 0 <= k < i ==> editor_diag_is(#[trigger] out@[k], ds@[k]@, text@),
        decreases ds@.len() - i,
    {
        let d = &ds[i];
        let end = if d.span.end_byte > d.span.start_byte && d.span.end_byte - d.span.start_byte > 1 {
            d.span.end_byte
        } else if d.span.start_byte < usize::MAX {
            d.span.start_byte + 1
        } else {
            usize::MAX
        };
        let range = mapper.range(d.span.start_byte, end);
        let mut source = String::new();
        push_str(&mut source, "swede");
        out.push(
            EditorDiagnostic {
                range,
                severity: d.severity,
                code: d.code.clone(),
                source,
                message: d.message.clone(),
            },
        );
        proof {
            if d.span.start_byte as int == usize::MAX {
                // an offset this large is past any text: both ends map to the end
                assert(spec_position(text@, usize::MAX as int) == spec_position(text@, usize::MAX + 1));
            }
        }
        i = i + 1;
    }
    out
}

/// Coded diagnostics of a source, for the editor.
pub fn diagnostics(text: &str) -> (r: Vec<EditorDiagnostic>)
    ensures
        exists|l: Lowered|
            #![trigger lowered_wf(l, text@)]
            lowered_wf(l, text@) && r@.len() == file_diags(l).len() && forall|i: int|
                0 <= i < r@.len() ==> editor_diag_is(#[trigger] r@[i], file_diags(l)[i], text@),
{
    let ds = validate_source(text);
    editor_diagnostics(text, &ds)
}

/// A replacement of a range by new text.
#[derive(Debug)]
pub struct TextEdit {
    pub range: Range,
    pub new_text: String,
}

/// A single whole-document edit that replaces the file with its formatted
/// form; none when the file is already formatted (or has syntax errors).
pub fn formatting(text: &str) -> (r: Vec<TextEdit>)
    requires
        text@.len() < isize::MAX,
    ensures
        r@.len() <= 1,
        r@.len() == 1 ==> r@[0].range.start == (Position { line: 0, character: 0 })
            && r@[0].range.end == spec_position(text@, text@.len() as int)
            && r@[0].new_text@ != text@
            && crate::fmt::non_ws(r@[0].new_text@) == crate::fmt::non_ws(text@),
        forall|l: Lowered|
            #![trigger lowered_wf(l, text@)]
            lowered_wf(l, text@) && crate::fmt::passes_through(l) ==> r@.len() == 0,
        r@.len() == 0 <==> crate::fmt::format_text(text@) == text@,
        r@.len() == 1 ==> r@[0].new_text@ == crate::fmt::format_text(text@),
{
    let formatted = crate::fmt::format_source(text);
    assert forall|l: Lowered| lowered_wf(l, text@) && crate::fmt::passes_through(l) implies crate::fmt::format_text(
        text@,
    ) == text@ by {
        crate::fmt::lemma_format_pass(l, text@);
        crate::fmt::lemma_pass_fixed(text@);
    }
    if crate::text::str_eq(formatted.as_str(), text) {
        return Vec::new();
    }
    let mapper = PositionMapper::new(text);
    let cs = chars_of(text);
    let end = mapper.position(cs.len());
    let mut v: Vec<TextEdit> = Vec::new();
    v.push(TextEdit { range: Range { start: Position { line: 0, character: 0 }, end }, new_text: formatted });
    v
}

/// What an outline entry stands for.
#[derive(Debug, Clone, Copy, PartialEq, Eq)]
pub enum SymbolKind {
    Module,
    Constant,
    Variable,
}

/// An outline entry.
#[derive(Debug)]
pub struct DocumentSymbol {
    pub name: String,
    pub detail: Option<String>,
    pub kind: SymbolKind,
    pub range: Range,
    pub selection_range: Range,
    pub children: Option<Vec<DocumentSymbol>>,
}

/// The verb shown beside a node: the call's verb, `<+path>`, or `= name`
/// for a passthrough.
pub open spec fn spec_verb_of(e: Expr) -> Seq<char> {
    match e {
        Expr::Call(c) => c.verb@,
        Expr::SubRef(s) => crate::model::spec_sub_label(s.path@),
        Expr::NodeRef(r) => "= "@ + r.name@,
    }
}

pub fn verb_of(e: &Expr) -> (r: String)
    ensures
        r@ == spec_verb_of(*e),
{
    match e {
        Expr::Call(c) => c.verb.clone(),
        Expr::SubRef(s) => crate::model::sub_label(&s.path),
        Expr::NodeRef(r) => {
            let mut t = String::new();
            push_str(&mut t, "= ");
            t.append(r.name.as_str());
            t
        },
    }
}

pub open spec fn span_range(s: Seq<char>, sp: Span) -> Range {
    Range { start: spec_position(s, sp.start_byte as int), end: spec_position(s, sp.end_byte as int) }
}

pub open spec fn opt_view(o: Option<String>) -> Option<Seq<char>> {
    match o {
        Some(x) => Some(x@),
        None => None,
    }
}

/// Symbol `d` has the given name, detail, kind and ranges, and no children.
pub open spec fn leaf_symbol(d: DocumentSymbol, name: Seq<char>, detail: Option<Seq<char>>, kind: SymbolKind, range: Range, sel: Range) -> bool {
    &&& d.name@ == name
    &&& opt_view(d.detail) == detail
    &&& d.kind == kind
    &&& d.range == range
    &&& d.selection_range == sel
    &&& d.children is None
}

/// The outline entries of a recipe's bindings: one per output of each
/// binding, in order.
pub open spec fn binding_symbols(bs: Seq<crate::ast::Binding>, k: int) -> Seq<(Seq<char>, Seq<char>, Span, Span)>
    decreases k,
{
    if k <= 0 || k > bs.len() {
        Seq::empty()
    } else {
        let b = bs[k - 1];
        binding_symbols(bs, k - 1) + Seq::new(
            b.outputs@.len(),
            |i: int| (b.outputs@[i].name@, spec_verb_of(b.value), b.span, b.outputs@[i].span),
        )
    }
}

/// The outline of a parsed file: the recipe (its bases, then one entry per
/// binding output) or the menu (its entries), or nothing.
pub open spec fn outline_is(r: Seq<DocumentSymbol>, l: Lowered, s: Seq<char>) -> bool {
    match l.file {
        Some(File::Recipe(rec)) => {
            let bsyms = binding_symbols(rec.bindings@, rec.bindings@.len() as int);
            &&& r.len() == 1
            &&& r[0].name@ == rec.name@
            &&& opt_view(r[0].detail) == Some("recipe"@)
            &&& r[0].kind == SymbolKind::Module
            &&& r[0].range == span_range(s, rec.span)
            &&& r[0].selection_range == span_range(s, rec.name_span)
            &&& r[0].children matches Some(kids) && kids@.len() == rec.bases@.len() + bsyms.len() && (forall|i: int|
                0 <= i < rec.bases@.len() ==> leaf_symbol(
                    #[trigger] kids@[i],
                    rec.bases@[i].name@,
                    Some(rec.bases@[i].amount.spec_raw()),
                    SymbolKind::Constant,
                    span_range(s, rec.bases@[i].span),
                    span_range(s, rec.bases@[i].span),
                )) && (forall|i: int|
                0 <= i < bsyms.len() ==> leaf_symbol(
                    #[trigger] kids@[rec.bases@.len() + i],
                    bsyms[i].0,
                    Some(bsyms[i].1),
                    SymbolKind::Variable,
                    span_range(s, bsyms[i].2),
                    span_range(s, bsyms[i].3),
                ))
        },
        Some(File::Menu(m)) => {
            &&& r.len() == 1
            &&& r[0].name@ == m.name@
            &&& opt_view(r[0].detail) == Some("menu"@)
            &&& r[0].kind == SymbolKind::Module
            &&& r[0].range == span_range(s, m.span)
            &&& r[0].selection_range == span_range(s, m.name_span)
            &&& r[0].children matches Some(kids) && kids@.len() == m.entries@.len() && forall|i: int|
                0 <= i < m.entries@.len() ==> leaf_symbol(
                    #[trigger] kids@[i],
                    m.entries@[i].alias@,
                    None,
                    SymbolKind::Variable,
                    span_range(s, m.entries@[i].span),
                    span_range(s, m.entries@[i].span),
                )
        },
        None => r.len() == 0,
    }
}

// ─────────────── the outline does not depend on the parse picked ───────────────

proof fn lemma_join_path_views(p1: Seq<String>, p2: Seq<String>)
    requires
        crate::text::views(p1) == crate::text::views(p2),
    ensures
        crate::model::join_path(p1) == crate::model::join_path(p2),
    decreases p1.len(),
{
    assert(crate::text::views(p1).len() == p1.len());
    assert(crate::text::views(p2).len() == p2.len());
    if p1.len() > 0 {
        assert(crate::text::views(p1.drop_last()) =~= crate::text::views(p1).drop_last());
        assert(crate::text::views(p2.drop_last()) =~= crate::text::views(p2).drop_last());
        lemma_join_path_views(p1.drop_last(), p2.drop_last());
        assert(crate::text::views(p1)[p1.len() - 1] == crate::text::views(p2)[p1.len() - 1]);
        assert(crate::text::views(p1)[0] == crate::text::views(p2)[0]);
    }
}

proof fn lemma_output_bounds_prefix(o1: Seq<crate::ast::Output>, o2: Seq<crate::ast::Output>, s: Seq<char>, first: int, k: int)
    requires
        crate::parse::outputs_faithful(o1, s),
        crate::parse::outputs_faithful(o2, s),
        crate::parse::chained(crate::parse::output_bounds(o1, s), s, first, ','),
        crate::parse::chained(crate::parse::output_bounds(o2, s), s, first, ','),
        0 <= k <= o1.len(),
        k <= o2.len(),
    ensures
        forall|i: int| 0 <= i < k ==> #[trigger] crate::parse::output_bounds(o1, s)[i] == crate::parse::output_bounds(o2, s)[i]
            && o1[i].span.start_byte == o2[i].span.start_byte && o1[i].span.end_byte == o2[i].span.end_byte
            && o1[i].name@ == o2[i].name@,
    decreases k,
{
    if k > 0 {
        let i = k - 1;
        lemma_output_bounds_prefix(o1, o2, s, first, i);
        let b1 = crate::parse::output_bounds(o1, s);
        let b2 = crate::parse::output_bounds(o2, s);
        assert(b1.take(i) =~= b2.take(i));
        assert(b1[i].0 == crate::parse::next_start(b1.take(i), s, first));
        assert(b2[i].0 == crate::parse::next_start(b2.take(i), s, first));
        assert(crate::parse::output_faithful(o1[i], s));
        assert(crate::parse::output_faithful(o2[i], s));
        assert(o1[i].span.start_byte == o2[i].span.start_byte);
        assert(crate::parse::output_stop(o1[i], s) == crate::parse::output_stop(o2[i], s));
    }
}

#[verifier::rlimit(30)]
proof fn lemma_outputs_same(o1: Seq<crate::ast::Output>, o2: Seq<crate::ast::Output>, s: Seq<char>, first: int)
    requires
        crate::parse::outputs_faithful(o1, s),
        crate::parse::outputs_faithful(o2, s),
        o1.len() > 0,
        o2.len() > 0,
        crate::parse::chained(crate::parse::output_bounds(o1, s), s, first, ','),
        crate::parse::chained(crate::parse::output_bounds(o2, s), s, first, ','),
        crate::parse::trivia_end(s, crate::parse::output_bounds(o1, s).last().1) < s.len()
            && s[crate::parse::trivia_end(s, crate::parse::output_bounds(o1, s).last().1)] == '=',
        crate::parse::trivia_end(s, crate::parse::output_bounds(o2, s).last().1) < s.len()
            && s[crate::parse::trivia_end(s, crate::parse::output_bounds(o2, s).last().1)] == '=',
    ensures
        o1.len() == o2.len(),
        crate::parse::output_bounds(o1, s).last() == crate::parse::output_bounds(o2, s).last(),
        forall|i: int| 0 <= i < o1.len() ==> o1[i].span.start_byte == o2[i].span.start_byte
            && o1[i].span.end_byte == o2[i].span.end_byte && #[trigger] o1[i].name@ == o2[i].name@,
{
    let b1 = crate::parse::output_bounds(o1, s);
    let b2 = crate::parse::output_bounds(o2, s);
    assert(b1.len() == o1.len() && b2.len() == o2.len());
    lemma_same_len(o1, o2, s, first);
    lemma_output_bounds_prefix(o1, o2, s, first, o1.len() as int);
    assert(b1[o1.len() - 1] == b2[o1.len() - 1]);
    assert(b1.last() == b1[o1.len() - 1] && b2.last() == b2[o1.len() - 1]);
    assert forall|i: int| 0 <= i < o1.len() implies o1[i].span.start_byte == o2[i].span.start_byte
        && o1[i].span.end_byte == o2[i].span.end_byte && #[trigger] o1[i].name@ == o2[i].name@ by {
        assert(b1[i] == b2[i]);
    }
}

proof fn lemma_same_len(o1: Seq<crate::ast::Output>, o2: Seq<crate::ast::Output>, s: Seq<char>, first: int)
    requires
        crate::parse::outputs_faithful(o1, s),
        crate::parse::outputs_faithful(o2, s),
        o1.len() > 0,
        o2.len() > 0,
        crate::parse::chained(crate::parse::output_bounds(o1, s), s, first, ','),
        crate::parse::chained(crate::parse::output_bounds(o2, s), s, first, ','),
        crate::parse::trivia_end(s, crate::parse::output_bounds(o1, s).last().1) < s.len()
            && s[crate::parse::trivia_end(s, crate::parse::output_bounds(o1, s).last().1)] == '=',
        crate::parse::trivia_end(s, crate::parse::output_bounds(o2, s).last().1) < s.len()
            && s[crate::parse::trivia_end(s, crate::parse::output_bounds(o2, s).last().1)] == '=',
    ensures
        o1.len() == o2.len(),
{
    if o1.len() != o2.len() {
        lemma_shorter_chain(o1, o2, s, first);
        lemma_shorter_chain(o2, o1, s, first);
    }
}

proof fn lemma_shorter_chain(o1: Seq<crate::ast::Output>, o2: Seq<crate::ast::Output>, s: Seq<char>, first: int)
    requires
        crate::parse::outputs_faithful(o1, s),
        crate::parse::outputs_faithful(o2, s),
        o1.len() > 0,
        crate::parse::chained(crate::parse::output_bounds(o1, s), s, first, ','),
        crate::parse::chained(crate::parse::output_bounds(o2, s), s, first, ','),
        crate::parse::trivia_end(s, crate::parse::output_bounds(o1, s).last().1) < s.len()
            && s[crate::parse::trivia_end(s, crate::parse::output_bounds(o1, s).last().1)] == '=',
    ensures
        !(o1.len() < o2.len()),
{
    if o1.len() < o2.len() {
        let n = o1.len() as int;
        let b1 = crate::parse::output_bounds(o1, s);
        let b2 = crate::parse::output_bounds(o2, s);
        lemma_output_bounds_prefix(o1, o2, s, first, n);
        assert(b1[n - 1] == b2[n - 1]);
        assert(b1.last() == b1[n - 1]);
        let x = b2[n];
        assert(crate::parse::trivia_end(s, b2[n - 1].1) < s.len() && s[crate::parse::trivia_end(s, b2[n - 1].1)] == ',');
    }
}

/// A value's verb as the outline shows it is read off the text at the
/// value's start.
proof fn lemma_verb_by_start(x1: Expr, x2: Expr, s: Seq<char>)
    requires
        crate::parse::expr_faithful(x1, s),
        crate::parse::expr_faithful(x2, s),
        crate::parse::expr_start(x1) == crate::parse::expr_start(x2),
    ensures
        spec_verb_of(x1) == spec_verb_of(x2),
{
    let p = crate::parse::expr_start(x1);
    match x1 {
        Expr::SubRef(r1) => {
            match x2 {
                Expr::SubRef(r2) => {
                    lemma_join_path_views(r1.path@, r2.path@);
                },
                _ => {},
            }
        },
        _ => {},
    }
}

/// Two bindings that the parser's contract admits at one place agree on
/// their outputs and on their verb.
proof fn lemma_binding_same(b1: crate::ast::Binding, b2: crate::ast::Binding, s: Seq<char>)
    requires
        b1.span.start_byte == b2.span.start_byte,
        crate::parse::binding_layout(b1, s),
        crate::parse::binding_layout(b2, s),
        crate::parse::outputs_faithful(b1.outputs@, s),
        crate::parse::outputs_faithful(b2.outputs@, s),
        crate::parse::expr_faithful(b1.value, s),
        crate::parse::expr_faithful(b2.value, s),
    ensures
        b1.outputs@.len() == b2.outputs@.len(),
        forall|i: int| 0 <= i < b1.outputs@.len() ==> b1.outputs@[i].span.start_byte == b2.outputs@[i].span.start_byte
            && b1.outputs@[i].span.end_byte == b2.outputs@[i].span.end_byte && #[trigger] b1.outputs@[i].name@
            == b2.outputs@[i].name@,
        spec_verb_of(b1.value) == spec_verb_of(b2.value),
{
    lemma_outputs_same(b1.outputs@, b2.outputs@, s, b1.span.start_byte as int);
    lemma_verb_by_start(b1.value, b2.value, s);
}

pub open spec fn syms_match(x: Seq<(Seq<char>, Seq<char>, Span, Span)>, y: Seq<(Seq<char>, Seq<char>, Span, Span)>) -> bool {
    &&& x.len() == y.len()
    &&& forall|i: int|
        0 <= i < x.len() ==> (#[trigger] x[i]).0 == y[i].0 && x[i].1 == y[i].1 && x[i].2.start_byte == y[i].2.start_byte
            && x[i].2.end_byte == y[i].2.end_byte && x[i].3.start_byte == y[i].3.start_byte && x[i].3.end_byte
            == y[i].3.end_byte
}

/// The recipe-level facts of the parser's contract that the outline rests on.
pub open spec fn bindings_read(g: Seq<crate::ast::Binding>, s: Seq<char>) -> bool {
    forall|i: int|
        0 <= i < g.len() ==> crate::parse::binding_layout(#[trigger] g[i], s) && crate::parse::outputs_faithful(
            g[i].outputs@,
            s,
        ) && crate::parse::expr_faithful(g[i].value, s)
}

proof fn lemma_binding_symbols_match(g1: Seq<crate::ast::Binding>, g2: Seq<crate::ast::Binding>, s: Seq<char>, k: int)
    requires
        crate::parse::binding_spans(g1) == crate::parse::binding_spans(g2),
        bindings_read(g1, s),
        bindings_read(g2, s),
        0 <= k <= g1.len(),
    ensures
        syms_match(binding_symbols(g1, k), binding_symbols(g2, k)),
    decreases k,
{
    assert(crate::parse::binding_spans(g1).len() == g1.len());
    assert(crate::parse::binding_spans(g2).len() == g2.len());
    if k > 0 {
        lemma_binding_symbols_match(g1, g2, s, k - 1);
        let b1 = g1[k - 1];
        let b2 = g2[k - 1];
        assert(crate::parse::binding_spans(g1)[k - 1] == crate::parse::binding_spans(g2)[k - 1]);
        assert(b1.span.start_byte == b2.span.start_byte && b1.span.end_byte == b2.span.end_byte);
        lemma_binding_same(b1, b2, s);
        let x = binding_symbols(g1, k);
        let y = binding_symbols(g2, k);
        let x0 = binding_symbols(g1, k - 1);
        let y0 = binding_symbols(g2, k - 1);
        assert forall|i: int| 0 <= i < x.len() implies (#[trigger] x[i]).0 == y[i].0 && x[i].1 == y[i].1
            && x[i].2.start_byte == y[i].2.start_byte && x[i].2.end_byte == y[i].2.end_byte && x[i].3.start_byte
            == y[i].3.start_byte && x[i].3.end_byte == y[i].3.end_byte by {
            if i < x0.len() {
                assert(x[i] == x0[i]);
                assert(y[i] == y0[i]);
            } else {
                let j = i - x0.len();
                assert(x[i] == (b1.outputs@[j].name@, spec_verb_of(b1.value), b1.span, b1.outputs@[j].span));
                assert(y[i] == (b2.outputs@[j].name@, spec_verb_of(b2.value), b2.span, b2.outputs@[j].span));
            }
        }
    }
}

proof fn lemma_metas_end_by_spans(m1: Seq<crate::ast::Meta>, m2: Seq<crate::ast::Meta>)
    requires
        crate::parse::meta_spans(m1) == crate::parse::meta_spans(m2),
    ensures
        crate::parse::metas_end(m1) == crate::parse::metas_end(m2),
    decreases m1.len(),
{
    assert(crate::parse::meta_spans(m1).len() == m1.len());
    assert(crate::parse::meta_spans(m2).len() == m2.len());
    if m1.len() > 0 {
        assert(crate::parse::meta_spans(m1.drop_last()) =~= crate::parse::meta_spans(m1).drop_last());
        assert(crate::parse::meta_spans(m2.drop_last()) =~= crate::parse::meta_spans(m2).drop_last());
        lemma_metas_end_by_spans(m1.drop_last(), m2.drop_last());
        assert(crate::parse::meta_spans(m1)[m1.len() - 1] == crate::parse::meta_spans(m2)[m1.len() - 1]);
    }
}

proof fn lemma_bases_end_by_spans(m1: Seq<crate::ast::Basis>, m2: Seq<crate::ast::Basis>)
    requires
        crate::parse::basis_spans(m1) == crate::parse::basis_spans(m2),
    ensures
        crate::parse::bases_end(m1) == crate::parse::bases_end(m2),
    decreases m1.len(),
{
    assert(crate::parse::basis_spans(m1).len() == m1.len());
    assert(crate::parse::basis_spans(m2).len() == m2.len());
    if m1.len() > 0 {
        assert(crate::parse::basis_spans(m1.drop_last()) =~= crate::parse::basis_spans(m1).drop_last());
        assert(crate::parse::basis_spans(m2.drop_last()) =~= crate::parse::basis_spans(m2).drop_last());
        lemma_bases_end_by_spans(m1.drop_last(), m2.drop_last());
        assert(crate::parse::basis_spans(m1)[m1.len() - 1] == crate::parse::basis_spans(m2)[m1.len() - 1]);
    }
}

proof fn lemma_bindings_end_by_spans(m1: Seq<crate::ast::Binding>, m2: Seq<crate::ast::Binding>)
    requires
        crate::parse::binding_spans(m1) == crate::parse::binding_spans(m2),
    ensures
        crate::parse::bindings_end(m1) == crate::parse::bindings_end(m2),
    decreases m1.len(),
{
    assert(crate::parse::binding_spans(m1).len() == m1.len());
    assert(crate::parse::binding_spans(m2).len() == m2.len());
    if m1.len() > 0 {
        assert(crate::parse::binding_spans(m1.drop_last()) =~= crate::parse::binding_spans(m1).drop_last());
        assert(crate::parse::binding_spans(m2.drop_last()) =~= crate::parse::binding_spans(m2).drop_last());
        lemma_bindings_end_by_spans(m1.drop_last(), m2.drop_last());
        assert(crate::parse::binding_spans(m1)[m1.len() - 1] == crate::parse::binding_spans(m2)[m1.len() - 1]);
    }
}

proof fn lemma_entries_end_by_spans(m1: Seq<crate::ast::MenuEntry>, m2: Seq<crate::ast::MenuEntry>)
    requires
        crate::parse::entry_spans(m1) == crate::parse::entry_spans(m2),
    ensures
        crate::parse::entries_end(m1) == crate::parse::entries_end(m2),
    decreases m1.len(),
{
    assert(crate::parse::entry_spans(m1).len() == m1.len());
    assert(crate::parse::entry_spans(m2).len() == m2.len());
    if m1.len() > 0 {
        assert(crate::parse::entry_spans(m1.drop_last()) =~= crate::parse::entry_spans(m1).drop_last());
        assert(crate::parse::entry_spans(m2.drop_last()) =~= crate::parse::entry_spans(m2).drop_last());
        lemma_entries_end_by_spans(m1.drop_last(), m2.drop_last());
        assert(crate::parse::entry_spans(m1)[m1.len() - 1] == crate::parse::entry_spans(m2)[m1.len() - 1]);
    }
}

/// Every parse that the parser's contract admits for a text gives it the
/// same outline: an outline of one admitted parse is the outline of every
/// other.
pub proof fn law_outline_is_determined(r: Seq<DocumentSymbol>, l1: Lowered, l2: Lowered, s: Seq<char>)
    requires
        lowered_wf(l1, s),
        lowered_wf(l2, s),
        outline_is(r, l1, s),
    ensures
        outline_is(r, l2, s),
{
    if s.len() < usize::MAX {
        crate::parse::law_parse_is_determined(l1, l2, s);
        reveal(crate::parse::recipe_wf);
        reveal(crate::parse::menu_wf);
        match l1.file {
            Some(File::Recipe(r1)) => {
                let r2 = l2.file->Some_0->Recipe_0;
                assert(crate::parse::recipe_wf(r1, s));
                assert(crate::parse::recipe_wf(r2, s));
                lemma_metas_end_by_spans(r1.meta@, r2.meta@);
                lemma_bases_end_by_spans(r1.bases@, r2.bases@);
                lemma_bindings_end_by_spans(r1.bindings@, r2.bindings@);
                assert(r1.span.end_byte == r2.span.end_byte);
                assert(bindings_read(r1.bindings@, s));
                assert(bindings_read(r2.bindings@, s));
                lemma_binding_symbols_match(r1.bindings@, r2.bindings@, s, r1.bindings@.len() as int);
                assert(crate::parse::binding_spans(r1.bindings@).len() == r1.bindings@.len());
                assert(crate::parse::binding_spans(r2.bindings@).len() == r2.bindings@.len());
                assert(crate::parse::basis_spans(r1.bases@).len() == r1.bases@.len());
                assert(crate::parse::basis_spans(r2.bases@).len() == r2.bases@.len());
                let b1 = binding_symbols(r1.bindings@, r1.bindings@.len() as int);
                let b2 = binding_symbols(r2.bindings@, r2.bindings@.len() as int);
                let kids = r[0].children->Some_0;
                assert forall|i: int| 0 <= i < r2.bases@.len() implies leaf_symbol(
                    #[trigger] kids@[i],
                    r2.bases@[i].name@,
                    Some(r2.bases@[i].amount.spec_raw()),
                    SymbolKind::Constant,
                    span_range(s, r2.bases@[i].span),
                    span_range(s, r2.bases@[i].span),
                ) by {
                    assert(crate::parse::basis_spans(r1.bases@)[i] == crate::parse::basis_spans(r2.bases@)[i]);
                    assert(crate::parse::basis_faithful(r1.bases@[i], s));
                    assert(crate::parse::basis_faithful(r2.bases@[i], s));
                    assert(r1.bases@[i].amount.spec_raw() == r2.bases@[i].amount.spec_raw());
                    assert(leaf_symbol(
                        kids@[i],
                        r1.bases@[i].name@,
                        Some(r1.bases@[i].amount.spec_raw()),
                        SymbolKind::Constant,
                        span_range(s, r1.bases@[i].span),
                        span_range(s, r1.bases@[i].span),
                    ));
                }
                assert forall|i: int| 0 <= i < b2.len() implies leaf_symbol(
                    #[trigger] kids@[r2.bases@.len() + i],
                    b2[i].0,
                    Some(b2[i].1),
                    SymbolKind::Variable,
                    span_range(s, b2[i].2),
                    span_range(s, b2[i].3),
                ) by {
                    assert(leaf_symbol(
                        kids@[r1.bases@.len() + i],
                        b1[i].0,
                        Some(b1[i].1),
                        SymbolKind::Variable,
                        span_range(s, b1[i].2),
                        span_range(s, b1[i].3),
                    ));
                }
            },
            Some(File::Menu(m1)) => {
                let m2 = l2.file->Some_0->Menu_0;
                assert(crate::parse::menu_wf(m1, s));
                assert(crate::parse::menu_wf(m2, s));
                lemma_metas_end_by_spans(m1.meta@, m2.meta@);
                lemma_entries_end_by_spans(m1.entries@, m2.entries@);
                assert(m1.span.end_byte == m2.span.end_byte);
                assert(crate::parse::entry_spans(m1.entries@).len() == m1.entries@.len());
                assert(crate::parse::entry_spans(m2.entries@).len() == m2.entries@.len());
                let kids = r[0].children->Some_0;
                assert forall|i: int| 0 <= i < m2.entries@.len() implies leaf_symbol(
                    #[trigger] kids@[i],
                    m2.entries@[i].alias@,
                    None,
                    SymbolKind::Variable,
                    span_range(s, m2.entries@[i].span),
                    span_range(s, m2.entries@[i].span),
                ) by {
                    assert(crate::parse::entry_spans(m1.entries@)[i] == crate::parse::entry_spans(m2.entries@)[i]);
                    assert(crate::parse::entry_faithful(m1.entries@[i], s));
                    assert(crate::parse::entry_faithful(m2.entries@[i], s));
                    assert(leaf_symbol(
                        kids@[i],
                        m1.entries@[i].alias@,
                        None,
                        SymbolKind::Variable,
                        span_range(s, m1.entries@[i].span),
                        span_range(s, m1.entries@[i].span),
                    ));
                }
            },
            None => {},
        }
    }
}

fn mk_symbol(name: String, detail: Option<String>, kind: SymbolKind, range: Range, sel: Range) -> (d: DocumentSymbol)
    ensures
        leaf_symbol(d, name@, opt_view(detail), kind, range, sel),
{
    DocumentSymbol { name, detail, kind, range, selection_range: sel, children: None }
}

/// The outline of a parsed file.
pub fn symbols_of(text: &str, l: &Lowered) -> (r: Vec<DocumentSymbol>)
    ensures
        outline_is(r@, *l, text@),
{
    let mapper = PositionMapper::new(text);
    match &l.file {
        Some(File::Recipe(rec)) => {
            let mut kids: Vec<DocumentSymbol> = Vec::new();
            let mut i: usize = 0;
            while i < rec.bases.len()
                invariant
                    mapper.text() == text@,
                    i <= rec.bases@.len(),
                    kids@.len() == i,
                    forall|k: int|
                        0 <= k < i ==> leaf_symbol(
                            #[trigger] kids@[k],
                            rec.bases@[k].name@,
                            Some(rec.bases@[k].amount.spec_raw()),
                            SymbolKind::Constant,
                            span_range(text@, rec.bases@[k].span),
                            span_range(text@, rec.bases@[k].span),
                        ),
                decreases rec.bases@.len() - i,
            {
                let b = &rec.bases[i];
                let rg = mapper.range(b.span.start_byte, b.span.end_byte);
                kids.push(mk_symbol(b.name.clone(), Some(b.amount.raw()), SymbolKind::Constant, rg, rg));
                i = i + 1;
            }
            let nb = rec.bases.len();
            let mut j: usize = 0;
            while j < rec.bindings.len()
                invariant
                    mapper.text() == text@,
                    nb == rec.bases@.len(),
                    j <= rec.bindings@.len(),
                    kids@.len() == nb + binding_symbols(rec.bindings@, j as int).len(),
                    forall|k: int|
                        0 <= k < nb ==> leaf_symbol(
                            #[trigger] kids@[k],
                            rec.bases@[k].name@,
                            Some(rec.bases@[k].amount.spec_raw()),
                            SymbolKind::Constant,
                            span_range(text@, rec.bases@[k].span),
                            span_range(text@, rec.bases@[k].span),
                        ),
                    forall|k: int|
                        0 <= k < binding_symbols(rec.bindings@, j as int).len() ==> leaf_symbol(
                            #[trigger] kids@[nb + k],
                            binding_symbols(rec.bindings@, j as int)[k].0,
                            Some(binding_symbols(rec.bindings@, j as int)[k].1),
                            SymbolKind::Variable,
                            span_range(text@, binding_symbols(rec.bindings@, j as int)[k].2),
                            span_range(text@, binding_symbols(rec.bindings@, j as int)[k].3),
                        ),
                decreases rec.bindings@.len() - j,
            {
                let b = &rec.bindings[j];
                let detail = verb_of(&b.value);
                let ghost prev = binding_symbols(rec.bindings@, j as int);
                let ghost next = binding_symbols(rec.bindings@, j + 1);
                assert(next == prev + Seq::new(
                    b.outputs@.len(),
                    |i: int| (b.outputs@[i].name@, spec_verb_of(b.value), b.span, b.outputs@[i].span),
                ));
                let ghost k0 = kids@;
                let mut o: usize = 0;
                while o < b.outputs.len()
                    invariant
                        mapper.text() == text@,
                        nb == rec.bases@.len(),
                        o <= b.outputs@.len(),
                        detail@ == spec_verb_of(b.value),
                        kids@.len() == nb + prev.len() + o,
                        forall|k: int| 0 <= k < nb + prev.len() ==> #[trigger] kids@[k] == k0[k],
                        forall|k: int|
                            0 <= k < o ==> leaf_symbol(
                                #[trigger] kids@[nb + prev.len() + k],
                                b.outputs@[k].name@,
                                Some(spec_verb_of(b.value)),
                                SymbolKind::Variable,
                                span_range(text@, b.span),
                                span_range(text@, b.outputs@[k].span),
                            ),
                    decreases b.outputs@.len() - o,
                {
                    let out = &b.outputs[o];
                    let rg = mapper.range(b.span.start_byte, b.span.end_byte);
                    let sel = mapper.range(out.span.start_byte, out.span.end_byte);
                    kids.push(mk_symbol(out.name.clone(), Some(detail.clone()), SymbolKind::Variable, rg, sel));
                    o = o + 1;
                }
                assert forall|k: int| 0 <= k < next.len() implies leaf_symbol(
                    #[trigger] kids@[nb + k],
                    next[k].0,
                    Some(next[k].1),
                    SymbolKind::Variable,
                    span_range(text@, next[k].2),
                    span_range(text@, next[k].3),
                ) by {
                    if k < prev.len() {
                        assert(kids@[nb + k] == k0[nb + k]);
                    } else {
                        assert(next[k] == (b.outputs@[k - prev.len()].name@, spec_verb_of(b.value), b.span, b.outputs@[k - prev.len()].span));
                        assert(kids@[nb + k] == kids@[nb + prev.len() + (k - prev.len())]);
                    }
                }
                assert forall|k: int| 0 <= k < nb implies leaf_symbol(
                    #[trigger] kids@[k],
                    rec.bases@[k].name@,
                    Some(rec.bases@[k].amount.spec_raw()),
                    SymbolKind::Constant,
                    span_range(text@, rec.bases@[k].span),
                    span_range(text@, rec.bases@[k].span),
                ) by {
                    assert(kids@[k] == k0[k]);
                }
                j = j + 1;
            }
            let mut detail = String::new();
            push_str(&mut detail, "recipe");
            let mut root = mk_symbol(
                rec.name.clone(),
                Some(detail),
                SymbolKind::Module,
                mapper.range(rec.span.start_byte, rec.span.end_byte),
                mapper.range(rec.name_span.start_byte, rec.name_span.end_byte),
            );
            root.children = Some(kids);
            let mut v: Vec<DocumentSymbol> = Vec::new();
            v.push(root);
            v
        },
        Some(File::Menu(m)) => {
            let mut kids: Vec<DocumentSymbol> = Vec::new();
            let mut i: usize = 0;
            while i < m.entries.len()
                invariant
                    mapper.text() == text@,
                    i <= m.entries@.len(),
                    kids@.len() == i,
                    forall|k: int|
                        0 <= k < i ==> leaf_symbol(
                            #[trigger] kids@[k],
                            m.entries@[k].alias@,
                            None,
                            SymbolKind::Variable,
                            span_range(text@, m.entries@[k].span),
                            span_range(text@, m.entries@[k].span),
                        ),
                decreases m.entries@.len() - i,
            {
                let e = &m.entries[i];
                let rg = mapper.range(e.span.start_byte, e.span.end_byte);
                kids.push(mk_symbol(e.alias.clone(), None, SymbolKind::Variable, rg, rg));
                i = i + 1;
            }
            let mut detail = String::new();
            push_str(&mut detail, "menu");
            let mut root = mk_symbol(
                m.name.clone(),
                Some(detail),
                SymbolKind::Module,
                mapper.range(m.span.start_byte, m.span.end_byte),
                mapper.range(m.name_span.start_byte, m.name_span.end_byte),
            );
            root.children = Some(kids);
            let mut v: Vec<DocumentSymbol> = Vec::new();
            v.push(root);
            v
        },
        None => Vec::new(),
    }
}

/// The recipe or menu, its bases, and its named nodes, for the outline
/// panel.
pub fn document_symbols(text: &str) -> (r: Vec<DocumentSymbol>)
    ensures
        forall|l: Lowered| #![trigger lowered_wf(l, text@)] lowered_wf(l, text@) ==> outline_is(r@, l, text@),
{
    let l = parse(text);
    let r = symbols_of(text, &l);
    assert forall|l2: Lowered| #![trigger lowered_wf(l2, text@)] lowered_wf(l2, text@) implies outline_is(r@, l2, text@) by {
        law_outline_is_determined(r@, l, l2, text@);
    }
    r
}

/// The node references of the first `k` bindings' values, in order.
pub open spec fn all_refs(bs: Seq<crate::ast::Binding>, k: int) -> Seq<crate::ast::NodeRef>
    decreases k,
{
    if k <= 0 || k > bs.len() {
        Seq::empty()
    } else {
        all_refs(bs, k - 1) + crate::uses::expr_refs(bs[k - 1].value)
    }
}

/// The first reference whose span covers offset `p` (ends included).
pub open spec fn ref_at(refs: Seq<crate::ast::NodeRef>, p: int, k: int) -> Option<crate::ast::NodeRef>
    decreases k,
{
    if k <= 0 || k > refs.len() {
        None
    } else {
        match ref_at(refs, p, k - 1) {
            Some(r) => Some(r),
            None => if refs[k - 1].span.start_byte <= p <= refs[k - 1].span.end_byte {
                Some(refs[k - 1])
            } else {
                None
            },
        }
    }
}

/// The span of the first output named `name` among the first `k` bindings.
pub open spec fn output_named(bs: Seq<crate::ast::Binding>, name: Seq<char>, k: int) -> Option<Span>
    decreases k,
{
    if k <= 0 || k > bs.len() {
        None
    } else {
        match output_named(bs, name, k - 1) {
            Some(sp) => Some(sp),
            None => first_output(bs[k - 1].outputs@, name, bs[k - 1].outputs@.len() as int),
        }
    }
}

pub open spec fn first_output(os: Seq<crate::ast::Output>, name: Seq<char>, k: int) -> Option<Span>
    decreases k,
{
    if k <= 0 || k > os.len() {
        None
    } else {
        match first_output(os, name, k - 1) {
            Some(sp) => Some(sp),
            None => if os[k - 1].name@ == name {
                Some(os[k - 1].span)
            } else {
                None
            },
        }
    }
}

/// Where go-to-definition leads from `pos`: the output that binds the node
/// reference under the cursor.
pub open spec fn spec_definition(l: Lowered, s: Seq<char>, pos: Position) -> Option<Range> {
    match l.file {
        Some(File::Recipe(r)) => match ref_at(
            all_refs(r.bindings@, r.bindings@.len() as int),
            spec_offset(s, pos),
            all_refs(r.bindings@, r.bindings@.len() as int).len() as int,
        ) {
            Some(t) => match output_named(r.bindings@, t.name@, r.bindings@.len() as int) {
                Some(sp) => Some(span_range(s, sp)),
                None => None,
            },
            None => None,
        },
        _ => None,
    }
}

/// Go-to-definition in a parsed file.
pub fn definition_in(text: &str, l: &Lowered, pos: Position) -> (r: Option<Range>)
    ensures
        r == spec_definition(*l, text@, pos),
{
    let mapper = PositionMapper::new(text);
    let p = mapper.offset(pos);
    let rec = match &l.file {
        Some(File::Recipe(rec)) => rec,
        _ => {
            return None;
        },
    };
    let ghost refs = all_refs(rec.bindings@, rec.bindings@.len() as int);
    // the reference under the cursor
    let mut found: Option<&crate::ast::NodeRef> = None;
    let ghost seen: Seq<crate::ast::NodeRef> = Seq::empty();
    let mut i: usize = 0;
    while i < rec.bindings.len()
        invariant
            i <= rec.bindings@.len(),
            refs == all_refs(rec.bindings@, rec.bindings@.len() as int),
            seen == all_refs(rec.bindings@, i as int),
            match found {
                Some(t) => ref_at(seen, p as int, seen.len() as int) == Some(*t),
                None => ref_at(seen, p as int, seen.len() as int) is None,
            },
        decreases rec.bindings@.len() - i,
    {
        let rs = crate::uses::collect_refs(&rec.bindings[i].value);
        let ghost before = seen;
        let mut k: usize = 0;
        while k < rs.len()
            invariant
                k <= rs@.len(),
                crate::uses::derefs(rs@) == crate::uses::expr_refs(rec.bindings@[i as int].value),
                seen == before + crate::uses::derefs(rs@).take(k as int),
                match found {
                    Some(t) => ref_at(seen, p as int, seen.len() as int) == Some(*t),
                    None => ref_at(seen, p as int, seen.len() as int) is None,
                },
            decreases rs@.len() - k,
        {
            let rf = rs[k];
            proof {
                let next = before + crate::uses::derefs(rs@).take(k + 1);
                assert(next.drop_last() =~= seen);
                assert(next.last() == *rf);
                lemma_ref_at_prefix(next, p as int, seen.len() as int);
                seen = next;
            }
            if found.is_none() && rf.span.start_byte <= p && p <= rf.span.end_byte {
                found = Some(rf);
            }
            k = k + 1;
        }
        proof {
            assert(crate::uses::derefs(rs@).take(rs@.len() as int) =~= crate::uses::derefs(rs@));
        }
        i = i + 1;
    }
    let target = match found {
        Some(t) => t,
        None => {
            return None;
        },
    };
    // the output that binds it
    assert(spec_definition(*l, text@, pos) == match output_named(rec.bindings@, target.name@, rec.bindings@.len() as int) {
        Some(sp) => Some(span_range(text@, sp)),
        None => None,
    });
    let mut j: usize = 0;
    while j < rec.bindings.len()
        invariant
            j <= rec.bindings@.len(),
            mapper.text() == text@,
            output_named(rec.bindings@, target.name@, j as int) is None,
            spec_definition(*l, text@, pos) == match output_named(rec.bindings@, target.name@, rec.bindings@.len() as int) {
                Some(sp) => Some(span_range(text@, sp)),
                None => None,
            },
        decreases rec.bindings@.len() - j,
    {
        let b = &rec.bindings[j];
        let mut o: usize = 0;
        while o < b.outputs.len()
            invariant
                j < rec.bindings@.len(),
                *b == rec.bindings@[j as int],
                mapper.text() == text@,
                output_named(rec.bindings@, target.name@, j as int) is None,
                spec_definition(*l, text@, pos) == match output_named(rec.bindings@, target.name@, rec.bindings@.len() as int) {
                    Some(sp) => Some(span_range(text@, sp)),
                    None => None,
                },
                o <= b.outputs@.len(),
                first_output(b.outputs@, target.name@, o as int) is None,
            decreases b.outputs@.len() - o,
        {
            if b.outputs[o].name == target.name {
                let sp = b.outputs[o].span;
                let r = mapper.range(sp.start_byte, sp.end_byte);
                proof {
                    assert(first_output(b.outputs@, target.name@, o + 1) == Some(sp));
                    lemma_first_output_stays(b.outputs@, target.name@, o + 1);
                    lemma_output_named_stays(rec.bindings@, target.name@, j + 1);
                }
                return Some(r);
            }
            o = o + 1;
        }
        assert(first_output(b.outputs@, target.name@, b.outputs@.len() as int) is None);
        j = j + 1;
    }
    None
}

/// Once a reference is found, later ones do not change it.
proof fn lemma_ref_at_prefix(refs: Seq<crate::ast::NodeRef>, p: int, k: int)
    requires
        0 <= k < refs.len(),
    ensures
        ref_at(refs, p, k + 1) == match ref_at(refs.take(k), p, k) {
            Some(r) => Some(r),
            None => if refs[k].span.start_byte <= p <= refs[k].span.end_byte {
                Some(refs[k])
            } else {
                None
            },
        },
        ref_at(refs, p, k) == ref_at(refs.take(k), p, k),
    decreases k,
{
    lemma_ref_at_take(refs, p, k);
}

proof fn lemma_ref_at_take(refs: Seq<crate::ast::NodeRef>, p: int, k: int)
    requires
        0 <= k <= refs.len(),
    ensures
        ref_at(refs, p, k) == ref_at(refs.take(k), p, k),
    decreases k,
{
    if k > 0 {
        lemma_ref_at_take(refs, p, k - 1);
        lemma_ref_at_take(refs.take(k), p, k - 1);
        assert(refs.take(k).take(k - 1) =~= refs.take(k - 1));
    }
}

proof fn lemma_first_output_stays(os: Seq<crate::ast::Output>, name: Seq<char>, k: int)
    requires
        0 <= k <= os.len(),
        first_output(os, name, k) is Some,
    ensures
        first_output(os, name, os.len() as int) == first_output(os, name, k),
    decreases os.len() - k,
{
    if k < os.len() {
        lemma_first_output_stays(os, name, k + 1);
    }
}

proof fn lemma_output_named_stays(bs: Seq<crate::ast::Binding>, name: Seq<char>, k: int)
    requires
        0 <= k <= bs.len(),
        output_named(bs, name, k) is Some,
    ensures
        output_named(bs, name, bs.len() as int) == output_named(bs, name, k),
    decreases bs.len() - k,
{
    if k < bs.len() {
        lemma_output_named_stays(bs, name, k + 1);
    }
}

/// Jump from a node reference to the binding that produces it: the range of
/// the defining output, if the cursor is on a reference that has one.
pub fn definition(text: &str, pos: Position) -> (r: Option<Range>)
    ensures
        exists|l: Lowered| #![trigger lowered_wf(l, text@)] lowered_wf(l, text@) && r == spec_definition(l, text@, pos),
{
    let l = parse(text);
    definition_in(text, &l, pos)
}

proof fn lemma_starts_len(s: Seq<char>)
    ensures
        starts(s).len() == count_nl(s) + 1,
    decreases s.len(),
{
    if s.len() > 0 {
        lemma_starts_len(s.drop_last());
    }
}

/// The line starts of a prefix are a prefix of the line starts.
proof fn lemma_starts_prefix(s: Seq<char>, q: int)
    requires
        0 <= q <= s.len(),
    ensures
        starts(s.take(q)).len() <= starts(s).len(),
        forall|i: int| 0 <= i < starts(s.take(q)).len() ==> #[trigger] starts(s)[i] == starts(s.take(q))[i],
    decreases s.len() - q,
{
    if q == s.len() {
        assert(s.take(q) =~= s);
    } else {
        lemma_starts_prefix(s, q + 1);
        let t = s.take(q + 1);
        assert(t.drop_last() =~= s.take(q));
        let a = starts(s.take(q));
        assert forall|i: int| 0 <= i < a.len() implies #[trigger] starts(s)[i] == a[i] by {
            assert(starts(t)[i] == a[i]);
        }
    }
}

/// The last line start of a text is where its last line begins.
proof fn lemma_starts_last(s: Seq<char>)
    requires
        s.len() <= usize::MAX,
    ensures
        starts(s).len() >= 1,
        starts(s).last() as int == line_begin(s, s.len() as int),
    decreases s.len(),
{
    if s.len() > 0 {
        lemma_starts_last(s.drop_last());
        if s.last() != '\n' {
            lemma_line_begin_prefix(s, s.len() - 1);
        }
    }
}

/// `line_begin` only looks before `p`.
proof fn lemma_line_begin_prefix(s: Seq<char>, p: int)
    requires
        0 <= p < s.len(),
    ensures
        line_begin(s.drop_last(), p) == line_begin(s, p),
    decreases p,
{
    if p > 0 && s[p - 1] != '\n' {
        lemma_line_begin_prefix(s, p - 1);
    }
}

proof fn lemma_line_begin_take(s: Seq<char>, p: int)
    requires
        0 <= p <= s.len(),
    ensures
        line_begin(s.take(p), p) == line_begin(s, p),
    decreases p,
{
    if p > 0 && s[p - 1] != '\n' {
        lemma_line_begin_take_at(s, p, p - 1);
    }
}

proof fn lemma_line_begin_take_at(s: Seq<char>, p: int, q: int)
    requires
        0 <= q <= p <= s.len(),
    ensures
        line_begin(s.take(p), q) == line_begin(s, q),
    decreases q,
{
    if q > 0 {
        assert(s.take(p)[q - 1] == s[q - 1]);
        if s[q - 1] != '\n' {
            lemma_line_begin_take_at(s, p, q - 1);
        }
    }
}

/// No line break between where a line begins and `p`.
proof fn lemma_line_begin_no_nl(s: Seq<char>, p: int)
    requires
        0 <= p <= s.len(),
    ensures
        0 <= line_begin(s, p) <= p,
        forall|i: int| line_begin(s, p) <= i < p ==> s[i] != '\n',
    decreases p,
{
    if p > 0 && s[p - 1] != '\n' {
        lemma_line_begin_no_nl(s, p - 1);
    }
}

proof fn lemma_utf16_step(s: Seq<char>, b: int, i: int)
    requires
        0 <= b <= i < s.len(),
    ensures
        utf16_len(s.subrange(b, i + 1)) == utf16_len(s.subrange(b, i)) + utf16_width(s[i]),
        utf16_width(s[i]) >= 1,
{
    assert(s.subrange(b, i + 1).drop_last() =~= s.subrange(b, i));
}

proof fn lemma_utf16_mono(s: Seq<char>, b: int, i: int, p: int)
    requires
        0 <= b <= i < p <= s.len(),
    ensures
        utf16_len(s.subrange(b, i)) < utf16_len(s.subrange(b, p)),
    decreases p - i,
{
    lemma_utf16_step(s, b, p - 1);
    if i < p - 1 {
        lemma_utf16_mono(s, b, i, p - 1);
    }
}

/// Walking from the line's start with the column of `p` lands on `p`.
proof fn lemma_walk_lands(s: Seq<char>, b: int, i: int, p: int)
    requires
        0 <= b <= i <= p <= s.len(),
        forall|k: int| b <= k < p ==> s[k] != '\n',
    ensures
        walk(s, i, utf16_len(s.subrange(b, i)), utf16_len(s.subrange(b, p))) == p,
    decreases p - i,
{
    if i < p {
        lemma_utf16_mono(s, b, i, p);
        lemma_utf16_step(s, b, i);
        lemma_walk_lands(s, b, i + 1, p);
    }
}

/// Finding an offset's position and mapping it back gives the offset again
/// (when its line and column fit the editor's 32-bit numbers).
pub proof fn law_offset_inverts_position(s: Seq<char>, p: int)
    requires
        0 <= p <= s.len() <= usize::MAX,
        count_nl(s.take(p)) <= u32::MAX,
        utf16_len(s.subrange(line_begin(s, p), p)) <= u32::MAX,
    ensures
        spec_offset(s, spec_position(s, p)) == p,
{
    let t = s.take(p);
    let line = count_nl(t);
    let b = line_begin(s, p);
    lemma_starts_len(t);
    lemma_starts_prefix(s, p);
    lemma_starts_last(t);
    lemma_line_begin_take(s, p);
    lemma_line_begin_no_nl(s, p);
    assert(t.len() == p);
    assert(starts(t)[line] == starts(t).last());
    assert(starts(s)[line] as int == b);
    let pos = spec_position(s, p);
    assert(pos.line as int == line);
    lemma_walk_lands(s, b, b, p);
    assert(s.subrange(b, b) =~= Seq::<char>::empty());
}

} // verus!
