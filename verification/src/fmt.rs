//! The canonical Swede formatter.
//!
//! Within each contiguous run of assignments (`basis` / binding / menu entry,
//! not separated by a blank or comment line), the `=` signs are column-aligned
//! and followed by a single space. Continuation lines of a multi-line call
//! shift by the same amount, so wrapped arguments stay aligned under their
//! opening paren. Everything else passes through unchanged, and a file with
//! syntax errors is returned as it is.

use vstd::prelude::*;
use crate::ast::File;
use crate::number::{find_char, find_in};
use crate::parse::{Lowered, lowered_wf, parse, basis_spans, binding_spans, entry_spans, err_starts, law_parse_is_determined};
use crate::text::{spec_is_ws, is_ws, chars_of, push_char, push_range, skip_ws_backward};

verus! {

/// The characters of `s` that are not whitespace, in order.
pub open spec fn non_ws(s: Seq<char>) -> Seq<char>
    decreases s.len(),
{
    if s.len() == 0 {
        s
    } else {
        non_ws(s.drop_last()) + if spec_is_ws(s.last()) {
            Seq::empty()
        } else {
            seq![s.last()]
        }
    }
}

pub proof fn lemma_non_ws_concat(a: Seq<char>, b: Seq<char>)
    ensures
        non_ws(a + b) == non_ws(a) + non_ws(b),
    decreases b.len(),
{
    if b.len() == 0 {
        assert(a + b == a);
        assert(non_ws(b) == b);
    } else {
        lemma_non_ws_concat(a, b.drop_last());
        assert((a + b).drop_last() == a + b.drop_last());
    }
}

pub proof fn lemma_non_ws_split(s: Seq<char>, i: int, j: int, k: int)
    requires
        0 <= i <= j <= k <= s.len(),
    ensures
        non_ws(s.subrange(i, k)) == non_ws(s.subrange(i, j)) + non_ws(s.subrange(j, k)),
{
    assert(s.subrange(i, k) == s.subrange(i, j) + s.subrange(j, k));
    lemma_non_ws_concat(s.subrange(i, j), s.subrange(j, k));
}

/// One `name = value` assignment to align: where it starts, its `=`, and its
/// end.
pub struct Assign {
    pub start: usize,
    pub eq: usize,
    pub end: usize,
}

/// A replacement of `s[start..end]` by `text`.
pub struct Edit {
    pub start: usize,
    pub end: usize,
    pub text: String,
}

/// Whether an edit keeps the non-whitespace characters it replaces.
pub open spec fn edit_ok(e: Edit, s: Seq<char>) -> bool {
    &&& e.start <= e.end <= s.len()
    &&& non_ws(e.text@) == non_ws(s.subrange(e.start as int, e.end as int))
}

/// The assignment of the statement `s[start..end]`: at its first `=`, if
/// it has one.
pub open spec fn assign_of(s: Seq<char>, start: int, end: int) -> Option<Assign> {
    let k = find_char(s.subrange(start, end), '=');
    if k < end - start {
        Some(Assign { start: start as usize, eq: (start + k) as usize, end: end as usize })
    } else {
        None
    }
}

/// The first `=` in a statement is its assignment operator.
pub fn mk_assign(s: &[char], start: usize, end: usize) -> (r: Option<Assign>)
    requires
        start <= end <= s@.len(),
    ensures
        r == assign_of(s@, start as int, end as int),
        r matches Some(a) ==> a.start == start && start <= a.eq < end && a.end == end && s@[a.eq as int] == '=',
{
    let eq = find_in(s, start, end, '=');
    if eq >= end {
        return None;
    }
    proof {
        crate::number::lemma_find_char(s@.subrange(start as int, end as int), '=');
        assert(s@.subrange(start as int, end as int)[eq - start] == s@[eq as int]);
    }
    Some(Assign { start, eq, end })
}

/// Where the lines of `s[0..i]` begin: at 0 and after each line break.
pub open spec fn line_starts_upto(s: Seq<char>, i: int) -> Seq<usize>
    decreases i,
{
    if i <= 0 {
        seq![0usize]
    } else if s[i - 1] == '\n' {
        line_starts_upto(s, i - 1).push(i as usize)
    } else {
        line_starts_upto(s, i - 1)
    }
}

/// Offsets where lines begin.
pub fn line_starts(s: &[char]) -> (r: Vec<usize>)
    ensures
        r@ == line_starts_upto(s@, s@.len() as int),
        r@.len() >= 1,
        r@[0] == 0,
        forall|i: int| 0 <= i < r@.len() ==> r@[i] <= s@.len(),
        forall|i: int, j: int| 0 <= i < j < r@.len() ==> r@[i] < r@[j],
        forall|i: int| 0 < i < r@.len() ==> s@[r@[i] - 1] == '\n',
{
    let mut v: Vec<usize> = Vec::new();
    v.push(0);
    let mut i: usize = 0;
    while i < s.len()
        invariant
            i <= s@.len(),
            v@.len() >= 1,
            v@[0] == 0,
            forall|k: int| 0 <= k < v@.len() ==> v@[k] <= i,
            forall|a: int, b: int| 0 <= a < b < v@.len() ==> v@[a] < v@[b],
            forall|k: int| 0 < k < v@.len() ==> s@[v@[k] - 1] == '\n',
            v@ == line_starts_upto(s@, i as int),
        decreases s@.len() - i,
    {
        if s[i] == '\n' {
            v.push(i + 1);
        }
        i = i + 1;
    }
    v
}

/// The last of the first `n` line starts at or before `p` (row 0 if none).
pub open spec fn row_upto(ls: Seq<usize>, p: int, n: int) -> int
    decreases n,
{
    if n <= 1 {
        0
    } else if ls[n - 1] <= p {
        n - 1
    } else {
        row_upto(ls, p, n - 1)
    }
}

/// The row holding offset `p`.
pub open spec fn row_at(ls: Seq<usize>, p: int) -> int {
    row_upto(ls, p, ls.len() as int)
}

/// The row holding offset `p`: the last line start at or before it.
pub fn row_of(p: usize, ls: &Vec<usize>) -> (r: usize)
    requires
        ls@.len() >= 1,
        ls@[0] == 0,
    ensures
        r < ls@.len(),
        ls@[r as int] <= p,
        r == row_at(ls@, p as int),
{
    let mut r: usize = 0;
    let mut i: usize = 1;
    while i < ls.len()
        invariant
            1 <= i <= ls@.len(),
            r < i,
            ls@[r as int] <= p,
            r == row_upto(ls@, p as int, i as int),
        decreases ls@.len() - i,
    {
        if ls[i] <= p {
            r = i;
        }
        i = i + 1;
    }
    r
}

/// The end of the spaces and tabs from `p`.
pub open spec fn blanks_end(s: Seq<char>, p: int) -> int
    decreases s.len() - p,
{
    if 0 <= p < s.len() && (s[p] == ' ' || s[p] == '\t') {
        blanks_end(s, p + 1)
    } else {
        p
    }
}

/// Spaces and tabs at `p`.
pub fn leading_ws(s: &[char], p: usize) -> (r: usize)
    requires
        p <= s@.len(),
    ensures
        p + r <= s@.len(),
        p + r == blanks_end(s@, p as int),
        forall|i: int| p <= i < p + r ==> spec_is_ws(#[trigger] s@[i]),
{
    let mut n: usize = 0;
    while n < s.len() - p && (s[p + n] == ' ' || s[p + n] == '\t')
        invariant
            p + n <= s@.len(),
            forall|i: int| p <= i < p + n ==> spec_is_ws(#[trigger] s@[i]),
            blanks_end(s@, p + n) == blanks_end(s@, p as int),
        decreases s@.len() - p - n,
    {
        n = n + 1;
    }
    n
}

/// `n` spaces.
pub fn spaces(n: usize) -> (r: String)
    ensures
        r@.len() == n,
        forall|i: int| 0 <= i < n ==> r@[i] == ' ',
{
    let mut out = String::new();
    let mut i: usize = 0;
    while i < n
        invariant
            i <= n,
            out@.len() == i,
            forall|k: int| 0 <= k < i ==> out@[k] == ' ',
        decreases n - i,
    {
        push_char(&mut out, ' ');
        i = i + 1;
    }
    out
}

proof fn lemma_non_ws_all_ws(s: Seq<char>)
    requires
        forall|i: int| 0 <= i < s.len() ==> spec_is_ws(#[trigger] s[i]),
    ensures
        non_ws(s) == Seq::<char>::empty(),
    decreases s.len(),
{
    if s.len() > 0 {
        lemma_non_ws_all_ws(s.drop_last());
    }
}

/// The length of a trimmed-right range's text.
fn text_len(s: &[char], lo: usize, hi: usize) -> (r: usize)
    requires
        lo <= hi <= s@.len(),
    ensures
        r == crate::text::skip_ws_back(s@, lo as int, hi as int) - lo,
{
    let e = skip_ws_backward(s, lo, hi);
    e - lo
}

proof fn lemma_skip_back_ws(s: Seq<char>, lo: int, hi: int)
    requires
        0 <= lo <= hi <= s.len(),
    ensures
        lo <= crate::text::skip_ws_back(s, lo, hi) <= hi,
        forall|i: int| crate::text::skip_ws_back(s, lo, hi) <= i < hi ==> spec_is_ws(#[trigger] s[i]),
    decreases hi - lo,
{
    if lo < hi && spec_is_ws(s[hi - 1]) {
        lemma_skip_back_ws(s, lo, hi - 1);
    }
}

/// The prefix edit of an assignment keeps the non-whitespace text it
/// replaces: blanks, the left side, `=` and blanks become the left side,
/// padding and `= `.
proof fn lemma_prefix_edit(s: Seq<char>, ps: int, start: int, te: int, eq: int, vs: int, sp: Seq<char>)
    requires
        0 <= ps <= start <= te <= eq < vs <= s.len(),
        s[eq] == '=',
        forall|i: int| ps <= i < start ==> spec_is_ws(#[trigger] s[i]),
        forall|i: int| te <= i < eq ==> spec_is_ws(#[trigger] s[i]),
        forall|i: int| eq + 1 <= i < vs ==> spec_is_ws(#[trigger] s[i]),
        forall|i: int| 0 <= i < sp.len() ==> sp[i] == ' ',
    ensures
        non_ws(s.subrange(start, te) + sp + seq!['=', ' ']) == non_ws(s.subrange(ps, vs)),
{
    let t0 = s.subrange(start, te);
    lemma_non_ws_split(s, ps, start, vs);
    lemma_non_ws_split(s, start, te, vs);
    lemma_non_ws_split(s, te, eq, vs);
    lemma_non_ws_split(s, eq, eq + 1, vs);
    assert forall|i: int| 0 <= i < s.subrange(ps, start).len() implies spec_is_ws(#[trigger] s.subrange(ps, start)[i]) by {
        assert(s.subrange(ps, start)[i] == s[ps + i]);
    }
    lemma_non_ws_all_ws(s.subrange(ps, start));
    assert forall|i: int| 0 <= i < s.subrange(te, eq).len() implies spec_is_ws(#[trigger] s.subrange(te, eq)[i]) by {
        assert(s.subrange(te, eq)[i] == s[te + i]);
    }
    lemma_non_ws_all_ws(s.subrange(te, eq));
    assert forall|i: int| 0 <= i < s.subrange(eq + 1, vs).len() implies spec_is_ws(#[trigger] s.subrange(eq + 1, vs)[i]) by {
        assert(s.subrange(eq + 1, vs)[i] == s[eq + 1 + i]);
    }
    lemma_non_ws_all_ws(s.subrange(eq + 1, vs));
    assert(s.subrange(eq, eq + 1) == seq!['=']);
    assert(non_ws(seq!['=']) == seq!['=']) by {
        reveal_with_fuel(non_ws, 2);
        assert(seq!['='].drop_last() == Seq::<char>::empty());
        assert(!spec_is_ws('='));
    }
    assert forall|i: int| 0 <= i < sp.len() implies spec_is_ws(#[trigger] sp[i]) by {}
    lemma_non_ws_all_ws(sp);
    lemma_non_ws_concat(t0, sp);
    let t1 = t0 + sp;
    lemma_non_ws_concat(t1, seq!['=']);
    assert(t1 + seq!['=', ' '] == t1.push('=').push(' '));
    assert(t1.push('=') == t1 + seq!['=']);
    assert(t1.push('=').push(' ').drop_last() == t1.push('='));
    assert(non_ws(t1.push('=').push(' ')) == non_ws(t1.push('=')));
}

/// The end of the spaces from `i`.
pub open spec fn spaces_end(s: Seq<char>, i: int) -> int
    decreases s.len() - i,
{
    if 0 <= i < s.len() && s[i] == ' ' {
        spaces_end(s, i + 1)
    } else {
        i
    }
}

/// `n` spaces.
pub open spec fn pad_spaces(n: int) -> Seq<char> {
    Seq::new(n as nat, |i: int| ' ')
}

/// The width of an assignment's left side, trailing blanks dropped.
pub open spec fn left_width(s: Seq<char>, a: Assign) -> int {
    crate::text::skip_ws_back(s, a.start as int, a.eq as int) - a.start
}

/// The widest left side among assignments `lo..k` of a run.
pub open spec fn run_width(s: Seq<char>, run: Seq<Assign>, lo: int, k: int) -> int
    decreases k - lo,
{
    if k <= lo {
        0
    } else {
        let w = run_width(s, run, lo, k - 1);
        let l = left_width(s, run[k - 1]);
        if l > w {
            l
        } else {
            w
        }
    }
}

/// The edit of an assignment's first line in a run of width `w`: from the
/// line start (or the statement, if something else precedes it there) to
/// its value, the text becomes the left side, padding that puts `=` in
/// column `w + 1`, `=` and one space.
pub open spec fn prefix_edit(s: Seq<char>, ls: Seq<usize>, a: Assign, w: int) -> (int, int, Seq<char>) {
    let te = crate::text::skip_ws_back(s, a.start as int, a.eq as int);
    let l = te - a.start;
    let fl = ls[row_at(ls, a.start as int)] as int;
    let vs = spaces_end(s, a.eq + 1);
    let ps = if blanks_end(s, fl) >= a.start {
        fl
    } else {
        a.start as int
    };
    let pad = if w + 1 >= l {
        w + 1 - l
    } else {
        1
    };
    (ps, vs, s.subrange(a.start as int, te) + pad_spaces(pad) + seq!['=', ' '])
}

/// The edit of a continuation line `row` of an assignment ending at `a_end`
/// whose value moves from column `oc` to `nc`: its indentation shifts by
/// the same amount (not below zero). Lines past the statement and blank
/// lines are left alone.
pub open spec fn cont_edit(s: Seq<char>, ls: Seq<usize>, row: int, a_end: int, nc: int, oc: int) -> Option<(int, int, Seq<char>)> {
    let line = ls[row] as int;
    let we = blanks_end(s, line);
    let ws = we - line;
    if we >= a_end || (we < s.len() && s[we] == '\n') {
        None
    } else {
        let new_ws = if nc >= oc {
            ws + (nc - oc)
        } else if ws >= oc - nc {
            ws - (oc - nc)
        } else {
            0
        };
        Some((line, we, pad_spaces(new_ws)))
    }
}

/// The continuation edits of rows `lo_row..r`.
pub open spec fn cont_edits(s: Seq<char>, ls: Seq<usize>, lo_row: int, r: int, a_end: int, nc: int, oc: int) -> Seq<(int, int, Seq<char>)>
    decreases r - lo_row,
{
    if r <= lo_row {
        Seq::empty()
    } else {
        let prev = cont_edits(s, ls, lo_row, r - 1, a_end, nc, oc);
        match cont_edit(s, ls, r - 1, a_end, nc, oc) {
            Some(e) => prev.push(e),
            None => prev,
        }
    }
}

/// The edits of one assignment in a run of width `w`: its first line, then,
/// if its value moves, each continuation line.
pub open spec fn assign_edits(s: Seq<char>, ls: Seq<usize>, a: Assign, w: int) -> Seq<(int, int, Seq<char>)> {
    let fr = row_at(ls, a.start as int);
    let oc = spaces_end(s, a.eq + 1) - ls[fr];
    let nc = w + 3;
    let lr = row_at(ls, if a.end > 0 { a.end - 1 } else { 0 });
    let stop = if lr + 1 < ls.len() {
        lr + 1
    } else {
        ls.len() as int
    };
    seq![prefix_edit(s, ls, a, w)] + if nc != oc {
        cont_edits(s, ls, fr + 1, stop, a.end as int, nc, oc)
    } else {
        Seq::empty()
    }
}

/// The edits of assignments `lo..k` of a run of width `w`, in order.
pub open spec fn run_edits(s: Seq<char>, ls: Seq<usize>, run: Seq<Assign>, lo: int, k: int, w: int) -> Seq<(int, int, Seq<char>)>
    decreases k - lo,
{
    if k <= lo {
        Seq::empty()
    } else {
        run_edits(s, ls, run, lo, k - 1, w) + assign_edits(s, ls, run[k - 1], w)
    }
}

/// Aligns one run of assignments: the `=` of each goes to the column after
/// the widest left side, and continuation lines shift with the value.
#[verifier::rlimit(30)]
fn align_run(s: &[char], ls: &Vec<usize>, run: &Vec<Assign>, lo: usize, hi: usize, edits: &mut Vec<Edit>)
    requires
        s@.len() < isize::MAX,
        lo <= hi <= run@.len(),
        ls@.len() >= 1,
        ls@[0] == 0,
        forall|i: int| 0 <= i < ls@.len() ==> ls@[i] <= s@.len(),
        forall|i: int, j: int| 0 <= i < j < ls@.len() ==> ls@[i] < ls@[j],
        forall|i: int| 0 < i < ls@.len() ==> s@[ls@[i] - 1] == '\n',
        forall|k: int|
            0 <= k < run@.len() ==> (#[trigger] run@[k]).start <= run@[k].eq < run@[k].end <= s@.len()
                && s@[run@[k].eq as int] == '=',
        forall|k: int| 0 <= k < old(edits)@.len() ==> edit_ok(#[trigger] old(edits)@[k], s@),
    ensures
        forall|k: int| 0 <= k < final(edits)@.len() ==> edit_ok(#[trigger] final(edits)@[k], s@),
        edits_view(final(edits)@) == edits_view(old(edits)@) + run_edits(
            s@,
            ls@,
            run@,
            lo as int,
            hi as int,
            run_width(s@, run@, lo as int, hi as int),
        ),
{
    let ghost ev0 = edits_view(edits@);
    // the widest left side
    let mut width: usize = 0;
    let mut k: usize = lo;
    while k < hi
        invariant
            lo <= k <= hi <= run@.len(),
            width <= s@.len(),
            width == run_width(s@, run@, lo as int, k as int),
            s@.len() < isize::MAX,
            forall|q: int|
                0 <= q < run@.len() ==> (#[trigger] run@[q]).start <= run@[q].eq < run@[q].end <= s@.len(),
        decreases hi - k,
    {
        let l = text_len(s, run[k].start, run[k].eq);
        proof {
            crate::text::lemma_skip_back_bounds(s@, run@[k as int].start as int, run@[k as int].eq as int);
        }
        if l > width {
            width = l;
        }
        k = k + 1;
    }
    let mut k: usize = lo;
    while k < hi
        invariant
            lo <= k <= hi <= run@.len(),
            width <= s@.len(),
            s@.len() < isize::MAX,
            ls@.len() >= 1,
            ls@[0] == 0,
            forall|i: int| 0 <= i < ls@.len() ==> ls@[i] <= s@.len(),
            forall|i: int, j: int| 0 <= i < j < ls@.len() ==> ls@[i] < ls@[j],
            forall|q: int|
                0 <= q < run@.len() ==> (#[trigger] run@[q]).start <= run@[q].eq < run@[q].end <= s@.len()
                    && s@[run@[q].eq as int] == '=',
            forall|q: int| 0 <= q < edits@.len() ==> edit_ok(#[trigger] edits@[q], s@),
            width == run_width(s@, run@, lo as int, hi as int),
            ev0 == edits_view(old(edits)@),
            edits_view(edits@) == ev0 + run_edits(s@, ls@, run@, lo as int, k as int, width as int),
        decreases hi - k,
    {
        let ghost ek = edits_view(edits@);
        let a = &run[k];
        let te = skip_ws_backward(s, a.start, a.eq);
        proof {
            lemma_skip_back_ws(s@, a.start as int, a.eq as int);
        }
        let l = te - a.start;
        let first_row = row_of(a.start, ls);
        let first_line = ls[first_row];
        // verb / value start: first non-space after `=`
        let after_eq = a.eq + 1;
        let mut verb_start = after_eq;
        while verb_start < s.len() && s[verb_start] == ' '
            invariant
                after_eq <= verb_start <= s@.len(),
                forall|i: int| after_eq <= i < verb_start ==> spec_is_ws(#[trigger] s@[i]),
                spaces_end(s@, verb_start as int) == spaces_end(s@, after_eq as int),
            decreases s@.len() - verb_start,
        {
            verb_start = verb_start + 1;
        }
        let old_verb_col = verb_start - first_line;
        // the prefix edit starts at the line start when only blanks precede
        // the statement there
        let lead = leading_ws(s, first_line);
        let ps = if first_line + lead >= a.start {
            first_line
        } else {
            a.start
        };
        // `<out><pad>= `
        let mut text = String::new();
        push_range(&mut text, s, a.start, te);
        let pad = if width + 1 >= l {
            width + 1 - l
        } else {
            1
        };
        let sp = spaces(pad);
        let ghost t0 = text@;
        text.append(sp.as_str());
        push_char(&mut text, '=');
        push_char(&mut text, ' ');
        proof {
            lemma_prefix_edit(s@, ps as int, a.start as int, te as int, a.eq as int, verb_start as int, sp@);
            assert(text@ =~= s@.subrange(a.start as int, te as int) + sp@ + seq!['=', ' ']);
            assert(sp@ =~= pad_spaces(pad as int));
        }
        let ghost pre = edits@;
        edits.push(Edit { start: ps, end: verb_start, text });
        proof {
            assert(edits_view(edits@) =~= edits_view(pre).push(edit_view(edits@.last())));
            assert(edit_view(edits@.last()) == prefix_edit(s@, ls@, *a, width as int));
        }
        let ghost e_pre = edits_view(edits@);
        // continuation lines
        let new_verb_col: usize = width + 3;
        if new_verb_col != old_verb_col {
            let last_byte = if a.end > 0 {
                a.end - 1
            } else {
                0
            };
            let last_row = row_of(last_byte, ls);
            let n_rows = ls.len();
            let mut row = first_row + 1;
            while row <= last_row && row < n_rows
                invariant
                    width <= s@.len(),
                    s@.len() < isize::MAX,
                    new_verb_col == width + 3,
                    n_rows == ls@.len(),
                    forall|i: int| 0 <= i < ls@.len() ==> ls@[i] <= s@.len(),
                    forall|q: int| 0 <= q < edits@.len() ==> edit_ok(#[trigger] edits@[q], s@),
                    a.end <= s@.len(),
                    first_row + 1 <= row,
                    row == first_row + 1 || (row <= last_row + 1 && row <= n_rows),
                    edits_view(edits@) == e_pre + cont_edits(
                        s@,
                        ls@,
                        first_row + 1,
                        row as int,
                        a.end as int,
                        new_verb_col as int,
                        old_verb_col as int,
                    ),
                decreases ls@.len() - row,
            {
                let ghost before = edits@;
                let line = ls[row];
                let ws = leading_ws(s, line);
                let skip = line + ws >= a.end || (line + ws < s.len() && s[line + ws] == '\n');
                if !skip {
                    let new_ws: usize = if new_verb_col >= old_verb_col {
                        ws + (new_verb_col - old_verb_col)
                    } else if ws >= old_verb_col - new_verb_col {
                        ws - (old_verb_col - new_verb_col)
                    } else {
                        0
                    };
                    let t = spaces(new_ws);
                    proof {
                        assert forall|i: int| 0 <= i < s@.subrange(line as int, line + ws).len() implies spec_is_ws(#[trigger] s@.subrange(line as int, line + ws)[i]) by {
                            assert(s@.subrange(line as int, line + ws)[i] == s@[line + i]);
                        }
                        lemma_non_ws_all_ws(s@.subrange(line as int, line + ws));
                        lemma_non_ws_all_ws(t@);
                    }
                    edits.push(Edit { start: line, end: line + ws, text: t });
                    proof {
                        assert(t@ =~= pad_spaces(new_ws as int));
                        assert(edits_view(edits@) =~= edits_view(before).push(edit_view(edits@.last())));
                    }
                }
                row = row + 1;
            }
        }
        proof {
            assert(run_edits(s@, ls@, run@, lo as int, k + 1, width as int) == run_edits(s@, ls@, run@, lo as int, k as int, width as int) + assign_edits(s@, ls@, run@[k as int], width as int));
            assert(edits_view(edits@) =~= ek + assign_edits(s@, ls@, run@[k as int], width as int));
        }
        k = k + 1;
    }
}

/// An edit as plain values: the range it replaces and its text.
pub open spec fn edit_view(e: Edit) -> (int, int, Seq<char>) {
    (e.start as int, e.end as int, e.text@)
}

pub open spec fn edits_view(es: Seq<Edit>) -> Seq<(int, int, Seq<char>)> {
    Seq::new(es.len(), |i: int| edit_view(es[i]))
}

/// The output of the first `k` edits, with the offset reached in `s`: an
/// edit that starts at or after that offset copies the text up to it and
/// then its own text; one that starts before it is skipped.
pub open spec fn applied_upto(s: Seq<char>, es: Seq<(int, int, Seq<char>)>, k: int) -> (Seq<char>, int)
    decreases k,
{
    if k <= 0 {
        (Seq::empty(), 0)
    } else {
        let (o, c) = applied_upto(s, es, k - 1);
        let e = es[k - 1];
        if e.0 >= c {
            (o + s.subrange(c, e.0) + e.2, e.1)
        } else {
            (o, c)
        }
    }
}

/// `s` with the edits applied in order, and the rest of it copied.
pub open spec fn applied(s: Seq<char>, es: Seq<(int, int, Seq<char>)>) -> Seq<char> {
    let (o, c) = applied_upto(s, es, es.len() as int);
    o + s.subrange(c, s.len() as int)
}

/// Applies disjoint edits in order (an edit that overlaps the previous one
/// is skipped).
pub fn apply(s: &[char], edits: &Vec<Edit>) -> (r: String)
    requires
        forall|k: int| 0 <= k < edits@.len() ==> edit_ok(#[trigger] edits@[k], s@),
    ensures
        non_ws(r@) == non_ws(s@),
        r@ == applied(s@, edits_view(edits@)),
{
    let ghost ev = edits_view(edits@);
    let mut out = String::new();
    let mut cursor: usize = 0;
    let mut k: usize = 0;
    while k < edits.len()
        invariant
            k <= edits@.len(),
            cursor <= s@.len(),
            forall|q: int| 0 <= q < edits@.len() ==> edit_ok(#[trigger] edits@[q], s@),
            non_ws(out@) == non_ws(s@.subrange(0, cursor as int)),
            ev == edits_view(edits@),
            (out@, cursor as int) == applied_upto(s@, ev, k as int),
        decreases edits@.len() - k,
    {
        let e = &edits[k];
        if e.start >= cursor {
            let ghost o0 = out@;
            push_range(&mut out, s, cursor, e.start);
            let ghost o1 = out@;
            out.append(e.text.as_str());
            proof {
                lemma_non_ws_concat(o0, s@.subrange(cursor as int, e.start as int));
                lemma_non_ws_concat(o1, e.text@);
                lemma_non_ws_split(s@, 0, cursor as int, e.start as int);
                lemma_non_ws_split(s@, 0, e.start as int, e.end as int);
            }
            cursor = e.end;
        }
        k = k + 1;
    }
    let ghost o0 = out@;
    push_range(&mut out, s, cursor, s.len());
    proof {
        lemma_non_ws_concat(o0, s@.subrange(cursor as int, s@.len() as int));
        lemma_non_ws_split(s@, 0, cursor as int, s@.len() as int);
        assert(s@.subrange(0, s@.len() as int) == s@);
    }
    out
}


/// A well-formed assignment of the text `s`: its `=` lies inside it.
pub open spec fn assign_ok(a: Assign, s: Seq<char>) -> bool {
    a.start <= a.eq < a.end <= s.len() && s[a.eq as int] == '='
}

/// Where an assignment starting at `x` goes among the first `p` of `v`:
/// after every one that starts at or before it.
pub open spec fn insert_pos(v: Seq<Assign>, x: int, p: int) -> int
    decreases p,
{
    if p > 0 && v[p - 1].start > x {
        insert_pos(v, x, p - 1)
    } else {
        p
    }
}

/// `v` with `o` inserted in order of start, if there is one.
pub open spec fn add_assign(v: Seq<Assign>, o: Option<Assign>) -> Seq<Assign> {
    match o {
        Some(a) => v.insert(insert_pos(v, a.start as int, v.len() as int), a),
        None => v,
    }
}

/// The assignments of the first `k` bases, ordered by start.
pub open spec fn bases_assigns(s: Seq<char>, bs: Seq<crate::ast::Basis>, k: int) -> Seq<Assign>
    decreases k,
{
    if k <= 0 {
        Seq::empty()
    } else {
        add_assign(bases_assigns(s, bs, k - 1), assign_of(s, bs[k - 1].span.start_byte as int, bs[k - 1].span.end_byte as int))
    }
}

/// `v` with the assignments of the first `k` bindings added in order.
pub open spec fn bindings_assigns(s: Seq<char>, v: Seq<Assign>, gs: Seq<crate::ast::Binding>, k: int) -> Seq<Assign>
    decreases k,
{
    if k <= 0 {
        v
    } else {
        add_assign(bindings_assigns(s, v, gs, k - 1), assign_of(s, gs[k - 1].span.start_byte as int, gs[k - 1].span.end_byte as int))
    }
}

/// The assignments of a recipe: its bases and bindings, ordered by start.
pub open spec fn recipe_assign_list(s: Seq<char>, r: crate::ast::Recipe) -> Seq<Assign> {
    bindings_assigns(s, bases_assigns(s, r.bases@, r.bases@.len() as int), r.bindings@, r.bindings@.len() as int)
}

/// The assignments of the first `k` menu entries, in order.
pub open spec fn menu_assign_list(s: Seq<char>, es: Seq<crate::ast::MenuEntry>, k: int) -> Seq<Assign>
    decreases k,
{
    if k <= 0 {
        Seq::empty()
    } else {
        match assign_of(s, es[k - 1].span.start_byte as int, es[k - 1].span.end_byte as int) {
            Some(a) => menu_assign_list(s, es, k - 1).push(a),
            None => menu_assign_list(s, es, k - 1),
        }
    }
}

/// Inserts `a` after every assignment that starts at or before it.
fn insert_by_start(v: &mut Vec<Assign>, a: Assign, s: Ghost<Seq<char>>)
    requires
        assign_ok(a, s@),
        forall|k: int| 0 <= k < old(v)@.len() ==> assign_ok(#[trigger] old(v)@[k], s@),
        forall|i: int, j: int| 0 <= i < j < old(v)@.len() ==> old(v)@[i].start <= old(v)@[j].start,
    ensures
        final(v)@ == add_assign(old(v)@, Some(a)),
        final(v)@.len() == old(v)@.len() + 1,
        forall|k: int| 0 <= k < final(v)@.len() ==> assign_ok(#[trigger] final(v)@[k], s@),
        forall|i: int, j: int| 0 <= i < j < final(v)@.len() ==> final(v)@[i].start <= final(v)@[j].start,
{
    let mut p: usize = v.len();
    while p > 0 && v[p - 1].start > a.start
        invariant
            p <= v@.len(),
            forall|k: int| p <= k < v@.len() ==> v@[k].start > a.start,
            insert_pos(v@, a.start as int, v@.len() as int) == insert_pos(v@, a.start as int, p as int),
        decreases p,
    {
        p = p - 1;
    }
    let ghost a_start = a.start;
    v.insert(p, a);
    proof {
        assert forall|i: int, j: int| 0 <= i < j < v@.len() implies v@[i].start <= v@[j].start by {
            if j < p {
            } else if j == p {
                if i < p {
                    assert(old(v)@[i].start <= a_start || p == 0);
                }
            } else if i < p {
            } else if i == p {
            } else {
            }
        }
    }
}

/// The assignments of a recipe (bases and bindings), ordered by where they
/// start.
#[verifier::rlimit(30)]
fn recipe_assigns(s: &[char], r: &crate::ast::Recipe) -> (v: Vec<Assign>)
    requires
        crate::parse::recipe_wf(*r, s@),
    ensures
        v@ == recipe_assign_list(s@, *r),
        forall|k: int| 0 <= k < v@.len() ==> assign_ok(#[trigger] v@[k], s@),
        forall|i: int, j: int| 0 <= i < j < v@.len() ==> v@[i].start <= v@[j].start,
{
    let mut v: Vec<Assign> = Vec::new();
    let mut i: usize = 0;
    while i < r.bases.len()
        invariant
            crate::parse::recipe_wf(*r, s@),
            forall|k: int| 0 <= k < v@.len() ==> assign_ok(#[trigger] v@[k], s@),
            forall|a: int, b: int| 0 <= a < b < v@.len() ==> v@[a].start <= v@[b].start,
            i <= r.bases@.len(),
            v@ == bases_assigns(s@, r.bases@, i as int),
        decreases r.bases@.len() - i,
    {
        let sp = r.bases[i].span;
        assert(r.bases@[i as int].span.within(s@.len())) by {
            reveal(crate::parse::recipe_wf);
        }
        if let Some(a) = mk_assign(s, sp.start_byte, sp.end_byte) {
            insert_by_start(&mut v, a, Ghost(s@));
        }
        i = i + 1;
    }
    let ghost v0 = v@;
    let mut i: usize = 0;
    while i < r.bindings.len()
        invariant
            crate::parse::recipe_wf(*r, s@),
            forall|k: int| 0 <= k < v@.len() ==> assign_ok(#[trigger] v@[k], s@),
            forall|a: int, b: int| 0 <= a < b < v@.len() ==> v@[a].start <= v@[b].start,
            i <= r.bindings@.len(),
            v0 == bases_assigns(s@, r.bases@, r.bases@.len() as int),
            v@ == bindings_assigns(s@, v0, r.bindings@, i as int),
        decreases r.bindings@.len() - i,
    {
        let sp = r.bindings[i].span;
        assert(r.bindings@[i as int].span.within(s@.len())) by {
            reveal(crate::parse::recipe_wf);
        }
        if let Some(a) = mk_assign(s, sp.start_byte, sp.end_byte) {
            insert_by_start(&mut v, a, Ghost(s@));
        }
        i = i + 1;
    }
    v
}

/// The assignments of a menu: its entries.
#[verifier::rlimit(30)]
fn menu_assigns(s: &[char], m: &crate::ast::Menu) -> (v: Vec<Assign>)
    requires
        crate::parse::menu_wf(*m, s@),
    ensures
        v@ == menu_assign_list(s@, m.entries@, m.entries@.len() as int),
        forall|k: int| 0 <= k < v@.len() ==> assign_ok(#[trigger] v@[k], s@),
{
    let mut v: Vec<Assign> = Vec::new();
    let mut i: usize = 0;
    while i < m.entries.len()
        invariant
            crate::parse::menu_wf(*m, s@),
            forall|k: int| 0 <= k < v@.len() ==> assign_ok(#[trigger] v@[k], s@),
            i <= m.entries@.len(),
            v@ == menu_assign_list(s@, m.entries@, i as int),
        decreases m.entries@.len() - i,
    {
        let sp = m.entries[i].span;
        assert(m.entries@[i as int].span.within(s@.len())) by {
            reveal(crate::parse::menu_wf);
        }
        if let Some(a) = mk_assign(s, sp.start_byte, sp.end_byte) {
            v.push(a);
        }
        i = i + 1;
    }
    v
}

/// Whether assignment `i` starts a new run: more than one row lies between
/// the last row of the one before it and its own first row.
pub open spec fn breaks_before(as_: Seq<Assign>, ls: Seq<usize>, i: int) -> bool {
    let prev_end = as_[i - 1].end as int;
    let prev_last = row_at(ls, if prev_end > 0 { prev_end - 1 } else { 0 });
    let cur_first = row_at(ls, as_[i].start as int);
    cur_first > prev_last && cur_first - prev_last > 1
}

/// The runs closed before assignment `i`, and where the open one starts.
pub open spec fn runs_upto(as_: Seq<Assign>, ls: Seq<usize>, i: int) -> (Seq<(usize, usize)>, usize)
    decreases i,
{
    if i <= 1 {
        (Seq::empty(), 0)
    } else {
        let (rs, st) = runs_upto(as_, ls, i - 1);
        if breaks_before(as_, ls, i - 1) {
            (rs.push((st, (i - 1) as usize)), (i - 1) as usize)
        } else {
            (rs, st)
        }
    }
}

/// The runs of a list of assignments, as index ranges.
pub open spec fn runs_of(as_: Seq<Assign>, ls: Seq<usize>) -> Seq<(usize, usize)> {
    if as_.len() == 0 {
        Seq::empty()
    } else {
        let (rs, st) = runs_upto(as_, ls, as_.len() as int);
        rs.push((st, as_.len() as usize))
    }
}

/// Splits assignments into runs of vertically adjacent statements: a row gap
/// (a blank or comment line) between two of them starts a new run. Each run
/// is a range `[lo, hi)` of indices; together they cover all assignments in
/// order.
fn group_runs(assigns: &Vec<Assign>, ls: &Vec<usize>) -> (r: Vec<(usize, usize)>)
    requires
        ls@.len() >= 1,
        ls@[0] == 0,
    ensures
        r@ == runs_of(assigns@, ls@),
        forall|k: int| 0 <= k < r@.len() ==> (#[trigger] r@[k]).0 <= r@[k].1 <= assigns@.len(),
{
    let mut runs: Vec<(usize, usize)> = Vec::new();
    if assigns.len() == 0 {
        return runs;
    }
    let mut start: usize = 0;
    let mut i: usize = 1;
    while i < assigns.len()
        invariant
            ls@.len() >= 1,
            ls@[0] == 0,
            start < i <= assigns@.len(),
            forall|k: int| 0 <= k < runs@.len() ==> (#[trigger] runs@[k]).0 <= runs@[k].1 <= assigns@.len(),
            (runs@, start) == runs_upto(assigns@, ls@, i as int),
        decreases assigns@.len() - i,
    {
        let prev_end = assigns[i - 1].end;
        let prev_last_byte = if prev_end > 0 {
            prev_end - 1
        } else {
            0
        };
        let prev_last = row_of(prev_last_byte, ls);
        let cur_first = row_of(assigns[i].start, ls);
        if cur_first > prev_last && cur_first - prev_last > 1 {
            runs.push((start, i));
            start = i;
        }
        i = i + 1;
    }
    runs.push((start, assigns.len()));
    runs
}

/// Whether the formatter leaves a parse result's text as it is: on syntax
/// errors, or when there is no file.
pub open spec fn passes_through(l: Lowered) -> bool {
    l.errors@.len() > 0 || l.file is None
}

/// The assignments of a parsed file.
pub open spec fn file_assigns(s: Seq<char>, l: Lowered) -> Seq<Assign> {
    match l.file {
        Some(File::Recipe(r)) => recipe_assign_list(s, r),
        Some(File::Menu(m)) => menu_assign_list(s, m.entries@, m.entries@.len() as int),
        None => Seq::empty(),
    }
}

/// The edits of the first `k` runs, in order.
pub open spec fn runs_edits(s: Seq<char>, ls: Seq<usize>, as_: Seq<Assign>, runs: Seq<(usize, usize)>, k: int) -> Seq<(int, int, Seq<char>)>
    decreases k,
{
    if k <= 0 {
        Seq::empty()
    } else {
        let (lo, hi) = runs[k - 1];
        runs_edits(s, ls, as_, runs, k - 1) + run_edits(s, ls, as_, lo as int, hi as int, run_width(s, as_, lo as int, hi as int))
    }
}

/// The edits the formatter makes to `s`, parsed as `l`: each run of
/// assignments aligned in turn.
pub open spec fn format_edits(s: Seq<char>, l: Lowered) -> Seq<(int, int, Seq<char>)> {
    let ls = line_starts_upto(s, s.len() as int);
    let as_ = file_assigns(s, l);
    let runs = runs_of(as_, ls);
    runs_edits(s, ls, as_, runs, runs.len() as int)
}

/// What the formatter makes of `s`, parsed as `l`: `s` itself on syntax
/// errors or without a file, else `s` with the alignment edits applied.
pub open spec fn formatted(s: Seq<char>, l: Lowered) -> Seq<char> {
    if passes_through(l) {
        s
    } else {
        applied(s, format_edits(s, l))
    }
}

proof fn lemma_bases_assigns_by_spans(s: Seq<char>, b1: Seq<crate::ast::Basis>, b2: Seq<crate::ast::Basis>, k: int)
    requires
        basis_spans(b1) == basis_spans(b2),
        k <= b1.len(),
    ensures
        bases_assigns(s, b1, k) == bases_assigns(s, b2, k),
    decreases k,
{
    if k > 0 {
        lemma_bases_assigns_by_spans(s, b1, b2, k - 1);
        assert(basis_spans(b1).len() == b1.len() && basis_spans(b2).len() == b2.len());
        assert(basis_spans(b1)[k - 1] == basis_spans(b2)[k - 1]);
        assert(b1[k - 1].span.start_byte == b2[k - 1].span.start_byte);
        assert(b1[k - 1].span.end_byte == b2[k - 1].span.end_byte);
    }
}

proof fn lemma_bindings_assigns_by_spans(s: Seq<char>, v: Seq<Assign>, g1: Seq<crate::ast::Binding>, g2: Seq<crate::ast::Binding>, k: int)
    requires
        binding_spans(g1) == binding_spans(g2),
        k <= g1.len(),
    ensures
        bindings_assigns(s, v, g1, k) == bindings_assigns(s, v, g2, k),
    decreases k,
{
    if k > 0 {
        lemma_bindings_assigns_by_spans(s, v, g1, g2, k - 1);
        assert(binding_spans(g1).len() == g1.len() && binding_spans(g2).len() == g2.len());
        assert(binding_spans(g1)[k - 1] == binding_spans(g2)[k - 1]);
        assert(g1[k - 1].span.start_byte == g2[k - 1].span.start_byte);
        assert(g1[k - 1].span.end_byte == g2[k - 1].span.end_byte);
    }
}

proof fn lemma_menu_assigns_by_spans(s: Seq<char>, e1: Seq<crate::ast::MenuEntry>, e2: Seq<crate::ast::MenuEntry>, k: int)
    requires
        entry_spans(e1) == entry_spans(e2),
        k <= e1.len(),
    ensures
        menu_assign_list(s, e1, k) == menu_assign_list(s, e2, k),
    decreases k,
{
    if k > 0 {
        lemma_menu_assigns_by_spans(s, e1, e2, k - 1);
        assert(entry_spans(e1).len() == e1.len() && entry_spans(e2).len() == e2.len());
        assert(entry_spans(e1)[k - 1] == entry_spans(e2)[k - 1]);
        assert(e1[k - 1].span.start_byte == e2[k - 1].span.start_byte);
        assert(e1[k - 1].span.end_byte == e2[k - 1].span.end_byte);
    }
}

/// Every parse that the parser's contract admits for a text gives the same
/// formatting of it.
pub proof fn law_formatting_is_determined(l1: Lowered, l2: Lowered, s: Seq<char>)
    requires
        lowered_wf(l1, s),
        lowered_wf(l2, s),
    ensures
        formatted(s, l1) == formatted(s, l2),
{
    if s.len() < usize::MAX {
        law_parse_is_determined(l1, l2, s);
        assert(err_starts(l1.errors@).len() == l1.errors@.len());
        assert(err_starts(l2.errors@).len() == l2.errors@.len());
        match l1.file {
            Some(File::Recipe(r1)) => {
                let r2 = l2.file->Some_0->Recipe_0;
                assert(basis_spans(r1.bases@).len() == r1.bases@.len());
                assert(basis_spans(r2.bases@).len() == r2.bases@.len());
                assert(binding_spans(r1.bindings@).len() == r1.bindings@.len());
                assert(binding_spans(r2.bindings@).len() == r2.bindings@.len());
                lemma_bases_assigns_by_spans(s, r1.bases@, r2.bases@, r1.bases@.len() as int);
                lemma_bindings_assigns_by_spans(
                    s,
                    bases_assigns(s, r1.bases@, r1.bases@.len() as int),
                    r1.bindings@,
                    r2.bindings@,
                    r1.bindings@.len() as int,
                );
                assert(file_assigns(s, l1) == file_assigns(s, l2));
            },
            Some(File::Menu(m1)) => {
                let m2 = l2.file->Some_0->Menu_0;
                assert(entry_spans(m1.entries@).len() == m1.entries@.len());
                assert(entry_spans(m2.entries@).len() == m2.entries@.len());
                lemma_menu_assigns_by_spans(s, m1.entries@, m2.entries@, m1.entries@.len() as int);
                assert(file_assigns(s, l1) == file_assigns(s, l2));
            },
            None => {},
        }
    }
}

/// One alignment pass over a text: its formatting under its parse (every
/// parse the parser's contract admits gives the same).
pub open spec fn format_pass(s: Seq<char>) -> Seq<char> {
    formatted(s, choose|l: Lowered| lowered_wf(l, s))
}

/// The formatting of `s` under any admitted parse is `format_pass(s)`.
pub proof fn lemma_format_pass(l: Lowered, s: Seq<char>)
    requires
        lowered_wf(l, s),
    ensures
        formatted(s, l) == format_pass(s),
{
    let c = choose|x: Lowered| lowered_wf(x, s);
    law_formatting_is_determined(l, c, s);
}

/// What the formatter makes of a text: one alignment pass, kept when a
/// second pass leaves it as it is (the canonical form), else the text
/// unchanged.
pub open spec fn format_text(s: Seq<char>) -> Seq<char> {
    let f = format_pass(s);
    if f.len() < isize::MAX && format_pass(f) == f {
        f
    } else {
        s
    }
}

/// Formatting is idempotent: formatting a formatted text gives it back.
pub proof fn law_format_idempotent(s: Seq<char>)
    ensures
        format_text(format_text(s)) == format_text(s),
{
}

/// A text that one pass leaves as it is is its own formatting.
pub proof fn lemma_pass_fixed(s: Seq<char>)
    requires
        s.len() < isize::MAX,
        format_pass(s) == s,
    ensures
        format_text(s) == s,
{
}

/// Formats the text `s` given its parse `l`.
#[verifier::rlimit(30)]
pub fn format_lowered(s: &[char], l: &Lowered) -> (r: String)
    requires
        s@.len() < isize::MAX,
        lowered_wf(*l, s@),
    ensures
        r@ == formatted(s@, *l),
        passes_through(*l) ==> r@ == s@,
        non_ws(r@) == non_ws(s@),
{
    if l.errors.len() > 0 {
        let out = crate::text::string_of(s, 0, s.len());
        assert(out@ =~= s@);
        return out;
    }
    let assigns = match &l.file {
        Some(File::Recipe(rec)) => recipe_assigns(s, rec),
        Some(File::Menu(m)) => menu_assigns(s, m),
        None => {
            let out = crate::text::string_of(s, 0, s.len());
            assert(out@ =~= s@);
            return out;
        },
    };
    let ls = line_starts(s);
    let runs = group_runs(&assigns, &ls);
    let mut edits: Vec<Edit> = Vec::new();
    assert(edits_view(edits@) =~= Seq::<(int, int, Seq<char>)>::empty());
    let mut k: usize = 0;
    while k < runs.len()
        invariant
            s@.len() < isize::MAX,
            ls@.len() >= 1,
            ls@[0] == 0,
            forall|i: int| 0 <= i < ls@.len() ==> ls@[i] <= s@.len(),
            forall|i: int, j: int| 0 <= i < j < ls@.len() ==> ls@[i] < ls@[j],
            forall|i: int| 0 < i < ls@.len() ==> s@[ls@[i] - 1] == '\n',
            forall|q: int| 0 <= q < assigns@.len() ==> assign_ok(#[trigger] assigns@[q], s@),
            forall|q: int| 0 <= q < runs@.len() ==> (#[trigger] runs@[q]).0 <= runs@[q].1 <= assigns@.len(),
            forall|q: int| 0 <= q < edits@.len() ==> edit_ok(#[trigger] edits@[q], s@),
            k <= runs@.len(),
            ls@ == line_starts_upto(s@, s@.len() as int),
            assigns@ == file_assigns(s@, *l),
            runs@ == runs_of(assigns@, ls@),
            edits_view(edits@) == runs_edits(s@, ls@, assigns@, runs@, k as int),
        decreases runs@.len() - k,
    {
        let (lo, hi) = runs[k];
        align_run(s, &ls, &assigns, lo, hi, &mut edits);
        k = k + 1;
    }
    apply(s, &edits)
}

/// Formats Swede source: aligns the `=` of each run of assignments and shifts
/// their continuation lines with them. Only whitespace changes; a file with
/// syntax errors comes back unchanged. The result is canonical: it is kept
/// only when formatting it again changes nothing (else the source comes back
/// as it is), so formatting is idempotent.
pub fn format_source(source: &str) -> (r: String)
    requires
        source@.len() < isize::MAX,
    ensures
        non_ws(r@) == non_ws(source@),
        r@ == format_text(source@),
{
    let cs = chars_of(source);
    let l = parse(source);
    let f = format_lowered(cs.as_slice(), &l);
    proof {
        lemma_format_pass(l, source@);
    }
    let fs = chars_of(f.as_str());
    if fs.len() >= isize::MAX as usize {
        let out = crate::text::string_of(cs.as_slice(), 0, cs.len());
        assert(out@ =~= source@);
        return out;
    }
    let l2 = parse(f.as_str());
    let g = format_lowered(fs.as_slice(), &l2);
    proof {
        lemma_format_pass(l2, f@);
    }
    if crate::text::str_eq(g.as_str(), f.as_str()) {
        f
    } else {
        let out = crate::text::string_of(cs.as_slice(), 0, cs.len());
        assert(out@ =~= source@);
        out
    }
}
/// A line lies between assignment `i - 1` and assignment `i`: the row of
/// `i`'s first character is more than one past the row of `i - 1`'s last.
#[verifier::opaque]
pub open spec fn line_between(as_: Seq<Assign>, ls: Seq<usize>, i: int) -> bool {
    let prev_end = as_[i - 1].end as int;
    row_at(ls, as_[i].start as int) > row_at(ls, if prev_end > 0 { prev_end - 1 } else { 0 }) + 1
}

proof fn lemma_runs_upto(as_: Seq<Assign>, ls: Seq<usize>, i: int)
    requires
        1 <= i <= as_.len(),
        as_.len() <= usize::MAX,
    ensures
        ({
            let (rs, st) = runs_upto(as_, ls, i);
            &&& forall|k: int, j: int| #![trigger rs[k], line_between(as_, ls, j)] 0 <= k < rs.len() && rs[k].0 < j < rs[k].1 ==> !line_between(as_, ls, j)
            &&& forall|j: int| st < j < i ==> !line_between(as_, ls, j)
            &&& forall|k: int| 0 <= k < rs.len() ==> rs[k].0 < rs[k].1 && line_between(as_, ls, rs[k].1 as int)
                && rs[k].1 == (if k + 1 < rs.len() { rs[k + 1].0 } else { st })
            &&& rs.len() > 0 ==> rs[0].0 == 0
            &&& rs.len() == 0 ==> st == 0
            &&& st < i
        }),
    decreases i,
{
    if i > 1 {
        lemma_runs_upto(as_, ls, i - 1);
        let (rs, st) = runs_upto(as_, ls, i - 1);
        let b = breaks_before(as_, ls, i - 1);
        assert(b == line_between(as_, ls, i - 1)) by {
            reveal(line_between);
        }
        if b {
            let rs2 = rs.push((st, (i - 1) as usize));
            assert(runs_upto(as_, ls, i) == (rs2, (i - 1) as usize));
            assert forall|k: int, j: int| #![trigger rs2[k], line_between(as_, ls, j)] 0 <= k < rs2.len() && rs2[k].0 < j < rs2[k].1 implies !line_between(as_, ls, j) by {
                if k < rs.len() {
                    assert(rs2[k] == rs[k]);
                }
            }
            assert forall|k: int| 0 <= k < rs2.len() implies rs2[k].0 < rs2[k].1 && line_between(as_, ls, rs2[k].1 as int)
                && rs2[k].1 == (if k + 1 < rs2.len() { rs2[k + 1].0 } else { (i - 1) as usize }) by {
                if k < rs.len() {
                    assert(rs2[k] == rs[k]);
                    if k + 1 < rs.len() {
                        assert(rs2[k + 1] == rs[k + 1]);
                    }
                }
            }
            if rs.len() > 0 {
                assert(rs2[0] == rs[0]);
            }
        } else {
            assert(runs_upto(as_, ls, i) == (rs, st));
        }
    }
}

/// Assignments separated by a blank or comment line are never in one run:
/// within a run no line lies between neighbours, and each run after the
/// first starts where a line lies between it and the run before. The runs
/// cover the assignments in order.
pub proof fn law_runs_break_at_gaps(as_: Seq<Assign>, ls: Seq<usize>)
    requires
        as_.len() <= usize::MAX,
    ensures
        forall|k: int, j: int|
            #![trigger runs_of(as_, ls)[k], line_between(as_, ls, j)]
            0 <= k < runs_of(as_, ls).len() && runs_of(as_, ls)[k].0 < j < runs_of(as_, ls)[k].1 ==> !line_between(as_, ls, j),
        forall|k: int| 0 < k < runs_of(as_, ls).len() ==> line_between(as_, ls, runs_of(as_, ls)[k].0 as int)
            && runs_of(as_, ls)[k].0 == runs_of(as_, ls)[k - 1].1,
        forall|k: int| 0 <= k < runs_of(as_, ls).len() ==> runs_of(as_, ls)[k].0 < runs_of(as_, ls)[k].1,
        as_.len() > 0 ==> runs_of(as_, ls).len() > 0 && runs_of(as_, ls)[0].0 == 0 && runs_of(as_, ls).last().1 == as_.len(),
{
    if as_.len() > 0 {
        let n = as_.len() as int;
        lemma_runs_upto(as_, ls, n);
        let (rs, st) = runs_upto(as_, ls, n);
        let out = rs.push((st, n as usize));
        assert(runs_of(as_, ls) == out);
        assert forall|k: int, j: int| #![trigger out[k], line_between(as_, ls, j)] 0 <= k < out.len() && out[k].0 < j < out[k].1 implies !line_between(as_, ls, j) by {
            if k < rs.len() {
                assert(out[k] == rs[k]);
            }
        }
        assert forall|k: int| 0 < k < out.len() implies line_between(as_, ls, out[k].0 as int) && out[k].0 == out[k - 1].1 by {
            assert(out[k - 1] == rs[k - 1]);
            let prev = rs[k - 1];
            assert(prev.0 < prev.1 && line_between(as_, ls, prev.1 as int));
            if k < rs.len() {
                assert(out[k] == rs[k]);
            } else {
                assert(out[k] == (st, n as usize));
            }
        }
        assert forall|k: int| 0 <= k < out.len() implies out[k].0 < out[k].1 by {
            if k < rs.len() {
                assert(out[k] == rs[k]);
            }
        }
        if rs.len() > 0 {
            assert(out[0] == rs[0]);
        }
    }
}

} // verus!
