//! Classification of the `[...]` amount text and of timer / temperature /
//! lag tokens into the structured forms in [`crate::ast`].

use vstd::prelude::*;
use crate::ast::{Amount, Term, Span, Temp, TempUnit, Timer, DurationRange, Duration, TimeUnit};
use crate::number::{
    Number, spec_parse_number, parse_number_in, find_char, find_in, trimmed, lemma_trimmed_sub,
    lemma_find_char,
};
use crate::text::{
    spec_is_alpha, is_alpha, trim_range, string_of, chars_of, skip_ws_fwd, skip_ws_forward,
    lemma_skip_fwd_bounds, push_char,
};

verus! {

/// The number written in `t`, as a [`Number`].
pub open spec fn spec_number(t: Seq<char>) -> Option<Number> {
    match spec_parse_number(t) {
        Some(v) => Some(Number { nanos: v as i128 }),
        None => None,
    }
}

/// Index of the first ASCII letter in `s`, or `s.len()`.
pub open spec fn find_alpha(s: Seq<char>) -> int
    decreases s.len(),
{
    if s.len() == 0 {
        0
    } else if spec_is_alpha(s[0]) {
        0
    } else {
        1 + find_alpha(s.drop_first())
    }
}

pub proof fn lemma_find_alpha(s: Seq<char>)
    ensures
        0 <= find_alpha(s) <= s.len(),
        forall|i: int| 0 <= i < find_alpha(s) ==> !spec_is_alpha(#[trigger] s[i]),
        find_alpha(s) < s.len() ==> spec_is_alpha(s[find_alpha(s)]),
    decreases s.len(),
{
    if s.len() > 0 && !spec_is_alpha(s[0]) {
        lemma_find_alpha(s.drop_first());
        assert forall|i: int| 0 <= i < find_alpha(s) implies !spec_is_alpha(#[trigger] s[i]) by {
            if i > 0 {
                assert(s[i] == s.drop_first()[i - 1]);
            }
        }
    }
}

/// What one `+`-separated term of an amount is (the text `s` is trimmed).
pub open spec fn term_is(t: Term, s: Seq<char>) -> bool {
    let pi = find_char(s, '%');
    if pi < s.len() {
        let rest = s.skip(pi + 1);
        let rest_t = rest.skip(skip_ws_fwd(rest, 0, rest.len() as int));
        let constituent = rest_t.len() > 0 && rest_t[0] == '*';
        let basis = if constituent {
            trimmed(rest_t.drop_first())
        } else {
            trimmed(rest_t)
        };
        t matches Term::Basis { percent, constituent: c, basis: b, raw } && percent == spec_number(
            s.take(pi),
        ) && c == constituent && b@ == basis && raw@ == s
    } else {
        let i = find_alpha(s);
        if i == 0 && s.len() > 0 {
            t matches Term::Measure { value, unit, raw } && value is None && unit is Some
                && unit->0@ == trimmed(s) && raw@ == s
        } else if i < s.len() {
            t matches Term::Measure { value, unit, raw } && value == spec_number(s.take(i))
                && unit is Some && unit->0@ == trimmed(s.skip(i)) && raw@ == s
        } else {
            t matches Term::Measure { value, unit, raw } && value == spec_number(s) && unit is None
                && raw@ == s
        }
    }
}

pub fn find_alpha_in(s: &[char], lo: usize, hi: usize) -> (r: usize)
    requires
        lo <= hi <= s@.len(),
    ensures
        lo <= r <= hi,
        r - lo == find_alpha(s@.subrange(lo as int, hi as int)),
{
    let ghost t = s@.subrange(lo as int, hi as int);
    proof {
        lemma_find_alpha(t);
    }
    let mut i = lo;
    while i < hi && !is_alpha(s[i])
        invariant
            lo <= i <= hi <= s@.len(),
            t == s@.subrange(lo as int, hi as int),
            forall|j: int| lo <= j < i ==> !spec_is_alpha(#[trigger] s@[j]),
        decreases hi - i,
    {
        i = i + 1;
    }
    proof {
        let f = find_alpha(t);
        if f < i - lo {
            assert(t[f] == s@[lo + f]);
        }
        if i < hi && f > i - lo {
            assert(t[i - lo] == s@[i as int]);
        }
    }
    i
}

/// Classifies one trimmed term `s[lo..hi]` (see [`term_is`]).
pub fn parse_term(s: &[char], lo: usize, hi: usize) -> (r: Term)
    requires
        lo <= hi <= s@.len(),
    ensures
        term_is(r, s@.subrange(lo as int, hi as int)),
{
    let ghost t = s@.subrange(lo as int, hi as int);
    let pi = find_in(s, lo, hi, '%');
    if pi < hi {
        let ghost rest = t.skip(pi - lo + 1);
        assert(rest == s@.subrange(pi + 1, hi as int));
        let r0 = skip_ws_forward(s, pi + 1, hi);
        proof {
            crate::number::lemma_skip_fwd_shift_pub(s@, pi + 1, hi as int, pi + 1, hi as int);
        }
        let ghost rest_t = rest.skip(skip_ws_fwd(rest, 0, rest.len() as int));
        assert(rest_t == s@.subrange(r0 as int, hi as int));
        let constituent = r0 < hi && s[r0] == '*';
        let b0 = if constituent {
            r0 + 1
        } else {
            r0
        };
        proof {
            if constituent {
                assert(rest_t.drop_first() == s@.subrange(b0 as int, hi as int));
            }
            lemma_trimmed_sub(s@, b0 as int, hi as int);
            assert(t.take(pi - lo) == s@.subrange(lo as int, pi as int));
        }
        let (ba, bb) = trim_range(s, b0, hi);
        let percent = parse_number_in(s, lo, pi);
        Term::Basis {
            percent,
            constituent,
            basis: string_of(s, ba, bb),
            raw: string_of(s, lo, hi),
        }
    } else {
        let i = find_alpha_in(s, lo, hi);
        if i == lo && lo < hi {
            proof {
                lemma_trimmed_sub(s@, lo as int, hi as int);
            }
            let (a, b) = trim_range(s, lo, hi);
            Term::Measure { value: None, unit: Some(string_of(s, a, b)), raw: string_of(s, lo, hi) }
        } else if i < hi {
            proof {
                lemma_trimmed_sub(s@, i as int, hi as int);
                assert(t.take(i - lo) == s@.subrange(lo as int, i as int));
                assert(t.skip(i - lo) == s@.subrange(i as int, hi as int));
            }
            let (a, b) = trim_range(s, i, hi);
            Term::Measure {
                value: parse_number_in(s, lo, i),
                unit: Some(string_of(s, a, b)),
                raw: string_of(s, lo, hi),
            }
        } else {
            Term::Measure { value: parse_number_in(s, lo, hi), unit: None, raw: string_of(s, lo, hi) }
        }
    }
}

/// The `+`-separated pieces of `t` (each untrimmed).
pub open spec fn split_plus(t: Seq<char>) -> Seq<Seq<char>>
    decreases t.len(),
{
    let k = find_char(t, '+');
    if k >= t.len() {
        seq![t]
    } else {
        proof {
            lemma_find_char(t, '+');
        }
        seq![t.take(k)] + split_plus(t.skip(k + 1))
    }
}

/// What an amount's text `raw` classifies to.
pub open spec fn amount_is(a: Amount, raw: Seq<char>, span: Span) -> bool {
    let t = trimmed(raw);
    if t == seq!['~'] {
        a == (Amount::ToTaste { span })
    } else if t == seq!['?'] {
        a == (Amount::Unquantified { span })
    } else {
        a matches Amount::Quantity { terms, raw: r, span: sp } && r@ == raw && sp == span
            && terms@.len() == split_plus(t).len() && forall|i: int|
            0 <= i < terms@.len() ==> term_is(#[trigger] terms@[i], trimmed(split_plus(t)[i]))
    }
}

proof fn lemma_split_plus_step(s: Seq<char>, a: int, k: int, b: int)
    requires
        0 <= a <= k < b <= s.len(),
        k - a == find_char(s.subrange(a, b), '+'),
    ensures
        split_plus(s.subrange(a, b)) == seq![s.subrange(a, k)] + split_plus(s.subrange(k + 1, b)),
{
    let t = s.subrange(a, b);
    assert(t.take(k - a) == s.subrange(a, k));
    assert(t.skip(k - a + 1) == s.subrange(k + 1, b));
}

/// Classifies the amount text `s[lo..hi]`.
pub fn parse_amount_in(s: &[char], lo: usize, hi: usize, span: Span) -> (r: Amount)
    requires
        lo <= hi <= s@.len(),
    ensures
        amount_is(r, s@.subrange(lo as int, hi as int), span),
{
    proof {
        lemma_trimmed_sub(s@, lo as int, hi as int);
    }
    let (a, b) = trim_range(s, lo, hi);
    let ghost t = s@.subrange(a as int, b as int);
    if b - a == 1 && s[a] == '~' {
        assert(t == seq!['~']);
        return Amount::ToTaste { span };
    }
    if b - a == 1 && s[a] == '?' {
        assert(t == seq!['?']);
        assert(seq!['?'][0] != seq!['~'][0]);
        return Amount::Unquantified { span };
    }
    assert(t != seq!['~'] && t != seq!['?']) by {
        if t.len() == 1 {
            assert(t[0] == s@[a as int]);
        }
    }
    let mut terms: Vec<Term> = Vec::new();
    let mut p = a;
    let ghost mut done: Seq<Seq<char>> = Seq::empty();
    loop
        invariant_except_break
            a <= p <= b <= s@.len(),
            t == s@.subrange(a as int, b as int),
            split_plus(t) == done + split_plus(s@.subrange(p as int, b as int)),
        invariant
            terms@.len() == done.len(),
            forall|i: int| 0 <= i < terms@.len() ==> term_is(#[trigger] terms@[i], trimmed(done[i])),
        ensures
            split_plus(t) == done,
        decreases b - p,
    {
        let k = find_in(s, p, b, '+');
        proof {
            lemma_trimmed_sub(s@, p as int, k as int);
        }
        let (ta, tb) = trim_range(s, p, k);
        let term = parse_term(s, ta, tb);
        terms.push(term);
        if k >= b {
            proof {
                assert(s@.subrange(p as int, k as int) == s@.subrange(p as int, b as int));
                done = done.push(s@.subrange(p as int, b as int));
                assert(split_plus(t) == done);
            }
            break;
        }
        proof {
            lemma_split_plus_step(s@, p as int, k as int, b as int);
            done = done.push(s@.subrange(p as int, k as int));
            assert(split_plus(t) == done + split_plus(s@.subrange(k + 1, b as int)));
        }
        p = k + 1;
    }
    Amount::Quantity { terms, raw: string_of(s, lo, hi), span }
}

/// Classifies the raw text between `[` and `]`.
pub fn parse_amount(raw: &str, span: Span) -> (r: Amount)
    ensures
        amount_is(r, raw@, span),
{
    let cs = chars_of(raw);
    assert(cs@.subrange(0, cs@.len() as int) == raw@);
    parse_amount_in(cs.as_slice(), 0, cs.len(), span)
}

/// What a `{350F}` / `{180C}` temperature token means.
pub open spec fn spec_temp(text: Seq<char>, span: Span) -> Option<Temp> {
    let x = trimmed(text);
    if x.len() < 2 || x[0] != '{' || x.last() != '}' {
        None
    } else {
        let inner = trimmed(x.subrange(1, x.len() - 1));
        if inner.len() == 0 {
            None
        } else {
            let u = inner.last();
            let unit = if u == 'F' || u == 'f' {
                Some(TempUnit::F)
            } else if u == 'C' || u == 'c' {
                Some(TempUnit::C)
            } else {
                None
            };
            match (unit, spec_number(inner.drop_last())) {
                (Some(un), Some(v)) => Some(Temp { value: v, unit: un, span }),
                _ => None,
            }
        }
    }
}

/// Parses a temperature token in `s[lo..hi]`.
pub fn parse_temp_in(s: &[char], lo: usize, hi: usize, span: Span) -> (r: Option<Temp>)
    requires
        lo <= hi <= s@.len(),
    ensures
        r == spec_temp(s@.subrange(lo as int, hi as int), span),
        r matches Some(t) ==> t.value.wf(),
{
    proof {
        lemma_trimmed_sub(s@, lo as int, hi as int);
    }
    let (a, b) = trim_range(s, lo, hi);
    let ghost x = s@.subrange(a as int, b as int);
    if b - a < 2 || s[a] != '{' || s[b - 1] != '}' {
        return None;
    }
    proof {
        assert(x.subrange(1, x.len() - 1) == s@.subrange(a + 1, b - 1));
        lemma_trimmed_sub(s@, a + 1, b - 1);
    }
    let (ia, ib) = trim_range(s, a + 1, b - 1);
    let ghost inner = s@.subrange(ia as int, ib as int);
    if ia == ib {
        return None;
    }
    let u = s[ib - 1];
    let unit = if u == 'F' || u == 'f' {
        TempUnit::F
    } else if u == 'C' || u == 'c' {
        TempUnit::C
    } else {
        return None;
    };
    assert(inner.drop_last() == s@.subrange(ia as int, ib - 1));
    match parse_number_in(s, ia, ib - 1) {
        Some(v) => Some(Temp { value: v, unit, span }),
        None => None,
    }
}

/// Parses a `{350F}` / `{180C}` temperature token.
pub fn parse_temp(text: &str, span: Span) -> (r: Option<Temp>)
    ensures
        r == spec_temp(text@, span),
{
    let cs = chars_of(text);
    assert(cs@.subrange(0, cs@.len() as int) == text@);
    parse_temp_in(cs.as_slice(), 0, cs.len(), span)
}

/// The time unit a letter names.
pub open spec fn spec_time_unit(c: char) -> Option<TimeUnit> {
    if c == 's' {
        Some(TimeUnit::S)
    } else if c == 'm' {
        Some(TimeUnit::M)
    } else if c == 'h' {
        Some(TimeUnit::H)
    } else if c == 'd' {
        Some(TimeUnit::D)
    } else {
        None
    }
}

pub fn parse_time_unit(c: char) -> (r: Option<TimeUnit>)
    ensures
        r == spec_time_unit(c),
{
    if c == 's' {
        Some(TimeUnit::S)
    } else if c == 'm' {
        Some(TimeUnit::M)
    } else if c == 'h' {
        Some(TimeUnit::H)
    } else if c == 'd' {
        Some(TimeUnit::D)
    } else {
        None
    }
}

/// What a timer body (`6-10m`, `12m`, `2-3h`) means: the unit letter comes
/// once, at the end; the low and optional high bounds are the first two
/// `-`-separated pieces.
pub open spec fn spec_duration_range(body: Seq<char>, span: Span) -> Option<DurationRange> {
    let b = trimmed(body);
    if b.len() == 0 {
        None
    } else {
        match spec_time_unit(b.last()) {
            None => None,
            Some(unit) => {
                let nums = b.drop_last();
                let k = find_char(nums, '-');
                match spec_number(nums.take(k)) {
                    None => None,
                    Some(lv) => {
                        let low = Duration { value: lv, unit };
                        if k < nums.len() {
                            let rest = nums.skip(k + 1);
                            match spec_number(rest.take(find_char(rest, '-'))) {
                                Some(hv) => Some(
                                    DurationRange {
                                        low,
                                        high: Some(Duration { value: hv, unit }),
                                        span,
                                    },
                                ),
                                None => None,
                            }
                        } else {
                            Some(DurationRange { low, high: None, span })
                        }
                    },
                }
            },
        }
    }
}

pub open spec fn range_wf(r: DurationRange) -> bool {
    &&& r.low.value.wf()
    &&& r.high matches Some(h) ==> h.value.wf()
}

pub fn parse_duration_range_in(s: &[char], lo: usize, hi: usize, span: Span) -> (r: Option<
    DurationRange,
>)
    requires
        lo <= hi <= s@.len(),
    ensures
        r == spec_duration_range(s@.subrange(lo as int, hi as int), span),
        r matches Some(d) ==> range_wf(d),
{
    proof {
        lemma_trimmed_sub(s@, lo as int, hi as int);
    }
    let (a, b) = trim_range(s, lo, hi);
    let ghost bs = s@.subrange(a as int, b as int);
    if a == b {
        return None;
    }
    let unit = match parse_time_unit(s[b - 1]) {
        Some(u) => u,
        None => {
            return None;
        },
    };
    let ghost nums = bs.drop_last();
    assert(nums == s@.subrange(a as int, b - 1));
    let k = find_in(s, a, b - 1, '-');
    assert(nums.take(k - a) == s@.subrange(a as int, k as int));
    let lv = match parse_number_in(s, a, k) {
        Some(v) => v,
        None => {
            return None;
        },
    };
    let low = Duration { value: lv, unit };
    if k < b - 1 {
        let ghost rest = nums.skip(k - a + 1);
        assert(rest == s@.subrange(k + 1, b - 1));
        let k2 = find_in(s, k + 1, b - 1, '-');
        assert(rest.take(k2 - k - 1) == s@.subrange(k + 1, k2 as int));
        match parse_number_in(s, k + 1, k2) {
            Some(hv) => Some(DurationRange { low, high: Some(Duration { value: hv, unit }), span }),
            None => None,
        }
    } else {
        Some(DurationRange { low, high: None, span })
    }
}

/// What a full timer token (`@3m`, `~6-10m`, `~?`) means.
pub open spec fn spec_timer(text: Seq<char>, span: Span) -> Option<Timer> {
    let t = trimmed(text);
    if t == seq!['~', '?'] {
        Some(Timer::Unbounded { span })
    } else if t.len() > 0 && t[0] == '@' {
        match spec_duration_range(t.drop_first(), span) {
            Some(r) => Some(Timer::Active(r)),
            None => None,
        }
    } else if t.len() > 0 && t[0] == '~' {
        match spec_duration_range(t.drop_first(), span) {
            Some(r) => Some(Timer::Passive(r)),
            None => None,
        }
    } else {
        None
    }
}

pub open spec fn timer_wf(t: Timer) -> bool {
    match t {
        Timer::Active(r) => range_wf(r),
        Timer::Passive(r) => range_wf(r),
        Timer::Unbounded { .. } => true,
    }
}

pub fn parse_timer_in(s: &[char], lo: usize, hi: usize, span: Span) -> (r: Option<Timer>)
    requires
        lo <= hi <= s@.len(),
    ensures
        r == spec_timer(s@.subrange(lo as int, hi as int), span),
        r matches Some(t) ==> timer_wf(t),
{
    proof {
        lemma_trimmed_sub(s@, lo as int, hi as int);
    }
    let (a, b) = trim_range(s, lo, hi);
    let ghost t = s@.subrange(a as int, b as int);
    if b - a == 2 && s[a] == '~' && s[a + 1] == '?' {
        assert(t == seq!['~', '?']);
        return Some(Timer::Unbounded { span });
    }
    assert(t != seq!['~', '?']) by {
        if t.len() == 2 {
            assert(t[0] == s@[a as int] && t[1] == s@[a + 1]);
        }
    }
    if a < b && s[a] == '@' {
        assert(t.drop_first() == s@.subrange(a + 1, b as int));
        match parse_duration_range_in(s, a + 1, b, span) {
            Some(r) => Some(Timer::Active(r)),
            None => None,
        }
    } else if a < b && s[a] == '~' {
        assert(t.drop_first() == s@.subrange(a + 1, b as int));
        match parse_duration_range_in(s, a + 1, b, span) {
            Some(r) => Some(Timer::Passive(r)),
            None => None,
        }
    } else {
        None
    }
}

/// Parses a full active/passive timer token (`@3m`, `~6-10m`, `~?`).
pub fn parse_timer(text: &str, span: Span) -> (r: Option<Timer>)
    ensures
        r == spec_timer(text@, span),
{
    let cs = chars_of(text);
    assert(cs@.subrange(0, cs@.len() as int) == text@);
    parse_timer_in(cs.as_slice(), 0, cs.len(), span)
}

/// What a `&lag(...)` duration means: a bare `0` is a zero duration; every
/// other duration carries a unit letter.
pub open spec fn spec_lag(text: Seq<char>) -> Option<Duration> {
    let t = trimmed(text);
    if t == seq!['0'] {
        Some(Duration { value: Number { nanos: 0 }, unit: TimeUnit::S })
    } else if t.len() == 0 {
        None
    } else {
        match (spec_time_unit(t.last()), spec_number(t.drop_last())) {
            (Some(u), Some(v)) => Some(Duration { value: v, unit: u }),
            _ => None,
        }
    }
}

pub fn parse_lag_in(s: &[char], lo: usize, hi: usize) -> (r: Option<Duration>)
    requires
        lo <= hi <= s@.len(),
    ensures
        r == spec_lag(s@.subrange(lo as int, hi as int)),
        r matches Some(d) ==> d.value.wf(),
{
    proof {
        lemma_trimmed_sub(s@, lo as int, hi as int);
    }
    let (a, b) = trim_range(s, lo, hi);
    let ghost t = s@.subrange(a as int, b as int);
    if b - a == 1 && s[a] == '0' {
        assert(t == seq!['0']);
        return Some(Duration { value: Number { nanos: 0 }, unit: TimeUnit::S });
    }
    assert(t != seq!['0']) by {
        if t.len() == 1 {
            assert(t[0] == s@[a as int]);
        }
    }
    if a == b {
        return None;
    }
    let u = match parse_time_unit(s[b - 1]) {
        Some(u) => u,
        None => {
            return None;
        },
    };
    assert(t.drop_last() == s@.subrange(a as int, b - 1));
    match parse_number_in(s, a, b - 1) {
        Some(v) => Some(Duration { value: v, unit: u }),
        None => None,
    }
}

/// Parses a `&lag(...)` duration: `5m`, `30s`, or a bare `0`.
pub fn parse_lag_duration(text: &str) -> (r: Option<Duration>)
    ensures
        r == spec_lag(text@),
{
    let cs = chars_of(text);
    assert(cs@.subrange(0, cs@.len() as int) == text@);
    parse_lag_in(cs.as_slice(), 0, cs.len())
}

/// `\"` escapes turned back into `"`.
pub open spec fn unescape(x: Seq<char>) -> Seq<char>
    decreases x.len(),
{
    if x.len() == 0 {
        x
    } else if x.len() >= 2 && x[0] == '\\' && x[1] == '"' {
        seq!['"'] + unescape(x.skip(2))
    } else {
        seq![x[0]] + unescape(x.drop_first())
    }
}

/// The text of a string literal: surrounding quotes stripped (when both are
/// there) and `\"` unescaped.
pub open spec fn spec_unquote(s: Seq<char>) -> Seq<char> {
    let t = trimmed(s);
    let inner = if t.len() >= 2 && t[0] == '"' && t.last() == '"' {
        t.subrange(1, t.len() - 1)
    } else {
        t
    };
    unescape(inner)
}

pub fn unquote_in(s: &[char], lo: usize, hi: usize) -> (r: String)
    requires
        lo <= hi <= s@.len(),
    ensures
        r@ == spec_unquote(s@.subrange(lo as int, hi as int)),
{
    proof {
        lemma_trimmed_sub(s@, lo as int, hi as int);
    }
    let (mut a, mut b) = trim_range(s, lo, hi);
    let ghost t = s@.subrange(a as int, b as int);
    if b - a >= 2 && s[a] == '"' && s[b - 1] == '"' {
        assert(t.subrange(1, t.len() - 1) == s@.subrange(a + 1, b - 1));
        a = a + 1;
        b = b - 1;
    }
    let ghost inner = s@.subrange(a as int, b as int);
    let mut out = String::new();
    let mut i = a;
    while i < b
        invariant
            a <= i <= b <= s@.len(),
            inner == s@.subrange(a as int, b as int),
            out@ + unescape(s@.subrange(i as int, b as int)) == unescape(inner),
        decreases b - i,
    {
        let ghost rest = s@.subrange(i as int, b as int);
        if i + 1 < b && s[i] == '\\' && s[i + 1] == '"' {
            assert(rest.skip(2) == s@.subrange(i + 2, b as int));
            push_char(&mut out, '"');
            i = i + 2;
        } else {
            assert(rest.drop_first() == s@.subrange(i + 1, b as int));
            push_char(&mut out, s[i]);
            i = i + 1;
        }
    }
    assert(s@.subrange(i as int, b as int).len() == 0);
    out
}

/// The text of a string literal.
pub fn unquote(s: &str) -> (r: String)
    ensures
        r@ == spec_unquote(s@),
{
    let cs = chars_of(s);
    assert(cs@.subrange(0, cs@.len() as int) == s@);
    unquote_in(cs.as_slice(), 0, cs.len())
}

} // verus!
