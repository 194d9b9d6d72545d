//! Exact decimal numbers.
//!
//! Amounts, percentages, temperatures and durations are decimal fixed-point
//! values with nine fractional digits (`nanos`), bounded by one billion in
//! magnitude, so every sum and product the library forms fits in an `i128`.
//! A number is written as an int, a decimal, a fraction or a mixed fraction:
//! `2`, `1.5`, `.5`, `1/2`, `1 1/2`.

use vstd::prelude::*;
use crate::text::{
    spec_is_digit, is_digit, trim_lo, trim_hi, trim_range, skip_ws_fwd, skip_ws_back,
    lemma_skip_fwd_bounds, lemma_skip_back_bounds,
};

verus! {

/// The largest magnitude (in nanos) that [`push_num`] formats: sums of any
/// number of in-range values stay below it.
pub const FMT_MAX: i128 = 100_000_000_000_000_000_000_000_000_000_000_000_000;

/// Nanos per unit.
pub const SCALE: i128 = 1_000_000_000;

/// Largest magnitude (in nanos) that a number may have: one billion units.
pub const NANOS_MAX: i128 = 1_000_000_000_000_000_000;

/// A decimal number with nine fractional digits: the value is `nanos / 10^9`.
#[derive(Clone, Copy, Debug, PartialEq, Eq)]
pub struct Number {
    pub nanos: i128,
}

impl Number {
    /// Whether the number lies within the library's range.
    pub open spec fn wf(self) -> bool {
        -NANOS_MAX <= self.nanos <= NANOS_MAX
    }

    /// A whole number of units.
    pub fn from_int(v: i64) -> (r: Number)
        requires
            -1_000_000_000 <= v <= 1_000_000_000,
        ensures
            r.nanos == v * SCALE,
            r.wf(),
    {
        Number { nanos: v as i128 * SCALE }
    }
}

pub open spec fn pow10(n: nat) -> int
    decreases n,
{
    if n == 0 {
        1
    } else {
        10 * pow10((n - 1) as nat)
    }
}

pub proof fn lemma_pow10_pos(n: nat)
    ensures
        pow10(n) >= 1,
    decreases n,
{
    if n > 0 {
        lemma_pow10_pos((n - 1) as nat);
    }
}

pub open spec fn digit_val(c: char) -> int {
    (c as int) - ('0' as int)
}

pub open spec fn all_digits(s: Seq<char>) -> bool {
    forall|i: int| 0 <= i < s.len() ==> spec_is_digit(#[trigger] s[i])
}

/// The value of a string of decimal digits.
pub open spec fn digits_val(s: Seq<char>) -> int
    decreases s.len(),
{
    if s.len() == 0 {
        0
    } else {
        digits_val(s.drop_last()) * 10 + digit_val(s.last())
    }
}

pub proof fn lemma_digits_val_nonneg(s: Seq<char>)
    requires
        all_digits(s),
    ensures
        digits_val(s) >= 0,
    decreases s.len(),
{
    if s.len() > 0 {
        lemma_digits_val_nonneg(s.drop_last());
    }
}

/// Extending a digit string never lowers its value.
pub proof fn lemma_digits_val_mono(s: Seq<char>, k: int)
    requires
        all_digits(s),
        0 <= k <= s.len(),
    ensures
        digits_val(s.take(k)) <= digits_val(s),
    decreases s.len(),
{
    if k < s.len() {
        assert(s.drop_last().take(k) == s.take(k));
        lemma_digits_val_mono(s.drop_last(), k);
        lemma_digits_val_nonneg(s.drop_last());
    } else {
        assert(s.take(k) == s);
    }
}

pub proof fn lemma_digits_val_bound(s: Seq<char>)
    requires
        all_digits(s),
    ensures
        digits_val(s) < pow10(s.len()),
    decreases s.len(),
{
    if s.len() > 0 {
        lemma_digits_val_bound(s.drop_last());
    }
}

/// Nine zero digits.
pub open spec fn zeros9() -> Seq<char> {
    Seq::new(9, |i: int| '0')
}

/// The first nine fractional digits of `f` (zero-padded), as nanos.
pub open spec fn frac_nanos(f: Seq<char>) -> int {
    digits_val(f.add(zeros9()).take(9))
}

pub proof fn lemma_pow10_mono(a: nat, b: nat)
    requires
        a <= b,
    ensures
        pow10(a) <= pow10(b),
    decreases b,
{
    if a < b {
        lemma_pow10_mono(a, (b - 1) as nat);
        lemma_pow10_pos((b - 1) as nat);
    }
}

/// Index of the first occurrence of `c` in `s`, or `s.len()`.
pub open spec fn find_char(s: Seq<char>, c: char) -> int
    decreases s.len(),
{
    if s.len() == 0 {
        0
    } else if s[0] == c {
        0
    } else {
        1 + find_char(s.drop_first(), c)
    }
}

pub proof fn lemma_find_char(s: Seq<char>, c: char)
    ensures
        0 <= find_char(s, c) <= s.len(),
        forall|i: int| 0 <= i < find_char(s, c) ==> s[i] != c,
        find_char(s, c) < s.len() ==> s[find_char(s, c)] == c,
    decreases s.len(),
{
    if s.len() > 0 && s[0] != c {
        lemma_find_char(s.drop_first(), c);
        assert forall|i: int| 0 <= i < find_char(s, c) implies s[i] != c by {
            if i > 0 {
                assert(s[i] == s.drop_first()[i - 1]);
            }
        }
    }
}

/// A plain decimal: an optional sign, digits, an optional `.` and digits,
/// with at least one digit. The result is in nanos (digits past the ninth
/// fractional place are dropped); `None` past one billion.
pub open spec fn spec_decimal(t: Seq<char>) -> Option<int> {
    let neg = t.len() > 0 && t[0] == '-';
    let body = if t.len() > 0 && (t[0] == '-' || t[0] == '+') {
        t.drop_first()
    } else {
        t
    };
    let k = find_char(body, '.');
    let ip = body.take(k);
    let fp = if k < body.len() {
        body.skip(k + 1)
    } else {
        Seq::<char>::empty()
    };
    let v = digits_val(ip) * SCALE + frac_nanos(fp);
    if !all_digits(ip) || !all_digits(fp) || ip.len() + fp.len() == 0 || v > NANOS_MAX {
        None
    } else if neg {
        Some(-v)
    } else {
        Some(v)
    }
}

/// The trimmed text of `s`.
pub open spec fn trimmed(s: Seq<char>) -> Seq<char> {
    s.subrange(trim_lo(s, 0, s.len() as int), trim_hi(s, 0, s.len() as int))
}

/// `n/d`: both sides trimmed plain decimals, `d` nonzero; the quotient is
/// truncated toward zero to whole nanos.
pub open spec fn spec_fraction(t: Seq<char>) -> Option<int> {
    let k = find_char(t, '/');
    if k >= t.len() {
        None
    } else {
        match (spec_decimal(trimmed(t.take(k))), spec_decimal(trimmed(t.skip(k + 1)))) {
            (Some(n), Some(d)) => {
                if d == 0 {
                    None
                } else {
                    let q = abs(n) * SCALE / abs(d);
                    let v = if (n < 0) != (d < 0) {
                        -q
                    } else {
                        q
                    };
                    if q > NANOS_MAX {
                        None
                    } else {
                        Some(v)
                    }
                }
            },
            _ => None,
        }
    }
}

pub open spec fn abs(x: int) -> int {
    if x < 0 {
        -x
    } else {
        x
    }
}

/// An int, decimal, fraction or mixed fraction (`1 1/2`), after trimming.
pub open spec fn spec_parse_number(s: Seq<char>) -> Option<int> {
    let t = trimmed(s);
    if t.len() == 0 {
        None
    } else {
        let k = find_char(t, ' ');
        let mixed = if k < t.len() {
            match (spec_decimal(trimmed(t.take(k))), spec_fraction(trimmed(t.skip(k + 1)))) {
                (Some(w), Some(f)) => {
                    if abs(w + f) <= NANOS_MAX {
                        Some(w + f)
                    } else {
                        None
                    }
                },
                _ => None,
            }
        } else {
            None
        };
        if mixed is Some {
            mixed
        } else if spec_fraction(t) is Some {
            spec_fraction(t)
        } else {
            spec_decimal(t)
        }
    }
}

/// Index of the first `c` in `s[lo..hi]` (or `hi`).
pub fn find_in(s: &[char], lo: usize, hi: usize, c: char) -> (r: usize)
    requires
        lo <= hi <= s@.len(),
    ensures
        lo <= r <= hi,
        r - lo == find_char(s@.subrange(lo as int, hi as int), c),
{
    let ghost t = s@.subrange(lo as int, hi as int);
    proof {
        lemma_find_char(t, c);
    }
    let mut i = lo;
    while i < hi && s[i] != c
        invariant
            lo <= i <= hi <= s@.len(),
            t == s@.subrange(lo as int, hi as int),
            forall|j: int| lo <= j < i ==> s@[j] != c,
        decreases hi - i,
    {
        i = i + 1;
    }
    proof {
        let f = find_char(t, c);
        if f < i - lo {
            assert(t[f] == s@[lo + f]);
        }
        if i < hi && f > i - lo {
            assert(t[i - lo] == s@[i as int]);
        }
    }
    i
}

proof fn lemma_digits_push(s: Seq<char>, c: char)
    ensures
        digits_val(s.push(c)) == digits_val(s) * 10 + digit_val(c),
{
    assert(s.push(c).drop_last() == s);
}

/// Whether `s[a..b]` is all decimal digits.
pub fn check_digits(s: &[char], a: usize, b: usize) -> (r: bool)
    requires
        a <= b <= s@.len(),
    ensures
        r == all_digits(s@.subrange(a as int, b as int)),
{
    let ghost t = s@.subrange(a as int, b as int);
    let mut j = a;
    while j < b
        invariant
            a <= j <= b <= s@.len(),
            t == s@.subrange(a as int, b as int),
            forall|q: int| a <= q < j ==> spec_is_digit(#[trigger] s@[q]),
        decreases b - j,
    {
        if !is_digit(s[j]) {
            assert(t[j - a] == s@[j as int]);
            return false;
        }
        j = j + 1;
    }
    assert forall|q: int| 0 <= q < t.len() implies spec_is_digit(#[trigger] t[q]) by {
        assert(t[q] == s@[a + q]);
    }
    true
}

/// The value of the digit string `s[a..b]` when it is at most one billion.
pub fn small_digits_value(s: &[char], a: usize, b: usize) -> (r: Option<i128>)
    requires
        a <= b <= s@.len(),
        all_digits(s@.subrange(a as int, b as int)),
    ensures
        match r {
            Some(v) => v == digits_val(s@.subrange(a as int, b as int)) && 0 <= v <= 1_000_000_000,
            None => digits_val(s@.subrange(a as int, b as int)) > 1_000_000_000,
        },
{
    let ghost ip = s@.subrange(a as int, b as int);
    let mut acc: i128 = 0;
    let mut i = a;
    while i < b
        invariant
            a <= i <= b <= s@.len(),
            ip == s@.subrange(a as int, b as int),
            all_digits(ip),
            acc == digits_val(ip.take(i - a)),
            0 <= acc <= 1_000_000_000,
        decreases b - i,
    {
        let c = s[i];
        proof {
            assert(ip[i - a] == c);
            assert(ip.take(i + 1 - a) == ip.take(i - a).push(c));
            lemma_digits_push(ip.take(i - a), c);
        }
        acc = acc * 10 + (c as i128 - '0' as i128);
        i = i + 1;
        if acc > 1_000_000_000 {
            proof {
                lemma_digits_val_mono(ip, i - a);
            }
            return None;
        }
    }
    assert(ip.take(i - a) == ip);
    Some(acc)
}

/// The first nine digits of `s[a..b]`, zero-padded, as nanos.
pub fn frac_value(s: &[char], a: usize, b: usize) -> (r: i128)
    requires
        a <= b <= s@.len(),
        all_digits(s@.subrange(a as int, b as int)),
    ensures
        r == frac_nanos(s@.subrange(a as int, b as int)),
        0 <= r < 1_000_000_000,
{
    let ghost fp = s@.subrange(a as int, b as int);
    let ghost padded = fp.add(zeros9()).take(9);
    let mut fr: i128 = 0;
    let mut p: usize = 0;
    while p < 9
        invariant
            p <= 9,
            a <= b <= s@.len(),
            fp == s@.subrange(a as int, b as int),
            all_digits(fp),
            padded == fp.add(zeros9()).take(9),
            fr == digits_val(padded.take(p as int)),
            0 <= fr < pow10(p as nat),
        decreases 9 - p,
    {
        let c = if p < b - a {
            s[a + p]
        } else {
            '0'
        };
        proof {
            assert(padded[p as int] == c);
            assert(padded.take(p + 1) == padded.take(p as int).push(c));
            lemma_digits_push(padded.take(p as int), c);
            lemma_pow10_mono((p + 1) as nat, 9);
            reveal_with_fuel(pow10, 10);
        }
        fr = fr * 10 + (c as i128 - '0' as i128);
        p = p + 1;
    }
    assert(padded.take(9) == padded);
    assert(pow10(9) == 1_000_000_000) by {
        reveal_with_fuel(pow10, 10);
    }
    fr
}

/// Parses `s[lo..hi]` as a plain decimal (see [`spec_decimal`]).
pub fn parse_decimal(s: &[char], lo: usize, hi: usize) -> (r: Option<i128>)
    requires
        lo <= hi <= s@.len(),
    ensures
        r == match spec_decimal(s@.subrange(lo as int, hi as int)) {
            Some(v) => Some(v as i128),
            None => None::<i128>,
        },
        r matches Some(v) ==> -NANOS_MAX <= v <= NANOS_MAX,
{
    let ghost t = s@.subrange(lo as int, hi as int);
    let mut b0 = lo;
    let mut neg = false;
    if lo < hi && (s[lo] == '-' || s[lo] == '+') {
        neg = s[lo] == '-';
        b0 = lo + 1;
    }
    let ghost body = s@.subrange(b0 as int, hi as int);
    assert(body == (if t.len() > 0 && (t[0] == '-' || t[0] == '+') {
        t.drop_first()
    } else {
        t
    }));
    let dot = find_in(s, b0, hi, '.');
    let ghost k = dot - b0;
    let ghost ip = body.take(k);
    assert(ip == s@.subrange(b0 as int, dot as int));
    let f0 = if dot < hi {
        dot + 1
    } else {
        dot
    };
    let ghost fp = if k < body.len() {
        body.skip(k + 1)
    } else {
        Seq::<char>::empty()
    };
    assert(fp == s@.subrange(f0 as int, hi as int));
    if !check_digits(s, b0, dot) || !check_digits(s, f0, hi) || dot - b0 + (hi - f0) == 0 {
        return None;
    }
    let fr = frac_value(s, f0, hi);
    let acc = match small_digits_value(s, b0, dot) {
        Some(v) => v,
        None => {
            return None;
        },
    };
    let v = acc * SCALE + fr;
    if v > NANOS_MAX {
        return None;
    }
    if neg {
        Some(-v)
    } else {
        Some(v)
    }
}

pub proof fn lemma_skip_fwd_shift_pub(s: Seq<char>, a: int, b: int, lo: int, hi: int)
    requires
        0 <= a <= lo <= hi <= b <= s.len(),
    ensures
        skip_ws_fwd(s.subrange(a, b), lo - a, hi - a) == skip_ws_fwd(s, lo, hi) - a,
{
    lemma_skip_fwd_shift(s, a, b, lo, hi);
}

proof fn lemma_skip_fwd_shift(s: Seq<char>, a: int, b: int, lo: int, hi: int)
    requires
        0 <= a <= lo <= hi <= b <= s.len(),
    ensures
        skip_ws_fwd(s.subrange(a, b), lo - a, hi - a) == skip_ws_fwd(s, lo, hi) - a,
    decreases hi - lo,
{
    if lo < hi {
        assert(s.subrange(a, b)[lo - a] == s[lo]);
        lemma_skip_fwd_shift(s, a, b, lo + 1, hi);
    }
}

proof fn lemma_skip_back_shift(s: Seq<char>, a: int, b: int, lo: int, hi: int)
    requires
        0 <= a <= lo <= hi <= b <= s.len(),
    ensures
        skip_ws_back(s.subrange(a, b), lo - a, hi - a) == skip_ws_back(s, lo, hi) - a,
    decreases hi - lo,
{
    if lo < hi {
        assert(s.subrange(a, b)[hi - 1 - a] == s[hi - 1]);
        lemma_skip_back_shift(s, a, b, lo, hi - 1);
    }
}

/// Trimming a subrange is the subrange between the trimmed bounds.
pub proof fn lemma_trimmed_sub(s: Seq<char>, a: int, b: int)
    requires
        0 <= a <= b <= s.len(),
    ensures
        a <= trim_lo(s, a, b) <= trim_hi(s, a, b) <= b,
        trimmed(s.subrange(a, b)) == s.subrange(trim_lo(s, a, b), trim_hi(s, a, b)),
{
    let x = s.subrange(a, b);
    lemma_skip_fwd_shift(s, a, b, a, b);
    lemma_skip_fwd_bounds(s, a, b);
    let l = skip_ws_fwd(s, a, b);
    lemma_skip_back_shift(s, a, b, l, b);
    lemma_skip_back_bounds(s, l, b);
    assert(trim_lo(x, 0, x.len() as int) == l - a);
    assert(trim_hi(x, 0, x.len() as int) == skip_ws_back(s, l, b) - a);
    assert(trimmed(x) == s.subrange(trim_lo(s, a, b), trim_hi(s, a, b)));
}

/// Parses a trimmed `n/d` in `s[lo..hi]` (see [`spec_fraction`]).
pub fn parse_fraction(s: &[char], lo: usize, hi: usize) -> (r: Option<i128>)
    requires
        lo <= hi <= s@.len(),
    ensures
        r == match spec_fraction(s@.subrange(lo as int, hi as int)) {
            Some(v) => Some(v as i128),
            None => None::<i128>,
        },
        r matches Some(v) ==> -NANOS_MAX <= v <= NANOS_MAX,
{
    let ghost t = s@.subrange(lo as int, hi as int);
    let k = find_in(s, lo, hi, '/');
    if k >= hi {
        return None;
    }
    proof {
        assert(t.take(k - lo) == s@.subrange(lo as int, k as int));
        assert(t.skip(k - lo + 1) == s@.subrange(k + 1, hi as int));
        lemma_trimmed_sub(s@, lo as int, k as int);
        lemma_trimmed_sub(s@, k + 1, hi as int);
        lemma_decimal_bounded(trimmed(t.take(k - lo)));
        lemma_decimal_bounded(trimmed(t.skip(k - lo + 1)));
    }
    let (na, nb) = trim_range(s, lo, k);
    let (da, db) = trim_range(s, k + 1, hi);
    let n = match parse_decimal(s, na, nb) {
        Some(v) => v,
        None => {
            return None;
        },
    };
    let d = match parse_decimal(s, da, db) {
        Some(v) => v,
        None => {
            return None;
        },
    };
    if d == 0 {
        return None;
    }
    let an = if n < 0 {
        -n
    } else {
        n
    };
    let ad = if d < 0 {
        -d
    } else {
        d
    };
    assert(an * SCALE <= NANOS_MAX * SCALE) by (nonlinear_arith)
        requires
            0 <= an <= NANOS_MAX,
    ;
    let q = an * SCALE / ad;
    if q > NANOS_MAX {
        return None;
    }
    if (n < 0) != (d < 0) {
        Some(-q)
    } else {
        Some(q)
    }
}

/// Parses an int / decimal / fraction / mixed fraction from `s[lo..hi]`
/// (see [`spec_parse_number`]); the result is in nanos.
pub fn parse_number_nanos(s: &[char], lo: usize, hi: usize) -> (r: Option<i128>)
    requires
        lo <= hi <= s@.len(),
    ensures
        r == match spec_parse_number(s@.subrange(lo as int, hi as int)) {
            Some(v) => Some(v as i128),
            None => None::<i128>,
        },
        r matches Some(v) ==> -NANOS_MAX <= v <= NANOS_MAX,
{
    let ghost x = s@.subrange(lo as int, hi as int);
    proof {
        lemma_trimmed_sub(s@, lo as int, hi as int);
    }
    let (a, b) = trim_range(s, lo, hi);
    let ghost t = s@.subrange(a as int, b as int);
    assert(trimmed(x) == t);
    if a == b {
        return None;
    }
    proof {
        lemma_decimal_bounded(t);
    }
    let k = find_in(s, a, b, ' ');
    let mut mixed: Option<i128> = None;
    if k < b {
        proof {
            assert(t.take(k - a) == s@.subrange(a as int, k as int));
            assert(t.skip(k - a + 1) == s@.subrange(k + 1, b as int));
            lemma_trimmed_sub(s@, a as int, k as int);
            lemma_trimmed_sub(s@, k + 1, b as int);
            lemma_decimal_bounded(trimmed(t.take(k - a)));
        }
        let (wa, wb) = trim_range(s, a, k);
        let (fa, fb) = trim_range(s, k + 1, b);
        match (parse_decimal(s, wa, wb), parse_fraction(s, fa, fb)) {
            (Some(w), Some(f)) => {
                let sum = w + f;
                if -NANOS_MAX <= sum && sum <= NANOS_MAX {
                    mixed = Some(sum);
                }
            },
            _ => {},
        }
    }
    if mixed.is_some() {
        return mixed;
    }
    match parse_fraction(s, a, b) {
        Some(f) => Some(f),
        None => parse_decimal(s, a, b),
    }
}

/// Parses a number written in `s[lo..hi]`.
pub fn parse_number_in(s: &[char], lo: usize, hi: usize) -> (r: Option<Number>)
    requires
        lo <= hi <= s@.len(),
    ensures
        match spec_parse_number(s@.subrange(lo as int, hi as int)) {
            Some(v) => r == Some(Number { nanos: v as i128 }) && r.unwrap().wf(),
            None => r is None,
        },
{
    match parse_number_nanos(s, lo, hi) {
        Some(v) => {
            proof {
                lemma_parse_number_bounded(s@.subrange(lo as int, hi as int));
            }
            Some(Number { nanos: v })
        },
        None => None,
    }
}

pub proof fn lemma_decimal_bounded(t: Seq<char>)
    ensures
        spec_decimal(t) matches Some(v) ==> -NANOS_MAX <= v <= NANOS_MAX,
{
    let body = if t.len() > 0 && (t[0] == '-' || t[0] == '+') {
        t.drop_first()
    } else {
        t
    };
    let k = find_char(body, '.');
    let ip = body.take(k);
    let fp = if k < body.len() {
        body.skip(k + 1)
    } else {
        Seq::<char>::empty()
    };
    if all_digits(ip) && all_digits(fp) {
        lemma_digits_val_nonneg(ip);
        assert(all_digits(fp.add(zeros9()).take(9)));
        lemma_digits_val_nonneg(fp.add(zeros9()).take(9));
    }
}

/// Every parsed number lies within the library's range.
pub proof fn lemma_parse_number_bounded(s: Seq<char>)
    ensures
        spec_parse_number(s) matches Some(v) ==> -NANOS_MAX <= v <= NANOS_MAX,
{
    let t = trimmed(s);
    lemma_decimal_bounded(t);
}

/// Parses an int / decimal / fraction / mixed fraction: `2`, `1.5`, `.5`,
/// `1/2`, `1 1/2`.
pub fn parse_number(s: &str) -> (r: Option<Number>)
    ensures
        match spec_parse_number(s@) {
            Some(v) => r == Some(Number { nanos: v as i128 }),
            None => r is None,
        },
{
    let cs = crate::text::chars_of(s);
    assert(cs@.subrange(0, cs@.len() as int) == s@);
    parse_number_in(cs.as_slice(), 0, cs.len())
}

/// The decimal digits of `n` (no sign, no leading zeros; `0` is "0").
pub open spec fn spec_nat_str(n: nat) -> Seq<char>
    decreases n,
{
    if n < 10 {
        seq![digit_char(n)]
    } else {
        spec_nat_str(n / 10).push(digit_char(n % 10))
    }
}

pub open spec fn digit_char(d: nat) -> char {
    (('0' as nat) + d) as char
}

pub fn digit_to_char(d: u128) -> (c: char)
    requires
        d < 10,
    ensures
        c == digit_char(d as nat),
{
    if d == 0 { '0' } else if d == 1 { '1' } else if d == 2 { '2' } else if d == 3 { '3' }
    else if d == 4 { '4' } else if d == 5 { '5' } else if d == 6 { '6' } else if d == 7 { '7' }
    else if d == 8 { '8' } else { '9' }
}

/// Appends the decimal digits of `n`.
pub fn push_nat(out: &mut String, n: u128)
    ensures
        final(out)@ == old(out)@ + spec_nat_str(n as nat),
    decreases n,
{
    if n < 10 {
        crate::text::push_char(out, digit_to_char(n));
    } else {
        push_nat(out, n / 10);
        crate::text::push_char(out, digit_to_char(n % 10));
    }
}

/// A whole number as text (with a leading `-` when negative).
pub open spec fn spec_int_str(v: int) -> Seq<char> {
    if v < 0 {
        seq!['-'] + spec_nat_str((-v) as nat)
    } else {
        spec_nat_str(v as nat)
    }
}

pub fn push_int(out: &mut String, v: i128)
    requires
        v > i128::MIN,
    ensures
        final(out)@ == old(out)@ + spec_int_str(v as int),
{
    if v < 0 {
        crate::text::push_char(out, '-');
        push_nat(out, (-v) as u128);
    } else {
        push_nat(out, v as u128);
    }
}

/// `v / 1000` rounded half away from zero.
pub open spec fn round_div(v: int, d: int) -> int {
    if v >= 0 {
        (v + d / 2) / d
    } else {
        -((-v + d / 2) / d)
    }
}

/// Three fractional digits with trailing zeros dropped (`f` in `1..1000`).
pub open spec fn spec_frac3(f: nat) -> Seq<char> {
    if f % 100 == 0 {
        seq![digit_char(f / 100)]
    } else if f % 10 == 0 {
        seq![digit_char(f / 100), digit_char((f / 10) % 10)]
    } else {
        seq![digit_char(f / 100), digit_char((f / 10) % 10), digit_char(f % 10)]
    }
}

/// A number as a table shows it: whole numbers without a fraction, others
/// rounded to three decimals with trailing zeros dropped (`400`, `0.5`,
/// `1.333`).
pub open spec fn spec_num_str(x: Number) -> Seq<char> {
    if x.nanos % SCALE == 0 {
        spec_int_str(x.nanos / SCALE)
    } else {
        let m = round_div(x.nanos as int, 1_000_000);
        let a = abs(m);
        let sign = if m < 0 {
            seq!['-']
        } else {
            Seq::<char>::empty()
        };
        if a % 1000 == 0 {
            sign + spec_nat_str((a / 1000) as nat)
        } else {
            sign + spec_nat_str((a / 1000) as nat) + seq!['.'] + spec_frac3((a % 1000) as nat)
        }
    }
}

/// Appends a number as [`spec_num_str`] writes it.
#[verifier::rlimit(60)]
pub fn push_num(out: &mut String, x: Number)
    ensures
        final(out)@ == old(out)@ + spec_num_str(x),
{
    let n = x.nanos;
    if n % SCALE == 0 {
        push_int(out, n / SCALE);
        return;
    }
    // |n| and its rounding to thousandths, in u128 so nothing overflows
    let mag: u128 = if n >= 0 {
        n as u128
    } else {
        ((-(n + 1)) as u128) + 1
    };
    assert(mag == abs(n as int));
    let a: u128 = (mag + 500_000) / 1_000_000;
    proof {
        let m = round_div(n as int, 1_000_000);
        assert(abs(m) == a);
    }
    if n < 0 && a > 0 {
        crate::text::push_char(out, '-');
    }
    push_nat(out, a / 1000);
    let f = a % 1000;
    if f != 0 {
        crate::text::push_char(out, '.');
        crate::text::push_char(out, digit_to_char(f / 100));
        if f % 100 != 0 {
            crate::text::push_char(out, digit_to_char((f / 10) % 10));
            if f % 10 != 0 {
                crate::text::push_char(out, digit_to_char(f % 10));
            }
        }
    }
    assert(final(out)@ == old(out)@ + spec_num_str(x)) by {
        assert(seq!['-'] + Seq::<char>::empty() == seq!['-']);
    }
}

/// A number as text (see [`spec_num_str`]).
pub fn num_string(x: Number) -> (r: String)
    ensures
        r@ == spec_num_str(x),
{
    let mut out = String::new();
    push_num(&mut out, x);
    out
}

/// A decimal without a leading sign is not negative.
pub proof fn lemma_decimal_nonneg(t: Seq<char>)
    requires
        t.len() > 0 ==> t[0] != '-',
    ensures
        spec_decimal(t) matches Some(v) ==> v >= 0,
{
    let body = if t.len() > 0 && (t[0] == '-' || t[0] == '+') {
        t.drop_first()
    } else {
        t
    };
    let k = find_char(body, '.');
    let ip = body.take(k);
    let fp = if k < body.len() {
        body.skip(k + 1)
    } else {
        Seq::<char>::empty()
    };
    if all_digits(ip) && all_digits(fp) {
        lemma_digits_val_nonneg(ip);
        let padded = fp.add(zeros9()).take(9);
        assert forall|i: int| 0 <= i < padded.len() implies spec_is_digit(#[trigger] padded[i]) by {
            if i < fp.len() {
                assert(padded[i] == fp[i]);
            } else {
                assert(padded[i] == zeros9()[i - fp.len()]);
            }
        }
        lemma_digits_val_nonneg(padded);
    }
}

/// The digits of a fraction `f / (10 * d)` from the digit of `d` on, up to
/// its last nonzero digit.
pub open spec fn frac_s(f: nat, d: nat) -> Seq<char>
    decreases d,
{
    if d == 0 || f == 0 {
        Seq::empty()
    } else {
        seq![digit_char(f / d)] + frac_s(f % d, d / 10)
    }
}

/// A number written out in full, as a message shows it: the whole part,
/// then the fraction's digits without trailing zeros (`3`, `1.5`, `0.05`,
/// `-2.125`).
pub open spec fn spec_exact_str(x: Number) -> Seq<char> {
    let a = abs(x.nanos as int);
    let sign = if x.nanos < 0 {
        seq!['-']
    } else {
        Seq::<char>::empty()
    };
    let whole = sign + spec_nat_str((a / 1_000_000_000) as nat);
    if a % 1_000_000_000 == 0 {
        whole
    } else {
        whole + seq!['.'] + frac_s((a % 1_000_000_000) as nat, 100_000_000)
    }
}

/// Appends a number as [`spec_exact_str`] writes it.
pub fn push_exact(out: &mut String, x: Number)
    requires
        x.nanos > i128::MIN,
    ensures
        final(out)@ == old(out)@ + spec_exact_str(x),
{
    let ghost start = old(out)@;
    let n = x.nanos;
    let a: u128 = if n < 0 {
        crate::text::push_char(out, '-');
        (-n) as u128
    } else {
        n as u128
    };
    assert(a as int == abs(x.nanos as int));
    push_nat(out, a / 1_000_000_000);
    let ghost whole = out@;
    if a % 1_000_000_000 == 0 {
        return;
    }
    crate::text::push_char(out, '.');
    let ghost f0 = (a % 1_000_000_000) as nat;
    let mut f: u128 = a % 1_000_000_000;
    let mut d: u128 = 100_000_000;
    assert(out@ + frac_s(f as nat, d as nat) == whole + seq!['.'] + frac_s(f0, 100_000_000));
    while d > 0 && f > 0
        invariant
            d <= 100_000_000,
            d > 0 ==> f < 10 * d,
            d == 100_000_000 || d == 10_000_000 || d == 1_000_000 || d == 100_000 || d == 10_000 || d == 1000
                || d == 100 || d == 10 || d == 1 || d == 0,
            out@ + frac_s(f as nat, d as nat) == whole + seq!['.'] + frac_s(f0, 100_000_000),
        decreases d,
    {
        let ghost before = out@;
        assert(f / d < 10) by (nonlinear_arith)
            requires f < 10 * d, d > 0;
        assert(f % d < d) by (nonlinear_arith)
            requires d > 0;
        let q = f / d;
        crate::text::push_char(out, digit_to_char(q));
        assert(frac_s(f as nat, d as nat) == seq![digit_char(q as nat)] + frac_s((f % d) as nat, (d / 10) as nat));
        assert(out@ + frac_s((f % d) as nat, (d / 10) as nat) == before + frac_s(f as nat, d as nat));
        f = f % d;
        d = d / 10;
    }
    assert(frac_s(f as nat, d as nat) =~= Seq::<char>::empty());
    assert(out@ =~= whole + seq!['.'] + frac_s(f0, 100_000_000));
}

} // verus!
