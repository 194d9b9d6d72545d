//! Scaling a recipe, source to source: which spans a scaled recipe
//! rewrites, how `serves` / `yields` numbers scale, and how the rewrites are
//! spliced into the source.
//!
//! Ingredient and sub-recipe amounts are rewritten with unit rollup, the
//! `basis` amount in its own unit; `%` / `%*` amounts are never targets
//! (they are relative, so scaling the basis scales them). Everything else
//! passes through unchanged.

use vstd::prelude::*;
use crate::ast::{Amount, Arg, Call, Expr, File, Meta, Recipe, Span, Term};
use crate::basis::unit_view;
use crate::units::{scale_of_text, scale_of_unit};
use crate::parse::Lowered;
use crate::number::{NANOS_MAX, Number, SCALE};
use crate::text::{push_char, push_str, spec_is_ws};
use crate::uses::derefs;

verus! {

/// Something a scaled recipe rewrites.
#[derive(Debug)]
pub enum Target<'a> {
    /// A `basis` amount: scaled in its own unit.
    Basis(&'a Amount),
    /// An ingredient or sub-recipe amount: scaled with unit rollup.
    Amount(&'a Amount),
    /// A `serves` / `yields` line: its numbers scale.
    Meta(&'a Meta),
}

/// The ingredient amounts among the arguments, nested calls in place.
pub open spec fn args_amounts(args: Seq<Arg>) -> Seq<Amount>
    decreases args,
{
    if args.len() == 0 {
        Seq::empty()
    } else {
        let prev = args_amounts(args.drop_last());
        match args.last() {
            Arg::Call(cc) => prev + args_amounts(cc.args@),
            Arg::Ingredient(i) => prev.push(i.amount),
            _ => prev,
        }
    }
}

/// The scalable amounts of a binding's value.
pub open spec fn expr_amounts(e: Expr) -> Seq<Amount> {
    match e {
        Expr::Call(c) => args_amounts(c.args@),
        Expr::SubRef(s) => match s.amount {
            Some(a) => seq![a],
            None => Seq::empty(),
        },
        Expr::NodeRef(_) => Seq::empty(),
    }
}

pub open spec fn bindings_amounts(bs: Seq<crate::ast::Binding>, k: int) -> Seq<Amount>
    decreases k,
{
    if k <= 0 || k > bs.len() {
        Seq::empty()
    } else {
        bindings_amounts(bs, k - 1) + expr_amounts(bs[k - 1].value)
    }
}

/// Whether a metadata line holds a serving count.
pub open spec fn is_serving_key(k: Seq<char>) -> bool {
    k == "serves"@ || k == "yields"@
}

pub open spec fn serving_metas(ms: Seq<Meta>, k: int) -> Seq<Meta>
    decreases k,
{
    if k <= 0 || k > ms.len() {
        Seq::empty()
    } else if is_serving_key(ms[k - 1].key@) {
        serving_metas(ms, k - 1).push(ms[k - 1])
    } else {
        serving_metas(ms, k - 1)
    }
}

/// The view of a target: its kind (0 basis, 1 amount, 2 metadata) and what
/// it points to.
pub open spec fn target_view(t: Target) -> (int, Option<Amount>, Option<Meta>) {
    match t {
        Target::Basis(a) => (0, Some(*a), None),
        Target::Amount(a) => (1, Some(*a), None),
        Target::Meta(m) => (2, None, Some(*m)),
    }
}

pub open spec fn targets_view(ts: Seq<Target>) -> Seq<(int, Option<Amount>, Option<Meta>)> {
    Seq::new(ts.len(), |i: int| target_view(ts[i]))
}

/// What a recipe's scaling rewrites, in order: the bases, the amounts of
/// each binding's value, then the serving lines.
pub open spec fn spec_targets(r: Recipe) -> Seq<(int, Option<Amount>, Option<Meta>)> {
    let bs = r.bases@;
    let am = bindings_amounts(r.bindings@, r.bindings@.len() as int);
    let ms = serving_metas(r.meta@, r.meta@.len() as int);
    Seq::new(bs.len(), |i: int| (0int, Some(bs[i].amount), None::<Meta>)) + Seq::new(
        am.len(),
        |i: int| (1int, Some(am[i]), None::<Meta>),
    ) + Seq::new(ms.len(), |i: int| (2int, None::<Amount>, Some(ms[i])))
}

proof fn lemma_targets_push(s: Seq<Target>, x: Target)
    ensures
        targets_view(s.push(x)) == targets_view(s).push(target_view(x)),
{
    assert(targets_view(s.push(x)) =~= targets_view(s).push(target_view(x)));
}

fn push_args_amounts<'a>(args: &'a Vec<Arg>, out: &mut Vec<Target<'a>>)
    ensures
        targets_view(final(out)@) == targets_view(old(out)@) + Seq::new(
            args_amounts(args@).len(),
            |i: int| (1int, Some(args_amounts(args@)[i]), None::<Meta>),
        ),
    decreases args@,
{
    let ghost o0 = targets_view(out@);
    let mut i: usize = 0;
    while i < args.len()
        invariant
            i <= args@.len(),
            targets_view(out@) == o0 + Seq::new(
                args_amounts(args@.take(i as int)).len(),
                |k: int| (1int, Some(args_amounts(args@.take(i as int))[k]), None::<Meta>),
            ),
        decreases args@.len() - i,
    {
        let ghost t = args@.take(i + 1);
        assert(t.drop_last() =~= args@.take(i as int));
        let ghost before = targets_view(out@);
        let ghost prev = args_amounts(args@.take(i as int));
        match &args[i] {
            Arg::Call(cc) => {
                assert(decreases_to!(args@ => cc.args@)) by {
                    assert(decreases_to!(args@ => args@[i as int]));
                }
                push_args_amounts(&cc.args, out);
                assert(args_amounts(t) == prev + args_amounts(cc.args@));
            },
            Arg::Ingredient(g) => {
                proof {
                    lemma_targets_push(out@, Target::Amount(&g.amount));
                }
                out.push(Target::Amount(&g.amount));
                assert(args_amounts(t) == prev.push(g.amount));
            },
            _ => {
                assert(args_amounts(t) == prev);
            },
        }
        assert(targets_view(out@) =~= o0 + Seq::new(
            args_amounts(t).len(),
            |k: int| (1int, Some(args_amounts(t)[k]), None::<Meta>),
        ));
        i = i + 1;
    }
    assert(args@.take(args@.len() as int) =~= args@);
}

/// What scaling a recipe rewrites (see [`spec_targets`]).
pub fn scale_targets<'a>(r: &'a Recipe) -> (ts: Vec<Target<'a>>)
    ensures
        targets_view(ts@) == spec_targets(*r),
{
    let mut out: Vec<Target<'a>> = Vec::new();
    let mut i: usize = 0;
    while i < r.bases.len()
        invariant
            i <= r.bases@.len(),
            targets_view(out@) == Seq::new(i as nat, |k: int| (0int, Some(r.bases@[k].amount), None::<Meta>)),
        decreases r.bases@.len() - i,
    {
        proof {
            lemma_targets_push(out@, Target::Basis(&r.bases[i as int].amount));
        }
        out.push(Target::Basis(&r.bases[i].amount));
        assert(targets_view(out@) =~= Seq::new((i + 1) as nat, |k: int| (0int, Some(r.bases@[k].amount), None::<Meta>)));
        i = i + 1;
    }
    let ghost o1 = targets_view(out@);
    let mut j: usize = 0;
    while j < r.bindings.len()
        invariant
            j <= r.bindings@.len(),
            targets_view(out@) == o1 + Seq::new(
                bindings_amounts(r.bindings@, j as int).len(),
                |k: int| (1int, Some(bindings_amounts(r.bindings@, j as int)[k]), None::<Meta>),
            ),
        decreases r.bindings@.len() - j,
    {
        let ghost prev = bindings_amounts(r.bindings@, j as int);
        let ghost before = targets_view(out@);
        match &r.bindings[j].value {
            Expr::Call(c) => {
                push_args_amounts(&c.args, &mut out);
            },
            Expr::SubRef(s) => match &s.amount {
                Some(a) => {
                    proof {
                        lemma_targets_push(out@, Target::Amount(a));
                    }
                    out.push(Target::Amount(a));
                },
                None => {},
            },
            Expr::NodeRef(_) => {},
        }
        let ghost next = bindings_amounts(r.bindings@, j + 1);
        assert(next == prev + expr_amounts(r.bindings@[j as int].value));
        assert(targets_view(out@) =~= o1 + Seq::new(
            next.len(),
            |k: int| (1int, Some(next[k]), None::<Meta>),
        ));
        j = j + 1;
    }
    let ghost o2 = targets_view(out@);
    let mut k: usize = 0;
    while k < r.meta.len()
        invariant
            k <= r.meta@.len(),
            targets_view(out@) == o2 + Seq::new(
                serving_metas(r.meta@, k as int).len(),
                |q: int| (2int, None::<Amount>, Some(serving_metas(r.meta@, k as int)[q])),
            ),
        decreases r.meta@.len() - k,
    {
        let m = &r.meta[k];
        let key = m.key.as_str();
        if crate::text::str_eq(key, "serves") || crate::text::str_eq(key, "yields") {
            proof {
                lemma_targets_push(out@, Target::Meta(m));
            }
            out.push(Target::Meta(m));
        }
        let ghost next = serving_metas(r.meta@, k + 1);
        assert(targets_view(out@) =~= o2 + Seq::new(
            next.len(),
            |q: int| (2int, None::<Amount>, Some(next[q])),
        ));
        k = k + 1;
    }
    assert(targets_view(out@) =~= spec_targets(*r));
    out
}

/// Whether a character can be part of a number token.
pub open spec fn num_char(c: char) -> bool {
    ('0' <= c && c <= '9') || c == '.'
}

/// Whether a number token starts at `i`: a digit, or a `.` before a digit.
pub open spec fn token_start(s: Seq<char>, i: int) -> bool {
    ('0' <= s[i] && s[i] <= '9') || (s[i] == '.' && i + 1 < s.len() && '0' <= s[i + 1] && s[i + 1] <= '9')
}

/// The end of the run of number characters from `i`.
pub open spec fn token_end(s: Seq<char>, i: int) -> int
    decreases s.len() - i,
{
    if i < 0 || i >= s.len() || !num_char(s[i]) {
        i
    } else {
        token_end(s, i + 1)
    }
}

/// The number tokens of `s` from `i` on, as (start, length, value): a run
/// of digits and dots that reads as a decimal (a run that does not, such as
/// `1.2.3`, is skipped).
pub open spec fn spans_from(s: Seq<char>, i: int) -> Seq<(int, int, int)>
    decreases s.len() - i, 1int,
{
    if i < 0 || i >= s.len() {
        Seq::empty()
    } else if token_start(s, i) {
        let e = token_end(s, i);
        proof {
            lemma_token_end(s, i);
        }
        if e > i {
            let rest = spans_from(s, e);
            match crate::number::spec_decimal(s.subrange(i, e)) {
                Some(v) => seq![(i, e - i, v)] + rest,
                None => rest,
            }
        } else {
            spans_from(s, i + 1)
        }
    } else {
        spans_from(s, i + 1)
    }
}

pub proof fn lemma_token_end(s: Seq<char>, i: int)
    requires
        0 <= i <= s.len(),
    ensures
        i <= token_end(s, i) <= s.len(),
        forall|k: int| i <= k < token_end(s, i) ==> num_char(#[trigger] s[k]),
    decreases s.len() - i,
{
    if i < s.len() && num_char(s[i]) {
        lemma_token_end(s, i + 1);
    }
}

/// The number tokens of a text with their values (see [`spans_from`]).
pub fn number_spans(s: &str) -> (r: Vec<(usize, usize, i128)>)
    ensures
        Seq::new(r@.len(), |i: int| (r@[i].0 as int, r@[i].1 as int, r@[i].2 as int)) == spans_from(s@, 0),
{
    let cs = crate::text::chars_of(s);
    let mut out: Vec<(usize, usize, i128)> = Vec::new();
    let ghost found: Seq<(int, int, int)> = Seq::empty();
    let mut i: usize = 0;
    while i < cs.len()
        invariant
            cs@ == s@,
            i <= cs@.len(),
            Seq::new(out@.len(), |k: int| (out@[k].0 as int, out@[k].1 as int, out@[k].2 as int)) + spans_from(s@, i as int)
                == spans_from(s@, 0),
        decreases cs@.len() - i,
    {
        let c = cs[i];
        let starts = ('0' <= c && c <= '9') || (c == '.' && i + 1 < cs.len() && '0' <= cs[i + 1] && cs[i + 1] <= '9');
        if starts {
            let start = i;
            proof {
                lemma_token_end(s@, i as int);
            }
            while i < cs.len() && (('0' <= cs[i] && cs[i] <= '9') || cs[i] == '.')
                invariant
                    cs@ == s@,
                    start <= i <= cs@.len(),
                    token_end(s@, start as int) == token_end(s@, i as int),
                decreases cs@.len() - i,
            {
                i = i + 1;
            }
            let ghost before = Seq::new(out@.len(), |k: int| (out@[k].0 as int, out@[k].1 as int, out@[k].2 as int));
            proof {
                assert(token_start(s@, start as int));
                assert(token_end(s@, i as int) == i as int);
                assert(num_char(s@[start as int]));
                lemma_token_end(s@, start + 1);
                assert(token_end(s@, start as int) == token_end(s@, start + 1));
                assert(i > start);
                assert(spans_from(s@, start as int) == match crate::number::spec_decimal(s@.subrange(start as int, i as int)) {
                    Some(v) => seq![(start as int, i - start, v)] + spans_from(s@, i as int),
                    None => spans_from(s@, i as int),
                });
            }
            match crate::number::parse_decimal(cs.as_slice(), start, i) {
                Some(v) => {
                    proof {
                        crate::number::lemma_decimal_bounded(s@.subrange(start as int, i as int));
                    }
                    assert(crate::number::spec_decimal(s@.subrange(start as int, i as int)) == Some(v as int));
                    out.push((start, i - start, v));
                    assert(Seq::new(out@.len(), |k: int| (out@[k].0 as int, out@[k].1 as int, out@[k].2 as int))
                        =~= before.push((start as int, (i - start) as int, v as int)));
                    assert(before + spans_from(s@, start as int) =~= before.push((start as int, (i - start) as int, v as int))
                        + spans_from(s@, i as int));
                },
                None => {
                    assert(crate::number::spec_decimal(s@.subrange(start as int, i as int)) is None);
                    assert(before + spans_from(s@, start as int) =~= before + spans_from(s@, i as int));
                },
            }
        } else {
            i = i + 1;
        }
    }
    assert(spans_from(s@, i as int) =~= Seq::<(int, int, int)>::empty());
    out
}

/// Rounding half up splits into the quotient and a carry.
proof fn lemma_round_split(p: int, d: int)
    requires
        p >= 0,
        d > 0,
        d % 2 == 0,
    ensures
        (p + d / 2) / d == p / d + if p % d >= d / 2 {
            1int
        } else {
            0int
        },
{
    vstd::arithmetic::div_mod::lemma_fundamental_div_mod(p, d);
    vstd::arithmetic::div_mod::lemma_mod_pos_bound(p, d);
    let q = p / d;
    let r = p % d;
    let c: int = if r >= d / 2 {
        1
    } else {
        0
    };
    assert(p + d / 2 == (q + c) * d + (r + d / 2 - c * d)) by (nonlinear_arith)
        requires
            p == d * q + r,
    ;
    vstd::arithmetic::div_mod::lemma_fundamental_div_mod_converse(p + d / 2, d, q + c, r + d / 2 - c * d);
}

/// A serving count scaled by `factor` (both in nanos): rounded half away
/// from zero to a whole number held within `i64`, at least 1.
pub open spec fn scaled_count(v: int, factor: int) -> int {
    let m = crate::schedule::clamp64(crate::number::round_div(v * factor, SCALE * SCALE));
    if m < 1 {
        1
    } else {
        m
    }
}

fn scale_count(v: i128, factor: i128) -> (r: i64)
    ensures
        r == scaled_count(v as int, factor as int),
{
    let m: i64 = match v.checked_mul(factor) {
        Some(p) => {
            // |p| and its rounding, in u128
            let a: u128 = if p >= 0 {
                p as u128
            } else {
                ((-(p + 1)) as u128) + 1
            };
            let qa: u128 = (a / 1_000_000_000_000_000_000) + if a % 1_000_000_000_000_000_000 >= 500_000_000_000_000_000 {
                1
            } else {
                0
            };
            proof {
                let d: int = 1_000_000_000_000_000_000;
                assert(SCALE * SCALE == d);
                lemma_round_split(a as int, d);
                assert(qa == (a + d / 2) / d);
                assert(qa <= 200_000_000_000_000_000_000);
            }
            let q: i128 = if p >= 0 {
                qa as i128
            } else {
                -(qa as i128)
            };
            assert(q == crate::number::round_div(v * factor, SCALE * SCALE));
            let r: i64 = if q > 9_223_372_036_854_775_807 {
                i64::MAX
            } else if q < -9_223_372_036_854_775_808 {
                i64::MIN
            } else {
                q as i64
            };
            assert(r == crate::schedule::clamp64(q as int));
            r
        },
        None => {
            proof {
                let d: int = 1_000_000_000_000_000_000;
                assert(SCALE * SCALE == d);
                let x = v * factor;
                assert(x != 0);
                assert((x > 0) == ((v > 0) == (factor > 0))) by (nonlinear_arith)
                    requires
                        x == v * factor,
                        x != 0,
                ;
                if x > 0 {
                    assert(x > i128::MAX);
                    assert((x + d / 2) / d > i64::MAX) by (nonlinear_arith)
                        requires
                            x > i128::MAX,
                            d == 1_000_000_000_000_000_000,
                    ;
                } else {
                    assert(x < i128::MIN);
                    assert((-x + d / 2) / d > i64::MAX + 1) by (nonlinear_arith)
                        requires
                            x < i128::MIN,
                            d == 1_000_000_000_000_000_000,
                    ;
                }
            }
            let r: i64 = if (v > 0) == (factor > 0) {
                i64::MAX
            } else {
                i64::MIN
            };
            assert(r == crate::schedule::clamp64(crate::number::round_div(v * factor, SCALE * SCALE)));
            r
        },
    };
    if m < 1 {
        1
    } else {
        m
    }
}

/// Number tokens lie inside the text, in order, none empty.
pub open spec fn spans_ok(sp: Seq<(int, int, int)>, from: int, n: int) -> bool {
    &&& forall|k: int| 0 <= k < sp.len() ==> from <= (#[trigger] sp[k]).0 && sp[k].1 > 0 && sp[k].0 + sp[k].1 <= n
    &&& forall|k: int| 0 < k < sp.len() ==> (#[trigger] sp[k]).0 >= sp[k - 1].0 + sp[k - 1].1
}

proof fn lemma_spans_ok(s: Seq<char>, i: int)
    requires
        0 <= i <= s.len(),
    ensures
        spans_ok(spans_from(s, i), i, s.len() as int),
    decreases s.len() - i,
{
    if i < s.len() {
        if token_start(s, i) {
            let e = token_end(s, i);
            lemma_token_end(s, i);
            if e > i {
                lemma_spans_ok(s, e);
                let rest = spans_from(s, e);
                match crate::number::spec_decimal(s.subrange(i, e)) {
                    Some(v) => {
                        let all = seq![(i, e - i, v)] + rest;
                        assert forall|k: int| 0 < k < all.len() implies (#[trigger] all[k]).0 >= all[k - 1].0 + all[k - 1].1 by {
                            assert(all[k] == rest[k - 1]);
                            if k > 1 {
                                assert(all[k - 1] == rest[k - 2]);
                            }
                        }
                        assert forall|k: int| 0 <= k < all.len() implies i <= (#[trigger] all[k]).0 && all[k].1 > 0 && all[k].0 + all[k].1 <= s.len() by {
                            if k > 0 {
                                assert(all[k] == rest[k - 1]);
                            }
                        }
                    },
                    None => {},
                }
            } else {
                lemma_spans_ok(s, i + 1);
            }
        } else {
            lemma_spans_ok(s, i + 1);
        }
    }
}

/// Where the text after span `k - 1` resumes (0 before the first).
pub open spec fn resume(sp: Seq<(int, int, int)>, k: int) -> int {
    if k <= 0 {
        0
    } else {
        sp[k - 1].0 + sp[k - 1].1
    }
}

/// The text up to the end of the `k`-th number token, every token replaced
/// by its scaled whole count.
pub open spec fn numbers_text(s: Seq<char>, sp: Seq<(int, int, int)>, factor: int, k: int) -> Seq<char>
    decreases k,
{
    if k <= 0 || k > sp.len() {
        Seq::empty()
    } else {
        numbers_text(s, sp, factor, k - 1) + s.subrange(resume(sp, k - 1), sp[k - 1].0) + crate::number::spec_int_str(
            scaled_count(sp[k - 1].2, factor),
        )
    }
}

/// Every number of a free text (a serving count) scaled by `factor` and
/// rounded to a whole count of at least 1; the rest of the text unchanged.
pub open spec fn spec_scale_numbers(s: Seq<char>, factor: int) -> Seq<char> {
    let sp = spans_from(s, 0);
    numbers_text(s, sp, factor, sp.len() as int) + s.subrange(resume(sp, sp.len() as int), s.len() as int)
}

/// Scales every number in a free-text string (e.g. `serves`), leaving the
/// rest.
pub fn scale_numbers(s: &str, factor: Number) -> (r: String)
    ensures
        r@ == spec_scale_numbers(s@, factor.nanos as int),
{
    let cs = crate::text::chars_of(s);
    let spans = number_spans(s);
    let ghost sp = spans_from(s@, 0);
    proof {
        lemma_spans_ok(s@, 0);
    }
    let mut out = String::new();
    let mut cursor: usize = 0;
    let n = cs.len();
    let mut k: usize = 0;
    while k < spans.len()
        invariant
            cs@ == s@,
            n == s@.len(),
            sp == spans_from(s@, 0),
            spans_ok(sp, 0, s@.len() as int),
            Seq::new(spans@.len(), |i: int| (spans@[i].0 as int, spans@[i].1 as int, spans@[i].2 as int)) == sp,
            k <= spans@.len(),
            cursor == resume(sp, k as int),
            out@ == numbers_text(s@, sp, factor.nanos as int, k as int),
        decreases spans@.len() - k,
    {
        let (start, len, v) = spans[k];
        assert(sp[k as int] == (start as int, len as int, v as int));
        if k > 0 {
            assert(sp[k as int].0 >= sp[k - 1].0 + sp[k - 1].1);
        }
        crate::text::push_range(&mut out, cs.as_slice(), cursor, start);
        let m = scale_count(v, factor.nanos);
        crate::number::push_int(&mut out, m as i128);
        cursor = start + len;
        k = k + 1;
    }
    crate::text::push_range(&mut out, cs.as_slice(), cursor, cs.len());
    out
}

/// The rewrite of a `serves` / `yields` line: `:key scaled`, when any
/// number changed.
pub open spec fn spec_meta_edit(m: Meta, factor: int) -> Option<Seq<char>> {
    let scaled = spec_scale_numbers(m.value@, factor);
    if scaled != m.value@ {
        Some(seq![':'] + m.key@ + seq![' '] + scaled)
    } else {
        None
    }
}

pub fn meta_edit(m: &Meta, factor: Number) -> (r: Option<String>)
    ensures
        match r {
            Some(t) => spec_meta_edit(*m, factor.nanos as int) == Some(t@),
            None => spec_meta_edit(*m, factor.nanos as int) is None,
        },
{
    let scaled = scale_numbers(m.value.as_str(), factor);
    if crate::text::str_eq(scaled.as_str(), m.value.as_str()) {
        return None;
    }
    let mut t = String::new();
    push_char(&mut t, ':');
    t.append(m.key.as_str());
    push_char(&mut t, ' ');
    t.append(scaled.as_str());
    Some(t)
}

/// The first metadata line with a key, among the first `k`.
pub open spec fn meta_find(ms: Seq<Meta>, key: Seq<char>, k: int) -> Option<Meta>
    decreases k,
{
    if k <= 0 || k > ms.len() {
        None
    } else {
        match meta_find(ms, key, k - 1) {
            Some(m) => Some(m),
            None => if ms[k - 1].key@ == key {
                Some(ms[k - 1])
            } else {
                None
            },
        }
    }
}

/// A recipe's serving count: the numbers of its `serves` line (else its
/// `yields` line); a range like `3-4` gives its midpoint.
pub open spec fn spec_serves(l: Lowered) -> Option<int> {
    match l.file {
        Some(File::Recipe(r)) => {
            let m = match meta_find(r.meta@, "serves"@, r.meta@.len() as int) {
                Some(m) => Some(m),
                None => meta_find(r.meta@, "yields"@, r.meta@.len() as int),
            };
            match m {
                Some(m) => {
                    let sp = spans_from(m.value@, 0);
                    if sp.len() == 0 {
                        None
                    } else if sp.len() == 1 {
                        Some(sp[0].2)
                    } else {
                        Some((sp[0].2 + sp[1].2) / 2)
                    }
                },
                None => None,
            }
        },
        _ => None,
    }
}

fn find_meta<'a>(ms: &'a Vec<Meta>, key: &str) -> (r: Option<&'a Meta>)
    ensures
        match r {
            Some(m) => meta_find(ms@, key@, ms@.len() as int) == Some(*m),
            None => meta_find(ms@, key@, ms@.len() as int) is None,
        },
{
    let mut i: usize = 0;
    while i < ms.len()
        invariant
            i <= ms@.len(),
            meta_find(ms@, key@, i as int) is None,
        decreases ms@.len() - i,
    {
        if crate::text::str_eq(ms[i].key.as_str(), key) {
            proof {
                lemma_meta_find_stays(ms@, key@, i + 1);
            }
            return Some(&ms[i]);
        }
        i = i + 1;
    }
    None
}

proof fn lemma_meta_find_stays(ms: Seq<Meta>, key: Seq<char>, k: int)
    requires
        0 <= k <= ms.len(),
        meta_find(ms, key, k) is Some,
    ensures
        meta_find(ms, key, ms.len() as int) == meta_find(ms, key, k),
    decreases ms.len() - k,
{
    if k < ms.len() {
        lemma_meta_find_stays(ms, key, k + 1);
    }
}

/// The serving count of a parsed file (see [`spec_serves`]).
pub fn serves_of(l: &Lowered) -> (r: Option<Number>)
    ensures
        match r {
            Some(n) => spec_serves(*l) == Some(n.nanos as int),
            None => spec_serves(*l) is None,
        },
{
    let rec = match &l.file {
        Some(File::Recipe(r)) => r,
        _ => {
            return None;
        },
    };
    let m = match find_meta(&rec.meta, "serves") {
        Some(m) => m,
        None => match find_meta(&rec.meta, "yields") {
            Some(m) => m,
            None => {
                return None;
            },
        },
    };
    let spans = number_spans(m.value.as_str());
    proof {
        lemma_spans_values(m.value@, 0);
    }
    let ghost sp = spans_from(m.value@, 0);
    if spans.len() == 0 {
        None
    } else if spans.len() == 1 {
        assert(sp[0].2 == spans@[0].2 as int);
        Some(Number { nanos: spans[0].2 })
    } else {
        assert(sp[0].2 == spans@[0].2 as int);
        assert(sp[1].2 == spans@[1].2 as int);
        let a = spans[0].2;
        let b = spans[1].2;
        Some(Number { nanos: (a + b) / 2 })
    }
}

/// Number token values lie in the parser's range and are not negative.
proof fn lemma_spans_values(s: Seq<char>, i: int)
    ensures
        forall|k: int| 0 <= k < spans_from(s, i).len() ==> 0 <= (#[trigger] spans_from(s, i)[k]).2 <= NANOS_MAX,
    decreases s.len() - i,
{
    if 0 <= i < s.len() {
        if token_start(s, i) {
            let e = token_end(s, i);
            lemma_token_end(s, i);
            if e > i {
                lemma_spans_values(s, e);
                let t = s.subrange(i, e);
                crate::number::lemma_decimal_bounded(t);
                lemma_no_sign(s, i, e);
                let rest = spans_from(s, e);
                match crate::number::spec_decimal(t) {
                    Some(v) => {
                        let all = seq![(i, e - i, v)] + rest;
                        assert(spans_from(s, i) == all);
                        assert forall|k: int| 0 <= k < all.len() implies 0 <= (#[trigger] all[k]).2 <= NANOS_MAX by {
                            if k > 0 {
                                assert(all[k] == rest[k - 1]);
                            }
                        }
                    },
                    None => {
                        assert(spans_from(s, i) == rest);
                    },
                }
            } else {
                lemma_spans_values(s, i + 1);
                assert(spans_from(s, i) == spans_from(s, i + 1));
            }
        } else {
            lemma_spans_values(s, i + 1);
            assert(spans_from(s, i) == spans_from(s, i + 1));
        }
    }
}

/// A token of digits and dots has no sign, so it reads as a non-negative
/// decimal.
proof fn lemma_no_sign(s: Seq<char>, i: int, e: int)
    requires
        0 <= i < e <= s.len(),
        forall|k: int| i <= k < e ==> num_char(#[trigger] s[k]),
    ensures
        crate::number::spec_decimal(s.subrange(i, e)) matches Some(v) ==> v >= 0,
{
    let t = s.subrange(i, e);
    assert(num_char(s[i]));
    assert(t[0] == s[i]);
    assert(t[0] != '-' && t[0] != '+');
    crate::number::lemma_decimal_nonneg(t);
}

proof fn lemma_meta_find_views(m1: Seq<Meta>, m2: Seq<Meta>, s: Seq<char>, key: Seq<char>, k: int)
    requires
        crate::parse::meta_spans(m1) == crate::parse::meta_spans(m2),
        forall|i: int| 0 <= i < m1.len() ==> crate::parse::meta_faithful(#[trigger] m1[i], s),
        forall|i: int| 0 <= i < m2.len() ==> crate::parse::meta_faithful(#[trigger] m2[i], s),
    ensures
        (meta_find(m1, key, k) is Some) == (meta_find(m2, key, k) is Some),
        meta_find(m1, key, k) matches Some(a) ==> meta_find(m2, key, k)->Some_0.value@ == a.value@,
    decreases k,
{
    assert(crate::parse::meta_spans(m1).len() == m1.len());
    assert(crate::parse::meta_spans(m2).len() == m2.len());
    if k > 0 && k <= m1.len() {
        lemma_meta_find_views(m1, m2, s, key, k - 1);
        assert(crate::parse::meta_spans(m1)[k - 1] == crate::parse::meta_spans(m2)[k - 1]);
        assert(m1[k - 1].span.start_byte == m2[k - 1].span.start_byte);
        assert(crate::parse::meta_faithful(m1[k - 1], s));
        assert(crate::parse::meta_faithful(m2[k - 1], s));
    }
}

/// Every parse that the parser's contract admits for a text gives it the
/// same serving count.
pub proof fn law_serves_is_determined(l1: Lowered, l2: Lowered, s: Seq<char>)
    requires
        crate::parse::lowered_wf(l1, s),
        crate::parse::lowered_wf(l2, s),
    ensures
        spec_serves(l1) == spec_serves(l2),
{
    if s.len() < usize::MAX {
        crate::parse::law_parse_is_determined(l1, l2, s);
        match l1.file {
            Some(File::Recipe(r1)) => {
                let r2 = l2.file->Some_0->Recipe_0;
                reveal(crate::parse::recipe_wf);
                assert(crate::parse::recipe_wf(r1, s));
                assert(crate::parse::recipe_wf(r2, s));
                lemma_meta_find_views(r1.meta@, r2.meta@, s, "serves"@, r1.meta@.len() as int);
                lemma_meta_find_views(r1.meta@, r2.meta@, s, "yields"@, r1.meta@.len() as int);
                assert(crate::parse::meta_spans(r1.meta@).len() == crate::parse::meta_spans(r2.meta@).len());
            },
            _ => {},
        }
    }
}

/// The serving count of a text: `serves`, else `yields`, of its parse (a
/// range gives its midpoint, in nanos); every admitted parse gives the same.
pub open spec fn serves_text(s: Seq<char>) -> Option<int> {
    spec_serves(choose|l: Lowered| crate::parse::lowered_wf(l, s))
}

/// A recipe's current serving count, from its `serves` (or `yields`) line;
/// a range like `3-4` yields its midpoint. `None` if there is no such
/// number.
pub fn current_serves(source: &str) -> (r: Option<Number>)
    ensures
        match r {
            Some(n) => serves_text(source@) == Some(n.nanos as int),
            None => serves_text(source@) is None,
        },
{
    let l = crate::parse::parse(source);
    proof {
        let c = choose|x: Lowered| crate::parse::lowered_wf(x, source@);
        law_serves_is_determined(l, c, source@);
    }
    serves_of(&l)
}

/// One rewrite during splicing: an edit that starts before the cursor (it
/// overlaps one already applied) is skipped; otherwise the text up to it is
/// kept, then the replaced span's leading whitespace, then the new text.
pub open spec fn splice_step(s: Seq<char>, e: (Span, String), st: (Seq<char>, int)) -> (Seq<char>, int) {
    let a = e.0.start_byte as int;
    let b = e.0.end_byte as int;
    if a < st.1 {
        st
    } else {
        (st.0 + s.subrange(st.1, a) + s.subrange(a, crate::text::skip_ws_fwd(s, a, b)) + e.1@, b)
    }
}

pub open spec fn splice_upto(s: Seq<char>, es: Seq<(Span, String)>, order: Seq<usize>, k: int) -> (Seq<char>, int)
    decreases k,
{
    if k <= 0 || k > order.len() {
        (Seq::empty(), 0)
    } else {
        splice_step(s, es[order[k - 1] as int], splice_upto(s, es, order, k - 1))
    }
}

/// The edits' order: by start, ties in the given order.
pub open spec fn edit_order(es: Seq<(Span, String)>) -> Seq<usize> {
    crate::schedule::sort_by(
        Seq::new(es.len(), |i: int| i as usize),
        Seq::new(es.len(), |i: int| es[i].0.start_byte as int),
    )
}

/// The source with the edits spliced in (see [`splice_step`]).
pub open spec fn spec_apply_edits(s: Seq<char>, es: Seq<(Span, String)>) -> Seq<char> {
    let order = edit_order(es);
    let st = splice_upto(s, es, order, order.len() as int);
    st.0 + s.subrange(st.1, s.len() as int)
}

/// Splices rewrites into the source, in order of their start; each keeps
/// the leading whitespace of the span it replaces.
pub fn apply_edits(source: &str, edits: &Vec<(Span, String)>) -> (r: String)
    requires
        forall|i: int|
            0 <= i < edits@.len() ==> (#[trigger] edits@[i]).0.start_byte <= edits@[i].0.end_byte <= source@.len(),
    ensures
        r@ == spec_apply_edits(source@, edits@),
{
    let cs = crate::text::chars_of(source);
    let n = edits.len();
    let mut key: Vec<i128> = Vec::new();
    let mut i: usize = 0;
    while i < n
        invariant
            n == edits@.len(),
            i <= n,
            key@.len() == i,
            forall|k: int| 0 <= k < i ==> (#[trigger] key@[k]) as int == edits@[k].0.start_byte as int,
        decreases n - i,
    {
        key.push(edits[i].0.start_byte as i128);
        i = i + 1;
    }
    let ghost kv = Seq::new(key@.len(), |q: int| key@[q] as int);
    assert(kv =~= Seq::new(edits@.len(), |q: int| edits@[q].0.start_byte as int));
    let mut order: Vec<usize> = Vec::new();
    let mut i: usize = 0;
    while i < n
        invariant
            n == edits@.len(),
            key@.len() == n,
            kv == Seq::new(key@.len(), |q: int| key@[q] as int),
            i <= n,
            order@ == crate::schedule::sort_by(Seq::new(i as nat, |q: int| q as usize), kv),
            forall|j: int| 0 <= j < order@.len() ==> (#[trigger] order@[j]) < key@.len(),
        decreases n - i,
    {
        crate::schedule::insert_sorted(&mut order, i, &key);
        assert(Seq::new((i + 1) as nat, |q: int| q as usize).drop_last() =~= Seq::new(i as nat, |q: int| q as usize));
        i = i + 1;
    }
    assert(Seq::new(n as nat, |q: int| q as usize) =~= Seq::new(edits@.len(), |q: int| q as usize));
    proof {
        crate::schedule::lemma_sort_len(Seq::new(n as nat, |q: int| q as usize), kv);
    }
    let ghost ord = order@;
    let mut out = String::new();
    let mut cursor: usize = 0;
    let mut k: usize = 0;
    while k < order.len()
        invariant
            cs@ == source@,
            forall|i: int|
                0 <= i < edits@.len() ==> (#[trigger] edits@[i]).0.start_byte <= edits@[i].0.end_byte <= source@.len(),
            ord == order@,
            forall|j: int| 0 <= j < order@.len() ==> (#[trigger] order@[j]) < edits@.len(),
            k <= order@.len(),
            cursor <= source@.len(),
            (out@, cursor as int) == splice_upto(source@, edits@, ord, k as int),
        decreases order@.len() - k,
    {
        let e = &edits[order[k]];
        assert(order@[k as int] < edits@.len());
        let a = e.0.start_byte;
        let b = e.0.end_byte;
        if a >= cursor {
            crate::text::push_range(&mut out, cs.as_slice(), cursor, a);
            let lead = crate::text::skip_ws_forward(cs.as_slice(), a, b);
            crate::text::push_range(&mut out, cs.as_slice(), a, lead);
            out.append(e.1.as_str());
            cursor = b;
        }
        k = k + 1;
    }
    crate::text::push_range(&mut out, cs.as_slice(), cursor, cs.len());
    out
}

/// The rewrite of one target: for an amount, the text given for it (none
/// if none is given) at the amount's span; for a serving line, the line
/// rewritten when its numbers change.
pub open spec fn target_edit(t: Target, text: Option<String>, factor: int) -> Option<(Span, Seq<char>)> {
    match t {
        Target::Basis(a) => match text {
            Some(x) => Some((a.spec_span(), x@)),
            None => None,
        },
        Target::Amount(a) => match text {
            Some(x) => Some((a.spec_span(), x@)),
            None => None,
        },
        Target::Meta(m) => match spec_meta_edit(*m, factor) {
            Some(x) => Some((m.span, x)),
            None => None,
        },
    }
}

/// The rewrites of the first `k` targets, in order.
pub open spec fn target_edits(ts: Seq<Target>, texts: Seq<Option<String>>, factor: int, k: int) -> Seq<(Span, Seq<char>)>
    decreases k,
{
    if k <= 0 {
        Seq::empty()
    } else {
        let prev = target_edits(ts, texts, factor, k - 1);
        match target_edit(ts[k - 1], texts[k - 1], factor) {
            Some(e) => prev.push(e),
            None => prev,
        }
    }
}

pub open spec fn edit_views(v: Seq<(Span, String)>) -> Seq<(Span, Seq<char>)> {
    Seq::new(v.len(), |i: int| (v[i].0, v[i].1@))
}

/// The rewrites of a scaling by `factor`, given the rescaled text of each
/// amount target (`None` where an amount does not change): amounts take
/// their given text, serving lines their scaled numbers.
pub fn scale_edits(ts: &Vec<Target>, texts: &Vec<Option<String>>, factor: Number) -> (r: Vec<(Span, String)>)
    requires
        texts@.len() == ts@.len(),
    ensures
        edit_views(r@) == target_edits(ts@, texts@, factor.nanos as int, ts@.len() as int),
{
    let mut out: Vec<(Span, String)> = Vec::new();
    let mut i: usize = 0;
    while i < ts.len()
        invariant
            texts@.len() == ts@.len(),
            i <= ts@.len(),
            edit_views(out@) == target_edits(ts@, texts@, factor.nanos as int, i as int),
        decreases ts@.len() - i,
    {
        let ghost before = out@;
        match ts[i] {
            Target::Basis(a) | Target::Amount(a) => {
                match &texts[i] {
                    Some(x) => {
                        out.push((a.span(), x.clone()));
                    },
                    None => {},
                }
            },
            Target::Meta(m) => {
                match meta_edit(m, factor) {
                    Some(x) => {
                        out.push((m.span, x));
                    },
                    None => {},
                }
            },
        }
        assert(edit_views(out@) =~= target_edits(ts@, texts@, factor.nanos as int, i + 1));
        i = i + 1;
    }
    out
}

/// Swede's token for a canonical unit symbol: the short forms for US volume
/// (`t`, `T`, `c`, `pt`, `qt`, `gal`), nothing for a count, the symbol itself
/// for the others, and nothing for a symbol it does not know.
pub open spec fn token_of(symbol: Seq<char>) -> Seq<char> {
    if symbol == "tsp"@ {
        "t"@
    } else if symbol == "tbsp"@ {
        "T"@
    } else if symbol == "cup"@ {
        "c"@
    } else if symbol == "pint"@ {
        "pt"@
    } else if symbol == "quart"@ {
        "qt"@
    } else if symbol == "gallon"@ {
        "gal"@
    } else if symbol == "floz"@ || symbol == "ml"@ || symbol == "dl"@ || symbol == "l"@ || symbol == "mg"@
        || symbol == "g"@ || symbol == "kg"@ || symbol == "oz"@ || symbol == "lb"@ || symbol == "mm"@
        || symbol == "cm"@ || symbol == "in"@ || symbol == "ft"@ {
        symbol
    } else {
        Seq::empty()
    }
}

/// Maps a canonical unit symbol to Swede's unit token.
pub fn swede_token(symbol: &str) -> (r: String)
    ensures
        r@ == token_of(symbol@),
{
    let mut out = String::new();
    if crate::text::str_eq(symbol, "tsp") {
        push_str(&mut out, "t");
    } else if crate::text::str_eq(symbol, "tbsp") {
        push_str(&mut out, "T");
    } else if crate::text::str_eq(symbol, "cup") {
        push_str(&mut out, "c");
    } else if crate::text::str_eq(symbol, "pint") {
        push_str(&mut out, "pt");
    } else if crate::text::str_eq(symbol, "quart") {
        push_str(&mut out, "qt");
    } else if crate::text::str_eq(symbol, "gallon") {
        push_str(&mut out, "gal");
    } else if crate::text::str_eq(symbol, "floz") || crate::text::str_eq(symbol, "ml") || crate::text::str_eq(symbol, "dl")
        || crate::text::str_eq(symbol, "l") || crate::text::str_eq(symbol, "mg") || crate::text::str_eq(symbol, "g")
        || crate::text::str_eq(symbol, "kg") || crate::text::str_eq(symbol, "oz") || crate::text::str_eq(symbol, "lb")
        || crate::text::str_eq(symbol, "mm") || crate::text::str_eq(symbol, "cm") || crate::text::str_eq(symbol, "in")
        || crate::text::str_eq(symbol, "ft") {
        push_str(&mut out, symbol);
    }
    out
}

/// How one term of an amount is rewritten when the amount is scaled.
#[derive(Debug, PartialEq, Eq, Structural)]
pub enum TermPlan {
    /// A number in a known unit (or a bare count): scaled and re-expressed
    /// as a kitchen quantity.
    Quantity,
    /// A number in a unit that is not known: the number scaled, the unit kept.
    Number,
    /// Kept as written: a measure without a number, or a basis-relative term.
    Verbatim,
}

/// How an amount is rewritten when scaled.
#[derive(Debug)]
pub enum AmountPlan {
    /// Nothing in it scales (no measure term, or not a quantity).
    Skip,
    /// Two or more measures, each a number in a known unit, all of one
    /// system: summed, then scaled as one quantity.
    Sum,
    /// Each term on its own, the results joined with ` + `.
    Terms(Vec<TermPlan>),
}

/// A measure term with a number in a known unit (a bare number counts).
pub open spec fn term_known(t: Term) -> bool {
    t matches Term::Measure { value: Some(_), unit, .. } && scale_of_text(unit_view(unit)) is Some
}

/// The system of a term in a known unit.
pub open spec fn term_system(t: Term) -> int {
    match t {
        Term::Measure { unit, .. } => match scale_of_text(unit_view(unit)) {
            Some((k, _)) => k,
            None => -1,
        },
        _ => -1,
    }
}

/// How a term is rewritten on its own.
pub open spec fn term_plan(t: Term) -> TermPlan {
    if term_known(t) {
        TermPlan::Quantity
    } else if t matches Term::Measure { value: Some(_), .. } {
        TermPlan::Number
    } else {
        TermPlan::Verbatim
    }
}

/// Whether terms may be summed: two or more, all in known units of the
/// first one's system.
pub open spec fn summable(ts: Seq<Term>) -> bool {
    ts.len() >= 2 && forall|i: int| 0 <= i < ts.len() ==> term_known(#[trigger] ts[i]) && term_system(ts[i]) == term_system(ts[0])
}

/// How an amount is rewritten: skipped when it holds no measure term, summed
/// when its terms may be, else term by term.
pub open spec fn amount_plan_ok(a: Amount, p: AmountPlan) -> bool {
    match a {
        Amount::Quantity { terms, .. } => {
            let ts = terms@;
            if !(exists|i: int| 0 <= i < ts.len() && #[trigger] ts[i] matches Term::Measure { .. }) {
                p is Skip
            } else if summable(ts) {
                p is Sum
            } else {
                p matches AmountPlan::Terms(v) && v@ == Seq::new(ts.len(), |i: int| term_plan(ts[i]))
            }
        },
        _ => p is Skip,
    }
}

fn term_system_exec(t: &Term) -> (r: Option<u8>)
    ensures
        term_known(*t) ==> (r matches Some(k) && k == term_system(*t)),
        !term_known(*t) ==> r is None,
{
    match t {
        Term::Measure { value: Some(_), unit, .. } => {
            let u = match unit {
                Some(u) => u.as_str(),
                None => "",
            };
            proof {
                reveal_strlit("");
            }
            assert(u@ == unit_view(*unit));
            match scale_of_unit(u) {
                Some((k, _)) => Some(k),
                None => None,
            }
        },
        _ => None,
    }
}

/// Decides how an amount is rewritten when the recipe is scaled.
pub fn plan_amount(a: &Amount) -> (r: AmountPlan)
    ensures
        amount_plan_ok(*a, r),
{
    let terms = match a {
        Amount::Quantity { terms, .. } => terms,
        _ => {
            return AmountPlan::Skip;
        },
    };
    let ghost ts = terms@;
    let mut any = false;
    let mut same = terms.len() >= 2;
    let mut first: Option<u8> = None;
    let mut plans: Vec<TermPlan> = Vec::new();
    let mut i: usize = 0;
    while i < terms.len()
        invariant
            ts == terms@,
            i <= ts.len(),
            any == exists|j: int| 0 <= j < i && #[trigger] ts[j] matches Term::Measure { .. },
            i > 0 ==> (term_known(ts[0]) ==> first == Some(term_system(ts[0]) as u8)),
            i > 0 && !term_known(ts[0]) ==> !same,
            same ==> ts.len() >= 2 && forall|j: int| 0 <= j < i ==> term_known(#[trigger] ts[j]) && term_system(ts[j]) == term_system(ts[0]),
            !same ==> !summable(ts),
            plans@ == Seq::new(i as nat, |j: int| term_plan(ts[j])),
        decreases ts.len() - i,
    {
        let t = &terms[i];
        match t {
            Term::Measure { .. } => {
                any = true;
            },
            _ => {},
        }
        let k = term_system_exec(t);
        if i == 0 {
            first = k;
        }
        match k {
            Some(x) => {
                match first {
                    Some(f) => {
                        if x != f {
                            same = false;
                        }
                    },
                    None => {
                        same = false;
                    },
                }
            },
            None => {
                same = false;
            },
        }
        let tp = match k {
            Some(_) => TermPlan::Quantity,
            None => match t {
                Term::Measure { value: Some(_), .. } => TermPlan::Number,
                _ => TermPlan::Verbatim,
            },
        };
        proof {
            assert(tp == term_plan(ts[i as int]));
        }
        plans.push(tp);
        assert(plans@ =~= Seq::new((i + 1) as nat, |j: int| term_plan(ts[j])));
        i = i + 1;
    }
    if !any {
        return AmountPlan::Skip;
    }
    if same {
        return AmountPlan::Sum;
    }
    AmountPlan::Terms(plans)
}

proof fn lemma_serving_metas(ms: Seq<Meta>, k: int)
    requires
        0 <= k <= ms.len(),
    ensures
        forall|j: int| 0 <= j < k && (ms[j].key@ == "serves"@ || ms[j].key@ == "yields"@) ==> #[trigger] serving_metas(ms, k).contains(ms[j]),
        forall|q: int| 0 <= q < serving_metas(ms, k).len() ==> (#[trigger] serving_metas(ms, k)[q]).key@ == "serves"@
            || serving_metas(ms, k)[q].key@ == "yields"@,
    decreases k,
{
    if k > 0 {
        lemma_serving_metas(ms, k - 1);
        let prev = serving_metas(ms, k - 1);
        let cur = serving_metas(ms, k);
        assert forall|j: int| 0 <= j < k && (ms[j].key@ == "serves"@ || ms[j].key@ == "yields"@) implies #[trigger] cur.contains(ms[j]) by {
            if j < k - 1 {
                assert(prev.contains(ms[j]));
                let q = choose|q: int| 0 <= q < prev.len() && prev[q] == ms[j];
                if cur != prev {
                    assert(cur == prev.push(ms[k - 1]));
                    assert(cur[q] == prev[q]);
                }
                assert(cur[q] == ms[j]);
            } else {
                assert(cur == prev.push(ms[k - 1]));
                assert(cur[prev.len() as int] == ms[j]);
            }
        }
        assert forall|q: int| 0 <= q < cur.len() implies (#[trigger] cur[q]).key@ == "serves"@ || cur[q].key@ == "yields"@ by {
            if cur != prev {
                assert(cur == prev.push(ms[k - 1]));
                if q < prev.len() {
                    assert(cur[q] == prev[q]);
                }
            }
        }
    }
}

/// Scaling rewrites every serving line and only those: each `serves` or
/// `yields` metadata line is a target, and every metadata target is such a
/// line.
pub proof fn law_serving_lines_are_targets(r: Recipe)
    ensures
        forall|k: int|
            0 <= k < r.meta@.len() && (r.meta@[k].key@ == "serves"@ || r.meta@[k].key@ == "yields"@)
                ==> #[trigger] spec_targets(r).contains((2int, None::<Amount>, Some(r.meta@[k]))),
        forall|q: int|
            0 <= q < spec_targets(r).len() && (#[trigger] spec_targets(r)[q]).0 == 2 ==> (spec_targets(r)[q].2 matches Some(m)
                && (m.key@ == "serves"@ || m.key@ == "yields"@)),
{
    let ms = r.meta@;
    lemma_serving_metas(ms, ms.len() as int);
    let bs = r.bases@;
    let am = bindings_amounts(r.bindings@, r.bindings@.len() as int);
    let sm = serving_metas(ms, ms.len() as int);
    let a = Seq::new(bs.len(), |i: int| (0int, Some(bs[i].amount), None::<Meta>));
    let b = Seq::new(am.len(), |i: int| (1int, Some(am[i]), None::<Meta>));
    let c = Seq::new(sm.len(), |i: int| (2int, None::<Amount>, Some(sm[i])));
    assert(spec_targets(r) == a + b + c);
    assert forall|k: int|
        0 <= k < ms.len() && (ms[k].key@ == "serves"@ || ms[k].key@ == "yields"@)
            implies #[trigger] spec_targets(r).contains((2int, None::<Amount>, Some(ms[k]))) by {
        assert(sm.contains(ms[k]));
        let q = choose|q: int| 0 <= q < sm.len() && sm[q] == ms[k];
        assert(spec_targets(r)[a.len() + b.len() + q] == c[q]);
    }
    assert forall|q: int|
        0 <= q < spec_targets(r).len() && (#[trigger] spec_targets(r)[q]).0 == 2 implies (spec_targets(r)[q].2 matches Some(m)
            && (m.key@ == "serves"@ || m.key@ == "yields"@)) by {
        if q >= a.len() + b.len() {
            let j = q - a.len() - b.len();
            assert(spec_targets(r)[q] == c[j]);
            assert(sm[j].key@ == "serves"@ || sm[j].key@ == "yields"@);
        } else if q >= a.len() {
            assert(spec_targets(r)[q] == b[q - a.len()]);
        } else {
            assert(spec_targets(r)[q] == a[q]);
        }
    }
}

} // verus!
