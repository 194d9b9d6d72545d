//! Static validation of a Swede recipe or menu.
//!
//! Rules: E001 unknown reference, E002 reuse, E003 ingredient redeclared,
//! E004 forward data reference, E005 link contradiction, E006 menu alias,
//! E008 rebinding / reserved keyword, W001 orphan, W002 unbounded passive,
//! W003 split sum, W004 constituent sum. Syntax errors surface as E000.
//! E007 needs a sub-recipe loader and W005/W006 are scheduler-era.
//!
//! Every lookup is a scan of the recipe itself, so each rule reads directly
//! as a statement about the recipe's bindings.

use vstd::prelude::*;
use crate::ast::{
    Amount, Annotation, Arg, Basis, Binding, Expr, File, Ingredient, Link, Menu, NodeRef, Recipe,
    Span, Term, Timer,
};
use crate::diagnostic::{Diagnostic, Severity};
use crate::number::{Number, spec_exact_str, push_exact, NANOS_MAX, SCALE, spec_nat_str, push_nat};
use crate::parse::Lowered;
use crate::text::{push_str, str_eq};
use crate::basis::unit_view;
use crate::units::{scale_of_text, scale_of_unit};
use crate::uses::{
    expr_refs, expr_ings, expr_equips, derefs, collect_refs, collect_ings, collect_equips,
};

verus! {

/// A diagnostic as a plain value.
pub struct DiagView {
    pub code: Seq<char>,
    pub severity: Severity,
    pub message: Seq<char>,
    pub span: Span,
}

impl View for Diagnostic {
    type V = DiagView;

    open spec fn view(&self) -> DiagView {
        DiagView { code: self.code@, severity: self.severity, message: self.message@, span: self.span }
    }
}

pub open spec fn views(ds: Seq<Diagnostic>) -> Seq<DiagView> {
    Seq::new(ds.len(), |i: int| ds[i]@)
}

pub open spec fn err(code: Seq<char>, message: Seq<char>, span: Span) -> DiagView {
    DiagView { code, severity: Severity::Error, message, span }
}

pub open spec fn warn(code: Seq<char>, message: Seq<char>, span: Span) -> DiagView {
    DiagView { code, severity: Severity::Warning, message, span }
}

// ───────────────────────── facts about a recipe ─────────────────────────

/// The keywords reserved for later language versions, and the file keywords.
pub open spec fn is_reserved(n: Seq<char>) -> bool {
    n == "alt"@ || n == "repeat"@ || n == "foreach"@ || n == "cooks"@ || n == "recipe"@ || n
        == "menu"@ || n == "basis"@
}

/// Whether binding `b` names `n` among its outputs.
pub open spec fn binds(b: Binding, n: Seq<char>) -> bool {
    exists|q: int| 0 <= q < b.outputs@.len() && (#[trigger] b.outputs@[q]).name@ == n
}

/// The first of the bindings `bs[0..k]` that names `n`.
pub open spec fn first_def_upto(bs: Seq<Binding>, n: Seq<char>, k: int) -> Option<int>
    decreases k,
{
    if k <= 0 {
        None
    } else {
        match first_def_upto(bs, n, k - 1) {
            Some(j) => Some(j),
            None => if binds(bs[k - 1], n) {
                Some(k - 1)
            } else {
                None
            },
        }
    }
}

/// The binding that first names `n` (its definition).
pub open spec fn first_def(bs: Seq<Binding>, n: Seq<char>) -> Option<int> {
    first_def_upto(bs, n, bs.len() as int)
}

/// Whether an ingredient literal named `n` appears in `gs`.
pub open spec fn has_ing(gs: Seq<Ingredient>, n: Seq<char>) -> bool {
    exists|q: int| 0 <= q < gs.len() && (#[trigger] gs[q]).name@ == n
}

pub open spec fn ings(bs: Seq<Binding>, i: int) -> Seq<Ingredient> {
    expr_ings(bs[i].value)
}

pub open spec fn refs(bs: Seq<Binding>, i: int) -> Seq<NodeRef> {
    expr_refs(bs[i].value)
}

/// The first binding among `bs[0..k]` with an ingredient literal named `n`.
pub open spec fn first_ing_upto(bs: Seq<Binding>, n: Seq<char>, k: int) -> Option<int>
    decreases k,
{
    if k <= 0 {
        None
    } else {
        match first_ing_upto(bs, n, k - 1) {
            Some(j) => Some(j),
            None => if has_ing(ings(bs, k - 1), n) {
                Some(k - 1)
            } else {
                None
            },
        }
    }
}

/// Where ingredient `n` is declared (its first literal).
pub open spec fn first_ing(bs: Seq<Binding>, n: Seq<char>) -> Option<int> {
    first_ing_upto(bs, n, bs.len() as int)
}

/// How many literals of `n` there are in `gs`.
pub open spec fn count_named(gs: Seq<Ingredient>, n: Seq<char>) -> nat
    decreases gs.len(),
{
    if gs.len() == 0 {
        0
    } else {
        count_named(gs.drop_last(), n) + if gs.last().name@ == n {
            1nat
        } else {
            0nat
        }
    }
}

/// How many literals of ingredient `n` the bindings `bs[0..k]` hold.
pub open spec fn ing_count_upto(bs: Seq<Binding>, n: Seq<char>, k: int) -> nat
    decreases k,
{
    if k <= 0 {
        0
    } else {
        ing_count_upto(bs, n, k - 1) + count_named(ings(bs, k - 1), n)
    }
}

pub open spec fn ing_count(bs: Seq<Binding>, n: Seq<char>) -> nat {
    ing_count_upto(bs, n, bs.len() as int)
}

/// Whether some binding's value names equipment `n`.
pub open spec fn is_equipment(bs: Seq<Binding>, n: Seq<char>) -> bool {
    exists|i: int| 0 <= i < bs.len() && expr_equips(bs[i].value).contains(n)
}

pub open spec fn is_basis(r: Recipe, n: Seq<char>) -> bool {
    exists|q: int| 0 <= q < r.bases@.len() && (#[trigger] r.bases@[q]).name@ == n
}

/// Whether the reference `x` in binding `i` consumes a node or ingredient
/// (a bare name defined earlier, or an ingredient declared no later).
pub open spec fn consumes(bs: Seq<Binding>, i: int, x: NodeRef) -> bool {
    x.member is None && match first_def(bs, x.name@) {
        Some(j) => j < i,
        None => match first_ing(bs, x.name@) {
            Some(f) => f <= i,
            None => false,
        },
    }
}

/// Consuming references to `n` among `xs` (all in binding `i`).
pub open spec fn consumed_in(bs: Seq<Binding>, i: int, xs: Seq<NodeRef>, n: Seq<char>) -> nat
    decreases xs.len(),
{
    if xs.len() == 0 {
        0
    } else {
        consumed_in(bs, i, xs.drop_last(), n) + if consumes(bs, i, xs.last()) && xs.last().name@
            == n {
            1nat
        } else {
            0nat
        }
    }
}

pub open spec fn ref_count_upto(bs: Seq<Binding>, n: Seq<char>, k: int) -> nat
    decreases k,
{
    if k <= 0 {
        0
    } else {
        ref_count_upto(bs, n, k - 1) + consumed_in(bs, k - 1, refs(bs, k - 1), n)
    }
}

/// How many times `n` is consumed as a data input.
pub open spec fn ref_count(bs: Seq<Binding>, n: Seq<char>) -> nat {
    ref_count_upto(bs, n, bs.len() as int)
}

/// The last binding before `i` that names `n`.
pub open spec fn last_def_before(bs: Seq<Binding>, n: Seq<char>, i: int) -> Option<int>
    decreases i,
{
    if i <= 0 {
        None
    } else if binds(bs[i - 1], n) {
        Some(i - 1)
    } else {
        last_def_before(bs, n, i - 1)
    }
}

/// The nodes binding `i` consumes directly.
pub open spec fn deps(bs: Seq<Binding>, i: int) -> Set<Seq<char>> {
    Set::new(
        |n: Seq<char>|
            exists|q: int|
                0 <= q < refs(bs, i).len() && (#[trigger] refs(bs, i)[q]).name@ == n
                    && refs(bs, i)[q].member is None && (first_def(bs, n) matches Some(j) && j < i),
    )
}

/// The transitive data ancestors of binding `i`.
pub open spec fn anc(bs: Seq<Binding>, i: int) -> Set<Seq<char>>
    decreases i,
{
    if i <= 0 {
        deps(bs, i)
    } else {
        Set::new(
            |x: Seq<char>|
                deps(bs, i).contains(x) || exists|d: Seq<char>|
                    #![trigger deps(bs, i).contains(d), last_def_before(bs, d, i)]
                    deps(bs, i).contains(d) && match last_def_before(bs, d, i) {
                        Some(k) => 0 <= k < i && anc(bs, k).contains(x),
                        None => false,
                    },
        )
    }
}

// ───────────────────────── messages ─────────────────────────

pub open spec fn quoted(pre: Seq<char>, n: Seq<char>, post: Seq<char>) -> Seq<char> {
    pre + n + post
}

/// `pre` + `n` + `post` as a `String`.
pub fn msg(pre: &str, n: &String, post: &str) -> (r: String)
    ensures
        r@ == quoted(pre@, n@, post@),
{
    let mut out = String::new();
    push_str(&mut out, pre);
    push_str(&mut out, n.as_str());
    push_str(&mut out, post);
    out
}

pub open spec fn msg_reserved(n: Seq<char>) -> Seq<char> {
    quoted("'"@, n, "' is a reserved keyword and cannot be a node name"@)
}

pub open spec fn msg_rebind(n: Seq<char>) -> Seq<char> {
    quoted("rebinding: '"@, n, "' is bound more than once (names are single-assignment)"@)
}

pub open spec fn msg_redeclared(n: Seq<char>) -> Seq<char> {
    "ingredient '"@ + n
        + "' is given an amount literal more than once; declare it once and split it (e.g. `a[..], b[..] = divide("@
        + n + "[..])`)"@
}

// ───────────────────────── shared lookups ─────────────────────────

/// Whether `s` spells `lit`.
pub fn str_is(s: &String, lit: &str) -> (r: bool)
    ensures
        r == (s@ == lit@),
{
    let a = crate::text::chars_of(s.as_str());
    let b = crate::text::chars_of(lit);
    if a.len() != b.len() {
        return false;
    }
    let mut i: usize = 0;
    while i < a.len()
        invariant
            a@ == s@,
            b@ == lit@,
            a@.len() == b@.len(),
            i <= a@.len(),
            forall|j: int| 0 <= j < i ==> a@[j] == b@[j],
        decreases a@.len() - i,
    {
        if a[i] != b[i] {
            return false;
        }
        i = i + 1;
    }
    assert(a@ =~= b@);
    true
}

pub fn reserved(n: &String) -> (r: bool)
    ensures
        r == is_reserved(n@),
{
    str_is(n, "alt") || str_is(n, "repeat") || str_is(n, "foreach") || str_is(n, "cooks")
        || str_is(n, "recipe") || str_is(n, "menu") || str_is(n, "basis")
}

/// Whether one of the first `p` outputs of `b` is named `n`.
pub fn named_before(b: &Binding, p: usize, n: &String) -> (r: bool)
    requires
        p <= b.outputs@.len(),
    ensures
        r == exists|q: int| 0 <= q < p && (#[trigger] b.outputs@[q]).name@ == n@,
{
    let mut q: usize = 0;
    while q < p
        invariant
            q <= p <= b.outputs@.len(),
            forall|j: int| 0 <= j < q ==> (#[trigger] b.outputs@[j]).name@ != n@,
        decreases p - q,
    {
        if b.outputs[q].name == *n {
            return true;
        }
        q = q + 1;
    }
    false
}

pub fn binds_exec(b: &Binding, n: &String) -> (r: bool)
    ensures
        r == binds(*b, n@),
{
    named_before(b, b.outputs.len(), n)
}

/// [`first_def_upto`], computed.
pub fn find_def(bs: &Vec<Binding>, n: &String, k: usize) -> (r: Option<usize>)
    requires
        k <= bs@.len(),
    ensures
        r == match first_def_upto(bs@, n@, k as int) {
            Some(j) => Some(j as usize),
            None => None::<usize>,
        },
        r matches Some(j) ==> j < k,
        first_def_upto(bs@, n@, k as int) matches Some(j) ==> 0 <= j < k,
{
    proof {
        lemma_first_def_range(bs@, n@, k as int);
    }
    let mut i: usize = 0;
    while i < k
        invariant
            i <= k <= bs@.len(),
            first_def_upto(bs@, n@, i as int) is None,
        decreases k - i,
    {
        if binds_exec(&bs[i], n) {
            proof {
                lemma_first_def_stable(bs@, n@, i + 1, k as int);
            }
            return Some(i);
        }
        i = i + 1;
    }
    None
}

pub proof fn lemma_first_def_range(bs: Seq<Binding>, n: Seq<char>, k: int)
    ensures
        first_def_upto(bs, n, k) matches Some(j) ==> 0 <= j < k && binds(bs[j], n),
    decreases k,
{
    if k > 0 {
        lemma_first_def_range(bs, n, k - 1);
    }
}

pub proof fn lemma_first_ing_range(bs: Seq<Binding>, n: Seq<char>, k: int)
    ensures
        first_ing_upto(bs, n, k) matches Some(j) ==> 0 <= j < k && has_ing(ings(bs, j), n),
    decreases k,
{
    if k > 0 {
        lemma_first_ing_range(bs, n, k - 1);
    }
}

proof fn lemma_first_def_stable(bs: Seq<Binding>, n: Seq<char>, a: int, b: int)
    requires
        0 <= a <= b,
        first_def_upto(bs, n, a) is Some,
    ensures
        first_def_upto(bs, n, b) == first_def_upto(bs, n, a),
    decreases b - a,
{
    if a < b {
        lemma_first_def_stable(bs, n, a, b - 1);
    }
}

/// Whether some ingredient literal among the first `p` of `gs` is named `n`.
pub fn ing_named_before(gs: &Vec<&Ingredient>, p: usize, n: &String) -> (r: bool)
    requires
        p <= gs@.len(),
    ensures
        r == exists|q: int| 0 <= q < p && (#[trigger] derefs(gs@)[q]).name@ == n@,
{
    let mut q: usize = 0;
    while q < p
        invariant
            q <= p <= gs@.len(),
            forall|j: int| 0 <= j < q ==> (#[trigger] derefs(gs@)[j]).name@ != n@,
        decreases p - q,
    {
        if gs[q].name == *n {
            assert(derefs(gs@)[q as int] == *gs@[q as int]);
            return true;
        }
        q = q + 1;
    }
    false
}

/// [`first_ing_upto`], computed.
pub fn find_ing(bs: &Vec<Binding>, n: &String, k: usize) -> (r: Option<usize>)
    requires
        k <= bs@.len(),
    ensures
        r == match first_ing_upto(bs@, n@, k as int) {
            Some(j) => Some(j as usize),
            None => None::<usize>,
        },
        r matches Some(j) ==> j < k,
        first_ing_upto(bs@, n@, k as int) matches Some(j) ==> 0 <= j < k,
{
    proof {
        lemma_first_ing_range(bs@, n@, k as int);
    }
    let mut i: usize = 0;
    while i < k
        invariant
            i <= k <= bs@.len(),
            first_ing_upto(bs@, n@, i as int) is None,
        decreases k - i,
    {
        let gs = collect_ings(&bs[i].value);
        if ing_named_before(&gs, gs.len(), n) {
            proof {
                lemma_first_ing_stable(bs@, n@, i + 1, k as int);
            }
            return Some(i);
        }
        i = i + 1;
    }
    None
}

proof fn lemma_first_ing_stable(bs: Seq<Binding>, n: Seq<char>, a: int, b: int)
    requires
        0 <= a <= b,
        first_ing_upto(bs, n, a) is Some,
    ensures
        first_ing_upto(bs, n, b) == first_ing_upto(bs, n, a),
    decreases b - a,
{
    if a < b {
        lemma_first_ing_stable(bs, n, a, b - 1);
    }
}

// ───────────────────────── E008: names ─────────────────────────

pub open spec fn defined_before(bs: Seq<Binding>, i: int, p: int, n: Seq<char>) -> bool {
    first_def_upto(bs, n, i) is Some || exists|q: int|
        0 <= q < p && (#[trigger] bs[i].outputs@[q]).name@ == n
}

/// E008 for output `p` of binding `i`: a reserved name, then a rebinding.
pub open spec fn e008_out(bs: Seq<Binding>, i: int, p: int) -> Seq<DiagView> {
    let o = bs[i].outputs@[p];
    (if is_reserved(o.name@) {
        seq![err("E008"@, msg_reserved(o.name@), o.span)]
    } else {
        Seq::empty()
    }) + (if defined_before(bs, i, p, o.name@) {
        seq![err("E008"@, msg_rebind(o.name@), o.span)]
    } else {
        Seq::empty()
    })
}

pub open spec fn e008_in(bs: Seq<Binding>, i: int, p: int) -> Seq<DiagView>
    decreases p,
{
    if p <= 0 {
        Seq::empty()
    } else {
        e008_in(bs, i, p - 1) + e008_out(bs, i, p - 1)
    }
}

pub open spec fn e008_upto(bs: Seq<Binding>, k: int) -> Seq<DiagView>
    decreases k,
{
    if k <= 0 {
        Seq::empty()
    } else {
        e008_upto(bs, k - 1) + e008_in(bs, k - 1, bs[k - 1].outputs@.len() as int)
    }
}

proof fn lemma_views_push(ds: Seq<Diagnostic>, d: Diagnostic)
    ensures
        views(ds.push(d)) == views(ds).push(d@),
{
    assert(views(ds.push(d)) =~= views(ds).push(d@));
}

/// The E008 diagnostics of a recipe, in binding and output order.
pub fn check_names(bs: &Vec<Binding>, out: &mut Vec<Diagnostic>)
    ensures
        views(final(out)@) == views(old(out)@) + e008_upto(bs@, bs@.len() as int),
{
    let mut i: usize = 0;
    while i < bs.len()
        invariant
            i <= bs@.len(),
            views(out@) == views(old(out)@) + e008_upto(bs@, i as int),
        decreases bs@.len() - i,
    {
        let b = &bs[i];
        let mut p: usize = 0;
        while p < b.outputs.len()
            invariant
                i < bs@.len(),
                *b == bs@[i as int],
                p <= b.outputs@.len(),
                views(out@) == views(old(out)@) + e008_upto(bs@, i as int) + e008_in(bs@, i as int, p as int),
            decreases b.outputs@.len() - p,
        {
            let o = &b.outputs[p];
            let ghost before = views(out@);
            if reserved(&o.name) {
                let d = Diagnostic::error("E008", msg("'", &o.name, "' is a reserved keyword and cannot be a node name"), o.span);
                proof { lemma_views_push(out@, d); }
                out.push(d);
            }
            let ghost mid = views(out@);
            let defined = find_def(bs, &o.name, i).is_some() || named_before(b, p, &o.name);
            if defined {
                let d = Diagnostic::error("E008", msg("rebinding: '", &o.name, "' is bound more than once (names are single-assignment)"), o.span);
                proof { lemma_views_push(out@, d); }
                out.push(d);
            }
            proof {
                assert(e008_in(bs@, i as int, p + 1) == e008_in(bs@, i as int, p as int) + e008_out(bs@, i as int, p as int));
                assert(views(out@) =~= before + e008_out(bs@, i as int, p as int));
            }
            p = p + 1;
        }
        i = i + 1;
    }
}

// ───────────────────────── E003: ingredient literals ─────────────────────────

pub open spec fn declared_before(bs: Seq<Binding>, i: int, q: int, n: Seq<char>) -> bool {
    first_ing_upto(bs, n, i) is Some || exists|j: int|
        0 <= j < q && (#[trigger] ings(bs, i)[j]).name@ == n
}

pub open spec fn e003_in(bs: Seq<Binding>, i: int, q: int) -> Seq<DiagView>
    decreases q,
{
    if q <= 0 {
        Seq::empty()
    } else {
        let g = ings(bs, i)[q - 1];
        e003_in(bs, i, q - 1) + if declared_before(bs, i, q - 1, g.name@) {
            seq![err("E003"@, msg_redeclared(g.name@), g.span)]
        } else {
            Seq::empty()
        }
    }
}

pub open spec fn e003_upto(bs: Seq<Binding>, k: int) -> Seq<DiagView>
    decreases k,
{
    if k <= 0 {
        Seq::empty()
    } else {
        e003_upto(bs, k - 1) + e003_in(bs, k - 1, ings(bs, k - 1).len() as int)
    }
}

fn redeclared_msg(n: &String) -> (r: String)
    ensures
        r@ == msg_redeclared(n@),
{
    let mut out = String::new();
    push_str(&mut out, "ingredient '");
    push_str(&mut out, n.as_str());
    push_str(
        &mut out,
        "' is given an amount literal more than once; declare it once and split it (e.g. `a[..], b[..] = divide(",
    );
    push_str(&mut out, n.as_str());
    push_str(&mut out, "[..])`)");
    out
}

/// The E003 diagnostics: every ingredient literal after the first of its name.
pub fn check_redeclared(bs: &Vec<Binding>, out: &mut Vec<Diagnostic>)
    ensures
        views(final(out)@) == views(old(out)@) + e003_upto(bs@, bs@.len() as int),
{
    let mut i: usize = 0;
    while i < bs.len()
        invariant
            i <= bs@.len(),
            views(out@) == views(old(out)@) + e003_upto(bs@, i as int),
        decreases bs@.len() - i,
    {
        let gs = collect_ings(&bs[i].value);
        let mut q: usize = 0;
        while q < gs.len()
            invariant
                i < bs@.len(),
                derefs(gs@) == ings(bs@, i as int),
                q <= gs@.len(),
                views(out@) == views(old(out)@) + e003_upto(bs@, i as int) + e003_in(bs@, i as int, q as int),
            decreases gs@.len() - q,
        {
            let g = gs[q];
            assert(derefs(gs@)[q as int] == *g);
            let ghost before = views(out@);
            if find_ing(bs, &g.name, i).is_some() || ing_named_before(&gs, q, &g.name) {
                let d = Diagnostic::error("E003", redeclared_msg(&g.name), g.span);
                proof { lemma_views_push(out@, d); }
                out.push(d);
            }
            proof {
                assert(views(out@) =~= before + (if declared_before(bs@, i as int, q as int, g.name@) {
                    seq![err("E003"@, msg_redeclared(g.name@), g.span)]
                } else {
                    Seq::<DiagView>::empty()
                }));
            }
            q = q + 1;
        }
        i = i + 1;
    }
}

// ───────────────────────── pass B: references ─────────────────────────

pub open spec fn msg_dotted(n: Seq<char>, m: Seq<char>) -> Seq<char> {
    "dotted reference '"@ + n + "."@ + m + "' is only valid in a menu"@
}

pub open spec fn msg_fwd_node(n: Seq<char>) -> Seq<char> {
    quoted(
        "forward data reference: '"@,
        n,
        "' is defined later; data inputs may only reference earlier bindings"@,
    )
}

pub open spec fn msg_fwd_ing(n: Seq<char>) -> Seq<char> {
    quoted("forward data reference: ingredient '"@, n, "' is declared later"@)
}

pub open spec fn msg_unknown(n: Seq<char>) -> Seq<char> {
    quoted("unknown reference '"@, n, "'"@)
}

/// What a data reference `x` in binding `i` is reported as.
pub open spec fn ref_diag(r: Recipe, i: int, x: NodeRef) -> Seq<DiagView> {
    let bs = r.bindings@;
    if x.member is Some {
        seq![err("E001"@, msg_dotted(x.name@, x.member->0@), x.span)]
    } else {
        match first_def(bs, x.name@) {
            Some(j) => if j >= i {
                seq![err("E004"@, msg_fwd_node(x.name@), x.span)]
            } else {
                Seq::empty()
            },
            None => match first_ing(bs, x.name@) {
                Some(f) => if f > i {
                    seq![err("E004"@, msg_fwd_ing(x.name@), x.span)]
                } else {
                    Seq::empty()
                },
                None => if is_basis(r, x.name@) || is_equipment(bs, x.name@) {
                    Seq::empty()
                } else {
                    seq![err("E001"@, msg_unknown(x.name@), x.span)]
                },
            },
        }
    }
}

pub open spec fn ref_diags(r: Recipe, i: int, q: int) -> Seq<DiagView>
    decreases q,
{
    if q <= 0 {
        Seq::empty()
    } else {
        ref_diags(r, i, q - 1) + ref_diag(r, i, refs(r.bindings@, i)[q - 1])
    }
}

/// Whether basis `n` is declared, computed.
pub fn basis_declared(bases: &Vec<Basis>, n: &String) -> (r: bool)
    ensures
        r == exists|q: int| 0 <= q < bases@.len() && (#[trigger] bases@[q]).name@ == n@,
{
    let mut q: usize = 0;
    while q < bases.len()
        invariant
            q <= bases@.len(),
            forall|j: int| 0 <= j < q ==> (#[trigger] bases@[j]).name@ != n@,
        decreases bases@.len() - q,
    {
        if bases[q].name == *n {
            return true;
        }
        q = q + 1;
    }
    false
}

/// Whether some binding's value names equipment `n`, computed.
pub fn equipment_named(bs: &Vec<Binding>, n: &String) -> (r: bool)
    ensures
        r == is_equipment(bs@, n@),
{
    let mut i: usize = 0;
    while i < bs.len()
        invariant
            i <= bs@.len(),
            forall|k: int| 0 <= k < i ==> !(#[trigger] expr_equips(bs@[k].value)).contains(n@),
        decreases bs@.len() - i,
    {
        let es = collect_equips(&bs[i].value);
        let mut q: usize = 0;
        while q < es.len()
            invariant
                i < bs@.len(),
                q <= es@.len(),
                es@.map_values(|s: &String| s@) == expr_equips(bs@[i as int].value),
                forall|j: int| 0 <= j < q ==> es@[j]@ != n@,
            decreases es@.len() - q,
        {
            if *es[q] == *n {
                assert(es@.map_values(|s: &String| s@)[q as int] == n@);
                return true;
            }
            q = q + 1;
        }
        assert forall|j: int| 0 <= j < expr_equips(bs@[i as int].value).len() implies expr_equips(
            bs@[i as int].value,
        )[j] != n@ by {
            assert(es@.map_values(|s: &String| s@)[j] == es@[j]@);
        }
        i = i + 1;
    }
    false
}

/// The diagnostics for one data reference.
fn check_ref(r: &Recipe, i: usize, x: &NodeRef, out: &mut Vec<Diagnostic>)
    requires
        i < r.bindings@.len(),
    ensures
        views(final(out)@) == views(old(out)@) + ref_diag(*r, i as int, *x),
{
    let bs = &r.bindings;
    match &x.member {
        Some(m) => {
            let mut t = String::new();
            push_str(&mut t, "dotted reference '");
            push_str(&mut t, x.name.as_str());
            push_str(&mut t, ".");
            push_str(&mut t, m.as_str());
            push_str(&mut t, "' is only valid in a menu");
            let d = Diagnostic::error("E001", t, x.span);
            proof { lemma_views_push(out@, d); }
            out.push(d);
            return;
        },
        None => {},
    }
    match find_def(bs, &x.name, bs.len()) {
        Some(j) => {
            if j >= i {
                let d = Diagnostic::error("E004", msg("forward data reference: '", &x.name, "' is defined later; data inputs may only reference earlier bindings"), x.span);
                proof { lemma_views_push(out@, d); }
                out.push(d);
            } else {
                assert(views(out@) =~= views(old(out)@) + Seq::<DiagView>::empty());
            }
            return;
        },
        None => {},
    }
    match find_ing(bs, &x.name, bs.len()) {
        Some(f) => {
            if f > i {
                let d = Diagnostic::error("E004", msg("forward data reference: ingredient '", &x.name, "' is declared later"), x.span);
                proof { lemma_views_push(out@, d); }
                out.push(d);
            } else {
                assert(views(out@) =~= views(old(out)@) + Seq::<DiagView>::empty());
            }
            return;
        },
        None => {},
    }
    if basis_declared(&r.bases, &x.name) || equipment_named(bs, &x.name) {
        assert(views(out@) =~= views(old(out)@) + Seq::<DiagView>::empty());
        return;
    }
    let d = Diagnostic::error("E001", msg("unknown reference '", &x.name, "'"), x.span);
    proof { lemma_views_push(out@, d); }
    out.push(d);
}

/// The diagnostics for every data reference of binding `i`.
fn check_refs(r: &Recipe, i: usize, out: &mut Vec<Diagnostic>)
    requires
        i < r.bindings@.len(),
    ensures
        views(final(out)@) == views(old(out)@) + ref_diags(*r, i as int, refs(r.bindings@, i as int).len() as int),
{
    let xs = collect_refs(&r.bindings[i].value);
    let mut q: usize = 0;
    while q < xs.len()
        invariant
            i < r.bindings@.len(),
            derefs(xs@) == refs(r.bindings@, i as int),
            q <= xs@.len(),
            views(out@) == views(old(out)@) + ref_diags(*r, i as int, q as int),
        decreases xs@.len() - q,
    {
        assert(derefs(xs@)[q as int] == *xs@[q as int]);
        let ghost before = views(out@);
        check_ref(r, i, xs[q], out);
        assert(views(out@) =~= views(old(out)@) + ref_diags(*r, i as int, q + 1));
        q = q + 1;
    }
}

// ───────────────────────── pass B: basis-relative amounts ─────────────────────────

pub open spec fn msg_unknown_basis(n: Seq<char>) -> Seq<char> {
    quoted("unknown basis '"@, n, "'"@)
}

/// E001 for each basis-relative term of `terms` that names an undeclared
/// basis (reported at `span`, the amount's span).
pub open spec fn term_basis_diags(r: Recipe, terms: Seq<Term>, span: Span) -> Seq<DiagView>
    decreases terms.len(),
{
    if terms.len() == 0 {
        Seq::empty()
    } else {
        term_basis_diags(r, terms.drop_last(), span) + match terms.last() {
            Term::Basis { basis, .. } => if is_basis(r, basis@) {
                Seq::empty()
            } else {
                seq![err("E001"@, msg_unknown_basis(basis@), span)]
            },
            _ => Seq::empty(),
        }
    }
}

pub open spec fn amount_basis_diags(r: Recipe, a: Amount) -> Seq<DiagView> {
    match a {
        Amount::Quantity { terms, span, .. } => term_basis_diags(r, terms@, span),
        _ => Seq::empty(),
    }
}

pub open spec fn ings_basis_diags(r: Recipe, gs: Seq<Ingredient>) -> Seq<DiagView>
    decreases gs.len(),
{
    if gs.len() == 0 {
        Seq::empty()
    } else {
        ings_basis_diags(r, gs.drop_last()) + amount_basis_diags(r, gs.last().amount)
    }
}

/// Basis diagnostics of binding `i`: its ingredient literals, then a
/// sub-recipe reference's amount.
pub open spec fn binding_basis_diags(r: Recipe, i: int) -> Seq<DiagView> {
    ings_basis_diags(r, ings(r.bindings@, i)) + match r.bindings@[i].value {
        Expr::SubRef(sr) => match sr.amount {
            Some(a) => amount_basis_diags(r, a),
            None => Seq::empty(),
        },
        _ => Seq::empty(),
    }
}

fn check_amount_basis(r: &Recipe, a: &Amount, out: &mut Vec<Diagnostic>)
    ensures
        views(final(out)@) == views(old(out)@) + amount_basis_diags(*r, *a),
{
    match a {
        Amount::Quantity { terms, span, .. } => {
            let mut q: usize = 0;
            while q < terms.len()
                invariant
                    q <= terms@.len(),
                    views(out@) == views(old(out)@) + term_basis_diags(*r, terms@.take(q as int), *span),
                decreases terms@.len() - q,
            {
                assert(terms@.take(q + 1).drop_last() == terms@.take(q as int));
                let ghost before = views(out@);
                match &terms[q] {
                    Term::Basis { basis, .. } => {
                        if !basis_declared(&r.bases, basis) {
                            let d = Diagnostic::error("E001", msg("unknown basis '", basis, "'"), *span);
                            proof { lemma_views_push(out@, d); }
                            out.push(d);
                        }
                    },
                    _ => {},
                }
                assert(views(out@) =~= views(old(out)@) + term_basis_diags(*r, terms@.take(q + 1), *span));
                q = q + 1;
            }
            assert(terms@.take(q as int) == terms@);
        },
        _ => {
            assert(views(out@) =~= views(old(out)@) + Seq::<DiagView>::empty());
        },
    }
}

fn check_basis_refs(r: &Recipe, i: usize, out: &mut Vec<Diagnostic>)
    requires
        i < r.bindings@.len(),
    ensures
        views(final(out)@) == views(old(out)@) + binding_basis_diags(*r, i as int),
{
    let gs = collect_ings(&r.bindings[i].value);
    let mut q: usize = 0;
    while q < gs.len()
        invariant
            i < r.bindings@.len(),
            derefs(gs@) == ings(r.bindings@, i as int),
            q <= gs@.len(),
            views(out@) == views(old(out)@) + ings_basis_diags(*r, derefs(gs@).take(q as int)),
        decreases gs@.len() - q,
    {
        assert(derefs(gs@).take(q + 1).drop_last() == derefs(gs@).take(q as int));
        assert(derefs(gs@)[q as int] == *gs@[q as int]);
        check_amount_basis(r, &gs[q].amount, out);
        q = q + 1;
    }
    assert(derefs(gs@).take(q as int) == derefs(gs@));
    let ghost mid = views(out@);
    match &r.bindings[i].value {
        Expr::SubRef(sr) => match &sr.amount {
            Some(a) => check_amount_basis(r, a, out),
            None => {},
        },
        _ => {},
    }
    assert(views(out@) =~= views(old(out)@) + binding_basis_diags(*r, i as int));
}

// ───────────────────────── pass B: ancestry and links ─────────────────────────

/// The names a list of name references spells.
pub open spec fn names(v: Seq<&String>) -> Set<Seq<char>> {
    Set::new(|x: Seq<char>| exists|q: int| 0 <= q < v.len() && (#[trigger] v[q])@ == x)
}

pub proof fn lemma_last_def_range(bs: Seq<Binding>, n: Seq<char>, i: int)
    ensures
        last_def_before(bs, n, i) matches Some(k) ==> 0 <= k < i,
    decreases i,
{
    if i > 0 && !binds(bs[i - 1], n) {
        lemma_last_def_range(bs, n, i - 1);
    }
}

/// [`last_def_before`], computed.
pub fn find_last_def(bs: &Vec<Binding>, n: &String, i: usize) -> (r: Option<usize>)
    requires
        i <= bs@.len(),
    ensures
        r == match last_def_before(bs@, n@, i as int) {
            Some(k) => Some(k as usize),
            None => None::<usize>,
        },
        r matches Some(k) ==> k < i,
        last_def_before(bs@, n@, i as int) matches Some(k) ==> 0 <= k < i,
{
    proof {
        lemma_last_def_range(bs@, n@, i as int);
    }
    let mut j = i;
    while j > 0
        invariant
            j <= i <= bs@.len(),
            last_def_before(bs@, n@, j as int) == last_def_before(bs@, n@, i as int),
        decreases j,
    {
        if binds_exec(&bs[j - 1], n) {
            return Some(j - 1);
        }
        j = j - 1;
    }
    None
}

/// The data ancestors of binding `i`, given those of every earlier binding.
pub fn compute_anc<'a>(bs: &'a Vec<Binding>, ancs: &Vec<Vec<&'a String>>, i: usize) -> (r: Vec<
    &'a String,
>)
    requires
        i < bs@.len(),
        ancs@.len() == i,
        forall|k: int| 0 <= k < i ==> names(#[trigger] ancs@[k]@) == anc(bs@, k),
    ensures
        names(r@) == anc(bs@, i as int),
{
    let xs = collect_refs(&bs[i].value);
    let mut out: Vec<&'a String> = Vec::new();
    let mut q: usize = 0;
    while q < xs.len()
        invariant
            i < bs@.len(),
            derefs(xs@) == refs(bs@, i as int),
            q <= xs@.len(),
            forall|t: int| 0 <= t < out@.len() ==> deps(bs@, i as int).contains((#[trigger] out@[t])@),
            forall|t: int|
                0 <= t < q && (#[trigger] xs@[t]).member is None && (first_def(bs@, xs@[t].name@) matches Some(j) && j < i)
                    ==> names(out@).contains(xs@[t].name@),
        decreases xs@.len() - q,
    {
        let x = xs[q];
        assert(derefs(xs@)[q as int] == *x);
        if x.member.is_none() {
            match find_def(bs, &x.name, bs.len()) {
                Some(j) => {
                    if j < i {
                        let ghost before = out@;
                        out.push(&x.name);
                        assert(deps(bs@, i as int).contains(x.name@)) by {
                            assert(refs(bs@, i as int)[q as int] == *x);
                        }
                        assert(out@[out@.len() - 1]@ == x.name@);
                        assert forall|t: int|
                            0 <= t < q + 1 && (#[trigger] xs@[t]).member is None && (first_def(bs@, xs@[t].name@) matches Some(j) && j < i)
                                implies names(out@).contains(xs@[t].name@) by {
                            if t < q {
                                let w = choose|w: int| 0 <= w < before.len() && (#[trigger] before[w])@ == xs@[t].name@;
                                assert(out@[w] == before[w]);
                            } else {
                                assert(out@[out@.len() - 1]@ == xs@[t].name@);
                            }
                        }
                    }
                },
                None => {},
            }
        }
        q = q + 1;
    }
    assert(names(out@) == deps(bs@, i as int)) by {
        assert forall|x: Seq<char>| deps(bs@, i as int).contains(x) implies names(out@).contains(x) by {
            let w = choose|w: int|
                0 <= w < refs(bs@, i as int).len() && (#[trigger] refs(bs@, i as int)[w]).name@ == x
                    && refs(bs@, i as int)[w].member is None && (first_def(bs@, x) matches Some(j) && j < i);
            assert(derefs(xs@)[w] == *xs@[w]);
        }
        assert forall|x: Seq<char>| names(out@).contains(x) implies deps(bs@, i as int).contains(x) by {
            let w = choose|w: int| 0 <= w < out@.len() && (#[trigger] out@[w])@ == x;
        }
        assert(names(out@) =~= deps(bs@, i as int));
    }
    let nd = out.len();
    let ghost dl = out@;
    let mut q: usize = 0;
    while q < nd
        invariant
            nd == dl.len(),
            q <= nd <= out@.len(),
            i < bs@.len(),
            ancs@.len() == i,
            forall|k: int| 0 <= k < i ==> names(#[trigger] ancs@[k]@) == anc(bs@, k),
            names(dl) == deps(bs@, i as int),
            out@.take(nd as int) == dl,
            forall|x: Seq<char>|
                names(out@).contains(x) <==> (deps(bs@, i as int).contains(x) || exists|t: int|
                    #![trigger dl[t]]
                    0 <= t < q && match last_def_before(bs@, dl[t]@, i as int) {
                        Some(k) => anc(bs@, k).contains(x),
                        None => false,
                    }),
        decreases nd - q,
    {
        let d = out[q];
        assert(d == dl[q as int]);
        let ghost before = out@;
        let lk = find_last_def(bs, d, i);
        match lk {
            Some(k) => {
                let src = &ancs[k];
                let mut t: usize = 0;
                while t < src.len()
                    invariant
                        k < i,
                        *src == ancs@[k as int],
                        t <= src@.len(),
                        out@ == before + src@.take(t as int),
                    decreases src@.len() - t,
                {
                    out.push(src[t]);
                    assert(src@.take(t + 1) == src@.take(t as int).push(src@[t as int]));
                    t = t + 1;
                }
                assert(src@.take(t as int) == src@);
                assert(out@.take(nd as int) == dl) by {
                    assert(out@.take(nd as int) =~= before.take(nd as int));
                }
                assert forall|x: Seq<char>| names(out@).contains(x) <==> (names(before).contains(x) || names(src@).contains(x)) by {
                    if names(out@).contains(x) {
                        let w = choose|w: int| 0 <= w < out@.len() && (#[trigger] out@[w])@ == x;
                        if w >= before.len() {
                            assert(src@[w - before.len()] == out@[w]);
                        } else {
                            assert(before[w] == out@[w]);
                        }
                    }
                    if names(before).contains(x) {
                        let w = choose|w: int| 0 <= w < before.len() && (#[trigger] before[w])@ == x;
                        assert(out@[w] == before[w]);
                    }
                    if names(src@).contains(x) {
                        let w = choose|w: int| 0 <= w < src@.len() && (#[trigger] src@[w])@ == x;
                        assert(out@[before.len() + w] == src@[w]);
                    }
                }
            },
            None => {},
        }
        proof {
            assert forall|x: Seq<char>|
                names(out@).contains(x) <==> (deps(bs@, i as int).contains(x) || exists|t: int|
                    #![trigger dl[t]]
                    0 <= t < q + 1 && match last_def_before(bs@, dl[t]@, i as int) {
                        Some(k) => anc(bs@, k).contains(x),
                        None => false,
                    }) by {
                let here = match last_def_before(bs@, dl[q as int]@, i as int) {
                    Some(k) => anc(bs@, k).contains(x),
                    None => false,
                };
                let earlier = exists|t: int|
                    #![trigger dl[t]]
                    0 <= t < q && match last_def_before(bs@, dl[t]@, i as int) {
                        Some(k) => anc(bs@, k).contains(x),
                        None => false,
                    };
                assert(names(before).contains(x) <==> (deps(bs@, i as int).contains(x) || earlier));
                match lk {
                    Some(k) => {
                        assert(names(ancs@[k as int]@) == anc(bs@, k as int));
                        assert(dl[q as int]@ == d@);
                        assert(last_def_before(bs@, dl[q as int]@, i as int) == Some(k as int));
                        assert(names(out@).contains(x) <==> (names(before).contains(x) || anc(bs@, k as int).contains(x)));
                    },
                    None => {
                        assert(out@ == before);
                    },
                }
                if here {
                    assert(0 <= q < q + 1);
                    assert(dl[q as int] == dl[q as int]);
                }
                if earlier {
                    let t = choose|t: int|
                        #![trigger dl[t]]
                        0 <= t < q && match last_def_before(bs@, dl[t]@, i as int) {
                            Some(k) => anc(bs@, k).contains(x),
                            None => false,
                        };
                    assert(0 <= t < q + 1);
                }
                if exists|t: int|
                    #![trigger dl[t]]
                    0 <= t < q + 1 && match last_def_before(bs@, dl[t]@, i as int) {
                        Some(k) => anc(bs@, k).contains(x),
                        None => false,
                    } {
                    let t = choose|t: int|
                        #![trigger dl[t]]
                        0 <= t < q + 1 && match last_def_before(bs@, dl[t]@, i as int) {
                            Some(k) => anc(bs@, k).contains(x),
                            None => false,
                        };
                    if t < q {
                        assert(earlier);
                    } else {
                        assert(here);
                    }
                }
            }
        }
        q = q + 1;
    }
    proof {
        assert forall|x: Seq<char>| names(out@).contains(x) <==> anc(bs@, i as int).contains(x) by {
            if i > 0 {
                if names(out@).contains(x) && !deps(bs@, i as int).contains(x) {
                    let t = choose|t: int|
                        #![trigger dl[t]]
                        0 <= t < nd && match last_def_before(bs@, dl[t]@, i as int) {
                            Some(k) => anc(bs@, k).contains(x),
                            None => false,
                        };
                    let dd = dl[t]@;
                    assert(names(dl).contains(dd));
                    lemma_last_def_range(bs@, dd, i as int);
                    assert(deps(bs@, i as int).contains(dd));
                }
                if anc(bs@, i as int).contains(x) && !deps(bs@, i as int).contains(x) {
                    let dd = choose|dd: Seq<char>|
                        #![trigger deps(bs@, i as int).contains(dd), last_def_before(bs@, dd, i as int)]
                        deps(bs@, i as int).contains(dd) && match last_def_before(bs@, dd, i as int) {
                            Some(k) => 0 <= k < i && anc(bs@, k).contains(x),
                            None => false,
                        };
                    assert(names(dl).contains(dd));
                    let t = choose|t: int| 0 <= t < dl.len() && (#[trigger] dl[t])@ == dd;
                }
            } else {
                if names(out@).contains(x) && !deps(bs@, i as int).contains(x) {
                    let t = choose|t: int|
                        #![trigger dl[t]]
                        0 <= t < nd && match last_def_before(bs@, dl[t]@, i as int) {
                            Some(k) => anc(bs@, k).contains(x),
                            None => false,
                        };
                }
            }
        }
        assert(names(out@) =~= anc(bs@, i as int));
    }
    out
}

pub open spec fn msg_link_target(n: Seq<char>) -> Seq<char> {
    quoted("link target '"@, n, "' is not a node in this recipe"@)
}

pub open spec fn msg_contradiction(n: Seq<char>) -> Seq<char> {
    quoted(
        "link contradiction: '"@,
        n,
        "' is a data ancestor of this node, so the ordering constraint is unsatisfiable"@,
    )
}

/// E001 / E005 for a `&by` / `&during` link on binding `i`.
pub open spec fn target_diag(bs: Seq<Binding>, i: int, target: NodeRef, span: Span) -> Seq<DiagView> {
    if target.member is None && first_def(bs, target.name@) is None {
        seq![err("E001"@, msg_link_target(target.name@), span)]
    } else if anc(bs, i).contains(target.name@) {
        seq![err("E005"@, msg_contradiction(target.name@), span)]
    } else {
        Seq::empty()
    }
}

pub open spec fn link_diag(bs: Seq<Binding>, i: int, a: Annotation) -> Seq<DiagView> {
    match a {
        Annotation::Link(Link::By { target, span }) => target_diag(bs, i, target, span),
        Annotation::Link(Link::During { target, span }) => target_diag(bs, i, target, span),
        _ => Seq::empty(),
    }
}

pub open spec fn link_diags(bs: Seq<Binding>, i: int, q: int) -> Seq<DiagView>
    decreases q,
{
    if q <= 0 {
        Seq::empty()
    } else {
        link_diags(bs, i, q - 1) + link_diag(bs, i, bs[i].annotations@[q - 1])
    }
}

#[verifier::loop_isolation(false)]
fn check_target(
    bs: &Vec<Binding>,
    i: usize,
    anc_i: &Vec<&String>,
    target: &NodeRef,
    span: Span,
    out: &mut Vec<Diagnostic>,
)
    requires
        i < bs@.len(),
        names(anc_i@) == anc(bs@, i as int),
    ensures
        views(final(out)@) == views(old(out)@) + target_diag(bs@, i as int, *target, span),
{
    let undefined = target.member.is_none() && find_def(bs, &target.name, bs.len()).is_none();
    assert(undefined == (target.member is None && first_def(bs@, target.name@) is None));
    if undefined {
        let d = Diagnostic::error("E001", msg("link target '", &target.name, "' is not a node in this recipe"), span);
        proof { lemma_views_push(out@, d); }
        out.push(d);
        return;
    }
    assert(out@ == old(out)@);
    let mut q: usize = 0;
    while q < anc_i.len()
        invariant
            q <= anc_i@.len(),
            out@ == old(out)@,
            forall|j: int| 0 <= j < q ==> (#[trigger] anc_i@[j])@ != target.name@,
        decreases anc_i@.len() - q,
    {
        if *anc_i[q] == target.name {
            assert(names(anc_i@).contains(target.name@));
            let d = Diagnostic::error("E005", msg("link contradiction: '", &target.name, "' is a data ancestor of this node, so the ordering constraint is unsatisfiable"), span);
            proof { lemma_views_push(out@, d); }
            out.push(d);
            return;
        }
        q = q + 1;
    }
    assert(!names(anc_i@).contains(target.name@));
    assert(views(out@) =~= views(old(out)@) + Seq::<DiagView>::empty());
}

fn check_links(bs: &Vec<Binding>, i: usize, anc_i: &Vec<&String>, out: &mut Vec<Diagnostic>)
    requires
        i < bs@.len(),
        names(anc_i@) == anc(bs@, i as int),
    ensures
        views(final(out)@) == views(old(out)@) + link_diags(bs@, i as int, bs@[i as int].annotations@.len() as int),
{
    let anns = &bs[i].annotations;
    let mut q: usize = 0;
    while q < anns.len()
        invariant
            i < bs@.len(),
            *anns == bs@[i as int].annotations,
            names(anc_i@) == anc(bs@, i as int),
            q <= anns@.len(),
            views(out@) == views(old(out)@) + link_diags(bs@, i as int, q as int),
        decreases anns@.len() - q,
    {
        let ghost before = views(out@);
        match &anns[q] {
            Annotation::Link(Link::By { target, span }) => check_target(bs, i, anc_i, target, *span, out),
            Annotation::Link(Link::During { target, span }) => check_target(bs, i, anc_i, target, *span, out),
            _ => {
                assert(views(out@) =~= before + Seq::<DiagView>::empty());
            },
        }
        q = q + 1;
    }
}

// ───────────────────────── W002: unbounded passive ─────────────────────────

pub open spec fn is_unbounded(a: Annotation) -> bool {
    a matches Annotation::Timer(Timer::Unbounded { .. })
}

pub open spec fn has_unbounded(b: Binding) -> bool {
    exists|q: int| 0 <= q < b.annotations@.len() && is_unbounded(#[trigger] b.annotations@[q])
}

/// Whether a binding after `i` takes `n` as a bare data input.
pub open spec fn used_later(bs: Seq<Binding>, n: Seq<char>, i: int) -> bool {
    exists|k: int, q: int|
        i < k < bs.len() && 0 <= q < refs(bs, k).len() && (#[trigger] refs(bs, k)[q]).name@ == n
            && refs(bs, k)[q].member is None
}

/// The node a `&by` or `&during` link names, if the annotation is one.
pub open spec fn link_target_of(a: Annotation) -> Option<Seq<char>> {
    match a {
        Annotation::Link(Link::By { target, .. }) => Some(target.name@),
        Annotation::Link(Link::During { target, .. }) => Some(target.name@),
        _ => None,
    }
}

/// Whether some binding links to `n` with `&by` or `&during`.
pub open spec fn link_targeted(bs: Seq<Binding>, n: Seq<char>) -> bool {
    exists|k: int, q: int|
        0 <= k < bs.len() && 0 <= q < bs[k].annotations@.len() && link_target_of(
            #[trigger] bs[k].annotations@[q],
        ) == Some(n)
}

/// Whether a product of binding `i` is on a path to the terminal or to a
/// link target: it is the terminal, a later binding consumes it, or a link
/// names it.
pub open spec fn reaches(bs: Seq<Binding>, i: int) -> bool {
    exists|p: int|
        0 <= p < bs[i].outputs@.len() && (binds(bs.last(), (#[trigger] bs[i].outputs@[p]).name@)
            || used_later(bs, bs[i].outputs@[p].name@, i) || link_targeted(bs, bs[i].outputs@[p].name@))
}

fn is_link_target(bs: &Vec<Binding>, n: &String) -> (r: bool)
    ensures
        r == link_targeted(bs@, n@),
{
    let mut k: usize = 0;
    while k < bs.len()
        invariant
            k <= bs@.len(),
            forall|kk: int, q: int|
                0 <= kk < k && 0 <= q < bs@[kk].annotations@.len() ==> link_target_of(
                    #[trigger] bs@[kk].annotations@[q],
                ) != Some(n@),
        decreases bs@.len() - k,
    {
        let b = &bs[k];
        let mut q: usize = 0;
        while q < b.annotations.len()
            invariant
                k < bs@.len(),
                *b == bs@[k as int],
                q <= b.annotations@.len(),
                forall|kk: int, qq: int|
                    0 <= kk < k && 0 <= qq < bs@[kk].annotations@.len() ==> link_target_of(
                        #[trigger] bs@[kk].annotations@[qq],
                    ) != Some(n@),
                forall|j: int| 0 <= j < q ==> link_target_of(#[trigger] b.annotations@[j]) != Some(n@),
            decreases b.annotations@.len() - q,
        {
            let hit = match &b.annotations[q] {
                Annotation::Link(Link::By { target, .. }) => str_eq(target.name.as_str(), n.as_str()),
                Annotation::Link(Link::During { target, .. }) => str_eq(target.name.as_str(), n.as_str()),
                _ => false,
            };
            if hit {
                assert(link_target_of(bs@[k as int].annotations@[q as int]) == Some(n@));
                return true;
            }
            q = q + 1;
        }
        k = k + 1;
    }
    false
}

pub open spec fn msg_unbounded(n: Seq<char>) -> Seq<char> {
    quoted(
        "unbounded passive (`~?`) on '"@,
        n,
        "' is on a path to the terminal; the scheduler cannot bound the plan"@,
    )
}

pub open spec fn w002(bs: Seq<Binding>, i: int) -> Seq<DiagView> {
    let b = bs[i];
    if has_unbounded(b) && reaches(bs, i) {
        let name = if b.outputs@.len() > 0 {
            b.outputs@[0].name@
        } else {
            Seq::empty()
        };
        let span = if b.outputs@.len() > 0 {
            b.outputs@[0].span
        } else {
            b.span
        };
        seq![warn("W002"@, msg_unbounded(name), span)]
    } else {
        Seq::empty()
    }
}

fn any_unbounded(b: &Binding) -> (r: bool)
    ensures
        r == has_unbounded(*b),
{
    let mut q: usize = 0;
    while q < b.annotations.len()
        invariant
            q <= b.annotations@.len(),
            forall|j: int| 0 <= j < q ==> !is_unbounded(#[trigger] b.annotations@[j]),
        decreases b.annotations@.len() - q,
    {
        match &b.annotations[q] {
            Annotation::Timer(Timer::Unbounded { .. }) => {
                return true;
            },
            _ => {},
        }
        q = q + 1;
    }
    false
}

#[verifier::loop_isolation(false)]
fn is_used_later(bs: &Vec<Binding>, n: &String, i: usize) -> (r: bool)
    requires
        i < bs@.len(),
    ensures
        r == used_later(bs@, n@, i as int),
{
    let nb = bs.len();
    let mut k = i + 1;
    while k < nb
        invariant
            i < k <= bs@.len(),
            forall|kk: int, q: int|
                i < kk < k && 0 <= q < refs(bs@, kk).len() ==> !((#[trigger] refs(bs@, kk)[q]).name@ == n@
                    && refs(bs@, kk)[q].member is None),
        decreases bs@.len() - k,
    {
        let xs = collect_refs(&bs[k].value);
        let mut q: usize = 0;
        while q < xs.len()
            invariant
                k < bs@.len(),
                derefs(xs@) == refs(bs@, k as int),
                q <= xs@.len(),
                forall|j: int| 0 <= j < q ==> !((#[trigger] derefs(xs@)[j]).name@ == n@ && derefs(xs@)[j].member is None),
            decreases xs@.len() - q,
        {
            assert(derefs(xs@)[q as int] == *xs@[q as int]);
            if xs[q].name == *n && xs[q].member.is_none() {
                assert(refs(bs@, k as int)[q as int].name@ == n@);
                assert(refs(bs@, k as int)[q as int].member is None);
                assert(i < k < bs@.len() && 0 <= q < refs(bs@, k as int).len());
                return true;
            }
            q = q + 1;
        }
        k = k + 1;
    }
    false
}

fn check_unbounded(bs: &Vec<Binding>, i: usize, out: &mut Vec<Diagnostic>)
    requires
        i < bs@.len(),
    ensures
        views(final(out)@) == views(old(out)@) + w002(bs@, i as int),
{
    let b = &bs[i];
    if !any_unbounded(b) {
        assert(views(out@) =~= views(old(out)@) + Seq::<DiagView>::empty());
        return;
    }
    let last = &bs[bs.len() - 1];
    let mut reach = false;
    let mut p: usize = 0;
    while p < b.outputs.len()
        invariant
            i < bs@.len(),
            *b == bs@[i as int],
            *last == bs@.last(),
            p <= b.outputs@.len(),
            reach == exists|j: int|
                0 <= j < p && (binds(bs@.last(), (#[trigger] b.outputs@[j]).name@) || used_later(
                    bs@,
                    b.outputs@[j].name@,
                    i as int,
                ) || link_targeted(bs@, b.outputs@[j].name@)),
        decreases b.outputs@.len() - p,
    {
        let o = &b.outputs[p];
        if binds_exec(last, &o.name) || is_used_later(bs, &o.name, i) || is_link_target(bs, &o.name) {
            reach = true;
        }
        p = p + 1;
    }
    if !reach {
        assert(views(out@) =~= views(old(out)@) + Seq::<DiagView>::empty());
        return;
    }
    let d = if b.outputs.len() > 0 {
        Diagnostic::warning("W002", msg("unbounded passive (`~?`) on '", &b.outputs[0].name, "' is on a path to the terminal; the scheduler cannot bound the plan"), b.outputs[0].span)
    } else {
        Diagnostic::warning("W002", msg("unbounded passive (`~?`) on '", &String::new(), "' is on a path to the terminal; the scheduler cannot bound the plan"), b.span)
    };
    proof { lemma_views_push(out@, d); }
    out.push(d);
}

// ───────────────────────── W003: split sums ─────────────────────────

/// The value of a single-measure amount (one measure term with a number).
pub open spec fn single_measure(a: Amount) -> Option<Number> {
    match a {
        Amount::Quantity { terms, .. } => if terms@.len() == 1 {
            match terms@[0] {
                Term::Measure { value, .. } => value,
                _ => None,
            }
        } else {
            None
        },
        _ => None,
    }
}

pub fn single_measure_exec(a: &Amount) -> (r: Option<Number>)
    ensures
        r == single_measure(*a),
{
    match a {
        Amount::Quantity { terms, .. } => if terms.len() == 1 {
            match &terms[0] {
                Term::Measure { value, .. } => *value,
                _ => None,
            }
        } else {
            None
        },
        _ => None,
    }
}

/// The unit of a single-measure amount as written (empty when it has none).
pub open spec fn measure_unit(a: Amount) -> Seq<char> {
    match a {
        Amount::Quantity { terms, .. } => if terms@.len() == 1 {
            match terms@[0] {
                Term::Measure { unit, .. } => unit_view(unit),
                _ => Seq::empty(),
            }
        } else {
            Seq::empty()
        },
        _ => Seq::empty(),
    }
}

fn measure_unit_exec(a: &Amount) -> (r: String)
    ensures
        r@ == measure_unit(*a),
{
    let mut out = String::new();
    match a {
        Amount::Quantity { terms, .. } => if terms.len() == 1 {
            match &terms[0] {
                Term::Measure { unit: Some(u), .. } => push_str(&mut out, u.as_str()),
                _ => {},
            }
        },
        _ => {},
    }
    out
}

/// Whether every output carries a single-measure amount (in range).
pub open spec fn outputs_measured(b: Binding) -> bool {
    forall|p: int|
        0 <= p < b.outputs@.len() ==> ((#[trigger] b.outputs@[p]).amount matches Some(a)
            && single_measure(a) matches Some(v) && v.wf())
}

/// The unit written on output `p`'s amount.
pub open spec fn out_unit(b: Binding, p: int) -> Seq<char> {
    match b.outputs@[p].amount {
        Some(a) => measure_unit(a),
        None => Seq::empty(),
    }
}

/// The value (nanos) of output `p`'s amount.
pub open spec fn out_nanos(b: Binding, p: int) -> int {
    match b.outputs@[p].amount {
        Some(a) => match single_measure(a) {
            Some(v) => v.nanos as int,
            None => 0,
        },
        None => 0,
    }
}

/// Whether every output is written in the unit `u`, letter for letter.
pub open spec fn same_units(b: Binding, u: Seq<char>) -> bool {
    forall|p: int| 0 <= p < b.outputs@.len() ==> out_unit(b, p) == u
}

/// Whether the units permit comparing the outputs with an input written in
/// `u`: all are written alike, or all are known units of one system.
pub open spec fn units_comparable(b: Binding, u: Seq<char>) -> bool {
    same_units(b, u) || (scale_of_text(u) matches Some((k, _)) && forall|p: int|
        0 <= p < b.outputs@.len() ==> (scale_of_text(#[trigger] out_unit(b, p)) matches Some((k2, _))
            && k2 == k))
}

/// The size of a unit as written, in its system's smallest step (one where
/// the units are written alike).
pub open spec fn size_of(b: Binding, u: Seq<char>, w: Seq<char>) -> int {
    if same_units(b, u) {
        1
    } else {
        match scale_of_text(w) {
            Some((_, f)) => f,
            None => 1,
        }
    }
}

/// The outputs' amounts over the first `p`, each in its system's smallest
/// step, in nanos.
pub open spec fn outputs_sum(b: Binding, u: Seq<char>, p: int) -> int
    decreases p,
{
    if p <= 0 {
        0
    } else {
        outputs_sum(b, u, p - 1) + out_nanos(b, p - 1) * size_of(b, u, out_unit(b, p - 1))
    }
}

/// The single-measure amounts of the top-level ingredient arguments.
pub open spec fn ing_measures(args: Seq<Arg>) -> Seq<Number>
    decreases args.len(),
{
    if args.len() == 0 {
        Seq::empty()
    } else {
        ing_measures(args.drop_last()) + match args.last() {
            Arg::Ingredient(g) => match single_measure(g.amount) {
                Some(v) => seq![v],
                None => Seq::empty(),
            },
            _ => Seq::empty(),
        }
    }
}

/// The units of those amounts, as written.
pub open spec fn ing_units(args: Seq<Arg>) -> Seq<Seq<char>>
    decreases args.len(),
{
    if args.len() == 0 {
        Seq::empty()
    } else {
        ing_units(args.drop_last()) + match args.last() {
            Arg::Ingredient(g) => match single_measure(g.amount) {
                Some(v) => seq![measure_unit(g.amount)],
                None => Seq::empty(),
            },
            _ => Seq::empty(),
        }
    }
}

proof fn lemma_ing_len(args: Seq<Arg>)
    ensures
        ing_units(args).len() == ing_measures(args).len(),
    decreases args.len(),
{
    if args.len() > 0 {
        lemma_ing_len(args.drop_last());
    }
}

/// Integer division rounded toward zero.
pub open spec fn div_toward_zero(a: int, d: int) -> int {
    if a >= 0 {
        a / d
    } else {
        -((-a) / d)
    }
}

pub open spec fn msg_split(sum: Number, input: Number) -> Seq<char> {
    "split amounts sum to "@ + spec_exact_str(sum) + " but the input is "@ + spec_exact_str(input)
}

/// The most outputs a binding can hold: beyond this many (more than memory
/// could hold) no sum is taken.
pub const SPLIT_MAX: u64 = 100_000_000_000_000;

/// W003: a split whose output amounts, where the units permit comparison,
/// do not add up to its one ingredient input (differing by more than a
/// millionth of the input's unit). The sum is reported in the input's unit.
pub open spec fn w003(b: Binding) -> Seq<DiagView> {
    if outputs_measured(b) && b.outputs@.len() <= SPLIT_MAX {
        match b.value {
            Expr::Call(c) => {
                let ms = ing_measures(c.args@);
                let us = ing_units(c.args@);
                if ms.len() == 1 && ms[0].wf() && units_comparable(b, us[0]) {
                    let f = size_of(b, us[0], us[0]);
                    let total = outputs_sum(b, us[0], b.outputs@.len() as int);
                    let input = ms[0].nanos * f;
                    if total - input > 1000 * f || input - total > 1000 * f {
                        seq![warn("W003"@, msg_split(Number { nanos: div_toward_zero(total, f) as i128 }, ms[0]), b.span)]
                    } else {
                        Seq::empty()
                    }
                } else {
                    Seq::empty()
                }
            },
            _ => Seq::empty(),
        }
    } else {
        Seq::empty()
    }
}

/// Whether every output is written in the unit `u`.
fn same_units_exec(b: &Binding, u: &String) -> (r: bool)
    ensures
        r == same_units(*b, u@),
{
    let mut same = true;
    let mut p: usize = 0;
    while p < b.outputs.len()
        invariant
            p <= b.outputs@.len(),
            same == forall|j: int| 0 <= j < p ==> out_unit(*b, j) == u@,
        decreases b.outputs@.len() - p,
    {
        let w = match &b.outputs[p].amount {
            Some(a) => measure_unit_exec(a),
            None => String::new(),
        };
        assert(w@ == out_unit(*b, p as int));
        if !str_eq(w.as_str(), u.as_str()) {
            same = false;
        }
        p = p + 1;
    }
    same
}

/// Whether the units permit comparison, and the size of the input's unit.
fn comparable_exec(b: &Binding, u: &String) -> (r: Option<i128>)
    ensures
        units_comparable(*b, u@) ==> r == Some(size_of(*b, u@, u@) as i128),
        !units_comparable(*b, u@) ==> r is None,
        r matches Some(f) ==> 1 <= f <= 1000000,
{
    let same = same_units_exec(b, u);
    if same {
        return Some(1);
    }
    let (k, f) = match scale_of_unit(u.as_str()) {
        Some(x) => x,
        None => {
            return None;
        },
    };
    let mut q: usize = 0;
    while q < b.outputs.len()
        invariant
            q <= b.outputs@.len(),
            !same_units(*b, u@),
            scale_of_text(u@) matches Some((k1, f1)) && k1 == k && f1 == f,
            forall|j: int| 0 <= j < q ==> (scale_of_text(#[trigger] out_unit(*b, j)) matches Some((k2, _)) && k2 == k),
        decreases b.outputs@.len() - q,
    {
        let w = match &b.outputs[q].amount {
            Some(a) => measure_unit_exec(a),
            None => String::new(),
        };
        assert(w@ == out_unit(*b, q as int));
        match scale_of_unit(w.as_str()) {
            Some((k2, _)) => {
                if k2 != k {
                    return None;
                }
            },
            None => {
                return None;
            },
        }
        q = q + 1;
    }
    Some(f)
}

fn check_split(b: &Binding, out: &mut Vec<Diagnostic>)
    ensures
        views(final(out)@) == views(old(out)@) + w003(*b),
{
    if b.outputs.len() as u64 > SPLIT_MAX {
        assert(views(out@) =~= views(old(out)@) + Seq::<DiagView>::empty());
        return;
    }
    let mut p: usize = 0;
    while p < b.outputs.len()
        invariant
            p <= b.outputs@.len(),
            forall|j: int| 0 <= j < p ==> ((#[trigger] b.outputs@[j]).amount matches Some(a) && single_measure(a) matches Some(v) && v.wf()),
        decreases b.outputs@.len() - p,
    {
        let v = match &b.outputs[p].amount {
            Some(a) => match single_measure_exec(a) {
                Some(v) => v,
                None => {
                    assert(views(out@) =~= views(old(out)@) + Seq::<DiagView>::empty());
                    return;
                },
            },
            None => {
                assert(views(out@) =~= views(old(out)@) + Seq::<DiagView>::empty());
                return;
            },
        };
        if v.nanos < -NANOS_MAX || v.nanos > NANOS_MAX {
            assert(views(out@) =~= views(old(out)@) + Seq::<DiagView>::empty());
            return;
        }
        p = p + 1;
    }
    assert(outputs_measured(*b));
    let c = match &b.value {
        Expr::Call(c) => c,
        _ => {
            assert(views(out@) =~= views(old(out)@) + Seq::<DiagView>::empty());
            return;
        },
    };
    let mut found: Vec<Number> = Vec::new();
    let mut units: Vec<String> = Vec::new();
    let mut q: usize = 0;
    while q < c.args.len()
        invariant
            q <= c.args@.len(),
            found@ == ing_measures(c.args@.take(q as int)),
            units@.len() == found@.len(),
            forall|j: int| 0 <= j < units@.len() ==> (#[trigger] units@[j])@ == ing_units(c.args@.take(q as int))[j],
        decreases c.args@.len() - q,
    {
        assert(c.args@.take(q + 1).drop_last() == c.args@.take(q as int));
        proof { lemma_ing_len(c.args@.take(q as int)); }
        match &c.args[q] {
            Arg::Ingredient(g) => match single_measure_exec(&g.amount) {
                Some(v) => {
                    found.push(v);
                    units.push(measure_unit_exec(&g.amount));
                },
                None => {},
            },
            _ => {},
        }
        q = q + 1;
    }
    assert(c.args@.take(q as int) == c.args@);
    proof { lemma_ing_len(c.args@); }
    if found.len() == 1 && -NANOS_MAX <= found[0].nanos && found[0].nanos <= NANOS_MAX {
        let input = found[0];
        let u = &units[0];
        assert(u@ == ing_units(c.args@)[0]);
        let f = match comparable_exec(b, u) {
            Some(f) => f,
            None => {
                assert(views(out@) =~= views(old(out)@) + Seq::<DiagView>::empty());
                return;
            },
        };
        let total = converted_sum(b, u);
        let x = input.nanos;
        assert(-1_000_000_000_000_000_000_000_000 <= x * f <= 1_000_000_000_000_000_000_000_000) by (nonlinear_arith)
            requires -NANOS_MAX <= x <= NANOS_MAX, 1 <= f <= 1000000;
        let inp = x * f;
        if total - inp > 1000 * f || inp - total > 1000 * f {
            let shown = if total >= 0 { total / f } else { -((-total) / f) };
            let mut t = String::new();
            push_str(&mut t, "split amounts sum to ");
            push_exact(&mut t, Number { nanos: shown });
            push_str(&mut t, " but the input is ");
            push_exact(&mut t, input);
            let d = Diagnostic::warning("W003", t, b.span);
            proof { lemma_views_push(out@, d); }
            out.push(d);
            return;
        }
    }
    assert(views(out@) =~= views(old(out)@) + Seq::<DiagView>::empty());
}

/// The outputs' sum in the smallest step of their system.
fn converted_sum(b: &Binding, u: &String) -> (r: i128)
    requires
        outputs_measured(*b),
        units_comparable(*b, u@),
        b.outputs@.len() <= SPLIT_MAX,
    ensures
        r == outputs_sum(*b, u@, b.outputs@.len() as int),
        -100_000_000_000_000_000_000_000_000_000_000_000_000 <= r <= 100_000_000_000_000_000_000_000_000_000_000_000_000,
{
    let same = same_units_exec(b, u);
    let mut total: i128 = 0;
    let mut p: usize = 0;
    while p < b.outputs.len()
        invariant
            p <= b.outputs@.len() <= SPLIT_MAX,
            outputs_measured(*b),
            units_comparable(*b, u@),
            same == same_units(*b, u@),
            total == outputs_sum(*b, u@, p as int),
            -(p as int) * 1_000_000_000_000_000_000_000_000 <= total <= (p as int) * 1_000_000_000_000_000_000_000_000,
        decreases b.outputs@.len() - p,
    {
        assert(b.outputs@[p as int].amount matches Some(a) && single_measure(a) matches Some(v) && v.wf());
        let (v, w) = match &b.outputs[p].amount {
            Some(a) => match single_measure_exec(a) {
                Some(v) => (v, measure_unit_exec(a)),
                None => {
                    assert(false);
                    (Number { nanos: 0 }, String::new())
                },
            },
            None => {
                assert(false);
                (Number { nanos: 0 }, String::new())
            },
        };
        assert(w@ == out_unit(*b, p as int));
        assert(v.nanos == out_nanos(*b, p as int));
        let f: i128 = if same {
            1
        } else {
            match scale_of_unit(w.as_str()) {
                Some((_, f)) => f,
                None => 1,
            }
        };
        assert(f == size_of(*b, u@, out_unit(*b, p as int)));
        assert(1 <= f <= 1000000) by {
            if !same_units(*b, u@) {
                assert(scale_of_text(out_unit(*b, p as int)) is Some);
            }
        }
        let x = v.nanos;
        assert(-1_000_000_000_000_000_000_000_000 <= x * f <= 1_000_000_000_000_000_000_000_000) by (nonlinear_arith)
            requires -NANOS_MAX <= x <= NANOS_MAX, 1 <= f <= 1000000;
        total = total + x * f;
        p = p + 1;
    }
    total
}

// ───────────────────────── pass B, per binding ─────────────────────────

/// Everything pass B reports for binding `i`, in order: references, basis
/// names, links, W002, W003.
pub open spec fn pass_b_binding(r: Recipe, i: int) -> Seq<DiagView> {
    let bs = r.bindings@;
    ref_diags(r, i, refs(bs, i).len() as int) + binding_basis_diags(r, i) + link_diags(
        bs,
        i,
        bs[i].annotations@.len() as int,
    ) + w002(bs, i) + w003(bs[i])
}

pub open spec fn pass_b_upto(r: Recipe, k: int) -> Seq<DiagView>
    decreases k,
{
    if k <= 0 {
        Seq::empty()
    } else {
        pass_b_upto(r, k - 1) + pass_b_binding(r, k - 1)
    }
}

fn check_bindings(r: &Recipe, out: &mut Vec<Diagnostic>)
    ensures
        views(final(out)@) == views(old(out)@) + pass_b_upto(*r, r.bindings@.len() as int),
{
    let bs = &r.bindings;
    let mut ancs: Vec<Vec<&String>> = Vec::new();
    let mut i: usize = 0;
    while i < bs.len()
        invariant
            *bs == r.bindings,
            i <= bs@.len(),
            ancs@.len() == i,
            forall|k: int| 0 <= k < i ==> names(#[trigger] ancs@[k]@) == anc(bs@, k),
            views(out@) == views(old(out)@) + pass_b_upto(*r, i as int),
        decreases bs@.len() - i,
    {
        let ghost start = views(out@);
        check_refs(r, i, out);
        check_basis_refs(r, i, out);
        let a = compute_anc(bs, &ancs, i);
        check_links(bs, i, &a, out);
        check_unbounded(bs, i, out);
        check_split(&bs[i], out);
        assert(views(out@) =~= start + pass_b_binding(*r, i as int));
        ancs.push(a);
        i = i + 1;
    }
}

// ───────────────────────── consumption ─────────────────────────

/// Counts the references that consume `n` ([`ref_count`]).
pub fn count_refs(bs: &Vec<Binding>, n: &String) -> (r: u128)
    ensures
        r == ref_count(bs@, n@),
{
    let mut count: u128 = 0;
    let mut k: usize = 0;
    while k < bs.len()
        invariant
            k <= bs@.len(),
            count == ref_count_upto(bs@, n@, k as int),
            count <= k * 0xffff_ffff_ffff_ffffu128,
        decreases bs@.len() - k,
    {
        let xs = collect_refs(&bs[k].value);
        let ghost base = count;
        let _ = xs.len();
        let mut q: usize = 0;
        while q < xs.len()
            invariant
                k < bs@.len(),
                derefs(xs@) == refs(bs@, k as int),
                q <= xs@.len(),
                count == base + consumed_in(bs@, k as int, derefs(xs@).take(q as int), n@),
                count <= base + q,
                base <= k * 0xffff_ffff_ffff_ffffu128,
                k < 0xffff_ffff_ffff_ffffu128,
                xs@.len() <= 0xffff_ffff_ffff_ffffu128,
            decreases xs@.len() - q,
        {
            let x = xs[q];
            assert(derefs(xs@)[q as int] == *x);
            assert(derefs(xs@).take(q + 1).drop_last() == derefs(xs@).take(q as int));
            let mut consumed = false;
            if x.member.is_none() && x.name == *n {
                consumed = match find_def(bs, &x.name, bs.len()) {
                    Some(j) => j < k,
                    None => match find_ing(bs, &x.name, bs.len()) {
                        Some(f) => f <= k,
                        None => false,
                    },
                };
            }
            if consumed {
                count = count + 1;
            }
            q = q + 1;
        }
        assert(derefs(xs@).take(q as int) == derefs(xs@));
        k = k + 1;
    }
    count
}

pub open spec fn msg_orphan(n: Seq<char>) -> Seq<char> {
    quoted("orphan: '"@, n, "' is never consumed and is not the terminal"@)
}

pub open spec fn msg_reuse(n: Seq<char>, count: nat) -> Seq<char> {
    "'"@ + n + "' is consumed "@ + spec_nat_str(count)
        + " times; a node may be used once. Insert an explicit split."@
}

/// W001 for an unconsumed non-terminal output, E002 for one consumed twice.
pub open spec fn consumption_out(bs: Seq<Binding>, i: int, p: int) -> Seq<DiagView> {
    let o = bs[i].outputs@[p];
    let rc = ref_count(bs, o.name@);
    if rc == 0 && i != bs.len() - 1 {
        seq![warn("W001"@, msg_orphan(o.name@), o.span)]
    } else if rc > 1 {
        seq![err("E002"@, msg_reuse(o.name@, rc), o.span)]
    } else {
        Seq::empty()
    }
}

pub open spec fn consumption_in(bs: Seq<Binding>, i: int, p: int) -> Seq<DiagView>
    decreases p,
{
    if p <= 0 {
        Seq::empty()
    } else {
        consumption_in(bs, i, p - 1) + consumption_out(bs, i, p - 1)
    }
}

pub open spec fn consumption_upto(bs: Seq<Binding>, k: int) -> Seq<DiagView>
    decreases k,
{
    if k <= 0 {
        Seq::empty()
    } else {
        consumption_upto(bs, k - 1) + consumption_in(bs, k - 1, bs[k - 1].outputs@.len() as int)
    }
}

fn check_consumption(bs: &Vec<Binding>, out: &mut Vec<Diagnostic>)
    ensures
        views(final(out)@) == views(old(out)@) + consumption_upto(bs@, bs@.len() as int),
{
    let mut i: usize = 0;
    while i < bs.len()
        invariant
            i <= bs@.len(),
            views(out@) == views(old(out)@) + consumption_upto(bs@, i as int),
        decreases bs@.len() - i,
    {
        let b = &bs[i];
        let mut p: usize = 0;
        while p < b.outputs.len()
            invariant
                i < bs@.len(),
                *b == bs@[i as int],
                p <= b.outputs@.len(),
                views(out@) == views(old(out)@) + consumption_upto(bs@, i as int) + consumption_in(bs@, i as int, p as int),
            decreases b.outputs@.len() - p,
        {
            let o = &b.outputs[p];
            let rc = count_refs(bs, &o.name);
            let ghost before = views(out@);
            if rc == 0 && i != bs.len() - 1 {
                let d = Diagnostic::warning("W001", msg("orphan: '", &o.name, "' is never consumed and is not the terminal"), o.span);
                proof { lemma_views_push(out@, d); }
                out.push(d);
            } else if rc > 1 {
                let mut t = String::new();
                push_str(&mut t, "'");
                push_str(&mut t, o.name.as_str());
                push_str(&mut t, "' is consumed ");
                push_nat(&mut t, rc);
                push_str(&mut t, " times; a node may be used once. Insert an explicit split.");
                let d = Diagnostic::error("E002", t, o.span);
                proof { lemma_views_push(out@, d); }
                out.push(d);
            }
            assert(views(out@) =~= before + consumption_out(bs@, i as int, p as int));
            p = p + 1;
        }
        i = i + 1;
    }
}

// ───────────────────────── E002 for ingredients ─────────────────────────

/// The span of the first reference named `n` among `xs`.
pub open spec fn first_ref_in(xs: Seq<NodeRef>, n: Seq<char>) -> Option<Span>
    decreases xs.len(),
{
    if xs.len() == 0 {
        None
    } else if xs[0].name@ == n {
        Some(xs[0].span)
    } else {
        first_ref_in(xs.drop_first(), n)
    }
}

/// The span of the first reference named `n` in bindings `k..`.
pub open spec fn first_ref_from(bs: Seq<Binding>, n: Seq<char>, k: int) -> Option<Span>
    decreases bs.len() - k,
{
    if k < 0 || k >= bs.len() {
        None
    } else {
        match first_ref_in(refs(bs, k), n) {
            Some(sp) => Some(sp),
            None => first_ref_from(bs, n, k + 1),
        }
    }
}

pub open spec fn msg_ing_reuse(n: Seq<char>) -> Seq<char> {
    quoted(
        "ingredient '"@,
        n,
        "' is consumed more than once; declare it once and split it"@,
    )
}

/// E002 for an ingredient with one literal that is also referenced by name
/// (reported at its first reference).
pub open spec fn ing_reuse_at(bs: Seq<Binding>, i: int, q: int) -> Seq<DiagView> {
    let g = ings(bs, i)[q];
    if !declared_before(bs, i, q, g.name@) && ing_count(bs, g.name@) == 1 && ref_count(
        bs,
        g.name@,
    ) >= 1 {
        match first_ref_from(bs, g.name@, 0) {
            Some(sp) => seq![err("E002"@, msg_ing_reuse(g.name@), sp)],
            None => Seq::empty(),
        }
    } else {
        Seq::empty()
    }
}

pub open spec fn ing_reuse_in(bs: Seq<Binding>, i: int, q: int) -> Seq<DiagView>
    decreases q,
{
    if q <= 0 {
        Seq::empty()
    } else {
        ing_reuse_in(bs, i, q - 1) + ing_reuse_at(bs, i, q - 1)
    }
}

pub open spec fn ing_reuse_upto(bs: Seq<Binding>, k: int) -> Seq<DiagView>
    decreases k,
{
    if k <= 0 {
        Seq::empty()
    } else {
        ing_reuse_upto(bs, k - 1) + ing_reuse_in(bs, k - 1, ings(bs, k - 1).len() as int)
    }
}

/// Counts the literals of ingredient `n` ([`ing_count`]).
pub fn count_ings(bs: &Vec<Binding>, n: &String) -> (r: u128)
    ensures
        r == ing_count(bs@, n@),
{
    let mut count: u128 = 0;
    let mut k: usize = 0;
    while k < bs.len()
        invariant
            k <= bs@.len(),
            count == ing_count_upto(bs@, n@, k as int),
            count <= k * 0xffff_ffff_ffff_ffffu128,
        decreases bs@.len() - k,
    {
        let gs = collect_ings(&bs[k].value);
        let ghost base = count;
        let _ = gs.len();
        let mut q: usize = 0;
        while q < gs.len()
            invariant
                k < bs@.len(),
                derefs(gs@) == ings(bs@, k as int),
                q <= gs@.len(),
                count == base + count_named(derefs(gs@).take(q as int), n@),
                count <= base + q,
                base <= k * 0xffff_ffff_ffff_ffffu128,
                k < 0xffff_ffff_ffff_ffffu128,
                gs@.len() <= 0xffff_ffff_ffff_ffffu128,
            decreases gs@.len() - q,
        {
            assert(derefs(gs@)[q as int] == *gs@[q as int]);
            assert(derefs(gs@).take(q + 1).drop_last() == derefs(gs@).take(q as int));
            if gs[q].name == *n {
                count = count + 1;
            }
            q = q + 1;
        }
        assert(derefs(gs@).take(q as int) == derefs(gs@));
        k = k + 1;
    }
    count
}

fn find_first_ref(bs: &Vec<Binding>, n: &String) -> (r: Option<Span>)
    ensures
        r == first_ref_from(bs@, n@, 0),
{
    let mut k: usize = bs.len();
    let mut found: Option<Span> = None;
    while k > 0
        invariant
            k <= bs@.len(),
            found == first_ref_from(bs@, n@, k as int),
        decreases k,
    {
        k = k - 1;
        let xs = collect_refs(&bs[k].value);
        let mut q: usize = xs.len();
        let mut here: Option<Span> = None;
        while q > 0
            invariant
                k < bs@.len(),
                derefs(xs@) == refs(bs@, k as int),
                q <= xs@.len(),
                here == first_ref_in(derefs(xs@).skip(q as int), n@),
            decreases q,
        {
            q = q - 1;
            assert(derefs(xs@).skip(q as int).drop_first() == derefs(xs@).skip(q + 1));
            assert(derefs(xs@).skip(q as int)[0] == *xs@[q as int]);
            if xs[q].name == *n {
                here = Some(xs[q].span);
            }
        }
        assert(derefs(xs@).skip(0) == derefs(xs@));
        if here.is_some() {
            found = here;
        }
    }
    found
}

fn check_ing_reuse(bs: &Vec<Binding>, out: &mut Vec<Diagnostic>)
    ensures
        views(final(out)@) == views(old(out)@) + ing_reuse_upto(bs@, bs@.len() as int),
{
    let mut i: usize = 0;
    while i < bs.len()
        invariant
            i <= bs@.len(),
            views(out@) == views(old(out)@) + ing_reuse_upto(bs@, i as int),
        decreases bs@.len() - i,
    {
        let gs = collect_ings(&bs[i].value);
        let mut q: usize = 0;
        while q < gs.len()
            invariant
                i < bs@.len(),
                derefs(gs@) == ings(bs@, i as int),
                q <= gs@.len(),
                views(out@) == views(old(out)@) + ing_reuse_upto(bs@, i as int) + ing_reuse_in(bs@, i as int, q as int),
            decreases gs@.len() - q,
        {
            let g = gs[q];
            assert(derefs(gs@)[q as int] == *g);
            let ghost before = views(out@);
            let first = !(find_ing(bs, &g.name, i).is_some() || ing_named_before(&gs, q, &g.name));
            if first && count_ings(bs, &g.name) == 1 && count_refs(bs, &g.name) >= 1 {
                match find_first_ref(bs, &g.name) {
                    Some(sp) => {
                        let d = Diagnostic::error("E002", msg("ingredient '", &g.name, "' is consumed more than once; declare it once and split it"), sp);
                        proof { lemma_views_push(out@, d); }
                        out.push(d);
                    },
                    None => {},
                }
            }
            assert(views(out@) =~= before + ing_reuse_at(bs@, i as int, q as int));
            q = q + 1;
        }
        i = i + 1;
    }
}

// ───────────────────────── W004: constituents ─────────────────────────

/// A constituent share: its basis, percentage and the amount's span.
pub struct Share {
    pub basis: Seq<char>,
    pub percent: Number,
    pub span: Span,
}

/// The constituent (`%*`) shares of an amount's terms.
pub open spec fn term_shares(terms: Seq<Term>, span: Span) -> Seq<Share>
    decreases terms.len(),
{
    if terms.len() == 0 {
        Seq::empty()
    } else {
        term_shares(terms.drop_last(), span) + match terms.last() {
            Term::Basis { percent: Some(p), constituent: true, basis, .. } => seq![
                Share { basis: basis@, percent: p, span },
            ],
            _ => Seq::empty(),
        }
    }
}

pub open spec fn amount_shares(a: Amount) -> Seq<Share> {
    match a {
        Amount::Quantity { terms, span, .. } => term_shares(terms@, span),
        _ => Seq::empty(),
    }
}

pub open spec fn ings_shares(gs: Seq<Ingredient>) -> Seq<Share>
    decreases gs.len(),
{
    if gs.len() == 0 {
        Seq::empty()
    } else {
        ings_shares(gs.drop_last()) + amount_shares(gs.last().amount)
    }
}

/// Every ingredient constituent share in the recipe (sub-recipe shares are
/// not counted), in source order.
pub open spec fn shares_upto(bs: Seq<Binding>, k: int) -> Seq<Share>
    decreases k,
{
    if k <= 0 {
        Seq::empty()
    } else {
        shares_upto(bs, k - 1) + ings_shares(ings(bs, k - 1))
    }
}

/// The total percentage (nanos) of basis `b` among `sh`.
pub open spec fn share_sum(sh: Seq<Share>, b: Seq<char>) -> int
    decreases sh.len(),
{
    if sh.len() == 0 {
        0
    } else {
        share_sum(sh.drop_last(), b) + if sh.last().basis == b {
            sh.last().percent.nanos as int
        } else {
            0
        }
    }
}

pub open spec fn msg_constituents(b: Seq<char>, sum: Number) -> Seq<char> {
    "constituent percentages of basis '"@ + b + "' sum to "@ + spec_exact_str(sum) + "%, not 100%"@
}

/// W004 at the first share of each declared basis whose shares do not total
/// 100% (within a millionth).
pub open spec fn w004_at(r: Recipe, sh: Seq<Share>, t: int) -> Seq<DiagView> {
    let x = sh[t];
    let first = forall|u: int| 0 <= u < t ==> (#[trigger] sh[u]).basis != x.basis;
    let total = share_sum(sh, x.basis);
    if first && is_basis(r, x.basis) && (total - 100 * SCALE > 1000 || 100 * SCALE - total > 1000) {
        seq![warn("W004"@, msg_constituents(x.basis, Number { nanos: total as i128 }), x.span)]
    } else {
        Seq::empty()
    }
}

pub open spec fn w004_upto(r: Recipe, sh: Seq<Share>, t: int) -> Seq<DiagView>
    decreases t,
{
    if t <= 0 {
        Seq::empty()
    } else {
        w004_upto(r, sh, t - 1) + w004_at(r, sh, t - 1)
    }
}

pub open spec fn shares_wf(sh: Seq<Share>) -> bool {
    forall|t: int| 0 <= t < sh.len() ==> (#[trigger] sh[t]).percent.wf()
}

/// The W004 diagnostics of a recipe (none when some share is out of range).
pub open spec fn w004(r: Recipe) -> Seq<DiagView> {
    let sh = shares_upto(r.bindings@, r.bindings@.len() as int);
    if shares_wf(sh) {
        w004_upto(r, sh, sh.len() as int)
    } else {
        Seq::empty()
    }
}

struct ShareRef<'a> {
    basis: &'a String,
    percent: Number,
    span: Span,
}

spec fn share_views(v: Seq<ShareRef>) -> Seq<Share> {
    Seq::new(v.len(), |t: int| Share { basis: v[t].basis@, percent: v[t].percent, span: v[t].span })
}

proof fn lemma_share_views_push(v: Seq<ShareRef>, x: ShareRef)
    ensures
        share_views(v.push(x)) == share_views(v).push(Share { basis: x.basis@, percent: x.percent, span: x.span }),
{
    assert(share_views(v.push(x)) =~= share_views(v).push(Share { basis: x.basis@, percent: x.percent, span: x.span }));
}

fn collect_shares<'a>(bs: &'a Vec<Binding>) -> (r: Vec<ShareRef<'a>>)
    ensures
        share_views(r@) == shares_upto(bs@, bs@.len() as int),
{
    let mut out: Vec<ShareRef<'a>> = Vec::new();
    assert(share_views(out@) =~= Seq::<Share>::empty());
    let mut k: usize = 0;
    while k < bs.len()
        invariant
            k <= bs@.len(),
            share_views(out@) == shares_upto(bs@, k as int),
        decreases bs@.len() - k,
    {
        let gs = collect_ings(&bs[k].value);
        let ghost base = share_views(out@);
        let mut q: usize = 0;
        while q < gs.len()
            invariant
                k < bs@.len(),
                derefs(gs@) == ings(bs@, k as int),
                q <= gs@.len(),
                share_views(out@) == base + ings_shares(derefs(gs@).take(q as int)),
            decreases gs@.len() - q,
        {
            assert(derefs(gs@)[q as int] == *gs@[q as int]);
            assert(derefs(gs@).take(q + 1).drop_last() == derefs(gs@).take(q as int));
            let ghost mid = share_views(out@);
            match &gs[q].amount {
                Amount::Quantity { terms, span, .. } => {
                    let mut t: usize = 0;
                    while t < terms.len()
                        invariant
                            t <= terms@.len(),
                            share_views(out@) == mid + term_shares(terms@.take(t as int), *span),
                        decreases terms@.len() - t,
                    {
                        assert(terms@.take(t + 1).drop_last() == terms@.take(t as int));
                        match &terms[t] {
                            Term::Basis { percent: Some(p), constituent: true, basis, .. } => {
                                let x = ShareRef { basis, percent: *p, span: *span };
                                proof { lemma_share_views_push(out@, x); }
                                out.push(x);
                            },
                            _ => {},
                        }
                        t = t + 1;
                    }
                    assert(terms@.take(t as int) == terms@);
                },
                _ => {},
            }
            q = q + 1;
        }
        assert(derefs(gs@).take(q as int) == derefs(gs@));
        k = k + 1;
    }
    out
}

fn check_constituents(r: &Recipe, out: &mut Vec<Diagnostic>)
    ensures
        views(final(out)@) == views(old(out)@) + w004(*r),
{
    let sh = collect_shares(&r.bindings);
    let ghost shv = share_views(sh@);
    let mut t: usize = 0;
    while t < sh.len()
        invariant
            t <= sh@.len(),
            shv == share_views(sh@),
            shv == shares_upto(r.bindings@, r.bindings@.len() as int),
            out@ == old(out)@,
            forall|u: int| 0 <= u < t ==> (#[trigger] shv[u]).percent.wf(),
        decreases sh@.len() - t,
    {
        if sh[t].percent.nanos < -NANOS_MAX || sh[t].percent.nanos > NANOS_MAX {
            assert(!shares_wf(shv)) by {
                assert(shv[t as int].percent == sh@[t as int].percent);
            }
            assert(views(out@) =~= views(old(out)@) + Seq::<DiagView>::empty());
            return;
        }
        t = t + 1;
    }
    assert(shares_wf(shv));
    let mut t: usize = 0;
    while t < sh.len()
        invariant
            t <= sh@.len(),
            shv == share_views(sh@),
            shv == shares_upto(r.bindings@, r.bindings@.len() as int),
            shares_wf(shv),
            views(out@) == views(old(out)@) + w004_upto(*r, shv, t as int),
        decreases sh@.len() - t,
    {
        let x = &sh[t];
        assert(shv[t as int].basis == x.basis@);
        // first share of its basis?
        let mut u: usize = 0;
        let mut first = true;
        while u < t
            invariant
                u <= t < sh@.len(),
                shv == share_views(sh@),
                first == forall|w: int| 0 <= w < u ==> (#[trigger] shv[w]).basis != x.basis@,
            decreases t - u,
        {
            assert(shv[u as int].basis == sh@[u as int].basis@);
            if *sh[u].basis == *x.basis {
                first = false;
            }
            u = u + 1;
        }
        let ghost before = views(out@);
        if first && basis_declared(&r.bases, x.basis) {
            // total of this basis
            let mut total: i128 = 0;
            let mut w: usize = 0;
            while w < sh.len()
                invariant
                    w <= sh@.len(),
                    shv == share_views(sh@),
                    shares_wf(shv),
                    total == share_sum(shv.take(w as int), x.basis@),
                    -(w as int) * NANOS_MAX <= total <= (w as int) * NANOS_MAX,
                decreases sh@.len() - w,
            {
                assert(shv.take(w + 1).drop_last() == shv.take(w as int));
                assert(shv[w as int].basis == sh@[w as int].basis@);
                assert(shv[w as int].percent == sh@[w as int].percent);
                if *sh[w].basis == *x.basis {
                    total = total + sh[w].percent.nanos;
                }
                w = w + 1;
            }
            assert(shv.take(w as int) == shv);
            if total - 100 * SCALE > 1000 || 100 * SCALE - total > 1000 {
                let mut m = String::new();
                push_str(&mut m, "constituent percentages of basis '");
                push_str(&mut m, x.basis.as_str());
                push_str(&mut m, "' sum to ");
                push_exact(&mut m, Number { nanos: total });
                push_str(&mut m, "%, not 100%");
                let d = Diagnostic::warning("W004", m, x.span);
                proof { lemma_views_push(out@, d); }
                out.push(d);
            }
        }
        assert(views(out@) =~= before + w004_at(*r, shv, t as int));
        t = t + 1;
    }
}

// ───────────────────────── recipes, menus, files ─────────────────────────

/// Every diagnostic of a recipe, in the order the rules report them: E008,
/// E003, the per-binding checks (E001, E004, E005, W002, W003), W001 / E002
/// for nodes, E002 for ingredients, W004.
pub open spec fn recipe_diags(r: Recipe) -> Seq<DiagView> {
    let bs = r.bindings@;
    let n = bs.len() as int;
    e008_upto(bs, n) + e003_upto(bs, n) + pass_b_upto(r, n) + consumption_upto(bs, n)
        + ing_reuse_upto(bs, n) + w004(r)
}

/// Validates a recipe (unsorted; see [`validate`] for the stable order).
pub fn validate_recipe(r: &Recipe) -> (ds: Vec<Diagnostic>)
    ensures
        views(ds@) == recipe_diags(*r),
{
    let mut out: Vec<Diagnostic> = Vec::new();
    assert(views(out@) =~= Seq::<DiagView>::empty());
    check_names(&r.bindings, &mut out);
    check_redeclared(&r.bindings, &mut out);
    check_bindings(r, &mut out);
    check_consumption(&r.bindings, &mut out);
    check_ing_reuse(&r.bindings, &mut out);
    check_constituents(r, &mut out);
    assert(views(out@) =~= recipe_diags(*r));
    out
}

pub open spec fn msg_alias(n: Seq<char>) -> Seq<char> {
    quoted("menu reference to unknown alias '"@, n, "'"@)
}

pub open spec fn is_alias(m: Menu, n: Seq<char>) -> bool {
    exists|q: int| 0 <= q < m.entries@.len() && (#[trigger] m.entries@[q]).alias@ == n
}

/// E006 for a `&by` / `&during` link whose target alias is not in the menu.
pub open spec fn menu_link_diag(m: Menu, l: Link) -> Seq<DiagView> {
    match l {
        Link::By { target, span } => if is_alias(m, target.name@) {
            Seq::empty()
        } else {
            seq![err("E006"@, msg_alias(target.name@), span)]
        },
        Link::During { target, span } => if is_alias(m, target.name@) {
            Seq::empty()
        } else {
            seq![err("E006"@, msg_alias(target.name@), span)]
        },
        _ => Seq::empty(),
    }
}

pub open spec fn menu_links_in(m: Menu, e: int, q: int) -> Seq<DiagView>
    decreases q,
{
    if q <= 0 {
        Seq::empty()
    } else {
        menu_links_in(m, e, q - 1) + menu_link_diag(m, m.entries@[e].links@[q - 1])
    }
}

pub open spec fn menu_diags_upto(m: Menu, k: int) -> Seq<DiagView>
    decreases k,
{
    if k <= 0 {
        Seq::empty()
    } else {
        menu_diags_upto(m, k - 1) + menu_links_in(m, k - 1, m.entries@[k - 1].links@.len() as int)
    }
}

fn alias_known(m: &Menu, n: &String) -> (r: bool)
    ensures
        r == is_alias(*m, n@),
{
    let mut q: usize = 0;
    while q < m.entries.len()
        invariant
            q <= m.entries@.len(),
            forall|j: int| 0 <= j < q ==> (#[trigger] m.entries@[j]).alias@ != n@,
        decreases m.entries@.len() - q,
    {
        if m.entries[q].alias == *n {
            return true;
        }
        q = q + 1;
    }
    false
}

/// Validates a menu: every `&by` / `&during` target must name an alias of
/// this menu (the node half needs the referenced recipe loaded).
pub fn validate_menu(m: &Menu) -> (ds: Vec<Diagnostic>)
    ensures
        views(ds@) == menu_diags_upto(*m, m.entries@.len() as int),
{
    let mut out: Vec<Diagnostic> = Vec::new();
    assert(views(out@) =~= Seq::<DiagView>::empty());
    let mut e: usize = 0;
    while e < m.entries.len()
        invariant
            e <= m.entries@.len(),
            views(out@) == menu_diags_upto(*m, e as int),
        decreases m.entries@.len() - e,
    {
        let links = &m.entries[e].links;
        let mut q: usize = 0;
        while q < links.len()
            invariant
                e < m.entries@.len(),
                *links == m.entries@[e as int].links,
                q <= links@.len(),
                views(out@) == menu_diags_upto(*m, e as int) + menu_links_in(*m, e as int, q as int),
            decreases links@.len() - q,
        {
            let ghost before = views(out@);
            match &links[q] {
                Link::By { target, span } | Link::During { target, span } => {
                    if !alias_known(m, &target.name) {
                        let d = Diagnostic::error("E006", msg("menu reference to unknown alias '", &target.name, "'"), *span);
                        proof { lemma_views_push(out@, d); }
                        out.push(d);
                    }
                },
                _ => {},
            }
            assert(views(out@) =~= before + menu_link_diag(*m, links@[q as int]));
            q = q + 1;
        }
        e = e + 1;
    }
    out
}

// ───────────────────────── ordering ─────────────────────────

/// Lexicographic order on character sequences (as `String`'s `Ord`).
pub open spec fn seq_lt(a: Seq<char>, b: Seq<char>) -> bool
    decreases a.len(),
{
    if b.len() == 0 {
        false
    } else if a.len() == 0 {
        true
    } else if a[0] != b[0] {
        a[0] < b[0]
    } else {
        seq_lt(a.drop_first(), b.drop_first())
    }
}

/// Diagnostics sort by source position, then code.
pub open spec fn diag_lt(a: DiagView, b: DiagView) -> bool {
    a.span.start_byte < b.span.start_byte || (a.span.start_byte == b.span.start_byte && seq_lt(
        a.code,
        b.code,
    ))
}

/// Where a stable insertion puts `d` into the sorted `s`: before the first
/// element that sorts after it.
pub open spec fn insert_pos(s: Seq<DiagView>, d: DiagView) -> int
    decreases s.len(),
{
    if s.len() == 0 {
        0
    } else if diag_lt(d, s[0]) {
        0
    } else {
        1 + insert_pos(s.drop_first(), d)
    }
}

/// A stable sort by (position, code).
pub open spec fn sort_diags(s: Seq<DiagView>) -> Seq<DiagView>
    decreases s.len(),
{
    if s.len() == 0 {
        s
    } else {
        let sorted = sort_diags(s.drop_last());
        sorted.insert(insert_pos(sorted, s.last()), s.last())
    }
}

fn code_lt(a: &String, b: &String) -> (r: bool)
    ensures
        r == seq_lt(a@, b@),
{
    let x = crate::text::chars_of(a.as_str());
    let y = crate::text::chars_of(b.as_str());
    let mut i: usize = 0;
    assert(x@.skip(0) == x@ && y@.skip(0) == y@);
    while i < x.len() && i < y.len() && x[i] == y[i]
        invariant
            x@ == a@,
            y@ == b@,
            i <= x@.len(),
            i <= y@.len(),
            seq_lt(x@, y@) == seq_lt(x@.skip(i as int), y@.skip(i as int)),
        decreases x@.len() - i,
    {
        assert(x@.skip(i as int).drop_first() == x@.skip(i + 1));
        assert(y@.skip(i as int).drop_first() == y@.skip(i + 1));
        i = i + 1;
    }
    if i >= y.len() {
        assert(y@.skip(i as int).len() == 0);
        false
    } else if i >= x.len() {
        assert(x@.skip(i as int).len() == 0);
        true
    } else {
        assert(x@.skip(i as int)[0] == x@[i as int]);
        assert(y@.skip(i as int)[0] == y@[i as int]);
        x[i] < y[i]
    }
}

fn diag_less(a: &Diagnostic, b: &Diagnostic) -> (r: bool)
    ensures
        r == diag_lt(a@, b@),
{
    a.span.start_byte < b.span.start_byte || (a.span.start_byte == b.span.start_byte && code_lt(
        &a.code,
        &b.code,
    ))
}

proof fn lemma_views_insert(ds: Seq<Diagnostic>, j: int, d: Diagnostic)
    requires
        0 <= j <= ds.len(),
    ensures
        views(ds.insert(j, d)) == views(ds).insert(j, d@),
{
    assert(views(ds.insert(j, d)) =~= views(ds).insert(j, d@));
}

/// Sorts diagnostics by (position, code), keeping the order of ties.
pub fn sort_diagnostics(ds: Vec<Diagnostic>) -> (r: Vec<Diagnostic>)
    ensures
        views(r@) == sort_diags(views(ds@)),
{
    let ghost all = views(ds@);
    let total = ds.len();
    let mut rest = ds;
    let mut out: Vec<Diagnostic> = Vec::new();
    let mut k: usize = 0;
    let ghost n = all.len();
    while rest.len() > 0
        invariant
            views(rest@) == all.skip(k as int),
            k <= n,
            n == all.len(),
            n == total,
            views(out@) == sort_diags(all.take(k as int)),
        decreases rest@.len(),
    {
        let ghost pre = rest@;
        assert(views(rest@).len() == rest@.len());
        assert(k < n);
        let d = rest.remove(0);
        assert(all.take(k + 1).drop_last() == all.take(k as int));
        assert(all.take(k + 1).last() == d@) by {
            assert(views(pre)[0] == pre[0]@);
            assert(all.skip(k as int)[0] == all[k as int]);
        }
        // find the insertion point
        let ghost sorted = views(out@);
        let mut j: usize = 0;
        assert(sorted.skip(0) == sorted);
        while j < out.len() && !diag_less(&d, &out[j])
            invariant
                j <= out@.len(),
                sorted == views(out@),
                insert_pos(sorted, d@) == j + insert_pos(sorted.skip(j as int), d@),
            decreases out@.len() - j,
        {
            assert(sorted.skip(j as int).drop_first() == sorted.skip(j + 1));
            assert(sorted.skip(j as int)[0] == out@[j as int]@);
            j = j + 1;
        }
        proof {
            if j < out@.len() {
                assert(sorted.skip(j as int)[0] == out@[j as int]@);
            }
            assert(insert_pos(sorted, d@) == j);
            lemma_views_insert(out@, j as int, d);
        }
        out.insert(j, d);
        k = k + 1;
        assert(views(rest@) =~= all.skip(k as int)) by {
            assert(rest@ == pre.subrange(1, pre.len() as int));
            assert forall|t: int| 0 <= t < rest@.len() implies views(rest@)[t] == all.skip(k as int)[t] by {
                assert(views(pre)[t + 1] == pre[t + 1]@);
            }
        }
    }
    assert(all.take(k as int) == all);
    out
}

/// Validates a parsed file: syntax errors surface as E000, then the recipe
/// or menu rules apply; the result is sorted by position, then code.
pub open spec fn file_diags(l: Lowered) -> Seq<DiagView> {
    let syn = Seq::new(
        l.errors@.len(),
        |q: int| err("E000"@, "syntax: "@ + l.errors@[q].message@, l.errors@[q].span),
    );
    let body = match l.file {
        Some(File::Recipe(r)) => recipe_diags(r),
        Some(File::Menu(m)) => menu_diags_upto(m, m.entries@.len() as int),
        None => Seq::empty(),
    };
    sort_diags(syn + body)
}

/// Validates a parsed file. Syntax errors are surfaced as `E000`.
pub fn validate(lowered: &Lowered) -> (ds: Vec<Diagnostic>)
    ensures
        views(ds@) == file_diags(*lowered),
{
    let mut out: Vec<Diagnostic> = Vec::new();
    let mut q: usize = 0;
    while q < lowered.errors.len()
        invariant
            q <= lowered.errors@.len(),
            views(out@) == Seq::new(
                q as nat,
                |j: int| err("E000"@, "syntax: "@ + lowered.errors@[j].message@, lowered.errors@[j].span),
            ),
        decreases lowered.errors@.len() - q,
    {
        let e = &lowered.errors[q];
        let mut m = String::new();
        push_str(&mut m, "syntax: ");
        push_str(&mut m, e.message.as_str());
        let d = Diagnostic::error("E000", m, e.span);
        proof { lemma_views_push(out@, d); }
        out.push(d);
        q = q + 1;
        assert(views(out@) =~= Seq::new(
            q as nat,
            |j: int| err("E000"@, "syntax: "@ + lowered.errors@[j].message@, lowered.errors@[j].span),
        ));
    }
    let ghost syn = views(out@);
    let mut body = match &lowered.file {
        Some(File::Recipe(r)) => validate_recipe(r),
        Some(File::Menu(m)) => validate_menu(m),
        None => Vec::new(),
    };
    assert(views(body@) == match lowered.file {
        Some(File::Recipe(r)) => recipe_diags(r),
        Some(File::Menu(m)) => menu_diags_upto(m, m.entries@.len() as int),
        None => Seq::<DiagView>::empty(),
    }) by {
        if lowered.file is None {
            assert(views(body@) =~= Seq::<DiagView>::empty());
        }
    }
    let ghost b = views(body@);
    out.append(&mut body);
    assert(views(out@) =~= syn + b);
    sort_diagnostics(out)
}

/// Validates Swede source directly.
pub fn validate_source(source: &str) -> (ds: Vec<Diagnostic>)
    ensures
        exists|l: Lowered| crate::parse::lowered_wf(l, source@) && views(ds@) == file_diags(l),
{
    let l = crate::parse::parse(source);
    let ds = validate(&l);
    assert(crate::parse::lowered_wf(l, source@) && views(ds@) == file_diags(l));
    ds
}

proof fn lemma_seq_lt_irrefl(a: Seq<char>)
    ensures
        !seq_lt(a, a),
    decreases a.len(),
{
    if a.len() > 0 {
        lemma_seq_lt_irrefl(a.drop_first());
    }
}

proof fn lemma_seq_lt_trans(a: Seq<char>, b: Seq<char>, c: Seq<char>)
    requires
        seq_lt(a, b),
        seq_lt(b, c),
    ensures
        seq_lt(a, c),
    decreases a.len(),
{
    if a.len() > 0 && b.len() > 0 && c.len() > 0 && a[0] == b[0] && b[0] == c[0] {
        lemma_seq_lt_trans(a.drop_first(), b.drop_first(), c.drop_first());
    }
}

proof fn lemma_diag_lt_trans(a: DiagView, b: DiagView, c: DiagView)
    requires
        diag_lt(a, b),
        diag_lt(b, c),
    ensures
        diag_lt(a, c),
{
    if a.span.start_byte == b.span.start_byte && b.span.start_byte == c.span.start_byte {
        lemma_seq_lt_trans(a.code, b.code, c.code);
    }
}

/// No diagnostic sorts before one listed earlier.
pub open spec fn diags_ordered(s: Seq<DiagView>) -> bool {
    forall|i: int, j: int| 0 <= i < j < s.len() ==> !diag_lt(#[trigger] s[j], #[trigger] s[i])
}

proof fn lemma_insert_pos_props(s: Seq<DiagView>, d: DiagView)
    ensures
        0 <= insert_pos(s, d) <= s.len(),
        forall|k: int| 0 <= k < insert_pos(s, d) ==> !diag_lt(d, #[trigger] s[k]),
        insert_pos(s, d) < s.len() ==> diag_lt(d, s[insert_pos(s, d)]),
    decreases s.len(),
{
    if s.len() > 0 && !diag_lt(d, s[0]) {
        lemma_insert_pos_props(s.drop_first(), d);
        assert forall|k: int| 0 <= k < insert_pos(s, d) implies !diag_lt(d, #[trigger] s[k]) by {
            if k > 0 {
                assert(s[k] == s.drop_first()[k - 1]);
            }
        }
    }
}

proof fn lemma_sort_diags_ordered(s: Seq<DiagView>)
    ensures
        diags_ordered(sort_diags(s)),
        sort_diags(s).len() == s.len(),
    decreases s.len(),
{
    if s.len() > 0 {
        let sorted = sort_diags(s.drop_last());
        lemma_sort_diags_ordered(s.drop_last());
        let d = s.last();
        let p = insert_pos(sorted, d);
        lemma_insert_pos_props(sorted, d);
        let t = sorted.insert(p, d);
        assert forall|i: int, j: int| 0 <= i < j < t.len() implies !diag_lt(#[trigger] t[j], #[trigger] t[i]) by {
            if j < p {
                assert(t[i] == sorted[i] && t[j] == sorted[j]);
            } else if j == p {
                assert(t[j] == d && t[i] == sorted[i]);
            } else if i > p {
                assert(t[i] == sorted[i - 1] && t[j] == sorted[j - 1]);
            } else if i == p {
                assert(t[i] == d && t[j] == sorted[j - 1]);
                if diag_lt(sorted[j - 1], d) {
                    lemma_diag_lt_trans(sorted[j - 1], d, sorted[p]);
                    if j - 1 == p {
                        lemma_seq_lt_irrefl(sorted[p].code);
                    }
                }
            } else {
                assert(t[i] == sorted[i] && t[j] == sorted[j - 1]);
            }
        }
    }
}

/// Diagnostics come in source order: by position, and at one position by
/// code.
pub proof fn law_diagnostics_ordered(l: Lowered)
    ensures
        diags_ordered(file_diags(l)),
{
    let syn = Seq::new(
        l.errors@.len(),
        |q: int| err("E000"@, "syntax: "@ + l.errors@[q].message@, l.errors@[q].span),
    );
    let body = match l.file {
        Some(File::Recipe(r)) => recipe_diags(r),
        Some(File::Menu(m)) => menu_diags_upto(m, m.entries@.len() as int),
        None => Seq::empty(),
    };
    lemma_sort_diags_ordered(syn + body);
}

} // verus!
