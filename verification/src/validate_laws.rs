//! Laws of the validator, stated over the parsed recipe.

use vstd::prelude::*;
use crate::ast::{Amount, Expr, Ingredient, Recipe, Span, Term};
use crate::diagnostic::Severity;
use crate::uses::expr_ings;
use crate::validate::{
    DiagView, amount_basis_diags, binding_basis_diags, consumption_upto, e003_upto, e008_upto, err,
    ing_reuse_upto, ings, ings_basis_diags, is_basis, link_diags, msg_unknown_basis, pass_b_binding, pass_b_upto,
    recipe_diags, ref_diags, refs, term_basis_diags, w002, w003, w004,
};

verus! {

// ───────────────── law: an undeclared basis is an error ─────────────────

/// Amount `a` is written in binding `i`: on one of its ingredient literals
/// (nested calls included), or on its sub-recipe reference.
pub open spec fn amount_in_binding(r: Recipe, i: int, a: Amount) -> bool {
    ||| exists|j: int| 0 <= j < expr_ings(r.bindings@[i].value).len() && #[trigger] expr_ings(r.bindings@[i].value)[j].amount == a
    ||| (r.bindings@[i].value matches Expr::SubRef(sr) && sr.amount == Some(a))
}

proof fn lemma_contains_left(a: Seq<DiagView>, b: Seq<DiagView>, x: DiagView)
    requires
        a.contains(x),
    ensures
        (a + b).contains(x),
{
    let i = choose|i: int| 0 <= i < a.len() && a[i] == x;
    assert((a + b)[i] == x);
}

proof fn lemma_contains_right(a: Seq<DiagView>, b: Seq<DiagView>, x: DiagView)
    requires
        b.contains(x),
    ensures
        (a + b).contains(x),
{
    let i = choose|i: int| 0 <= i < b.len() && b[i] == x;
    assert((a + b)[a.len() + i] == x);
}

proof fn lemma_term_basis_has(r: Recipe, terms: Seq<Term>, span: Span, k: int, b: Seq<char>)
    requires
        0 <= k < terms.len(),
        terms[k] matches Term::Basis { basis, .. } && basis@ == b,
        forall|q: int| 0 <= q < r.bases@.len() ==> (#[trigger] r.bases@[q]).name@ != b,
    ensures
        term_basis_diags(r, terms, span).contains(DiagView { code: "E001"@, severity: Severity::Error, message: "unknown basis '"@ + b + "'"@, span }),
    decreases terms.len(),
{
    let d = DiagView { code: "E001"@, severity: Severity::Error, message: "unknown basis '"@ + b + "'"@, span };
    if k == terms.len() - 1 {
        assert(!is_basis(r, b));
        let last = seq![err("E001"@, msg_unknown_basis(b), span)];
        assert(last[0] == d);
        assert(last.contains(d));
        lemma_contains_right(term_basis_diags(r, terms.drop_last(), span), last, d);
    } else {
        assert(terms.drop_last()[k] == terms[k]);
        lemma_term_basis_has(r, terms.drop_last(), span, k, b);
        let tail = match terms.last() {
            Term::Basis { basis, .. } => if is_basis(r, basis@) {
                Seq::empty()
            } else {
                seq![err("E001"@, msg_unknown_basis(basis@), span)]
            },
            _ => Seq::empty(),
        };
        lemma_contains_left(term_basis_diags(r, terms.drop_last(), span), tail, d);
    }
}

proof fn lemma_ings_basis_has(r: Recipe, gs: Seq<Ingredient>, j: int, x: DiagView)
    requires
        0 <= j < gs.len(),
        amount_basis_diags(r, gs[j].amount).contains(x),
    ensures
        ings_basis_diags(r, gs).contains(x),
    decreases gs.len(),
{
    if j == gs.len() - 1 {
        lemma_contains_right(ings_basis_diags(r, gs.drop_last()), amount_basis_diags(r, gs.last().amount), x);
    } else {
        assert(gs.drop_last()[j] == gs[j]);
        lemma_ings_basis_has(r, gs.drop_last(), j, x);
        lemma_contains_left(ings_basis_diags(r, gs.drop_last()), amount_basis_diags(r, gs.last().amount), x);
    }
}

proof fn lemma_pass_b_has(r: Recipe, i: int, k: int, x: DiagView)
    requires
        0 <= i < k,
        pass_b_binding(r, i).contains(x),
    ensures
        pass_b_upto(r, k).contains(x),
    decreases k,
{
    if i == k - 1 {
        lemma_contains_right(pass_b_upto(r, k - 1), pass_b_binding(r, k - 1), x);
    } else {
        lemma_pass_b_has(r, i, k - 1, x);
        lemma_contains_left(pass_b_upto(r, k - 1), pass_b_binding(r, k - 1), x);
    }
}

/// An amount relative to a basis that no `basis` line declares is reported:
/// for every basis-relative term (`N% b` or `N%* b`) of an ingredient or
/// sub-recipe amount whose basis `b` is not a declared basis, validating the
/// recipe gives the error E001 "unknown basis 'b'" at that amount's span.
pub proof fn law_undeclared_basis_reported(r: Recipe, i: int, a: Amount, k: int, b: Seq<char>)
    requires
        0 <= i < r.bindings@.len(),
        amount_in_binding(r, i, a),
        a matches Amount::Quantity { terms, .. } && 0 <= k < terms@.len() && (terms@[k] matches Term::Basis { basis, .. }
            && basis@ == b),
        forall|q: int| 0 <= q < r.bases@.len() ==> (#[trigger] r.bases@[q]).name@ != b,
    ensures
        recipe_diags(r).contains(DiagView { code: "E001"@, severity: Severity::Error, message: "unknown basis '"@ + b + "'"@, span: a.spec_span() }),
{
    let d = DiagView { code: "E001"@, severity: Severity::Error, message: "unknown basis '"@ + b + "'"@, span: a.spec_span() };
    let terms = a->Quantity_terms;
    lemma_term_basis_has(r, terms@, a.spec_span(), k, b);
    assert(amount_basis_diags(r, a).contains(d));
    let gs = ings(r.bindings@, i);
    let tail = match r.bindings@[i].value {
        Expr::SubRef(sr) => match sr.amount {
            Some(a2) => amount_basis_diags(r, a2),
            None => Seq::empty(),
        },
        _ => Seq::empty(),
    };
    if exists|j: int| 0 <= j < expr_ings(r.bindings@[i].value).len() && #[trigger] expr_ings(r.bindings@[i].value)[j].amount == a {
        let j = choose|j: int| 0 <= j < expr_ings(r.bindings@[i].value).len() && #[trigger] expr_ings(r.bindings@[i].value)[j].amount == a;
        lemma_ings_basis_has(r, gs, j, d);
        lemma_contains_left(ings_basis_diags(r, gs), tail, d);
    } else {
        lemma_contains_right(ings_basis_diags(r, gs), tail, d);
    }
    assert(binding_basis_diags(r, i).contains(d));
    let bs = r.bindings@;
    let p1 = ref_diags(r, i, refs(bs, i).len() as int);
    let p3 = link_diags(bs, i, bs[i].annotations@.len() as int);
    lemma_contains_right(p1, binding_basis_diags(r, i), d);
    lemma_contains_left(p1 + binding_basis_diags(r, i), p3, d);
    lemma_contains_left(p1 + binding_basis_diags(r, i) + p3, w002(bs, i), d);
    lemma_contains_left(p1 + binding_basis_diags(r, i) + p3 + w002(bs, i), w003(bs[i]), d);
    assert(pass_b_binding(r, i).contains(d));
    lemma_pass_b_has(r, i, bs.len() as int, d);
    let n = bs.len() as int;
    let e1 = e008_upto(bs, n) + e003_upto(bs, n);
    lemma_contains_right(e1, pass_b_upto(r, n), d);
    lemma_contains_left(e1 + pass_b_upto(r, n), consumption_upto(bs, n), d);
    lemma_contains_left(e1 + pass_b_upto(r, n) + consumption_upto(bs, n), ing_reuse_upto(bs, n), d);
    lemma_contains_left(e1 + pass_b_upto(r, n) + consumption_upto(bs, n) + ing_reuse_upto(bs, n), w004(r), d);
}

} // verus!
