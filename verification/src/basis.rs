//! Basis resolution: turns `%` / `%*` amounts into absolute quantities
//! against a declared basis. Used by the renderer.
//!
//! Full blended sub-recipe subtraction needs the sub-recipe loaded and is not
//! done here. This resolves plain and constituent percentages against the
//! basis total, which is what the table projection needs to show constituent
//! shares summing to 100%.

use vstd::prelude::*;
use crate::ast::{Amount, Recipe, Term};
use crate::number::{FMT_MAX, NANOS_MAX, Number, SCALE};

verus! {

/// A resolved quantity: a value in nanos (no range limit beyond what display
/// accepts) and its unit text.
pub type Resolved = (i128, String);

/// Basis name -> (value, unit), for the bases a recipe declares with a
/// literal measure. A later declaration of a name wins.
#[derive(Debug)]
pub struct BasisTable {
    entries: Vec<(String, Number, String)>,
}

/// The value and unit of an amount whose first term is a literal measure.
pub open spec fn spec_measure(a: Amount) -> Option<(int, Seq<char>)> {
    match a {
        Amount::Quantity { terms, .. } => if terms@.len() > 0 {
            match terms@[0] {
                Term::Measure { value: Some(v), unit, .. } => Some((v.nanos as int, unit_view(unit))),
                _ => None,
            }
        } else {
            None
        },
        _ => None,
    }
}

pub open spec fn unit_view(u: Option<String>) -> Seq<char> {
    match u {
        Some(s) => s@,
        None => Seq::empty(),
    }
}

/// The last entry for a name.
pub open spec fn table_find(m: Seq<(String, Number, String)>, name: Seq<char>) -> Option<(int, Seq<char>)>
    decreases m.len(),
{
    if m.len() == 0 {
        None
    } else if m.last().0@ == name {
        Some((m.last().1.nanos as int, m.last().2@))
    } else {
        table_find(m.drop_last(), name)
    }
}

/// The table a recipe's bases give: the bases with a literal measure, in
/// order.
pub open spec fn bases_table(bs: Seq<crate::ast::Basis>) -> Seq<(Seq<char>, int, Seq<char>)>
    decreases bs.len(),
{
    if bs.len() == 0 {
        Seq::empty()
    } else {
        let prev = bases_table(bs.drop_last());
        match spec_measure(bs.last().amount) {
            Some((v, u)) => prev.push((bs.last().name@, v, u)),
            None => prev,
        }
    }
}

pub open spec fn entries_view(m: Seq<(String, Number, String)>) -> Seq<(Seq<char>, int, Seq<char>)> {
    Seq::new(m.len(), |i: int| (m[i].0@, m[i].1.nanos as int, m[i].2@))
}

/// Rust's truncating division.
pub open spec fn trunc_div(a: int, b: int) -> int {
    if a >= 0 {
        a / b
    } else {
        -((-a) / b)
    }
}

/// `p` percent of `v` (both in nanos), truncated toward zero, when both lie
/// in the parser's range.
pub open spec fn percent_of(v: int, p: int) -> Option<int> {
    if -NANOS_MAX <= v <= NANOS_MAX && -NANOS_MAX <= p <= NANOS_MAX {
        Some(trunc_div(v * p, 100 * SCALE))
    } else {
        None
    }
}

impl BasisTable {
    pub closed spec fn spec_find(self, name: Seq<char>) -> Option<(int, Seq<char>)> {
        table_find(self.entries@, name)
    }

    pub closed spec fn spec_entries(self) -> Seq<(Seq<char>, int, Seq<char>)> {
        entries_view(self.entries@)
    }

    /// The resolved value of one term.
    pub open spec fn spec_resolve_term(self, t: Term) -> Option<(int, Seq<char>)> {
        match t {
            Term::Measure { value: Some(v), unit, .. } => Some((v.nanos as int, unit_view(unit))),
            Term::Measure { value: None, .. } => None,
            Term::Basis { percent: Some(p), basis, .. } => match self.spec_find(basis@) {
                Some((bv, bu)) => match percent_of(bv, p.nanos as int) {
                    Some(v) => Some((v, bu)),
                    None => None,
                },
                None => None,
            },
            Term::Basis { percent: None, .. } => None,
        }
    }

    /// The resolved total of the first `k` terms: all must resolve, units
    /// must agree (an empty unit agrees with any), and the running total must
    /// stay within the displayable range.
    pub open spec fn spec_resolve_terms(self, terms: Seq<Term>) -> Option<(int, Seq<char>)>
        decreases terms.len(),
    {
        if terms.len() == 0 {
            Some((0, Seq::empty()))
        } else {
            match self.spec_resolve_terms(terms.drop_last()) {
                Some((total, unit)) => match self.spec_resolve_term(terms.last()) {
                    Some((v, u)) => {
                        if unit.len() > 0 && unit != u && u.len() > 0 {
                            None
                        } else if -FMT_MAX <= total + v <= FMT_MAX {
                            Some((total + v, if unit.len() == 0 { u } else { unit }))
                        } else {
                            None
                        }
                    },
                    None => None,
                },
                None => None,
            }
        }
    }

    pub open spec fn spec_resolve_amount(self, a: Amount) -> Option<(int, Seq<char>)> {
        match a {
            Amount::Quantity { terms, .. } => self.spec_resolve_terms(terms@),
            _ => None,
        }
    }

    /// The bases of a recipe that are declared with a literal measure.
    pub fn from_recipe(r: &Recipe) -> (t: BasisTable)
        ensures
            t.spec_entries() == bases_table(r.bases@),
    {
        let mut entries: Vec<(String, Number, String)> = Vec::new();
        let mut i: usize = 0;
        while i < r.bases.len()
            invariant
                i <= r.bases@.len(),
                entries_view(entries@) == bases_table(r.bases@.take(i as int)),
            decreases r.bases@.len() - i,
        {
            let ghost t = r.bases@.take(i + 1);
            assert(t.drop_last() =~= r.bases@.take(i as int));
            let b = &r.bases[i];
            match measure_value_unit(&b.amount) {
                Some((v, u)) => {
                    entries.push((b.name.clone(), v, u));
                },
                None => {},
            }
            assert(entries_view(entries@) =~= bases_table(t));
            i = i + 1;
        }
        assert(r.bases@.take(r.bases@.len() as int) =~= r.bases@);
        BasisTable { entries }
    }

    /// The value and unit of a basis.
    pub fn get(&self, name: &str) -> (r: Option<(Number, String)>)
        ensures
            match r {
                Some((v, u)) => self.spec_find(name@) == Some((v.nanos as int, u@)),
                None => self.spec_find(name@) is None,
            },
    {
        let mut i: usize = self.entries.len();
        assert(self.entries@.take(i as int) =~= self.entries@);
        while i > 0
            invariant
                i <= self.entries@.len(),
                table_find(self.entries@, name@) == table_find(self.entries@.take(i as int), name@),
            decreases i,
        {
            let ghost t = self.entries@.take(i as int);
            assert(t.drop_last() =~= self.entries@.take(i - 1));
            if crate::text::str_eq(self.entries[i - 1].0.as_str(), name) {
                return Some((self.entries[i - 1].1, self.entries[i - 1].2.clone()));
            }
            i = i - 1;
        }
        None
    }

    /// Resolves a single term to an absolute value and unit, if possible.
    pub fn resolve_term(&self, t: &Term) -> (r: Option<Resolved>)
        ensures
            match r {
                Some((v, u)) => self.spec_resolve_term(*t) == Some((v as int, u@)),
                None => self.spec_resolve_term(*t) is None,
            },
    {
        match t {
            Term::Measure { value, unit, .. } => match value {
                Some(v) => Some((v.nanos, unit_or_empty(unit))),
                None => None,
            },
            Term::Basis { percent, basis, .. } => match percent {
                Some(p) => match self.get(basis.as_str()) {
                    Some((bv, bu)) => {
                        if -NANOS_MAX <= bv.nanos && bv.nanos <= NANOS_MAX && -NANOS_MAX <= p.nanos
                            && p.nanos <= NANOS_MAX {
                            proof {
                                lemma_mul_bound(bv.nanos as int, p.nanos as int);
                            }
                            let prod = bv.nanos * p.nanos;
                            let v = prod / (100 * SCALE);
                            Some((v, bu))
                        } else {
                            None
                        }
                    },
                    None => None,
                },
                None => None,
            },
        }
    }

    /// Resolves a whole amount to an absolute value and unit when all terms
    /// resolve and share a unit; `None` for to-taste, unquantified and
    /// mixed-unit amounts.
    pub fn resolve_amount(&self, a: &Amount) -> (r: Option<Resolved>)
        ensures
            match r {
                Some((v, u)) => self.spec_resolve_amount(*a) == Some((v as int, u@)),
                None => self.spec_resolve_amount(*a) is None,
            },
    {
        match a {
            Amount::Quantity { terms, .. } => {
                let mut total: i128 = 0;
                let mut unit = String::new();
                let mut i: usize = 0;
                while i < terms.len()
                    invariant
                        i <= terms@.len(),
                        self.spec_resolve_amount(*a) == self.spec_resolve_terms(terms@),
                        self.spec_resolve_terms(terms@.take(i as int)) == Some((total as int, unit@)),
                        -FMT_MAX <= total <= FMT_MAX,
                    decreases terms@.len() - i,
                {
                    let ghost t = terms@.take(i + 1);
                    assert(t.drop_last() =~= terms@.take(i as int));
                    assert(t.last() == terms@[i as int]);
                    let rt = self.resolve_term(&terms[i]);
                    if rt.is_none() {
                        proof {
                            lemma_terms_none_extends(*self, terms@, i as int + 1);
                        }
                        return None;
                    }
                    let (v, u) = rt.unwrap();
                    if !unit.as_str().is_empty() && !crate::text::str_eq(unit.as_str(), u.as_str()) && !u.as_str().is_empty() {
                        proof {
                            lemma_terms_none_extends(*self, terms@, i as int + 1);
                        }
                        return None;
                    }
                    let sum = match total.checked_add(v) {
                        Some(x) => x,
                        None => {
                            proof {
                                lemma_terms_none_extends(*self, terms@, i as int + 1);
                            }
                            return None;
                        },
                    };
                    if sum < -FMT_MAX || sum > FMT_MAX {
                        proof {
                            lemma_terms_none_extends(*self, terms@, i as int + 1);
                        }
                        return None;
                    }
                    total = sum;
                    if unit.as_str().is_empty() {
                        unit = u;
                    }
                    i = i + 1;
                }
                assert(terms@.take(terms@.len() as int) =~= terms@);
                Some((total, unit))
            },
            _ => None,
        }
    }
}

proof fn lemma_mul_bound(a: int, b: int)
    requires
        -NANOS_MAX <= a <= NANOS_MAX,
        -NANOS_MAX <= b <= NANOS_MAX,
    ensures
        -NANOS_MAX * NANOS_MAX <= a * b <= NANOS_MAX * NANOS_MAX,
{
    assert(-NANOS_MAX * NANOS_MAX <= a * b <= NANOS_MAX * NANOS_MAX) by (nonlinear_arith)
        requires
            -NANOS_MAX <= a <= NANOS_MAX,
            -NANOS_MAX <= b <= NANOS_MAX,
    ;
}

/// Once a prefix of the terms fails to resolve, every longer prefix fails.
proof fn lemma_terms_none_extends(t: BasisTable, terms: Seq<Term>, k: int)
    requires
        0 <= k <= terms.len(),
        t.spec_resolve_terms(terms.take(k)) is None,
    ensures
        t.spec_resolve_terms(terms) is None,
    decreases terms.len() - k,
{
    if k < terms.len() {
        assert(terms.take(k + 1).drop_last() =~= terms.take(k));
        lemma_terms_none_extends(t, terms, k + 1);
    } else {
        assert(terms.take(k) =~= terms);
    }
}

fn unit_or_empty(u: &Option<String>) -> (r: String)
    ensures
        r@ == unit_view(*u),
{
    match u {
        Some(s) => s.clone(),
        None => String::new(),
    }
}

/// The value and unit of an amount whose first term is a literal measure.
fn measure_value_unit(a: &Amount) -> (r: Option<(Number, String)>)
    ensures
        match r {
            Some((v, u)) => spec_measure(*a) == Some((v.nanos as int, u@)),
            None => spec_measure(*a) is None,
        },
{
    match a {
        Amount::Quantity { terms, .. } => {
            if terms.len() > 0 {
                match &terms[0] {
                    Term::Measure { value: Some(v), unit, .. } => Some((*v, unit_or_empty(unit))),
                    _ => None,
                }
            } else {
                None
            }
        },
        _ => None,
    }
}

/// The number written before the first letter of an amount's text (its
/// first term's value, as far as it reads as a number).
pub open spec fn spec_amount_number(a: Amount) -> Option<Number> {
    match a {
        Amount::Quantity { raw, .. } => crate::amount::spec_number(
            raw@.take(crate::amount::find_alpha(raw@)),
        ),
        _ => None,
    }
}

/// Best-effort numeric value of an amount's first term (for display
/// helpers).
pub fn amount_number(a: &Amount) -> (r: Option<Number>)
    ensures
        r == spec_amount_number(*a),
{
    match a {
        Amount::Quantity { raw, .. } => {
            let cs = crate::text::chars_of(raw.as_str());
            let k = crate::amount::find_alpha_in(cs.as_slice(), 0, cs.len());
            assert(cs@.subrange(0, cs@.len() as int) =~= raw@);
            assert(cs@.subrange(0, k as int) =~= raw@.take(crate::amount::find_alpha(raw@)));
            crate::number::parse_number_in(cs.as_slice(), 0, k)
        },
        _ => None,
    }
}

proof fn lemma_table_find_views(m1: Seq<(String, Number, String)>, m2: Seq<(String, Number, String)>, name: Seq<char>)
    requires
        entries_view(m1) == entries_view(m2),
    ensures
        table_find(m1, name) == table_find(m2, name),
    decreases m1.len(),
{
    assert(entries_view(m1).len() == m1.len() && entries_view(m2).len() == m2.len());
    if m1.len() > 0 {
        assert(entries_view(m1.drop_last()) =~= entries_view(m1).drop_last());
        assert(entries_view(m2.drop_last()) =~= entries_view(m2).drop_last());
        lemma_table_find_views(m1.drop_last(), m2.drop_last(), name);
        assert(entries_view(m1)[m1.len() - 1] == entries_view(m2)[m1.len() - 1]);
    }
}

impl BasisTable {
    /// Two tables with the same entries resolve every term list alike.
    pub proof fn lemma_resolve_terms_by_entries(self, other: BasisTable, terms: Seq<Term>)
        requires
            self.spec_entries() == other.spec_entries(),
        ensures
            self.spec_resolve_terms(terms) == other.spec_resolve_terms(terms),
        decreases terms.len(),
    {
        if terms.len() > 0 {
            self.lemma_resolve_terms_by_entries(other, terms.drop_last());
            match terms.last() {
                Term::Basis { basis, .. } => {
                    lemma_table_find_views(self.entries@, other.entries@, basis@);
                },
                _ => {},
            }
        }
    }
}

} // verus!
