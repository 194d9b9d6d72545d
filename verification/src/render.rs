//! Projections of the recipe graph as tables:
//! - [`flow_table`]: a Markdown table, one row per operation, always correct.
//! - [`crate::grid::grid_table`]: a monospace depth-column grid (ingredients
//!   as rows, operations flowing left to right by depth). Splits are
//!   annotated on the op cell.
//!
//! Each piece of text has a spec function saying exactly what it is, and each
//! writer appends exactly that.

use vstd::prelude::*;
use crate::ast::{Amount, DurationRange, Link, NodeRef, Recipe, TempUnit, Timer, TimeUnit};
use crate::basis::BasisTable;
use crate::model::{EquipUse, Graph, Node, NodeKind, nodes_ok};
use crate::number::{Number, push_num, spec_num_str};
use crate::text::{join, join_strings, push_char, push_str, views};

verus! {

/// ASCII upper case.
pub open spec fn upper(c: char) -> char {
    if 'a' <= c && c <= 'z' {
        ((c as int) - 32) as char
    } else {
        c
    }
}

/// `snake_case` as `Title Case`: underscores become spaces and each word's
/// first letter is upper-cased.
pub open spec fn pretty(s: Seq<char>) -> Seq<char> {
    Seq::new(
        s.len(),
        |i: int|
            if s[i] == '_' {
                ' '
            } else if i == 0 || s[i - 1] == '_' {
                upper(s[i])
            } else {
                s[i]
            },
    )
}

fn upper_char(c: char) -> (r: char)
    ensures
        r == upper(c),
{
    if 'a' <= c && c <= 'z' {
        let b = (c as u32) - 32;
        let r = (b as u8) as char;
        assert(r == upper(c)) by {
            assert((b as u8) as char == ((c as int) - 32) as char);
        }
        r
    } else {
        c
    }
}

/// A name in title case (`snow_pea_salad` reads `Snow Pea Salad`).
pub fn pretty_name(s: &str) -> (r: String)
    ensures
        r@ == pretty(s@),
{
    let cs = crate::text::chars_of(s);
    let mut out = String::new();
    let mut i: usize = 0;
    while i < cs.len()
        invariant
            i <= cs@.len(),
            cs@ == s@,
            out@ == pretty(s@).take(i as int),
        decreases cs@.len() - i,
    {
        let c = cs[i];
        let d = if c == '_' {
            ' '
        } else if i == 0 || cs[i - 1] == '_' {
            upper_char(c)
        } else {
            c
        };
        push_char(&mut out, d);
        assert(pretty(s@).take(i + 1) =~= pretty(s@).take(i as int).push(d));
        i = i + 1;
    }
    assert(pretty(s@).take(cs@.len() as int) =~= pretty(s@));
    out
}

/// Markdown-escapes table pipes.
pub open spec fn md(s: Seq<char>) -> Seq<char>
    decreases s.len(),
{
    if s.len() == 0 {
        s
    } else {
        md(s.drop_last()) + if s.last() == '|' {
            seq!['\\', '|']
        } else {
            seq![s.last()]
        }
    }
}

/// Appends `s` with every `|` escaped.
pub fn push_md(out: &mut String, s: &str)
    ensures
        final(out)@ == old(out)@ + md(s@),
{
    let cs = crate::text::chars_of(s);
    let ghost o0 = out@;
    let mut i: usize = 0;
    while i < cs.len()
        invariant
            i <= cs@.len(),
            cs@ == s@,
            out@ == o0 + md(s@.take(i as int)),
        decreases cs@.len() - i,
    {
        let ghost t = s@.take(i + 1);
        assert(t.drop_last() =~= s@.take(i as int));
        if cs[i] == '|' {
            push_char(out, '\\');
            push_char(out, '|');
        } else {
            push_char(out, cs[i]);
        }
        assert(out@ =~= o0 + md(t));
        i = i + 1;
    }
    assert(s@.take(cs@.len() as int) =~= s@);
}

pub open spec fn unit_s(u: TimeUnit) -> Seq<char> {
    match u {
        TimeUnit::S => seq!['s'],
        TimeUnit::M => seq!['m'],
        TimeUnit::H => seq!['h'],
        TimeUnit::D => seq!['d'],
    }
}

pub fn push_unit(out: &mut String, u: TimeUnit)
    ensures
        final(out)@ == old(out)@ + unit_s(u),
{
    let c = match u {
        TimeUnit::S => 's',
        TimeUnit::M => 'm',
        TimeUnit::H => 'h',
        TimeUnit::D => 'd',
    };
    push_char(out, c);
}

pub open spec fn temp_s(u: TempUnit) -> Seq<char> {
    match u {
        TempUnit::F => seq!['F'],
        TempUnit::C => seq!['C'],
    }
}

pub fn push_temp_unit(out: &mut String, u: TempUnit)
    ensures
        final(out)@ == old(out)@ + temp_s(u),
{
    let c = match u {
        TempUnit::F => 'F',
        TempUnit::C => 'C',
    };
    push_char(out, c);
}

/// `5-10m` or `5m`: the unit is the low end's.
pub open spec fn range_s(r: DurationRange) -> Seq<char> {
    match r.high {
        Some(h) => spec_num_str(r.low.value) + seq!['-'] + spec_num_str(h.value) + unit_s(r.low.unit),
        None => spec_num_str(r.low.value) + unit_s(r.low.unit),
    }
}

pub fn push_range_text(out: &mut String, r: &DurationRange)
    ensures
        final(out)@ == old(out)@ + range_s(*r),
{
    let ghost o0 = out@;
    push_num(out, r.low.value);
    match r.high {
        Some(h) => {
            push_char(out, '-');
            push_num(out, h.value);
        },
        None => {},
    }
    push_unit(out, r.low.unit);
    assert(out@ =~= o0 + range_s(*r));
}

/// A timer as the flow table shows it.
pub open spec fn timer_s(t: Timer) -> Seq<char> {
    match t {
        Timer::Active(r) => seq!['@'] + range_s(r),
        Timer::Passive(r) => seq!['~'] + range_s(r),
        Timer::Unbounded { .. } => "~? (unbounded)"@,
    }
}

pub fn push_timer(out: &mut String, t: &Timer)
    ensures
        final(out)@ == old(out)@ + timer_s(*t),
{
    let ghost o0 = out@;
    match t {
        Timer::Active(r) => {
            push_char(out, '@');
            push_range_text(out, r);
        },
        Timer::Passive(r) => {
            push_char(out, '~');
            push_range_text(out, r);
        },
        Timer::Unbounded { .. } => {
            push_str(out, "~? (unbounded)");
        },
    }
    assert(out@ =~= o0 + timer_s(*t));
}

/// Timers separated by spaces.
pub open spec fn timers_s(ts: Seq<Timer>) -> Seq<char> {
    join(Seq::new(ts.len(), |i: int| timer_s(ts[i])), seq![' '])
}

/// Appends `items` joined by `sep`, given the text of each item.
proof fn lemma_join_step(parts: Seq<Seq<char>>, sep: Seq<char>, k: int)
    requires
        0 <= k < parts.len(),
    ensures
        join(parts.take(k + 1), sep) == if k == 0 {
            parts[0]
        } else {
            join(parts.take(k), sep) + sep + parts[k]
        },
{
    assert(parts.take(k + 1).drop_last() =~= parts.take(k));
    if k == 0 {
        assert(parts.take(1).len() == 1);
    }
}

pub fn push_timers(out: &mut String, ts: &Vec<Timer>)
    ensures
        final(out)@ == old(out)@ + timers_s(ts@),
{
    let ghost o0 = out@;
    let ghost parts = Seq::new(ts@.len(), |i: int| timer_s(ts@[i]));
    let mut i: usize = 0;
    while i < ts.len()
        invariant
            i <= ts@.len(),
            parts == Seq::new(ts@.len(), |i: int| timer_s(ts@[i])),
            out@ == o0 + join(parts.take(i as int), seq![' ']),
        decreases ts@.len() - i,
    {
        proof {
            lemma_join_step(parts, seq![' '], i as int);
        }
        if i > 0 {
            push_char(out, ' ');
        }
        push_timer(out, &ts[i]);
        assert(out@ =~= o0 + join(parts.take(i + 1), seq![' ']));
        i = i + 1;
    }
    assert(parts.take(ts@.len() as int) =~= parts);
    assert(join(Seq::<Seq<char>>::empty(), seq![' ']) == Seq::<char>::empty());
}

/// One equipment use: `!oven 350F` or `!oven`.
pub open spec fn equip_s(e: EquipUse) -> Seq<char> {
    match e.temp {
        Some(t) => seq!['!'] + e.name@ + seq![' '] + spec_num_str(t.value) + temp_s(t.unit),
        None => seq!['!'] + e.name@,
    }
}

pub fn push_equip(out: &mut String, e: &EquipUse)
    ensures
        final(out)@ == old(out)@ + equip_s(*e),
{
    let ghost o0 = out@;
    push_char(out, '!');
    out.append(e.name.as_str());
    match e.temp {
        Some(t) => {
            push_char(out, ' ');
            push_num(out, t.value);
            push_temp_unit(out, t.unit);
        },
        None => {},
    }
    assert(out@ =~= o0 + equip_s(*e));
}

/// Equipment uses separated by `, `.
pub open spec fn equips_s(es: Seq<EquipUse>) -> Seq<char> {
    join(Seq::new(es.len(), |i: int| equip_s(es[i])), ", "@)
}

pub fn push_equips(out: &mut String, es: &Vec<EquipUse>)
    ensures
        final(out)@ == old(out)@ + equips_s(es@),
{
    let ghost o0 = out@;
    let ghost parts = Seq::new(es@.len(), |i: int| equip_s(es@[i]));
    let mut i: usize = 0;
    while i < es.len()
        invariant
            i <= es@.len(),
            parts == Seq::new(es@.len(), |i: int| equip_s(es@[i])),
            out@ == o0 + join(parts.take(i as int), ", "@),
        decreases es@.len() - i,
    {
        proof {
            lemma_join_step(parts, ", "@, i as int);
        }
        if i > 0 {
            push_str(out, ", ");
        }
        push_equip(out, &es[i]);
        assert(out@ =~= o0 + join(parts.take(i + 1), ", "@));
        i = i + 1;
    }
    assert(parts.take(es@.len() as int) =~= parts);
    assert(join(Seq::<Seq<char>>::empty(), ", "@) == Seq::<char>::empty());
}

/// `name` or `alias.node`.
pub open spec fn ref_s(r: NodeRef) -> Seq<char> {
    match r.member {
        Some(m) => r.name@ + seq!['.'] + m@,
        None => r.name@,
    }
}

pub fn push_ref(out: &mut String, r: &NodeRef)
    ensures
        final(out)@ == old(out)@ + ref_s(*r),
{
    let ghost o0 = out@;
    out.append(r.name.as_str());
    match &r.member {
        Some(m) => {
            push_char(out, '.');
            out.append(m.as_str());
        },
        None => {},
    }
    assert(out@ =~= o0 + ref_s(*r));
}

/// A link as the notes column shows it.
pub open spec fn link_s(l: Link) -> Seq<char> {
    match l {
        Link::By { target, .. } => "finish by: "@ + ref_s(target),
        Link::During { target, .. } => "during: "@ + ref_s(target),
        Link::Lag { duration, .. } => "lag ≤ "@ + spec_num_str(duration.value) + unit_s(duration.unit),
    }
}

pub fn push_link(out: &mut String, l: &Link)
    ensures
        final(out)@ == old(out)@ + link_s(*l),
{
    let ghost o0 = out@;
    match l {
        Link::By { target, .. } => {
            push_str(out, "finish by: ");
            push_ref(out, target);
        },
        Link::During { target, .. } => {
            push_str(out, "during: ");
            push_ref(out, target);
        },
        Link::Lag { duration, .. } => {
            push_str(out, "lag ≤ ");
            push_num(out, duration.value);
            push_unit(out, duration.unit);
        },
    }
    assert(out@ =~= o0 + link_s(*l));
}

/// Whether a sequence holds a `%`.
pub open spec fn has_percent(s: Seq<char>) -> bool {
    exists|i: int| 0 <= i < s.len() && s[i] == '%'
}

/// An amount as a table shows it; a basis-relative amount that resolves
/// also shows its absolute value: `50%* flour (400g)`.
pub open spec fn amount_s(a: Amount, b: BasisTable) -> Seq<char> {
    match a {
        Amount::ToTaste { .. } => "to taste"@,
        Amount::Unquantified { .. } => seq!['?'],
        Amount::Quantity { raw, .. } => {
            let t = crate::number::trimmed(raw@);
            match b.spec_resolve_amount(a) {
                Some((v, u)) => if has_percent(raw@) {
                    t + seq![' ', '('] + spec_num_str(Number { nanos: v as i128 }) + u + seq![')']
                } else {
                    t
                },
                None => t,
            }
        },
    }
}

fn contains_percent(s: &str) -> (r: bool)
    ensures
        r == has_percent(s@),
{
    let cs = crate::text::chars_of(s);
    let mut i: usize = 0;
    while i < cs.len()
        invariant
            i <= cs@.len(),
            cs@ == s@,
            forall|k: int| 0 <= k < i ==> cs@[k] != '%',
        decreases cs@.len() - i,
    {
        if cs[i] == '%' {
            return true;
        }
        i = i + 1;
    }
    false
}

/// Appends the trimmed text of `s`.
fn push_trimmed(out: &mut String, s: &str)
    ensures
        final(out)@ == old(out)@ + crate::number::trimmed(s@),
{
    let cs = crate::text::chars_of(s);
    let (lo, hi) = crate::text::trim_range(cs.as_slice(), 0, cs.len());
    crate::text::push_range(out, cs.as_slice(), lo, hi);
    proof {
        assert(cs@.subrange(0, cs@.len() as int) =~= s@);
    }
}

pub fn push_amount(out: &mut String, a: &Amount, b: &BasisTable)
    ensures
        final(out)@ == old(out)@ + amount_s(*a, *b),
{
    let ghost o0 = out@;
    match a {
        Amount::ToTaste { .. } => {
            push_str(out, "to taste");
        },
        Amount::Unquantified { .. } => {
            push_char(out, '?');
        },
        Amount::Quantity { raw, .. } => {
            push_trimmed(out, raw.as_str());
            match b.resolve_amount(a) {
                Some((v, u)) => {
                    if contains_percent(raw.as_str()) {
                        push_char(out, ' ');
                        push_char(out, '(');
                        push_num(out, Number { nanos: v });
                        out.append(u.as_str());
                        push_char(out, ')');
                    }
                },
                None => {},
            }
        },
    }
    assert(out@ =~= o0 + amount_s(*a, *b));
}

/// How one input of an operation reads in the inputs column.
pub open spec fn input_s(ns: Seq<Node>, i: int, b: BasisTable) -> Seq<char> {
    let n = ns[i];
    match n.kind {
        NodeKind::Ingredient => {
            let amt = match n.amount {
                Some(a) => amount_s(*a, b),
                None => Seq::empty(),
            };
            let q = match n.qualifier {
                Some(q) => seq![' ', '"'] + q@ + seq!['"'],
                None => Seq::empty(),
            };
            if amt.len() == 0 {
                n.label@ + q
            } else {
                n.label@ + seq![' '] + amt + q
            }
        },
        NodeKind::SubRecipe => n.label@,
        _ => match n.name {
            Some(x) => x@,
            None => n.label@,
        },
    }
}

/// The inputs column of node `id`: its inputs separated by `, `.
pub open spec fn inputs_s(ns: Seq<Node>, id: int, b: BasisTable) -> Seq<char> {
    join(Seq::new(ns[id].inputs@.len(), |k: int| input_s(ns, ns[id].inputs@[k] as int, b)), ", "@)
}

fn push_input(out: &mut String, g: &Graph, i: usize, b: &BasisTable)
    requires
        i < g.nodes@.len(),
    ensures
        final(out)@ == old(out)@ + input_s(g.nodes@, i as int, *b),
{
    let ghost o0 = out@;
    let n = &g.nodes[i];
    match n.kind {
        NodeKind::Ingredient => {
            let mut amt = String::new();
            match n.amount {
                Some(a) => push_amount(&mut amt, a, b),
                None => {},
            }
            out.append(n.label.as_str());
            if !amt.as_str().is_empty() {
                push_char(out, ' ');
                out.append(amt.as_str());
            }
            match &n.qualifier {
                Some(q) => {
                    push_char(out, ' ');
                    push_char(out, '"');
                    out.append(q.as_str());
                    push_char(out, '"');
                },
                None => {},
            }
        },
        NodeKind::SubRecipe => {
            out.append(n.label.as_str());
        },
        _ => match &n.name {
            Some(x) => {
                out.append(x.as_str());
            },
            None => {
                out.append(n.label.as_str());
            },
        },
    }
    assert(out@ =~= o0 + input_s(g.nodes@, i as int, *b));
}

pub fn push_inputs(out: &mut String, g: &Graph, id: usize, b: &BasisTable)
    requires
        g.wf(),
        id < g.nodes@.len(),
    ensures
        final(out)@ == old(out)@ + inputs_s(g.nodes@, id as int, *b),
{
    let ghost o0 = out@;
    let ghost ns = g.nodes@;
    let n = &g.nodes[id];
    let ghost parts = Seq::new(ns[id as int].inputs@.len(), |k: int| input_s(ns, ns[id as int].inputs@[k] as int, *b));
    let mut k: usize = 0;
    while k < n.inputs.len()
        invariant
            g.wf(),
            ns == g.nodes@,
            id < ns.len(),
            *n == ns[id as int],
            k <= n.inputs@.len(),
            parts == Seq::new(ns[id as int].inputs@.len(), |k: int| input_s(ns, ns[id as int].inputs@[k] as int, *b)),
            out@ == o0 + join(parts.take(k as int), ", "@),
        decreases n.inputs@.len() - k,
    {
        proof {
            lemma_join_step(parts, ", "@, k as int);
            assert(crate::model::node_ok(ns[id as int], id as int));
            assert(n.inputs@[k as int] < id);
        }
        if k > 0 {
            push_str(out, ", ");
        }
        push_input(out, g, n.inputs[k], b);
        assert(out@ =~= o0 + join(parts.take(k + 1), ", "@));
        k = k + 1;
    }
    assert(parts.take(n.inputs@.len() as int) =~= parts);
    assert(join(Seq::<Seq<char>>::empty(), ", "@) == Seq::<char>::empty());
}

/// The names of the products split off op `op`, among the first `k` nodes.
pub open spec fn products_of(ns: Seq<Node>, op: int, k: int) -> Seq<Seq<char>>
    decreases k,
{
    if k <= 0 || k > ns.len() {
        Seq::empty()
    } else {
        let prev = products_of(ns, op, k - 1);
        let n = ns[k - 1];
        if n.kind is Product && n.inputs@.contains(op as usize) && n.name is Some {
            prev.push(n.name.unwrap()@)
        } else {
            prev
        }
    }
}

/// The products of an anonymous split op, as `whites, greens`.
pub open spec fn split_s(ns: Seq<Node>, op: int) -> Seq<char> {
    let p = products_of(ns, op, ns.len() as int);
    if p.len() == 0 {
        "(anon)"@
    } else {
        join(p, ", "@)
    }
}

fn contains_id(v: &Vec<usize>, x: usize) -> (r: bool)
    ensures
        r == v@.contains(x),
{
    let mut i: usize = 0;
    while i < v.len()
        invariant
            i <= v@.len(),
            forall|k: int| 0 <= k < i ==> v@[k] != x,
        decreases v@.len() - i,
    {
        if v[i] == x {
            assert(v@[i as int] == x);
            return true;
        }
        i = i + 1;
    }
    false
}

fn split_products(g: &Graph, op: usize) -> (r: String)
    ensures
        r@ == split_s(g.nodes@, op as int),
{
    let ghost ns = g.nodes@;
    let mut names: Vec<String> = Vec::new();
    let mut k: usize = 0;
    while k < g.nodes.len()
        invariant
            ns == g.nodes@,
            k <= ns.len(),
            views(names@) == products_of(ns, op as int, k as int),
        decreases ns.len() - k,
    {
        let n = &g.nodes[k];
        match n.kind {
            NodeKind::Product => {
                if contains_id(&n.inputs, op) {
                    match &n.name {
                        Some(x) => {
                            names.push(x.clone());
                        },
                        None => {},
                    }
                }
            },
            _ => {},
        }
        assert(views(names@) =~= products_of(ns, op as int, k + 1));
        k = k + 1;
    }
    if names.len() == 0 {
        let mut out = String::new();
        push_str(&mut out, "(anon)");
        out
    } else {
        join_strings(&names, ", ")
    }
}

/// The notes column: flags as `[flag]`, then prose, then links, separated
/// by `; `.
pub open spec fn note_parts(n: Node) -> Seq<Seq<char>> {
    Seq::new(n.flags@.len(), |i: int| seq!['['] + n.flags@[i]@ + seq![']']) + views(n.docs@) + Seq::new(
        n.links@.len(),
        |i: int| link_s(*n.links@[i]),
    )
}

pub open spec fn notes_s(n: Node) -> Seq<char> {
    join(note_parts(n), "; "@)
}

fn notes_text(n: &Node) -> (r: String)
    ensures
        r@ == notes_s(*n),
{
    let mut parts: Vec<String> = Vec::new();
    let mut i: usize = 0;
    while i < n.flags.len()
        invariant
            i <= n.flags@.len(),
            views(parts@) == Seq::new(i as nat, |k: int| seq!['['] + n.flags@[k]@ + seq![']']),
        decreases n.flags@.len() - i,
    {
        let mut f = String::new();
        push_char(&mut f, '[');
        f.append(n.flags[i].as_str());
        push_char(&mut f, ']');
        let ghost before = parts@;
        let ghost fv = f@;
        assert(fv =~= seq!['['] + n.flags@[i as int]@ + seq![']']);
        parts.push(f);
        assert(views(parts@) =~= views(before).push(fv));
        assert(views(parts@) =~= Seq::new((i + 1) as nat, |k: int| seq!['['] + n.flags@[k]@ + seq![']']));
        i = i + 1;
    }
    let ghost p0 = views(parts@);
    let mut i: usize = 0;
    while i < n.docs.len()
        invariant
            i <= n.docs@.len(),
            views(parts@) == p0 + views(n.docs@.take(i as int)),
        decreases n.docs@.len() - i,
    {
        let ghost before = parts@;
        let d = n.docs[i].clone();
        let ghost dv = d@;
        parts.push(d);
        assert(views(parts@) =~= views(before).push(dv));
        assert(n.docs@.take(i + 1) =~= n.docs@.take(i as int).push(n.docs@[i as int]));
        assert(views(n.docs@.take(i + 1)) =~= views(n.docs@.take(i as int)).push(dv));
        assert(views(parts@) =~= p0 + views(n.docs@.take(i + 1)));
        i = i + 1;
    }
    assert(n.docs@.take(n.docs@.len() as int) =~= n.docs@);
    let ghost p1 = views(parts@);
    let mut i: usize = 0;
    while i < n.links.len()
        invariant
            i <= n.links@.len(),
            views(parts@) == p1 + Seq::new(i as nat, |k: int| link_s(*n.links@[k])),
        decreases n.links@.len() - i,
    {
        let mut t = String::new();
        push_link(&mut t, n.links[i]);
        let ghost before = parts@;
        let ghost tv = t@;
        parts.push(t);
        assert(views(parts@) =~= views(before).push(tv));
        assert(views(parts@) =~= p1 + Seq::new((i + 1) as nat, |k: int| link_s(*n.links@[k])));
        i = i + 1;
    }
    assert(views(parts@) =~= note_parts(*n));
    join_strings(&parts, "; ")
}

/// Whether node `i` gets a row: every op, and named sub-recipe or
/// passthrough nodes (not raw leaves or products).
pub open spec fn is_row(n: Node) -> bool {
    n.kind is Op || ((n.kind is SubRecipe || n.kind is Passthrough) && n.name is Some)
}

/// The name column of a row.
pub open spec fn row_name(ns: Seq<Node>, i: int) -> Seq<char> {
    match ns[i].name {
        Some(x) => x@,
        None => split_s(ns, i),
    }
}

/// One table row.
pub open spec fn row_s(ns: Seq<Node>, i: int, b: BasisTable, step: nat) -> Seq<char> {
    let n = ns[i];
    "| "@ + crate::number::spec_nat_str(step) + " | "@ + md(row_name(ns, i)) + " | "@ + md(n.label@) + " | "@
        + md(inputs_s(ns, i, b)) + " | "@ + md(timers_s(n.timers@)) + " | "@ + md(equips_s(n.equipment@))
        + " | "@ + md(notes_s(n)) + " |\n"@
}

/// How many of the first `k` nodes get a row.
pub open spec fn steps_upto(ns: Seq<Node>, k: int) -> nat
    decreases k,
{
    if k <= 0 || k > ns.len() {
        0
    } else {
        steps_upto(ns, k - 1) + if is_row(ns[k - 1]) {
            1nat
        } else {
            0nat
        }
    }
}

/// The rows of the first `k` nodes, numbered from 1.
pub open spec fn rows_upto(ns: Seq<Node>, b: BasisTable, k: int) -> Seq<char>
    decreases k,
{
    if k <= 0 || k > ns.len() {
        Seq::empty()
    } else {
        rows_upto(ns, b, k - 1) + if is_row(ns[k - 1]) {
            row_s(ns, k - 1, b, steps_upto(ns, k - 1) + 1)
        } else {
            Seq::empty()
        }
    }
}

/// `- **key**: value` lines.
pub open spec fn meta_lines(ms: Seq<crate::ast::Meta>) -> Seq<char>
    decreases ms.len(),
{
    if ms.len() == 0 {
        Seq::empty()
    } else {
        meta_lines(ms.drop_last()) + "- **"@ + ms.last().key@ + "**: "@ + ms.last().value@ + "\n"@
    }
}

/// ``- **basis** `name` = amount`` lines.
pub open spec fn basis_lines(bs: Seq<crate::ast::Basis>) -> Seq<char>
    decreases bs.len(),
{
    if bs.len() == 0 {
        Seq::empty()
    } else {
        basis_lines(bs.drop_last()) + "- **basis** `"@ + bs.last().name@ + "` = "@ + crate::number::trimmed(
            bs.last().amount.spec_raw(),
        ) + "\n"@
    }
}

/// Everything above the rows: title, metadata, bases and the table header.
pub open spec fn flow_head(r: Recipe) -> Seq<char> {
    "# "@ + pretty(r.name@) + "\n\n"@ + meta_lines(r.meta@) + (if r.bases@.len() > 0 {
        "\n"@ + basis_lines(r.bases@)
    } else {
        Seq::empty()
    }) + "\n"@ + "| # | node | verb | inputs | time | equipment | notes |\n"@
        + "|---|------|------|--------|------|-----------|-------|\n"@
}

#[verifier::rlimit(30)]
fn push_row(out: &mut String, g: &Graph, i: usize, b: &BasisTable, step: usize)
    requires
        g.wf(),
        i < g.nodes@.len(),
        is_row(g.nodes@[i as int]),
    ensures
        final(out)@ == old(out)@ + row_s(g.nodes@, i as int, *b, step as nat),
{
    let ghost o0 = out@;
    let n = &g.nodes[i];
    let name = match &n.name {
        Some(x) => x.clone(),
        None => split_products(g, i),
    };
    let mut inputs = String::new();
    push_inputs(&mut inputs, g, i, b);
    let mut time = String::new();
    push_timers(&mut time, &n.timers);
    let mut equip = String::new();
    push_equips(&mut equip, &n.equipment);
    let notes = notes_text(n);
    let mut t = String::new();
    push_str(&mut t, "| ");
    crate::number::push_nat(&mut t, step as u128);
    push_str(&mut t, " | ");
    push_md(&mut t, name.as_str());
    push_str(&mut t, " | ");
    push_md(&mut t, n.label.as_str());
    push_str(&mut t, " | ");
    push_md(&mut t, inputs.as_str());
    push_str(&mut t, " | ");
    push_md(&mut t, time.as_str());
    push_str(&mut t, " | ");
    push_md(&mut t, equip.as_str());
    push_str(&mut t, " | ");
    push_md(&mut t, notes.as_str());
    push_str(&mut t, " |\n");
    assert(t@ =~= row_s(g.nodes@, i as int, *b, step as nat));
    out.append(t.as_str());
    assert(out@ =~= o0 + row_s(g.nodes@, i as int, *b, step as nat));
}

/// The flow table of a recipe, given its graph and basis table.
pub fn flow_table_of(r: &Recipe, g: &Graph, b: &BasisTable) -> (out: String)
    requires
        g.wf(),
    ensures
        out@ == flow_head(*r) + rows_upto(g.nodes@, *b, g.nodes@.len() as int),
{
    let mut out = String::new();
    push_str(&mut out, "# ");
    let title = pretty_name(r.name.as_str());
    out.append(title.as_str());
    push_str(&mut out, "\n\n");
    let ghost o1 = out@;
    let mut i: usize = 0;
    while i < r.meta.len()
        invariant
            i <= r.meta@.len(),
            out@ == o1 + meta_lines(r.meta@.take(i as int)),
        decreases r.meta@.len() - i,
    {
        assert(r.meta@.take(i + 1).drop_last() =~= r.meta@.take(i as int));
        push_str(&mut out, "- **");
        out.append(r.meta[i].key.as_str());
        push_str(&mut out, "**: ");
        out.append(r.meta[i].value.as_str());
        push_str(&mut out, "\n");
        assert(out@ =~= o1 + meta_lines(r.meta@.take(i + 1)));
        i = i + 1;
    }
    assert(r.meta@.take(r.meta@.len() as int) =~= r.meta@);
    let ghost o2 = out@;
    if r.bases.len() > 0 {
        push_str(&mut out, "\n");
        let ghost o3 = out@;
        let mut i: usize = 0;
        while i < r.bases.len()
            invariant
                i <= r.bases@.len(),
                out@ == o3 + basis_lines(r.bases@.take(i as int)),
            decreases r.bases@.len() - i,
        {
            assert(r.bases@.take(i + 1).drop_last() =~= r.bases@.take(i as int));
            push_str(&mut out, "- **basis** `");
            out.append(r.bases[i].name.as_str());
            push_str(&mut out, "` = ");
            let raw = r.bases[i].amount.raw();
            push_trimmed(&mut out, raw.as_str());
            push_str(&mut out, "\n");
            assert(out@ =~= o3 + basis_lines(r.bases@.take(i + 1)));
            i = i + 1;
        }
        assert(r.bases@.take(r.bases@.len() as int) =~= r.bases@);
    }
    push_str(&mut out, "\n");
    push_str(&mut out, "| # | node | verb | inputs | time | equipment | notes |\n");
    push_str(&mut out, "|---|------|------|--------|------|-----------|-------|\n");
    assert(out@ =~= flow_head(*r));
    let ghost o4 = out@;
    let mut step: usize = 0;
    let mut id: usize = 0;
    while id < g.nodes.len()
        invariant
            g.wf(),
            id <= g.nodes@.len(),
            step == steps_upto(g.nodes@, id as int),
            step <= id,
            out@ == o4 + rows_upto(g.nodes@, *b, id as int),
        decreases g.nodes@.len() - id,
    {
        let n = &g.nodes[id];
        let row = match n.kind {
            NodeKind::Op => true,
            NodeKind::SubRecipe | NodeKind::Passthrough => n.name.is_some(),
            _ => false,
        };
        if row {
            step = step + 1;
            push_row(&mut out, g, id, b, step);
        }
        assert(out@ =~= o4 + rows_upto(g.nodes@, *b, id + 1));
        id = id + 1;
    }
    out
}

/// Renders a recipe as a Markdown flow table.
pub fn flow_table(r: &Recipe) -> (out: String)
    ensures
        exists|g: Graph, b: BasisTable|
            #![trigger g.wf(), b.spec_entries()]
            g.wf() && g.name@ == r.name@ && crate::model::nodes_view(g.nodes@) == crate::model::spec_build(*r).0
                && b.spec_entries() == crate::basis::bases_table(r.bases@) && out@
                == flow_head(*r) + rows_upto(g.nodes@, b, g.nodes@.len() as int),
{
    let g = crate::model::build(r);
    let b = BasisTable::from_recipe(r);
    flow_table_of(r, &g, &b)
}

/// The letter written at the end of a temperature's braces, before `}`.
pub open spec fn written_temp_letter(text: Seq<char>) -> char {
    let x = crate::number::trimmed(text);
    crate::number::trimmed(x.subrange(1, x.len() - 1)).last()
}

/// A parsed temperature renders with the unit letter it was written with,
/// in upper case: `{180C}` and `{180c}` render `C`, `{350F}` renders `F`.
pub proof fn law_temp_renders_written_unit(text: Seq<char>, span: crate::ast::Span)
    requires
        crate::amount::spec_temp(text, span) is Some,
    ensures
        temp_s(crate::amount::spec_temp(text, span)->Some_0.unit) == seq![
            if written_temp_letter(text) == 'c' { 'C' } else if written_temp_letter(text) == 'f' { 'F' } else { written_temp_letter(text) }
        ],
        written_temp_letter(text) == 'C' || written_temp_letter(text) == 'c' || written_temp_letter(text) == 'F'
            || written_temp_letter(text) == 'f',
{
}

} // verus!
