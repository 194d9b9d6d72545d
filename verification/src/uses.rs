//! What each binding uses: node references, ingredient literals, equipment
//! names and basis-relative amounts, in source order (arguments left to
//! right, nested calls in place, then the equipment list).

use vstd::prelude::*;
use crate::ast::{Amount, Arg, Call, EquipItem, Expr, Ingredient, NodeRef, Term};

verus! {

/// The values behind a sequence of references.
pub open spec fn derefs<T>(s: Seq<&T>) -> Seq<T> {
    Seq::new(s.len(), |i: int| *s[i])
}

pub proof fn lemma_derefs_push<T>(s: Seq<&T>, x: &T)
    ensures
        derefs(s.push(x)) == derefs(s).push(*x),
{
    assert(derefs(s.push(x)) =~= derefs(s).push(*x));
}

/// Node references among the arguments (nested calls included).
pub open spec fn args_refs(args: Seq<Arg>) -> Seq<NodeRef>
    decreases args,
{
    if args.len() == 0 {
        Seq::empty()
    } else {
        let prev = args_refs(args.drop_last());
        match args.last() {
            Arg::Call(cc) => prev + args_refs(cc.args@) + equip_refs(cc.equipment@),
            Arg::NodeRef(n) => prev.push(n),
            _ => prev,
        }
    }
}

/// Node references in an equipment list (equipment-state nodes).
pub open spec fn equip_refs(items: Seq<EquipItem>) -> Seq<NodeRef>
    decreases items.len(),
{
    if items.len() == 0 {
        Seq::empty()
    } else {
        let prev = equip_refs(items.drop_last());
        match items.last() {
            EquipItem::NodeRef(n) => prev.push(n),
            _ => prev,
        }
    }
}

pub open spec fn call_refs(c: Call) -> Seq<NodeRef> {
    args_refs(c.args@) + equip_refs(c.equipment@)
}

/// Data references of a binding's value.
pub open spec fn expr_refs(e: Expr) -> Seq<NodeRef> {
    match e {
        Expr::Call(c) => call_refs(c),
        Expr::SubRef(_) => Seq::empty(),
        Expr::NodeRef(n) => seq![n],
    }
}

/// Ingredient literals among the arguments (nested calls included).
pub open spec fn args_ings(args: Seq<Arg>) -> Seq<Ingredient>
    decreases args,
{
    if args.len() == 0 {
        Seq::empty()
    } else {
        let prev = args_ings(args.drop_last());
        match args.last() {
            Arg::Call(cc) => prev + args_ings(cc.args@),
            Arg::Ingredient(i) => prev.push(i),
            _ => prev,
        }
    }
}

pub open spec fn expr_ings(e: Expr) -> Seq<Ingredient> {
    match e {
        Expr::Call(c) => args_ings(c.args@),
        _ => Seq::empty(),
    }
}

/// Equipment names among the arguments (nested calls included).
pub open spec fn args_equips(args: Seq<Arg>) -> Seq<Seq<char>>
    decreases args,
{
    if args.len() == 0 {
        Seq::empty()
    } else {
        let prev = args_equips(args.drop_last());
        match args.last() {
            Arg::Call(cc) => prev + args_equips(cc.args@) + item_equips(cc.equipment@),
            Arg::Equip(e) => prev.push(e.name@),
            _ => prev,
        }
    }
}

pub open spec fn item_equips(items: Seq<EquipItem>) -> Seq<Seq<char>>
    decreases items.len(),
{
    if items.len() == 0 {
        Seq::empty()
    } else {
        let prev = item_equips(items.drop_last());
        match items.last() {
            EquipItem::Equip(e) => prev.push(e.name@),
            _ => prev,
        }
    }
}

pub open spec fn expr_equips(e: Expr) -> Seq<Seq<char>> {
    match e {
        Expr::Call(c) => args_equips(c.args@) + item_equips(c.equipment@),
        _ => Seq::empty(),
    }
}

fn push_equip_refs<'a>(items: &'a Vec<EquipItem>, out: &mut Vec<&'a NodeRef>)
    ensures
        derefs(final(out)@) == derefs(old(out)@) + equip_refs(items@),
{
    let mut i: usize = 0;
    while i < items.len()
        invariant
            i <= items@.len(),
            derefs(out@) == derefs(old(out)@) + equip_refs(items@.take(i as int)),
        decreases items@.len() - i,
    {
        assert(items@.take(i + 1).drop_last() == items@.take(i as int));
        match &items[i] {
            EquipItem::NodeRef(n) => {
                proof {
                    lemma_derefs_push(out@, n);
                }
                out.push(n);
            },
            _ => {},
        }
        i = i + 1;
    }
    assert(items@.take(i as int) == items@);
}

fn push_args_refs<'a>(args: &'a Vec<Arg>, out: &mut Vec<&'a NodeRef>)
    ensures
        derefs(final(out)@) == derefs(old(out)@) + args_refs(args@),
    decreases args@,
{
    let mut i: usize = 0;
    while i < args.len()
        invariant
            i <= args@.len(),
            derefs(out@) == derefs(old(out)@) + args_refs(args@.take(i as int)),
        decreases args@.len() - i,
    {
        assert(args@.take(i + 1).drop_last() == args@.take(i as int));
        match &args[i] {
            Arg::Call(cc) => {
                assert(decreases_to!(args@ => cc.args@)) by {
                    assert(decreases_to!(args@ => args@[i as int]));
                }
                push_args_refs(&cc.args, out);
                push_equip_refs(&cc.equipment, out);
            },
            Arg::NodeRef(n) => {
                proof {
                    lemma_derefs_push(out@, n);
                }
                out.push(n);
            },
            _ => {},
        }
        i = i + 1;
    }
    assert(args@.take(i as int) == args@);
}

/// The data references of a binding's value, in source order.
pub fn collect_refs<'a>(e: &'a Expr) -> (r: Vec<&'a NodeRef>)
    ensures
        derefs(r@) == expr_refs(*e),
{
    let mut out: Vec<&'a NodeRef> = Vec::new();
    assert(derefs(out@) =~= Seq::<NodeRef>::empty());
    match e {
        Expr::Call(c) => {
            push_args_refs(&c.args, &mut out);
            push_equip_refs(&c.equipment, &mut out);
        },
        Expr::SubRef(_) => {},
        Expr::NodeRef(n) => {
            out.push(n);
            assert(derefs(out@) =~= seq![*n]);
        },
    }
    out
}

fn push_args_ings<'a>(args: &'a Vec<Arg>, out: &mut Vec<&'a Ingredient>)
    ensures
        derefs(final(out)@) == derefs(old(out)@) + args_ings(args@),
    decreases args@,
{
    let mut i: usize = 0;
    while i < args.len()
        invariant
            i <= args@.len(),
            derefs(out@) == derefs(old(out)@) + args_ings(args@.take(i as int)),
        decreases args@.len() - i,
    {
        assert(args@.take(i + 1).drop_last() == args@.take(i as int));
        match &args[i] {
            Arg::Call(cc) => {
                assert(decreases_to!(args@ => cc.args@)) by {
                    assert(decreases_to!(args@ => args@[i as int]));
                }
                push_args_ings(&cc.args, out);
            },
            Arg::Ingredient(g) => {
                proof {
                    lemma_derefs_push(out@, g);
                }
                out.push(g);
            },
            _ => {},
        }
        i = i + 1;
    }
    assert(args@.take(i as int) == args@);
}

/// The ingredient literals of a binding's value, in source order.
pub fn collect_ings<'a>(e: &'a Expr) -> (r: Vec<&'a Ingredient>)
    ensures
        derefs(r@) == expr_ings(*e),
{
    let mut out: Vec<&'a Ingredient> = Vec::new();
    assert(derefs(out@) =~= Seq::<Ingredient>::empty());
    match e {
        Expr::Call(c) => push_args_ings(&c.args, &mut out),
        _ => {},
    }
    out
}

fn push_item_equips<'a>(items: &'a Vec<EquipItem>, out: &mut Vec<&'a String>)
    ensures
        final(out)@.map_values(|s: &String| s@) == old(out)@.map_values(|s: &String| s@)
            + item_equips(items@),
{
    let mut i: usize = 0;
    while i < items.len()
        invariant
            i <= items@.len(),
            out@.map_values(|s: &String| s@) == old(out)@.map_values(|s: &String| s@)
                + item_equips(items@.take(i as int)),
        decreases items@.len() - i,
    {
        assert(items@.take(i + 1).drop_last() == items@.take(i as int));
        match &items[i] {
            EquipItem::Equip(e) => {
                let ghost before = out@;
                out.push(&e.name);
                assert(out@.map_values(|s: &String| s@) == before.map_values(|s: &String| s@).push(
                    e.name@,
                ));
            },
            _ => {},
        }
        i = i + 1;
    }
    assert(items@.take(i as int) == items@);
}

fn push_args_equips<'a>(args: &'a Vec<Arg>, out: &mut Vec<&'a String>)
    ensures
        final(out)@.map_values(|s: &String| s@) == old(out)@.map_values(|s: &String| s@)
            + args_equips(args@),
    decreases args@,
{
    let mut i: usize = 0;
    while i < args.len()
        invariant
            i <= args@.len(),
            out@.map_values(|s: &String| s@) == old(out)@.map_values(|s: &String| s@)
                + args_equips(args@.take(i as int)),
        decreases args@.len() - i,
    {
        assert(args@.take(i + 1).drop_last() == args@.take(i as int));
        match &args[i] {
            Arg::Call(cc) => {
                assert(decreases_to!(args@ => cc.args@)) by {
                    assert(decreases_to!(args@ => args@[i as int]));
                }
                push_args_equips(&cc.args, out);
                push_item_equips(&cc.equipment, out);
            },
            Arg::Equip(e) => {
                let ghost before = out@;
                out.push(&e.name);
                assert(out@.map_values(|s: &String| s@) == before.map_values(|s: &String| s@).push(
                    e.name@,
                ));
            },
            _ => {},
        }
        i = i + 1;
    }
    assert(args@.take(i as int) == args@);
}

/// The equipment names of a binding's value, in source order.
pub fn collect_equips<'a>(e: &'a Expr) -> (r: Vec<&'a String>)
    ensures
        r@.map_values(|s: &String| s@) == expr_equips(*e),
{
    let mut out: Vec<&'a String> = Vec::new();
    assert(out@.map_values(|s: &String| s@) == Seq::<Seq<char>>::empty());
    match e {
        Expr::Call(c) => {
            push_args_equips(&c.args, &mut out);
            push_item_equips(&c.equipment, &mut out);
        },
        _ => {},
    }
    out
}

} // verus!
