//! A single-cook greedy scheduler.
//!
//! An as-soon-as-possible pass over the data graph, then `&by` nodes are
//! back-placed as late as possible toward their target (so a preheat
//! finishes just in time rather than starting at T=0). Attention-capacity
//! serialization of `@` blocks is reported but not enforced.
//!
//! Times are whole nanoseconds. Sums saturate at the ends of `i128`.

use vstd::prelude::*;
use crate::ast::{Duration, File, Link, Menu, MenuEntry, MenuTarget, Recipe, Temp, Timer};
use crate::model::{Graph, Node, NodeKind, node_ok, nodes_ok};
use crate::text::{push_char, push_str};
use crate::parse::{Lowered, lowered_wf};

verus! {

/// Nanoseconds per minute.
pub const NANOS_PER_MIN: i128 = 60_000_000_000;

/// `x` held within `i128`.
pub open spec fn clamp(x: int) -> int {
    if x > i128::MAX {
        i128::MAX as int
    } else if x < i128::MIN {
        i128::MIN as int
    } else {
        x
    }
}

pub fn sat_add(a: i128, b: i128) -> (r: i128)
    ensures
        r == clamp(a + b),
{
    match a.checked_add(b) {
        Some(x) => x,
        None => if b > 0 {
            i128::MAX
        } else {
            i128::MIN
        },
    }
}

pub fn sat_sub(a: i128, b: i128) -> (r: i128)
    ensures
        r == clamp(a - b),
{
    match a.checked_sub(b) {
        Some(x) => x,
        None => if b < 0 {
            i128::MAX
        } else {
            i128::MIN
        },
    }
}

/// A duration in nanoseconds.
pub open spec fn dur_nanos(d: Duration) -> int {
    clamp(d.spec_seconds())
}

fn duration_nanos(d: &Duration) -> (r: i128)
    ensures
        r == dur_nanos(*d),
{
    match d.value.nanos.checked_mul(d.unit.seconds()) {
        Some(x) => x,
        None => if d.value.nanos > 0 {
            i128::MAX
        } else {
            i128::MIN
        },
    }
}

/// How long one timer takes: the high end of a range, 0 for `~?`.
pub open spec fn timer_dur(t: Timer) -> int {
    match t {
        Timer::Active(r) | Timer::Passive(r) => match r.high {
            Some(h) => dur_nanos(h),
            None => dur_nanos(r.low),
        },
        Timer::Unbounded { .. } => 0,
    }
}

/// The longest of the first `k` timers (0 when there are none).
pub open spec fn max_dur(ts: Seq<Timer>, k: int) -> int
    decreases k,
{
    if k <= 0 || k > ts.len() {
        0
    } else {
        let m = max_dur(ts, k - 1);
        let d = timer_dur(ts[k - 1]);
        if d > m {
            d
        } else {
            m
        }
    }
}

pub open spec fn node_dur(n: Node) -> int {
    max_dur(n.timers@, n.timers@.len() as int)
}

pub fn node_duration(n: &Node) -> (r: i128)
    ensures
        r == node_dur(*n),
{
    let mut m: i128 = 0;
    let mut i: usize = 0;
    while i < n.timers.len()
        invariant
            i <= n.timers@.len(),
            m == max_dur(n.timers@, i as int),
        decreases n.timers@.len() - i,
    {
        let d = match n.timers[i] {
            Timer::Active(r) | Timer::Passive(r) => match r.high {
                Some(h) => duration_nanos(&h),
                None => duration_nanos(&r.low),
            },
            Timer::Unbounded { .. } => 0,
        };
        if d > m {
            m = d;
        }
        i = i + 1;
    }
    m
}

/// Whether a node has an active (`@`) timer.
pub open spec fn is_active_node(n: Node) -> bool {
    exists|i: int| 0 <= i < n.timers@.len() && (#[trigger] n.timers@[i]) is Active
}

fn is_active(n: &Node) -> (r: bool)
    ensures
        r == is_active_node(*n),
{
    let mut i: usize = 0;
    while i < n.timers.len()
        invariant
            i <= n.timers@.len(),
            forall|k: int| 0 <= k < i ==> !((#[trigger] n.timers@[k]) is Active),
        decreases n.timers@.len() - i,
    {
        match n.timers[i] {
            Timer::Active(_) => {
                return true;
            },
            _ => {},
        }
        i = i + 1;
    }
    false
}

/// As-soon-as-possible finish time of node `id`: it starts when its last
/// input finishes (at 0 if none) and runs for its duration.
pub open spec fn asap_finish(ns: Seq<Node>, id: int) -> int
    decreases id, 1nat, 0int,
{
    if 0 <= id < ns.len() {
        clamp(asap_start_k(ns, id, ns[id].inputs@.len() as int) + node_dur(ns[id]))
    } else {
        0
    }
}

/// The latest finish among the first `k` inputs of `id` (at least 0).
pub open spec fn asap_start_k(ns: Seq<Node>, id: int, k: int) -> int
    decreases id, 0nat, k,
{
    if 0 <= id < ns.len() && 0 < k <= ns[id].inputs@.len() {
        let inp = ns[id].inputs@[k - 1] as int;
        let f = if 0 <= inp < id {
            asap_finish(ns, inp)
        } else {
            0
        };
        let m = asap_start_k(ns, id, k - 1);
        if f > m {
            f
        } else {
            m
        }
    } else {
        0
    }
}

pub open spec fn asap_start(ns: Seq<Node>, id: int) -> int {
    asap_start_k(ns, id, ns[id].inputs@.len() as int)
}

/// ASAP start and finish for every node (id order is topological).
pub fn asap(g: &Graph) -> (r: (Vec<i128>, Vec<i128>))
    requires
        g.wf(),
    ensures
        r.0@.len() == g.nodes@.len(),
        r.1@.len() == g.nodes@.len(),
        forall|i: int| 0 <= i < g.nodes@.len() ==> (#[trigger] r.0@[i]) == asap_start(g.nodes@, i),
        forall|i: int| 0 <= i < g.nodes@.len() ==> (#[trigger] r.1@[i]) == asap_finish(g.nodes@, i),
{
    let ghost ns = g.nodes@;
    let mut start: Vec<i128> = Vec::new();
    let mut finish: Vec<i128> = Vec::new();
    let mut id: usize = 0;
    while id < g.nodes.len()
        invariant
            g.wf(),
            ns == g.nodes@,
            id <= ns.len(),
            start@.len() == id,
            finish@.len() == id,
            forall|i: int| 0 <= i < id ==> (#[trigger] start@[i]) == asap_start(ns, i),
            forall|i: int| 0 <= i < id ==> (#[trigger] finish@[i]) == asap_finish(ns, i),
        decreases ns.len() - id,
    {
        let n = &g.nodes[id];
        let mut s: i128 = 0;
        let mut k: usize = 0;
        while k < n.inputs.len()
            invariant
                g.wf(),
                ns == g.nodes@,
                id < ns.len(),
                *n == ns[id as int],
                finish@.len() == id,
                forall|i: int| 0 <= i < id ==> (#[trigger] finish@[i]) == asap_finish(ns, i),
                k <= n.inputs@.len(),
                s == asap_start_k(ns, id as int, k as int),
            decreases n.inputs@.len() - k,
        {
            let i = n.inputs[k];
            proof {
                assert(node_ok(ns[id as int], id as int));
                assert(n.inputs@[k as int] < id);
            }
            let f = finish[i];
            if f > s {
                s = f;
            }
            k = k + 1;
        }
        let d = node_duration(n);
        start.push(s);
        finish.push(sat_add(s, d));
        id = id + 1;
    }
    (start, finish)
}

/// The last node named `name` (later names win).
pub open spec fn name_find(ns: Seq<Node>, name: Seq<char>, k: int) -> Option<usize>
    decreases k,
{
    if k <= 0 || k > ns.len() {
        None
    } else if ns[k - 1].name matches Some(x) && x@ == name {
        Some((k - 1) as usize)
    } else {
        name_find(ns, name, k - 1)
    }
}

fn find_node(g: &Graph, name: &String) -> (r: Option<usize>)
    ensures
        r == name_find(g.nodes@, name@, g.nodes@.len() as int),
        r matches Some(i) ==> i < g.nodes@.len(),
{
    let ghost ns = g.nodes@;
    let mut k: usize = g.nodes.len();
    while k > 0
        invariant
            ns == g.nodes@,
            k <= ns.len(),
            name_find(ns, name@, ns.len() as int) == name_find(ns, name@, k as int),
        decreases k,
    {
        match &g.nodes[k - 1].name {
            Some(x) => {
                if *x == *name {
                    return Some(k - 1);
                }
            },
            None => {},
        }
        k = k - 1;
    }
    None
}

/// `+5m`, `-12m`, `+0m`: minutes, rounded half to even, with a sign.
pub open spec fn min_s(t: int) -> Seq<char> {
    let a = if t < 0 {
        -t
    } else {
        t
    };
    if a < 3_000_000_000 {
        "+0m"@
    } else {
        let q = a / (NANOS_PER_MIN as int);
        let r = a % (NANOS_PER_MIN as int);
        let m = if r * 2 > NANOS_PER_MIN || (r * 2 == NANOS_PER_MIN && q % 2 == 1) {
            q + 1
        } else {
            q
        };
        (if t < 0 {
            seq!['-']
        } else {
            seq!['+']
        }) + crate::number::spec_nat_str(m as nat) + seq!['m']
    }
}

pub fn push_min(out: &mut String, t: i128)
    ensures
        final(out)@ == old(out)@ + min_s(t as int),
{
    let ghost o0 = out@;
    let a: u128 = if t >= 0 {
        t as u128
    } else {
        ((-(t + 1)) as u128) + 1
    };
    assert(a == (if t < 0 { -t } else { t as int }));
    if a < 3_000_000_000 {
        push_str(out, "+0m");
        return;
    }
    let q = a / 60_000_000_000;
    let r = a % 60_000_000_000;
    let m = if r * 2 > 60_000_000_000 || (r * 2 == 60_000_000_000 && q % 2 == 1) {
        q + 1
    } else {
        q
    };
    if t < 0 {
        push_char(out, '-');
    } else {
        push_char(out, '+');
    }
    crate::number::push_nat(out, m);
    push_char(out, 'm');
    assert(out@ =~= o0 + min_s(t as int));
}

/// `m` held within `i64`.
pub open spec fn clamp64(m: int) -> int {
    if m > i64::MAX {
        i64::MAX as int
    } else if m < i64::MIN {
        i64::MIN as int
    } else {
        m
    }
}

/// Two digits, zero-padded.
pub open spec fn two_digits(n: nat) -> Seq<char> {
    seq![crate::number::digit_char(n / 10), crate::number::digit_char(n % 10)]
}

/// `45m` or `1h05m`: whole minutes (rounded half away from zero).
pub open spec fn dur_s(t: int) -> Seq<char> {
    let m = clamp64(crate::number::round_div(t, NANOS_PER_MIN as int));
    if m >= 60 {
        crate::number::spec_nat_str((m / 60) as nat) + seq!['h'] + two_digits((m % 60) as nat) + seq!['m']
    } else {
        crate::number::spec_int_str(m) + seq!['m']
    }
}

pub fn push_dur(out: &mut String, t: i128)
    ensures
        final(out)@ == old(out)@ + dur_s(t as int),
{
    let ghost o0 = out@;
    let a: u128 = if t >= 0 {
        t as u128
    } else {
        ((-(t + 1)) as u128) + 1
    };
    let q: u128 = (a + 30_000_000_000) / 60_000_000_000;
    // q is at most about 2.9e27; clamp into i64
    let m: i64 = if t >= 0 {
        if q > 9_223_372_036_854_775_807u128 {
            i64::MAX
        } else {
            q as i64
        }
    } else {
        if q > 9_223_372_036_854_775_808u128 {
            i64::MIN
        } else if q == 9_223_372_036_854_775_808u128 {
            i64::MIN
        } else {
            -(q as i64)
        }
    };
    proof {
        let rd = crate::number::round_div(t as int, NANOS_PER_MIN as int);
        if t >= 0 {
            assert(rd == q);
        } else {
            assert(rd == -(q as int));
        }
        assert(m == clamp64(rd));
    }
    if m >= 60 {
        crate::number::push_nat(out, (m / 60) as u128);
        push_char(out, 'h');
        let r = (m % 60) as u128;
        push_char(out, crate::number::digit_to_char(r / 10));
        push_char(out, crate::number::digit_to_char(r % 10));
        push_char(out, 'm');
    } else {
        crate::number::push_int(out, m as i128);
        push_char(out, 'm');
    }
    assert(out@ =~= o0 + dur_s(t as int));
}

/// The back-placement note of a node.
pub open spec fn bp_note(name: Seq<char>, target: Seq<char>, s: int) -> Seq<char> {
    "'"@ + name + "' back-placed to finish by '"@ + target + "' (starts at "@ + min_s(s) + ", not T=0)"@
}

/// Start times, finish times and notes while placing.
pub type TimesView = (Seq<int>, Seq<int>, Seq<Seq<char>>);

/// One link of node `id`: a `&by` whose target finishes no earlier than the
/// node moves the node to finish with its target.
pub open spec fn bp_link(ns: Seq<Node>, st: TimesView, id: int, l: Link) -> TimesView {
    match l {
        Link::By { target, .. } => match name_find(ns, target.name@, ns.len() as int) {
            Some(tid) => {
                let tf = st.1[tid as int];
                if tf >= st.1[id] {
                    let s = clamp(tf - node_dur(ns[id]));
                    (
                        st.0.update(id, s),
                        st.1.update(id, tf),
                        match ns[id].name {
                            Some(nm) => st.2.push(bp_note(nm@, target.name@, s)),
                            None => st.2,
                        },
                    )
                } else {
                    st
                }
            },
            None => st,
        },
        _ => st,
    }
}

/// The first `k` links of node `id`, in order.
pub open spec fn bp_links(ns: Seq<Node>, st: TimesView, id: int, k: int) -> TimesView
    decreases k,
{
    if k <= 0 || k > ns[id].links@.len() {
        st
    } else {
        bp_link(ns, bp_links(ns, st, id, k - 1), id, *ns[id].links@[k - 1])
    }
}

/// The links of the first `k` nodes, in id order.
pub open spec fn bp_upto(ns: Seq<Node>, st: TimesView, k: int) -> TimesView
    decreases k,
{
    if k <= 0 || k > ns.len() {
        st
    } else {
        let prev = bp_upto(ns, st, k - 1);
        bp_links(ns, prev, k - 1, ns[k - 1].links@.len() as int)
    }
}

/// The ASAP times of a graph, before back-placement.
pub open spec fn asap_times(ns: Seq<Node>) -> TimesView {
    (
        Seq::new(ns.len(), |i: int| asap_start(ns, i)),
        Seq::new(ns.len(), |i: int| asap_finish(ns, i)),
        Seq::empty(),
    )
}

/// The times after back-placement.
pub open spec fn placed(ns: Seq<Node>) -> TimesView {
    bp_upto(ns, asap_times(ns), ns.len() as int)
}

proof fn lemma_bp_len(ns: Seq<Node>, st: TimesView, k: int)
    requires
        st.0.len() == ns.len(),
        st.1.len() == ns.len(),
    ensures
        bp_upto(ns, st, k).0.len() == ns.len(),
        bp_upto(ns, st, k).1.len() == ns.len(),
    decreases k,
{
    if k > 0 && k <= ns.len() {
        lemma_bp_len(ns, st, k - 1);
        lemma_bp_links_len(ns, bp_upto(ns, st, k - 1), k - 1, ns[k - 1].links@.len() as int);
    }
}

proof fn lemma_bp_links_len(ns: Seq<Node>, st: TimesView, id: int, k: int)
    requires
        0 <= id < ns.len(),
        st.0.len() == ns.len(),
        st.1.len() == ns.len(),
    ensures
        bp_links(ns, st, id, k).0.len() == ns.len(),
        bp_links(ns, st, id, k).1.len() == ns.len(),
    decreases k,
{
    if k > 0 && k <= ns[id].links@.len() {
        lemma_bp_links_len(ns, st, id, k - 1);
    }
}

/// Applies back-placement in place.
fn back_place(g: &Graph, start: &mut Vec<i128>, finish: &mut Vec<i128>, notes: &mut Vec<String>)
    requires
        g.wf(),
        old(start)@.len() == g.nodes@.len(),
        old(finish)@.len() == g.nodes@.len(),
    ensures
        final(start)@.len() == g.nodes@.len(),
        final(finish)@.len() == g.nodes@.len(),
        (Seq::new(g.nodes@.len(), |i: int| final(start)@[i] as int), Seq::new(
            g.nodes@.len(),
            |i: int| final(finish)@[i] as int,
        ), crate::text::views(final(notes)@)) == bp_upto(
            g.nodes@,
            (Seq::new(g.nodes@.len(), |i: int| old(start)@[i] as int), Seq::new(
                g.nodes@.len(),
                |i: int| old(finish)@[i] as int,
            ), crate::text::views(old(notes)@)),
            g.nodes@.len() as int,
        ),
{
    let ghost ns = g.nodes@;
    let ghost st0: TimesView = (
        Seq::new(ns.len(), |i: int| start@[i] as int),
        Seq::new(ns.len(), |i: int| finish@[i] as int),
        crate::text::views(notes@),
    );
    let mut id: usize = 0;
    while id < g.nodes.len()
        invariant
            g.wf(),
            ns == g.nodes@,
            id <= ns.len(),
            start@.len() == ns.len(),
            finish@.len() == ns.len(),
            (Seq::new(ns.len(), |i: int| start@[i] as int), Seq::new(ns.len(), |i: int| finish@[i] as int), crate::text::views(notes@))
                == bp_upto(ns, st0, id as int),
        decreases ns.len() - id,
    {
        let n = &g.nodes[id];
        let mut k: usize = 0;
        while k < n.links.len()
            invariant
                g.wf(),
                ns == g.nodes@,
                id < ns.len(),
                *n == ns[id as int],
                start@.len() == ns.len(),
                finish@.len() == ns.len(),
                k <= n.links@.len(),
                (Seq::new(ns.len(), |i: int| start@[i] as int), Seq::new(ns.len(), |i: int| finish@[i] as int), crate::text::views(notes@))
                    == bp_links(ns, bp_upto(ns, st0, id as int), id as int, k as int),
            decreases n.links@.len() - k,
        {
            let ghost before: TimesView = (
                Seq::new(ns.len(), |i: int| start@[i] as int),
                Seq::new(ns.len(), |i: int| finish@[i] as int),
                crate::text::views(notes@),
            );
            match n.links[k] {
                Link::By { target, .. } => {
                    match find_node(g, &target.name) {
                        Some(tid) => {
                            let dur = node_duration(n);
                            let tf = finish[tid];
                            if tf >= finish[id] {
                                let s = sat_sub(tf, dur);
                                finish.set(id, tf);
                                start.set(id, s);
                                match &n.name {
                                    Some(nm) => {
                                        let mut t = String::new();
                                        push_str(&mut t, "'");
                                        t.append(nm.as_str());
                                        push_str(&mut t, "' back-placed to finish by '");
                                        t.append(target.name.as_str());
                                        push_str(&mut t, "' (starts at ");
                                        push_min(&mut t, s);
                                        push_str(&mut t, ", not T=0)");
                                        let ghost tv = t@;
                                        assert(tv =~= bp_note(nm@, target.name@, s as int));
                                        let ghost nb = notes@;
                                        notes.push(t);
                                        assert(crate::text::views(notes@) =~= crate::text::views(nb).push(tv));
                                    },
                                    None => {},
                                }
                                assert(Seq::new(ns.len(), |i: int| start@[i] as int) =~= before.0.update(id as int, s as int));
                                assert(Seq::new(ns.len(), |i: int| finish@[i] as int) =~= before.1.update(id as int, tf as int));
                            }
                        },
                        None => {},
                    }
                },
                _ => {},
            }
            k = k + 1;
        }
        id = id + 1;
    }
}

/// Whether node `n` becomes a timeline task: ops, sub-recipes and
/// passthroughs, except instantaneous intermediates without equipment.
pub open spec fn is_task(n: Node) -> bool {
    (n.kind is Op || n.kind is SubRecipe || n.kind is Passthrough) && !(node_dur(n) == 0
        && n.equipment@.len() == 0 && !n.is_terminal)
}

/// The task nodes among the first `k`, in id order.
pub open spec fn task_ids(ns: Seq<Node>, k: int) -> Seq<usize>
    decreases k,
{
    if k <= 0 || k > ns.len() {
        Seq::empty()
    } else if is_task(ns[k - 1]) {
        task_ids(ns, k - 1).push((k - 1) as usize)
    } else {
        task_ids(ns, k - 1)
    }
}

/// `s` with `x` placed after every element whose key is at most `x`'s.
pub open spec fn insert_by(s: Seq<usize>, x: usize, key: Seq<int>) -> Seq<usize>
    decreases s.len(),
{
    if s.len() == 0 {
        seq![x]
    } else if key[s.last() as int] <= key[x as int] {
        s.push(x)
    } else {
        insert_by(s.drop_last(), x, key).push(s.last())
    }
}

/// Stable sort of `s` by key.
pub open spec fn sort_by(s: Seq<usize>, key: Seq<int>) -> Seq<usize>
    decreases s.len(),
{
    if s.len() == 0 {
        s
    } else {
        insert_by(sort_by(s.drop_last(), key), s.last(), key)
    }
}

proof fn lemma_insert_at(s: Seq<usize>, x: usize, key: Seq<int>, p: int)
    requires
        0 <= p <= s.len(),
        forall|j: int| p <= j < s.len() ==> key[s[j] as int] > key[x as int],
        p == 0 || key[s[p - 1] as int] <= key[x as int],
    ensures
        insert_by(s, x, key) == s.take(p).push(x) + s.skip(p),
    decreases s.len(),
{
    if s.len() == 0 {
        assert(s.take(p).push(x) + s.skip(p) =~= seq![x]);
    } else if p == s.len() {
        assert(s.take(p) =~= s);
        assert(s.skip(p) =~= Seq::<usize>::empty());
        assert(s.push(x) + Seq::<usize>::empty() =~= s.push(x));
    } else {
        let t = s.drop_last();
        assert forall|j: int| p <= j < t.len() implies key[t[j] as int] > key[x as int] by {
            assert(t[j] == s[j]);
        }
        if p > 0 {
            assert(t[p - 1] == s[p - 1]);
        }
        lemma_insert_at(t, x, key, p);
        assert(s.take(p).push(x) + s.skip(p) =~= (t.take(p).push(x) + t.skip(p)).push(s.last()));
    }
}

pub fn insert_sorted(v: &mut Vec<usize>, x: usize, key: &Vec<i128>)
    requires
        forall|j: int| 0 <= j < old(v)@.len() ==> (#[trigger] old(v)@[j]) < key@.len(),
        x < key@.len(),
    ensures
        final(v)@ == insert_by(old(v)@, x, Seq::new(key@.len(), |i: int| key@[i] as int)),
        forall|j: int| 0 <= j < final(v)@.len() ==> (#[trigger] final(v)@[j]) < key@.len(),
{
    let ghost kv = Seq::new(key@.len(), |i: int| key@[i] as int);
    let mut p: usize = v.len();
    while p > 0 && key[v[p - 1]] > key[x]
        invariant
            p <= v@.len(),
            forall|j: int| 0 <= j < v@.len() ==> (#[trigger] v@[j]) < key@.len(),
            x < key@.len(),
            kv == Seq::new(key@.len(), |i: int| key@[i] as int),
            forall|j: int| p <= j < v@.len() ==> kv[v@[j] as int] > kv[x as int],
        decreases p,
    {
        p = p - 1;
    }
    proof {
        lemma_insert_at(v@, x, kv, p as int);
    }
    let ghost old_v = v@;
    v.insert(p, x);
    assert(v@ =~= old_v.take(p as int).push(x) + old_v.skip(p as int));
    assert forall|j: int| 0 <= j < v@.len() implies (#[trigger] v@[j]) < key@.len() by {
        if j < p {
            assert(v@[j] == old_v[j]);
        } else if j > p {
            assert(v@[j] == old_v[j - 1]);
        }
    }
}

/// One piece of equipment of a task: its name and temperature.
pub open spec fn equip_pairs(es: Seq<crate::model::EquipUse>) -> Seq<(Seq<char>, Option<Temp>)> {
    Seq::new(es.len(), |i: int| (es[i].name@, es[i].temp))
}

/// Equipment inherited from the first `k` inputs of `id` that are
/// equipment-state nodes (e.g. `bake` consumes `hot`, so it occupies the
/// oven).
pub open spec fn inherited(ns: Seq<Node>, id: int, k: int) -> Seq<(Seq<char>, Option<Temp>)>
    decreases k,
{
    if k <= 0 || k > ns[id].inputs@.len() {
        Seq::empty()
    } else {
        let inp = ns[id].inputs@[k - 1] as int;
        inherited(ns, id, k - 1) + if 0 <= inp < ns.len() && ns[inp].spec_equipment_prep(ns) {
            equip_pairs(ns[inp].equipment@)
        } else {
            Seq::empty()
        }
    }
}

pub open spec fn task_equipment(ns: Seq<Node>, id: int) -> Seq<(Seq<char>, Option<Temp>)> {
    equip_pairs(ns[id].equipment@) + inherited(ns, id, ns[id].inputs@.len() as int)
}

/// A task on the timeline.
#[derive(Debug)]
pub struct Task {
    pub name: String,
    pub verb: String,
    pub start: i128,
    pub finish: i128,
    pub active: bool,
    pub equipment: Vec<(String, Option<Temp>)>,
    pub note: Option<String>,
}

/// A lane of tasks (one per recipe).
#[derive(Debug)]
pub struct Lane {
    pub label: String,
    pub tasks: Vec<Task>,
}

/// A schedule.
#[derive(Debug)]
pub struct Plan {
    pub title: String,
    pub lanes: Vec<Lane>,
    pub makespan: i128,
    pub notes: Vec<String>,
}

pub open spec fn pair_views(v: Seq<(String, Option<Temp>)>) -> Seq<(Seq<char>, Option<Temp>)> {
    Seq::new(v.len(), |i: int| (v[i].0@, v[i].1))
}

/// The name a node goes by on the timeline.
pub open spec fn name_or_label(n: Node) -> Seq<char> {
    match n.name {
        Some(x) => x@,
        None => n.label@,
    }
}

/// Task `t` is node `id` of the graph at the given times.
pub open spec fn task_is(t: Task, ns: Seq<Node>, starts: Seq<int>, finishes: Seq<int>, id: int) -> bool {
    &&& t.name@ == name_or_label(ns[id])
    &&& t.verb@ == ns[id].label@
    &&& t.start == starts[id]
    &&& t.finish == finishes[id]
    &&& t.active == is_active_node(ns[id])
    &&& pair_views(t.equipment@) == task_equipment(ns, id)
    &&& t.note == (if ns[id].docs@.len() > 0 {
        Some(ns[id].docs@[0])
    } else {
        None
    })
}

fn task_of(g: &Graph, id: usize, start: i128, finish: i128) -> (t: Task)
    requires
        g.wf(),
        id < g.nodes@.len(),
    ensures
        t.name@ == name_or_label(g.nodes@[id as int]),
        t.verb@ == g.nodes@[id as int].label@,
        t.start == start,
        t.finish == finish,
        t.active == is_active_node(g.nodes@[id as int]),
        pair_views(t.equipment@) == task_equipment(g.nodes@, id as int),
        t.note == (if g.nodes@[id as int].docs@.len() > 0 {
            Some(g.nodes@[id as int].docs@[0])
        } else {
            None
        }),
{
    let ghost ns = g.nodes@;
    let n = &g.nodes[id];
    let name = match &n.name {
        Some(x) => x.clone(),
        None => n.label.clone(),
    };
    let mut equipment: Vec<(String, Option<Temp>)> = Vec::new();
    let mut i: usize = 0;
    while i < n.equipment.len()
        invariant
            i <= n.equipment@.len(),
            pair_views(equipment@) == equip_pairs(n.equipment@.take(i as int)),
        decreases n.equipment@.len() - i,
    {
        let ghost before = equipment@;
        let nm = n.equipment[i].name.clone();
        let ghost nv = nm@;
        equipment.push((nm, n.equipment[i].temp));
        assert(pair_views(equipment@) =~= pair_views(before).push((nv, n.equipment@[i as int].temp)));
        assert(n.equipment@.take(i + 1) =~= n.equipment@.take(i as int).push(n.equipment@[i as int]));
        assert(pair_views(equipment@) =~= equip_pairs(n.equipment@.take(i + 1)));
        i = i + 1;
    }
    assert(n.equipment@.take(n.equipment@.len() as int) =~= n.equipment@);
    let ghost e0 = pair_views(equipment@);
    let mut k: usize = 0;
    while k < n.inputs.len()
        invariant
            g.wf(),
            ns == g.nodes@,
            id < ns.len(),
            *n == ns[id as int],
            k <= n.inputs@.len(),
            e0 == equip_pairs(n.equipment@),
            pair_views(equipment@) == e0 + inherited(ns, id as int, k as int),
        decreases n.inputs@.len() - k,
    {
        let inp = n.inputs[k];
        proof {
            assert(node_ok(ns[id as int], id as int));
            assert(n.inputs@[k as int] < id);
            assert(node_ok(ns[inp as int], inp as int));
        }
        let ghost e1 = pair_views(equipment@);
        if g.nodes[inp].is_equipment_prep(g) {
            let m = &g.nodes[inp];
            let mut j: usize = 0;
            while j < m.equipment.len()
                invariant
                    j <= m.equipment@.len(),
                    pair_views(equipment@) == e1 + equip_pairs(m.equipment@.take(j as int)),
                decreases m.equipment@.len() - j,
            {
                let ghost before = equipment@;
                let nm = m.equipment[j].name.clone();
                let ghost nv = nm@;
                equipment.push((nm, m.equipment[j].temp));
                assert(pair_views(equipment@) =~= pair_views(before).push((nv, m.equipment@[j as int].temp)));
                assert(m.equipment@.take(j + 1) =~= m.equipment@.take(j as int).push(m.equipment@[j as int]));
                assert(pair_views(equipment@) =~= e1 + equip_pairs(m.equipment@.take(j + 1)));
                j = j + 1;
            }
            assert(m.equipment@.take(m.equipment@.len() as int) =~= m.equipment@);
        }
        assert(pair_views(equipment@) =~= e0 + inherited(ns, id as int, k + 1));
        k = k + 1;
    }
    let note = if n.docs.len() > 0 {
        Some(n.docs[0].clone())
    } else {
        None
    };
    Task {
        name,
        verb: n.label.clone(),
        start,
        finish,
        active: is_active(n),
        equipment,
        note,
    }
}

/// The timeline tasks of a graph at the given times, ordered by start (ties
/// keep id order).
pub fn build_tasks(g: &Graph, start: &Vec<i128>, finish: &Vec<i128>) -> (r: Vec<Task>)
    requires
        g.wf(),
        start@.len() == g.nodes@.len(),
        finish@.len() == g.nodes@.len(),
    ensures
        ({
            let ids = sort_by(task_ids(g.nodes@, g.nodes@.len() as int), Seq::new(start@.len(), |i: int| start@[i] as int));
            &&& r@.len() == ids.len()
            &&& forall|k: int| 0 <= k < ids.len() ==> task_is(#[trigger] r@[k], g.nodes@, Seq::new(start@.len(), |i: int| start@[i] as int), Seq::new(finish@.len(), |i: int| finish@[i] as int), ids[k] as int)
        }),
{
    let ghost ns = g.nodes@;
    let ghost kv = Seq::new(start@.len(), |i: int| start@[i] as int);
    let mut ids: Vec<usize> = Vec::new();
    let mut id: usize = 0;
    while id < g.nodes.len()
        invariant
            g.wf(),
            ns == g.nodes@,
            start@.len() == ns.len(),
            kv == Seq::new(start@.len(), |i: int| start@[i] as int),
            id <= ns.len(),
            ids@ == sort_by(task_ids(ns, id as int), kv),
            forall|j: int| 0 <= j < ids@.len() ==> (#[trigger] ids@[j]) < start@.len(),
        decreases ns.len() - id,
    {
        let n = &g.nodes[id];
        let interesting = match n.kind {
            NodeKind::Op | NodeKind::SubRecipe | NodeKind::Passthrough => true,
            _ => false,
        };
        let skip = node_duration(n) == 0 && n.equipment.len() == 0 && !n.is_terminal;
        if interesting && !skip {
            insert_sorted(&mut ids, id, start);
            assert(task_ids(ns, id + 1).drop_last() == task_ids(ns, id as int));
        }
        id = id + 1;
    }
    let ghost fin = Seq::new(finish@.len(), |i: int| finish@[i] as int);
    let mut tasks: Vec<Task> = Vec::new();
    let mut k: usize = 0;
    while k < ids.len()
        invariant
            g.wf(),
            ns == g.nodes@,
            start@.len() == ns.len(),
            finish@.len() == ns.len(),
            kv == Seq::new(start@.len(), |i: int| start@[i] as int),
            fin == Seq::new(finish@.len(), |i: int| finish@[i] as int),
            forall|j: int| 0 <= j < ids@.len() ==> (#[trigger] ids@[j]) < start@.len(),
            k <= ids@.len(),
            tasks@.len() == k,
            forall|q: int| 0 <= q < k ==> task_is(#[trigger] tasks@[q], ns, kv, fin, ids@[q] as int),
        decreases ids@.len() - k,
    {
        let id = ids[k];
        assert(ids@[k as int] < start@.len());
        let t = task_of(g, id, start[id], finish[id]);
        tasks.push(t);
        k = k + 1;
    }
    tasks
}

/// Total active time of the first `k` tasks (saturating).
pub open spec fn active_total(ts: Seq<Task>, k: int) -> int
    decreases k,
{
    if k <= 0 || k > ts.len() {
        0
    } else {
        let prev = active_total(ts, k - 1);
        if ts[k - 1].active {
            clamp(prev + clamp(ts[k - 1].finish - ts[k - 1].start))
        } else {
            prev
        }
    }
}

/// The closing note of a recipe schedule.
pub open spec fn cook_note(active: int, makespan: int) -> Seq<char> {
    "single cook: "@ + dur_s(active) + " active, "@ + dur_s(makespan) + " elapsed"@
}

/// What a recipe's schedule is, given its graph: ASAP times with `&by`
/// back-placement, the tasks ordered by start, the terminal's ASAP finish
/// as makespan, and the notes.
pub open spec fn plan_is(p: Plan, ns: Seq<Node>, terminal: int, title: Seq<char>) -> bool {
    let st = placed(ns);
    let ids = sort_by(task_ids(ns, ns.len() as int), st.0);
    &&& p.title@ == title
    &&& p.lanes@.len() == 1
    &&& p.lanes@[0].label@ == title
    &&& p.lanes@[0].tasks@.len() == ids.len()
    &&& forall|k: int| 0 <= k < ids.len() ==> task_is(#[trigger] p.lanes@[0].tasks@[k], ns, st.0, st.1, ids[k] as int)
    &&& p.makespan == asap_finish(ns, terminal)
    &&& crate::text::views(p.notes@) == st.2.push(cook_note(active_total(p.lanes@[0].tasks@, ids.len() as int), p.makespan as int))
}

/// Schedules a recipe graph. Times are nanoseconds from recipe start.
pub fn schedule_graph(g: &Graph, title: &String) -> (p: Plan)
    requires
        g.wf(),
        g.nodes@.len() > 0,
    ensures
        plan_is(p, g.nodes@, g.terminal as int, title@),
{
    let ghost ns = g.nodes@;
    let (mut start, mut finish) = asap(g);
    let makespan = finish[g.terminal];
    let mut notes: Vec<String> = Vec::new();
    assert(Seq::new(ns.len(), |i: int| start@[i] as int) =~= asap_times(ns).0);
    assert(Seq::new(ns.len(), |i: int| finish@[i] as int) =~= asap_times(ns).1);
    assert(crate::text::views(notes@) =~= Seq::<Seq<char>>::empty());
    back_place(g, &mut start, &mut finish, &mut notes);
    let ghost st = placed(ns);
    assert(Seq::new(start@.len(), |i: int| start@[i] as int) =~= st.0);
    assert(Seq::new(finish@.len(), |i: int| finish@[i] as int) =~= st.1);
    let tasks = build_tasks(g, &start, &finish);
    let mut active: i128 = 0;
    let mut k: usize = 0;
    while k < tasks.len()
        invariant
            k <= tasks@.len(),
            active == active_total(tasks@, k as int),
        decreases tasks@.len() - k,
    {
        if tasks[k].active {
            active = sat_add(active, sat_sub(tasks[k].finish, tasks[k].start));
        }
        k = k + 1;
    }
    let mut t = String::new();
    push_str(&mut t, "single cook: ");
    push_dur(&mut t, active);
    push_str(&mut t, " active, ");
    push_dur(&mut t, makespan);
    push_str(&mut t, " elapsed");
    let ghost tv = t@;
    assert(tv =~= cook_note(active as int, makespan as int));
    let ghost nb = notes@;
    notes.push(t);
    assert(crate::text::views(notes@) =~= crate::text::views(nb).push(tv));
    let mut lanes: Vec<Lane> = Vec::new();
    lanes.push(Lane { label: title.clone(), tasks });
    Plan { title: title.clone(), lanes, makespan, notes }
}

/// Schedules one recipe (which needs a binding to have a terminal).
pub fn schedule_recipe(r: &Recipe) -> (p: Plan)
    requires
        r.bindings@.len() > 0,
    ensures
        recipe_plan(p, *r),
{
    let g = crate::model::build(r);
    schedule_graph(&g, &r.name)
}

/// An equipment window: equipment name, start, finish, task name and
/// temperature value (`None` when no temperature is given).
pub type WindowView = (Seq<char>, int, int, Seq<char>, Option<int>);

pub open spec fn task_windows(t: Task) -> Seq<WindowView> {
    Seq::new(
        t.equipment@.len(),
        |e: int|
            (t.equipment@[e].0@, t.start as int, t.finish as int, t.name@, match t.equipment@[e].1 {
                Some(x) => Some(x.value.nanos as int),
                None => None,
            }),
    )
}

pub open spec fn tasks_windows(ts: Seq<Task>, k: int) -> Seq<WindowView>
    decreases k,
{
    if k <= 0 || k > ts.len() {
        Seq::empty()
    } else {
        tasks_windows(ts, k - 1) + task_windows(ts[k - 1])
    }
}

/// All equipment windows of the lanes, lane by lane, task by task.
pub open spec fn lanes_windows(ls: Seq<Lane>, k: int) -> Seq<WindowView>
    decreases k,
{
    if k <= 0 || k > ls.len() {
        Seq::empty()
    } else {
        lanes_windows(ls, k - 1) + tasks_windows(ls[k - 1].tasks@, ls[k - 1].tasks@.len() as int)
    }
}

/// A temperature value as whole degrees (truncated, held within `i64`).
pub open spec fn degrees_s(v: int) -> Seq<char> {
    crate::number::spec_int_str(clamp64(crate::basis::trunc_div(v, 1_000_000_000)))
}

/// Two windows share a unit: same equipment, same temperature, overlapping
/// in time.
pub open spec fn shares(a: WindowView, b: WindowView) -> bool {
    a.0 == b.0 && a.4 is Some && a.4 == b.4 && a.1 < b.2 && b.1 < a.2
}

pub open spec fn share_note(a: WindowView, b: WindowView) -> Seq<char> {
    "co-residency possible: '"@ + a.3 + "' and '"@ + b.3 + "' share !"@ + a.0 + " at "@ + degrees_s(
        a.4.unwrap(),
    ) + "° in an overlapping window"@
}

/// The notes for window `i` against windows `i+1..k`.
pub open spec fn notes_from(ws: Seq<WindowView>, i: int, k: int) -> Seq<Seq<char>>
    decreases k,
{
    if i < 0 || k <= i + 1 || k > ws.len() {
        Seq::empty()
    } else {
        notes_from(ws, i, k - 1) + if shares(ws[i], ws[k - 1]) {
            seq![share_note(ws[i], ws[k - 1])]
        } else {
            Seq::empty()
        }
    }
}

/// The notes for every pair among the first `k` windows' firsts.
pub open spec fn coresidency_notes(ws: Seq<WindowView>, k: int) -> Seq<Seq<char>>
    decreases k,
{
    if k <= 0 || k > ws.len() {
        Seq::empty()
    } else {
        coresidency_notes(ws, k - 1) + notes_from(ws, k - 1, ws.len() as int)
    }
}

struct Window {
    equip: String,
    start: i128,
    finish: i128,
    task: String,
    temp: Option<i128>,
}

spec fn window_view(w: Window) -> WindowView {
    (w.equip@, w.start as int, w.finish as int, w.task@, match w.temp {
        Some(x) => Some(x as int),
        None => None,
    })
}

spec fn windows_view(v: Seq<Window>) -> Seq<WindowView> {
    Seq::new(v.len(), |i: int| window_view(v[i]))
}

fn push_degrees(out: &mut String, v: i128)
    ensures
        final(out)@ == old(out)@ + degrees_s(v as int),
{
    let q: i128 = v / 1_000_000_000;
    assert(q == crate::basis::trunc_div(v as int, 1_000_000_000));
    let m: i128 = if q > 9_223_372_036_854_775_807 {
        9_223_372_036_854_775_807
    } else if q < -9_223_372_036_854_775_808 {
        -9_223_372_036_854_775_808
    } else {
        q
    };
    crate::number::push_int(out, m);
}

/// Cross-recipe equipment co-residency proposals: two tasks that use the
/// same equipment (by name) at the same temperature in overlapping windows.
pub fn detect_coresidency(lanes: &Vec<Lane>, notes: &mut Vec<String>)
    ensures
        crate::text::views(final(notes)@) == crate::text::views(old(notes)@) + coresidency_notes(
            lanes_windows(lanes@, lanes@.len() as int),
            lanes_windows(lanes@, lanes@.len() as int).len() as int,
        ),
{
    let mut ws: Vec<Window> = Vec::new();
    let mut l: usize = 0;
    while l < lanes.len()
        invariant
            l <= lanes@.len(),
            windows_view(ws@) == lanes_windows(lanes@, l as int),
        decreases lanes@.len() - l,
    {
        let tasks = &lanes[l].tasks;
        let ghost w0 = windows_view(ws@);
        let mut t: usize = 0;
        while t < tasks.len()
            invariant
                t <= tasks@.len(),
                windows_view(ws@) == w0 + tasks_windows(tasks@, t as int),
            decreases tasks@.len() - t,
        {
            let task = &tasks[t];
            let ghost w1 = windows_view(ws@);
            let mut e: usize = 0;
            while e < task.equipment.len()
                invariant
                    e <= task.equipment@.len(),
                    windows_view(ws@) == w1 + task_windows(*task).take(e as int),
                decreases task.equipment@.len() - e,
            {
                let temp = match task.equipment[e].1 {
                    Some(x) => Some(x.value.nanos),
                    None => None,
                };
                let ghost before = ws@;
                let w = Window {
                    equip: task.equipment[e].0.clone(),
                    start: task.start,
                    finish: task.finish,
                    task: task.name.clone(),
                    temp,
                };
                let ghost wv = window_view(w);
                ws.push(w);
                assert(windows_view(ws@) =~= windows_view(before).push(wv));
                assert(task_windows(*task).take(e + 1) =~= task_windows(*task).take(e as int).push(wv));
                e = e + 1;
            }
            assert(task_windows(*task).take(task.equipment@.len() as int) =~= task_windows(*task));
            t = t + 1;
        }
        l = l + 1;
    }
    let ghost wv = windows_view(ws@);
    assert(wv == lanes_windows(lanes@, lanes@.len() as int));
    let ghost n0 = crate::text::views(notes@);
    let n = ws.len();
    let mut i: usize = 0;
    while i < n
        invariant
            n == ws@.len(),
            wv == windows_view(ws@),
            i <= n,
            crate::text::views(notes@) == n0 + coresidency_notes(wv, i as int),
        decreases n - i,
    {
        let ghost n1 = crate::text::views(notes@);
        let mut j: usize = i + 1;
        assert(notes_from(wv, i as int, j as int) =~= Seq::<Seq<char>>::empty());
        while j < n
            invariant
                n == ws@.len(),
                wv == windows_view(ws@),
                i < n,
                i + 1 <= j <= n,
                crate::text::views(notes@) == n1 + notes_from(wv, i as int, j as int),
            decreases n - j,
        {
            let a = &ws[i];
            let b = &ws[j];
            assert(wv[i as int] == window_view(*a));
            assert(wv[j as int] == window_view(*b));
            let same_temp = match (a.temp, b.temp) {
                (Some(x), Some(y)) => x == y,
                _ => false,
            };
            let ghost before = crate::text::views(notes@);
            if a.equip == b.equip && same_temp && a.start < b.finish && b.start < a.finish {
                let mut t = String::new();
                push_str(&mut t, "co-residency possible: '");
                t.append(a.task.as_str());
                push_str(&mut t, "' and '");
                t.append(b.task.as_str());
                push_str(&mut t, "' share !");
                t.append(a.equip.as_str());
                push_str(&mut t, " at ");
                match a.temp {
                    Some(x) => push_degrees(&mut t, x),
                    None => {},
                }
                push_str(&mut t, "° in an overlapping window");
                let ghost tv = t@;
                assert(tv =~= share_note(wv[i as int], wv[j as int]));
                notes.push(t);
                assert(crate::text::views(notes@) =~= before.push(tv));
            }
            assert(crate::text::views(notes@) =~= n1 + notes_from(wv, i as int, j + 1));
            j = j + 1;
        }
        assert(crate::text::views(notes@) =~= n0 + coresidency_notes(wv, i + 1));
        i = i + 1;
    }
}

/// Task `t2` is task `t` moved earlier by `off`.
pub open spec fn shifted(t2: Task, t: Task, off: int) -> bool {
    &&& t2.name@ == t.name@
    &&& t2.verb@ == t.verb@
    &&& t2.start == clamp(t.start - off)
    &&& t2.finish == clamp(t.finish - off)
    &&& t2.active == t.active
    &&& pair_views(t2.equipment@) == pair_views(t.equipment@)
    &&& t2.note == t.note
}

/// All tasks of the first `k` lanes, in order.
pub open spec fn flat_tasks(ls: Seq<Lane>, k: int) -> Seq<Task>
    decreases k,
{
    if k <= 0 || k > ls.len() {
        Seq::empty()
    } else {
        flat_tasks(ls, k - 1) + ls[k - 1].tasks@
    }
}

/// The latest finish of the first `k` tasks (from `i128::MIN`).
pub open spec fn max_finish(ts: Seq<Task>, k: int) -> int
    decreases k,
{
    if k <= 0 || k > ts.len() {
        i128::MIN as int
    } else {
        let m = max_finish(ts, k - 1);
        if ts[k - 1].finish > m {
            ts[k - 1].finish as int
        } else {
            m
        }
    }
}

/// The earliest start of the first `k` tasks (from `i128::MAX`).
pub open spec fn min_start(ts: Seq<Task>, k: int) -> int
    decreases k,
{
    if k <= 0 || k > ts.len() {
        i128::MAX as int
    } else {
        let m = min_start(ts, k - 1);
        if (ts[k - 1].start as int) < m {
            ts[k - 1].start as int
        } else {
            m
        }
    }
}

pub open spec fn all_tasks(ls: Seq<Lane>) -> Seq<Task> {
    flat_tasks(ls, ls.len() as int)
}

/// What a menu schedule is, given each entry's alias and recipe plan: one
/// lane per entry with its tasks moved so that the recipe's terminal lands
/// at T=0 (serve time), co-residency notes, and a serve note.
pub open spec fn menu_plan_is(p: Plan, title: Seq<char>, plans: Seq<(String, Plan)>) -> bool {
    &&& p.title@ == title
    &&& p.lanes@.len() == plans.len()
    &&& forall|i: int|
        #![trigger p.lanes@[i]]
        0 <= i < plans.len() ==> {
            let (alias, q) = plans[i];
            let src = all_tasks(q.lanes@);
            &&& p.lanes@[i].label@ == alias@ + " ("@ + q.title@ + seq![')']
            &&& p.lanes@[i].tasks@.len() == src.len()
            &&& forall|k: int| 0 <= k < src.len() ==> shifted(#[trigger] p.lanes@[i].tasks@[k], src[k], q.makespan as int)
        }
    &&& p.makespan == max_finish(all_tasks(p.lanes@), all_tasks(p.lanes@).len() as int)
    &&& crate::text::views(p.notes@) == coresidency_notes(
        lanes_windows(p.lanes@, p.lanes@.len() as int),
        lanes_windows(p.lanes@, p.lanes@.len() as int).len() as int,
    ).push("serve at T=0; earliest start at "@ + min_s(min_start(all_tasks(p.lanes@), all_tasks(p.lanes@).len() as int)))
}

fn shift_task(t: &Task, off: i128) -> (r: Task)
    ensures
        shifted(r, *t, off as int),
{
    let mut equipment: Vec<(String, Option<Temp>)> = Vec::new();
    let mut i: usize = 0;
    while i < t.equipment.len()
        invariant
            i <= t.equipment@.len(),
            pair_views(equipment@) == pair_views(t.equipment@.take(i as int)),
        decreases t.equipment@.len() - i,
    {
        let ghost before = equipment@;
        let nm = t.equipment[i].0.clone();
        let ghost nv = nm@;
        equipment.push((nm, t.equipment[i].1));
        assert(pair_views(equipment@) =~= pair_views(before).push((nv, t.equipment@[i as int].1)));
        assert(t.equipment@.take(i + 1) =~= t.equipment@.take(i as int).push(t.equipment@[i as int]));
        assert(pair_views(equipment@) =~= pair_views(t.equipment@.take(i + 1)));
        i = i + 1;
    }
    assert(t.equipment@.take(t.equipment@.len() as int) =~= t.equipment@);
    let note = match &t.note {
        Some(x) => Some(x.clone()),
        None => None,
    };
    Task {
        name: t.name.clone(),
        verb: t.verb.clone(),
        start: sat_sub(t.start, off),
        finish: sat_sub(t.finish, off),
        active: t.active,
        equipment,
        note,
    }
}

/// Aligns recipe plans on a common serve time (each terminal at T=0,
/// earlier work negative) and notes cross-recipe equipment co-residency.
pub fn combine_plans(title: &String, plans: &Vec<(String, Plan)>) -> (p: Plan)
    ensures
        menu_plan_is(p, title@, plans@),
{
    let mut lanes: Vec<Lane> = Vec::new();
    let mut i: usize = 0;
    while i < plans.len()
        invariant
            i <= plans@.len(),
            lanes@.len() == i,
            forall|q: int|
                #![trigger lanes@[q]]
                0 <= q < i ==> {
                    let (alias, pl) = plans@[q];
                    let src = all_tasks(pl.lanes@);
                    &&& lanes@[q].label@ == alias@ + " ("@ + pl.title@ + seq![')']
                    &&& lanes@[q].tasks@.len() == src.len()
                    &&& forall|k: int| 0 <= k < src.len() ==> shifted(#[trigger] lanes@[q].tasks@[k], src[k], pl.makespan as int)
                },
        decreases plans@.len() - i,
    {
        let alias = &plans[i].0;
        let plan = &plans[i].1;
        let mut tasks: Vec<Task> = Vec::new();
        let mut l: usize = 0;
        while l < plan.lanes.len()
            invariant
                l <= plan.lanes@.len(),
                tasks@.len() == flat_tasks(plan.lanes@, l as int).len(),
                forall|k: int|
                    0 <= k < tasks@.len() ==> shifted(#[trigger] tasks@[k], flat_tasks(plan.lanes@, l as int)[k], plan.makespan as int),
            decreases plan.lanes@.len() - l,
        {
            let lane_tasks = &plan.lanes[l].tasks;
            let ghost f0 = flat_tasks(plan.lanes@, l as int);
            let ghost t0 = tasks@;
            let mut k: usize = 0;
            while k < lane_tasks.len()
                invariant
                    k <= lane_tasks@.len(),
                    tasks@.len() == f0.len() + k,
                    forall|q: int| 0 <= q < f0.len() ==> #[trigger] tasks@[q] == t0[q],
                    forall|q: int| 0 <= q < t0.len() ==> shifted(#[trigger] t0[q], f0[q], plan.makespan as int),
                    t0.len() == f0.len(),
                    forall|q: int|
                        0 <= q < k ==> shifted(#[trigger] tasks@[f0.len() + q], lane_tasks@[q], plan.makespan as int),
                decreases lane_tasks@.len() - k,
            {
                let t = shift_task(&lane_tasks[k], plan.makespan);
                tasks.push(t);
                k = k + 1;
            }
            proof {
                let f1 = flat_tasks(plan.lanes@, l + 1);
                assert(f1 == f0 + lane_tasks@);
                assert forall|q: int| 0 <= q < tasks@.len() implies shifted(#[trigger] tasks@[q], f1[q], plan.makespan as int) by {
                    if q < f0.len() {
                        assert(tasks@[q] == t0[q]);
                        assert(f1[q] == f0[q]);
                    } else {
                        assert(f1[q] == lane_tasks@[q - f0.len()]);
                        assert(shifted(tasks@[f0.len() + (q - f0.len())], lane_tasks@[q - f0.len()], plan.makespan as int));
                    }
                }
            }
            l = l + 1;
        }
        let mut label = alias.clone();
        push_str(&mut label, " (");
        label.append(plan.title.as_str());
        push_char(&mut label, ')');
        let ghost lv = label@;
        assert(lv =~= alias@ + " ("@ + plan.title@ + seq![')']);
        let ghost before = lanes@;
        lanes.push(Lane { label, tasks });
        assert forall|q: int| #![trigger lanes@[q]] 0 <= q < i + 1 implies {
            let (alias, pl) = plans@[q];
            let src = all_tasks(pl.lanes@);
            &&& lanes@[q].label@ == alias@ + " ("@ + pl.title@ + seq![')']
            &&& lanes@[q].tasks@.len() == src.len()
            &&& forall|k: int| 0 <= k < src.len() ==> shifted(#[trigger] lanes@[q].tasks@[k], src[k], pl.makespan as int)
        } by {
            if q < i {
                assert(lanes@[q] == before[q]);
            }
        }
        i = i + 1;
    }
    let mut notes: Vec<String> = Vec::new();
    assert(crate::text::views(notes@) =~= Seq::<Seq<char>>::empty());
    detect_coresidency(&lanes, &mut notes);
    // latest finish and earliest start over every task
    let ghost all = all_tasks(lanes@);
    let mut makespan: i128 = i128::MIN;
    let mut earliest: i128 = i128::MAX;
    let mut l: usize = 0;
    while l < lanes.len()
        invariant
            l <= lanes@.len(),
            all == all_tasks(lanes@),
            makespan == max_finish(flat_tasks(lanes@, l as int), flat_tasks(lanes@, l as int).len() as int),
            earliest == min_start(flat_tasks(lanes@, l as int), flat_tasks(lanes@, l as int).len() as int),
        decreases lanes@.len() - l,
    {
        let ts = &lanes[l].tasks;
        let ghost f0 = flat_tasks(lanes@, l as int);
        let mut k: usize = 0;
        while k < ts.len()
            invariant
                k <= ts@.len(),
                makespan == max_finish(f0 + ts@.take(k as int), f0.len() + k),
                earliest == min_start(f0 + ts@.take(k as int), f0.len() + k),
            decreases ts@.len() - k,
        {
            proof {
                lemma_fold_prefix(f0 + ts@.take(k as int), f0 + ts@.take(k + 1), f0.len() + k);
                assert((f0 + ts@.take(k + 1))[f0.len() + k] == ts@[k as int]);
            }
            if ts[k].finish > makespan {
                makespan = ts[k].finish;
            }
            if ts[k].start < earliest {
                earliest = ts[k].start;
            }
            k = k + 1;
        }
        proof {
            assert(ts@.take(ts@.len() as int) =~= ts@);
            assert(flat_tasks(lanes@, l + 1) == f0 + ts@);
        }
        l = l + 1;
    }
    let mut t = String::new();
    push_str(&mut t, "serve at T=0; earliest start at ");
    push_min(&mut t, earliest);
    let ghost tv = t@;
    let ghost nb = notes@;
    notes.push(t);
    assert(crate::text::views(notes@) =~= crate::text::views(nb).push(tv));
    Plan { title: title.clone(), lanes, makespan, notes }
}

/// The folds over the first `k` tasks agree on two sequences that agree
/// there.
proof fn lemma_fold_prefix(a: Seq<Task>, b: Seq<Task>, k: int)
    requires
        0 <= k <= a.len(),
        k <= b.len(),
        forall|i: int| 0 <= i < k ==> a[i] == b[i],
    ensures
        max_finish(a, k) == max_finish(b, k),
        min_start(a, k) == min_start(b, k),
    decreases k,
{
    if k > 0 {
        lemma_fold_prefix(a, b, k - 1);
    }
}

/// The recipe a menu entry names: `name` or `a/b` for a sub-recipe path.
pub open spec fn entry_recipe(e: MenuEntry) -> Seq<char> {
    match e.recipe {
        MenuTarget::Name(n) => n@,
        MenuTarget::SubRef(s) => crate::text::join(crate::text::views(s.path@), "/"@),
    }
}

/// The recipe a menu entry names (its file is this name plus `.swede`).
pub fn menu_recipe_name(e: &MenuEntry) -> (r: String)
    ensures
        r@ == entry_recipe(*e),
{
    match &e.recipe {
        MenuTarget::Name(n) => n.clone(),
        MenuTarget::SubRef(s) => crate::text::join_strings(&s.path, "/"),
    }
}

/// Why a menu could not be scheduled.
#[derive(Debug)]
pub enum MenuError {
    /// The recipe `name` of entry `entry` could not be read.
    Unreadable { entry: usize, name: String },
    /// An entry's file holds no recipe.
    NotRecipe { name: String },
    /// An entry's recipe has no binding to schedule.
    NoSteps { name: String },
}

impl MenuError {
    pub open spec fn spec_message(self) -> Seq<char> {
        match self {
            MenuError::Unreadable { name, .. } => "cannot load recipe '"@ + name@ + "'"@,
            MenuError::NotRecipe { name } => "'"@ + name@ + "' is not a recipe"@,
            MenuError::NoSteps { name } => "'"@ + name@ + "' has no steps to schedule"@,
        }
    }

    /// The error as text (a load failure's details come from the reader).
    pub fn message(&self) -> (r: String)
        ensures
            r@ == self.spec_message(),
    {
        let mut t = String::new();
        match self {
            MenuError::Unreadable { name, .. } => {
                push_str(&mut t, "cannot load recipe '");
                t.append(name.as_str());
                push_str(&mut t, "'");
            },
            MenuError::NotRecipe { name } => {
                push_str(&mut t, "'");
                t.append(name.as_str());
                push_str(&mut t, "' is not a recipe");
            },
            MenuError::NoSteps { name } => {
                push_str(&mut t, "'");
                t.append(name.as_str());
                push_str(&mut t, "' has no steps to schedule");
            },
        }
        t
    }
}

/// `p` schedules the recipe `r`: it is the plan of `r`'s graph.
pub open spec fn recipe_plan(p: Plan, r: Recipe) -> bool {
    exists|g: Graph|
        #![trigger g.wf()]
        g.wf() && g.nodes@.len() > 0 && crate::model::nodes_view(g.nodes@) == crate::model::spec_build(r).0
            && g.terminal == crate::model::spec_build(r).1 && plan_is(p, g.nodes@, g.terminal as int, r.name@)
}

/// Some parse of a menu entry's source that the parser's contract admits
/// (`lowered_wf`) is a recipe with steps.
#[verifier::opaque]
pub open spec fn source_ok(src: Seq<char>) -> bool {
    exists|l: Lowered|
        #![trigger lowered_wf(l, src)]
        lowered_wf(l, src) && (l.file matches Some(File::Recipe(r)) && r.bindings@.len() > 0)
}

/// `p` is the plan of the recipe of some parse of `src` that the parser's
/// contract admits.
#[verifier::opaque]
pub open spec fn source_plan(p: Plan, src: Seq<char>) -> bool {
    exists|l: Lowered|
        #![trigger lowered_wf(l, src)]
        lowered_wf(l, src) && (l.file matches Some(File::Recipe(r)) && r.bindings@.len() > 0 && recipe_plan(p, r))
}

/// Some parse of `src` that the parser's contract admits is not a recipe.
#[verifier::opaque]
pub open spec fn source_not_recipe(src: Seq<char>) -> bool {
    exists|l: Lowered| #![trigger lowered_wf(l, src)] lowered_wf(l, src) && !(l.file matches Some(File::Recipe(_)))
}

/// Some parse of `src` that the parser's contract admits is a recipe
/// without steps.
#[verifier::opaque]
pub open spec fn source_no_steps(src: Seq<char>) -> bool {
    exists|l: Lowered|
        #![trigger lowered_wf(l, src)]
        lowered_wf(l, src) && (l.file matches Some(File::Recipe(r)) && r.bindings@.len() == 0)
}

/// The readings of a source exclude each other: a text that has an admitted
/// parse as a recipe with steps has none as a recipe without steps, and none
/// that is not a recipe.
pub proof fn law_source_readings_exclusive(src: Seq<char>)
    ensures
        source_ok(src) ==> !source_no_steps(src) && !source_not_recipe(src),
        source_no_steps(src) ==> !source_not_recipe(src),
{
    reveal(source_ok);
    reveal(source_no_steps);
    reveal(source_not_recipe);
    if source_ok(src) || source_no_steps(src) {
        let l1 = if source_ok(src) {
            choose|l: Lowered| lowered_wf(l, src) && (l.file matches Some(File::Recipe(r)) && r.bindings@.len() > 0)
        } else {
            choose|l: Lowered| lowered_wf(l, src) && (l.file matches Some(File::Recipe(r)) && r.bindings@.len() == 0)
        };
        assert forall|l2: Lowered| lowered_wf(l2, src) implies (l2.file matches Some(File::Recipe(r2))
            && r2.bindings@.len() == l1.file->Some_0->Recipe_0.bindings@.len()) by {
            if src.len() < usize::MAX {
                crate::parse::law_parse_is_determined(l1, l2, src);
                let r1 = l1.file->Some_0->Recipe_0;
                let r2 = l2.file->Some_0->Recipe_0;
                assert(crate::parse::binding_spans(r1.bindings@).len() == r1.bindings@.len());
                assert(crate::parse::binding_spans(r2.bindings@).len() == r2.bindings@.len());
            }
        }
    }
}

/// The entries before `i` were read, and each has an admitted parse that is
/// a recipe with steps.
pub open spec fn sources_ok_before(sources: Seq<Option<String>>, i: int) -> bool {
    forall|j: int| 0 <= j < i ==> ((#[trigger] sources[j]) matches Some(x) && source_ok(x@))
}

/// `p` combines the plans of the recipes the entries' sources parse as,
/// under the entries' aliases.
pub open spec fn menu_from(p: Plan, m: Menu, plans: Seq<(String, Plan)>, sources: Seq<Option<String>>) -> bool {
    &&& plans.len() == m.entries@.len()
    &&& menu_plan_is(p, m.name@, plans)
    &&& forall|i: int|
        0 <= i < plans.len() ==> (#[trigger] plans[i]).0@ == m.entries@[i].alias@ && (sources[i] matches Some(x)
            && source_plan(plans[i].1, x@))
}

/// Plans one menu entry from its recipe's source.
#[verifier::rlimit(30)]
fn plan_entry(entry: &MenuEntry, src: &String) -> (r: Result<Plan, MenuError>)
    ensures
        match r {
            Ok(p) => source_ok(src@) && source_plan(p, src@),
            Err(MenuError::NotRecipe { name }) => name@ == entry_recipe(*entry) && source_not_recipe(src@),
            Err(MenuError::NoSteps { name }) => name@ == entry_recipe(*entry) && source_no_steps(src@),
            Err(MenuError::Unreadable { .. }) => false,
        },
{
    let lowered = crate::parse::parse(src.as_str());
    proof {
        reveal(source_ok);
        reveal(source_plan);
        reveal(source_not_recipe);
        reveal(source_no_steps);
    }
    match &lowered.file {
        Some(File::Recipe(r)) => {
            if r.bindings.len() == 0 {
                let name = menu_recipe_name(entry);
                assert(source_no_steps(src@));
                return Err(MenuError::NoSteps { name });
            }
            let plan = schedule_recipe(r);
            assert(source_ok(src@));
            assert(source_plan(plan, src@));
            Ok(plan)
        },
        _ => {
            let name = menu_recipe_name(entry);
            assert(source_not_recipe(src@));
            Err(MenuError::NotRecipe { name })
        },
    }
}

/// Schedules a menu from the sources of its entries' recipes (`None` where
/// a file could not be read), in entry order: the first entry that cannot
/// be read, is not a recipe, or has no steps gives the error.
#[verifier::rlimit(30)]
pub fn schedule_menu(m: &Menu, sources: &Vec<Option<String>>) -> (r: Result<Plan, MenuError>)
    requires
        sources@.len() == m.entries@.len(),
    ensures
        match r {
            Ok(p) => sources_ok_before(sources@, sources@.len() as int) && exists|plans: Seq<(String, Plan)>|
                #[trigger] menu_from(p, *m, plans, sources@),
            Err(MenuError::Unreadable { entry, name }) => entry < sources@.len() && sources@[entry as int] is None
                && name@ == entry_recipe(m.entries@[entry as int]) && sources_ok_before(sources@, entry as int),
            Err(MenuError::NotRecipe { name }) => exists|i: int|
                0 <= i < sources@.len() && #[trigger] entry_recipe(m.entries@[i]) == name@ && (sources@[i] matches Some(
                    x,
                ) && source_not_recipe(x@)) && sources_ok_before(sources@, i),
            Err(MenuError::NoSteps { name }) => exists|i: int|
                0 <= i < sources@.len() && #[trigger] entry_recipe(m.entries@[i]) == name@ && (sources@[i] matches Some(
                    x,
                ) && source_no_steps(x@)) && sources_ok_before(sources@, i),
        },
{
    let mut plans: Vec<(String, Plan)> = Vec::new();
    let mut i: usize = 0;
    while i < m.entries.len()
        invariant
            sources@.len() == m.entries@.len(),
            i <= m.entries@.len(),
            plans@.len() == i,
            sources_ok_before(sources@, i as int),
            forall|j: int|
                0 <= j < i ==> (#[trigger] plans@[j]).0@ == m.entries@[j].alias@ && (sources@[j] matches Some(x)
                    && source_plan(plans@[j].1, x@)),
        decreases m.entries@.len() - i,
    {
        let entry = &m.entries[i];
        let src = match &sources[i] {
            Some(s) => s,
            None => {
                let name = menu_recipe_name(entry);
                return Err(MenuError::Unreadable { entry: i, name });
            },
        };
        let plan = match plan_entry(entry, src) {
            Ok(p) => p,
            Err(e) => {
                return Err(e);
            },
        };
        let ghost before = plans@;
        plans.push((entry.alias.clone(), plan));
        assert forall|j: int| 0 <= j <= i implies (#[trigger] plans@[j]).0@ == m.entries@[j].alias@ && (sources@[j] matches Some(x)
            && source_plan(plans@[j].1, x@)) by {
            if j < i {
                assert(plans@[j] == before[j]);
            }
        }
        i = i + 1;
    }
    let p = combine_plans(&m.name, &plans);
    assert(menu_from(p, *m, plans@, sources@));
    let r: Result<Plan, MenuError> = Ok(p);
    assert(r matches Ok(q) && menu_from(q, *m, plans@, sources@));
    r
}

/// The bar column of time `x` on a 48-wide scale over `[min, min+span]`:
/// `round(48 * (x - min) / span)`, 0 before `min`, held within `usize`.
pub open spec fn bar_pos(x: int, min: int, span: int) -> int {
    if x < min {
        0
    } else {
        let v = (96 * (x - min) + span) / (2 * span);
        if v > usize::MAX {
            usize::MAX as int
        } else {
            v
        }
    }
}

proof fn lemma_pos_split(d: int, span: int, q: int, r: int, q2: int, a: int)
    requires
        span > 0,
        d == q * span + r,
        0 <= r < span,
        48 * r == q2 * span + a,
        0 <= a < span,
        q >= 0,
        q2 >= 0,
    ensures
        (96 * d + span) / (2 * span) == 48 * q + q2 + if 2 * a >= span {
            1int
        } else {
            0int
        },
{
    let b: int = if 2 * a >= span {
        1
    } else {
        0
    };
    assert(96 * d + span == (2 * span) * (48 * q + q2) + (2 * a + span)) by (nonlinear_arith)
        requires
            d == q * span + r,
            48 * r == q2 * span + a,
    ;
    assert(0 <= (2 * a + span) - b * (2 * span) < 2 * span);
    assert(96 * d + span == (2 * span) * (48 * q + q2 + b) + ((2 * a + span) - b * (2 * span))) by (nonlinear_arith)
        requires
            96 * d + span == (2 * span) * (48 * q + q2) + (2 * a + span),
    ;
    vstd::arithmetic::div_mod::lemma_fundamental_div_mod_converse(
        96 * d + span,
        2 * span,
        48 * q + q2 + b,
        (2 * a + span) - b * (2 * span),
    );
}

/// `round(48 * d / span)` for `d >= 0`, held within `usize`.
fn scaled_pos(d: u128, span: u128) -> (r: usize)
    requires
        span > 0,
    ensures
        r == (if (96 * d + span) / (2 * span) > usize::MAX {
            usize::MAX as int
        } else {
            (96 * d + span) / (2 * span)
        }),
{
    let q = d / span;
    let r = d % span;
    let mut q2: u128 = 0;
    let mut a: u128 = 0;
    let mut i: u128 = 0;
    while i < 48
        invariant
            span > 0,
            r < span,
            i <= 48,
            i * r == q2 * span + a,
            a < span,
            q2 <= i,
        decreases 48 - i,
    {
        let ghost q0 = q2;
        assert((i + 1) * r == i * r + r) by (nonlinear_arith);
        assert((q0 + 1) * span == q0 * span + span) by (nonlinear_arith);
        if a >= span - r {
            a = a - (span - r);
            q2 = q2 + 1;
        } else {
            a = a + r;
        }
        i = i + 1;
    }
    proof {
        vstd::arithmetic::div_mod::lemma_fundamental_div_mod(d as int, span as int);
        assert(d == q * span + r) by (nonlinear_arith)
            requires
                d == span * (d / span) + d % span,
                q == d / span,
                r == d % span,
        ;
        assert(48 * r == q2 * span + a);
        lemma_pos_split(d as int, span as int, q as int, r as int, q2 as int, a as int);
    }
    let bump: u128 = if a >= span - a {
        1
    } else {
        0
    };
    if q >= 0x1000_0000_0000_0000 {
        proof {
            assert(48 * (q as int) >= 0x1_0000_0000_0000_0000);
            assert(usize::MAX <= 0xffff_ffff_ffff_ffff);
        }
        return usize::MAX;
    }
    let v: u128 = 48 * q + q2 + bump;
    if v > (usize::MAX as u128) {
        usize::MAX
    } else {
        v as usize
    }
}

fn bar_position(x: i128, min: i128, span: i128) -> (r: usize)
    requires
        span > 0,
    ensures
        r == bar_pos(x as int, min as int, span as int),
{
    if x < min {
        return 0;
    }
    let d: u128 = if min >= 0 {
        (x - min) as u128
    } else if x >= 0 {
        (x as u128) + (((-(min + 1)) as u128) + 1)
    } else {
        (x - min) as u128
    };
    assert(d == x - min);
    scaled_pos(d, span as u128)
}

/// `s` right-aligned in `w` characters.
pub open spec fn pad_left(s: Seq<char>, w: int) -> Seq<char> {
    if s.len() >= w {
        s
    } else {
        Seq::new((w - s.len()) as nat, |i: int| ' ') + s
    }
}

fn push_padded(out: &mut String, s: &String, w: usize, right: bool)
    ensures
        final(out)@ == old(out)@ + if right {
            pad_left(s@, w as int)
        } else {
            crate::grid::pad_s(s@, w as int)
        },
{
    let ghost o0 = out@;
    let n = crate::text::chars_of(s.as_str()).len();
    if n >= w {
        out.append(s.as_str());
    } else if right {
        let mut i: usize = 0;
        while i < w - n
            invariant
                n < w,
                i <= w - n,
                out@ == o0 + Seq::new(i as nat, |k: int| ' '),
            decreases w - n - i,
        {
            push_char(out, ' ');
            assert(out@ =~= o0 + Seq::new((i + 1) as nat, |k: int| ' '));
            i = i + 1;
        }
        out.append(s.as_str());
    } else {
        out.append(s.as_str());
        let ghost o1 = out@;
        let mut i: usize = 0;
        while i < w - n
            invariant
                n < w,
                i <= w - n,
                out@ == o1 + Seq::new(i as nat, |k: int| ' '),
            decreases w - n - i,
        {
            push_char(out, ' ');
            assert(out@ =~= o1 + Seq::new((i + 1) as nat, |k: int| ' '));
            i = i + 1;
        }
    }
    assert(out@ =~= o0 + if right {
        pad_left(s@, w as int)
    } else {
        crate::grid::pad_s(s@, w as int)
    });
}

/// The bar of a task: spaces up to its start column, then one block per
/// column up to its finish column (at least one).
pub open spec fn bar_s(s0: int, s1: int, active: bool) -> Seq<char> {
    Seq::new(s0 as nat, |i: int| ' ') + Seq::new(
        (if s1 - s0 > 1 {
            s1 - s0
        } else {
            1
        }) as nat,
        |i: int|
            if active {
                '█'
            } else {
                '░'
            },
    )
}

/// The finish column: at least one past the start column.
pub open spec fn end_pos(t: Task, min: int, span: int) -> int {
    let s0 = bar_pos(t.start as int, min, span);
    let f = bar_pos(t.finish as int, min, span);
    if f > s0 + 1 {
        f
    } else if s0 + 1 > usize::MAX {
        usize::MAX as int
    } else {
        s0 + 1
    }
}

/// One timeline line.
pub open spec fn task_line(t: Task, min: int, span: int) -> Seq<char> {
    let s0 = bar_pos(t.start as int, min, span);
    let s1 = end_pos(t, min, span);
    "  "@ + pad_left(min_s(t.start as int), 7) + seq![' '] + crate::grid::pad_s(bar_s(s0, s1, t.active), 50)
        + seq![' '] + crate::grid::pad_s(t.name@, 12) + seq![' '] + (if t.active {
        "@active"@
    } else {
        "~passive"@
    }) + (if t.equipment@.len() == 0 {
        Seq::empty()
    } else {
        "  !"@ + crate::text::join(Seq::new(t.equipment@.len(), |i: int| t.equipment@[i].0@), seq![','])
    }) + seq!['\n']
}

pub open spec fn lane_lines(ts: Seq<Task>, min: int, span: int, k: int) -> Seq<char>
    decreases k,
{
    if k <= 0 || k > ts.len() {
        Seq::empty()
    } else {
        lane_lines(ts, min, span, k - 1) + task_line(ts[k - 1], min, span)
    }
}

/// The lanes of a timeline; each is headed by its label when there are
/// several.
pub open spec fn timeline_lanes(ls: Seq<Lane>, min: int, span: int, k: int) -> Seq<char>
    decreases k,
{
    if k <= 0 || k > ls.len() {
        Seq::empty()
    } else {
        timeline_lanes(ls, min, span, k - 1) + (if ls.len() > 1 {
            seq!['['] + ls[k - 1].label@ + "]\n"@
        } else {
            Seq::empty()
        }) + lane_lines(ls[k - 1].tasks@, min, span, ls[k - 1].tasks@.len() as int)
    }
}

pub open spec fn note_lines(ns: Seq<Seq<char>>, k: int) -> Seq<char>
    decreases k,
{
    if k <= 0 || k > ns.len() {
        Seq::empty()
    } else {
        note_lines(ns, k - 1) + "  · "@ + ns[k - 1] + seq!['\n']
    }
}

/// The time span the bars are scaled to: from the earliest start to the
/// latest finish, at least one second.
pub open spec fn timeline_span(ts: Seq<Task>) -> int {
    let d = clamp(max_finish(ts, ts.len() as int) - min_start(ts, ts.len() as int));
    if d > 1_000_000_000 {
        d
    } else {
        1_000_000_000
    }
}

/// A plan as a text timeline.
pub open spec fn timeline_s(p: Plan) -> Seq<char> {
    let all = all_tasks(p.lanes@);
    "Timeline: "@ + p.title@ + seq!['\n'] + note_lines(crate::text::views(p.notes@), p.notes@.len() as int) + seq!['\n']
        + timeline_lanes(p.lanes@, min_start(all, all.len() as int), timeline_span(all), p.lanes@.len() as int)
}

fn bar_text(s0: usize, s1: usize, active: bool) -> (bar: String)
    ensures
        bar@ == bar_s(s0 as int, s1 as int, active),
{
    let mut bar = String::new();
    let mut i: usize = 0;
    while i < s0
        invariant
            i <= s0,
            bar@ == Seq::new(i as nat, |k: int| ' '),
        decreases s0 - i,
    {
        push_char(&mut bar, ' ');
        assert(bar@ =~= Seq::new((i + 1) as nat, |k: int| ' '));
        i = i + 1;
    }
    let ch = if active {
        '█'
    } else {
        '░'
    };
    let len: usize = if s1 > s0 && s1 - s0 > 1 {
        s1 - s0
    } else {
        1
    };
    let ghost b0 = bar@;
    let mut i: usize = 0;
    while i < len
        invariant
            i <= len,
            bar@ == b0 + Seq::new(i as nat, |k: int| ch),
        decreases len - i,
    {
        push_char(&mut bar, ch);
        assert(bar@ =~= b0 + Seq::new((i + 1) as nat, |k: int| ch));
        i = i + 1;
    }
    assert(bar@ =~= bar_s(s0 as int, s1 as int, active));
    bar
}

/// The equipment names of a task, separated by commas.
fn equip_names(t: &Task) -> (r: String)
    ensures
        r@ == crate::text::join(Seq::new(t.equipment@.len(), |i: int| t.equipment@[i].0@), seq![',']),
{
    let mut line = String::new();
    let ghost parts = Seq::new(t.equipment@.len(), |i: int| t.equipment@[i].0@);
    let mut i: usize = 0;
    while i < t.equipment.len()
        invariant
            i <= t.equipment@.len(),
            parts == Seq::new(t.equipment@.len(), |i: int| t.equipment@[i].0@),
            line@ == crate::text::join(parts.take(i as int), seq![',']),
        decreases t.equipment@.len() - i,
    {
        assert(parts.take(i + 1).drop_last() =~= parts.take(i as int));
        if i > 0 {
            push_char(&mut line, ',');
        }
        line.append(t.equipment[i].0.as_str());
        proof {
            if i == 0 {
                assert(crate::text::join(parts.take(0), seq![',']) =~= Seq::<char>::empty());
            }
        }
        assert(line@ =~= crate::text::join(parts.take(i + 1), seq![',']));
        i = i + 1;
    }
    assert(parts.take(t.equipment@.len() as int) =~= parts);
    line
}

#[verifier::rlimit(30)]
fn push_task_line(out: &mut String, t: &Task, min: i128, span: i128)
    requires
        span > 0,
    ensures
        final(out)@ == old(out)@ + task_line(*t, min as int, span as int),
{
    let s0 = bar_position(t.start, min, span);
    let f = bar_position(t.finish, min, span);
    let s1 = if f > s0 && f - s0 > 1 {
        f
    } else if s0 == usize::MAX {
        usize::MAX
    } else {
        s0 + 1
    };
    assert(s1 == end_pos(*t, min as int, span as int));
    let bar = bar_text(s0, s1, t.active);
    let mut when = String::new();
    push_min(&mut when, t.start);
    let names = equip_names(t);
    let mut line = String::new();
    push_str(&mut line, "  ");
    push_padded(&mut line, &when, 7, true);
    push_char(&mut line, ' ');
    push_padded(&mut line, &bar, 50, false);
    push_char(&mut line, ' ');
    push_padded(&mut line, &t.name, 12, false);
    push_char(&mut line, ' ');
    if t.active {
        push_str(&mut line, "@active");
    } else {
        push_str(&mut line, "~passive");
    }
    if t.equipment.len() > 0 {
        push_str(&mut line, "  !");
        line.append(names.as_str());
    }
    push_char(&mut line, '\n');
    assert(line@ =~= task_line(*t, min as int, span as int));
    out.append(line.as_str());
}

/// Renders a plan as a text timeline.
pub fn render_timeline(plan: &Plan) -> (out: String)
    ensures
        out@ == timeline_s(*plan),
{
    let mut out = String::new();
    push_str(&mut out, "Timeline: ");
    out.append(plan.title.as_str());
    push_char(&mut out, '\n');
    let ghost o1 = out@;
    let mut k: usize = 0;
    while k < plan.notes.len()
        invariant
            k <= plan.notes@.len(),
            out@ == o1 + note_lines(crate::text::views(plan.notes@), k as int),
        decreases plan.notes@.len() - k,
    {
        push_str(&mut out, "  · ");
        out.append(plan.notes[k].as_str());
        push_char(&mut out, '\n');
        assert(out@ =~= o1 + note_lines(crate::text::views(plan.notes@), k + 1));
        k = k + 1;
    }
    push_char(&mut out, '\n');
    let ghost o2 = out@;
    // the time window over every task
    let ghost all = all_tasks(plan.lanes@);
    let mut max_f: i128 = i128::MIN;
    let mut min_s: i128 = i128::MAX;
    let mut l: usize = 0;
    while l < plan.lanes.len()
        invariant
            l <= plan.lanes@.len(),
            all == all_tasks(plan.lanes@),
            max_f == max_finish(flat_tasks(plan.lanes@, l as int), flat_tasks(plan.lanes@, l as int).len() as int),
            min_s == min_start(flat_tasks(plan.lanes@, l as int), flat_tasks(plan.lanes@, l as int).len() as int),
        decreases plan.lanes@.len() - l,
    {
        let ts = &plan.lanes[l].tasks;
        let ghost f0 = flat_tasks(plan.lanes@, l as int);
        let mut k: usize = 0;
        while k < ts.len()
            invariant
                k <= ts@.len(),
                max_f == max_finish(f0 + ts@.take(k as int), f0.len() + k),
                min_s == min_start(f0 + ts@.take(k as int), f0.len() + k),
            decreases ts@.len() - k,
        {
            proof {
                lemma_fold_prefix(f0 + ts@.take(k as int), f0 + ts@.take(k + 1), f0.len() + k);
                assert((f0 + ts@.take(k + 1))[f0.len() + k] == ts@[k as int]);
            }
            if ts[k].finish > max_f {
                max_f = ts[k].finish;
            }
            if ts[k].start < min_s {
                min_s = ts[k].start;
            }
            k = k + 1;
        }
        proof {
            assert(ts@.take(ts@.len() as int) =~= ts@);
            assert(flat_tasks(plan.lanes@, l + 1) == f0 + ts@);
        }
        l = l + 1;
    }
    let d = sat_sub(max_f, min_s);
    let span: i128 = if d > 1_000_000_000 {
        d
    } else {
        1_000_000_000
    };
    assert(span == timeline_span(all));
    let many = plan.lanes.len() > 1;
    let mut l: usize = 0;
    while l < plan.lanes.len()
        invariant
            l <= plan.lanes@.len(),
            many == (plan.lanes@.len() > 1),
            span > 0,
            out@ == o2 + timeline_lanes(plan.lanes@, min_s as int, span as int, l as int),
        decreases plan.lanes@.len() - l,
    {
        let lane = &plan.lanes[l];
        let ghost before = out@;
        if many {
            push_char(&mut out, '[');
            out.append(lane.label.as_str());
            push_str(&mut out, "]\n");
        }
        let ghost o3 = out@;
        let mut k: usize = 0;
        while k < lane.tasks.len()
            invariant
                span > 0,
                k <= lane.tasks@.len(),
                out@ == o3 + lane_lines(lane.tasks@, min_s as int, span as int, k as int),
            decreases lane.tasks@.len() - k,
        {
            push_task_line(&mut out, &lane.tasks[k], min_s, span);
            assert(out@ =~= o3 + lane_lines(lane.tasks@, min_s as int, span as int, k + 1));
            k = k + 1;
        }
        assert(out@ =~= o2 + timeline_lanes(plan.lanes@, min_s as int, span as int, l + 1));
        l = l + 1;
    }
    out
}

proof fn lemma_dur_nonneg(ts: Seq<Timer>, k: int)
    ensures
        max_dur(ts, k) >= 0,
    decreases k,
{
    if k > 0 && k <= ts.len() {
        lemma_dur_nonneg(ts, k - 1);
    }
}

proof fn lemma_asap_start_range(ns: Seq<Node>, id: int, k: int)
    ensures
        0 <= asap_start_k(ns, id, k) <= i128::MAX,
    decreases k,
{
    if 0 <= id < ns.len() && 0 < k <= ns[id].inputs@.len() {
        lemma_asap_start_range(ns, id, k - 1);
        let inp = ns[id].inputs@[k - 1] as int;
        if 0 <= inp < id {
            assert(asap_finish(ns, inp) == clamp(asap_start_k(ns, inp, ns[inp].inputs@.len() as int) + node_dur(ns[inp])));
            assert(asap_finish(ns, inp) <= i128::MAX);
        }
    }
}

proof fn lemma_name_find_range(ns: Seq<Node>, name: Seq<char>, k: int)
    ensures
        name_find(ns, name, k) matches Some(i) ==> 0 <= i < k && k <= ns.len(),
    decreases k,
{
    if k > 0 && k <= ns.len() {
        lemma_name_find_range(ns, name, k - 1);
    }
}

/// Start never after finish, all within `i128`.
pub open spec fn times_ok(st: TimesView, n: int) -> bool {
    &&& st.0.len() == n
    &&& st.1.len() == n
    &&& forall|i: int| 0 <= i < n ==> i128::MIN <= #[trigger] st.0[i] <= st.1[i] <= i128::MAX
}

proof fn lemma_bp_links_ok(ns: Seq<Node>, st: TimesView, id: int, k: int)
    requires
        0 <= id < ns.len(),
        times_ok(st, ns.len() as int),
    ensures
        times_ok(bp_links(ns, st, id, k), ns.len() as int),
    decreases k,
{
    if k > 0 && k <= ns[id].links@.len() {
        lemma_bp_links_ok(ns, st, id, k - 1);
        let prev = bp_links(ns, st, id, k - 1);
        lemma_dur_nonneg(ns[id].timers@, ns[id].timers@.len() as int);
        let next = bp_link(ns, prev, id, *ns[id].links@[k - 1]);
        let d = node_dur(ns[id]);
        assert forall|i: int| 0 <= i < ns.len() implies i128::MIN <= #[trigger] next.0[i] <= next.1[i] <= i128::MAX by {
            assert(i128::MIN <= prev.0[i] <= prev.1[i] <= i128::MAX);
            match *ns[id].links@[k - 1] {
                Link::By { target, .. } => {
                    lemma_name_find_range(ns, target.name@, ns.len() as int);
                    match name_find(ns, target.name@, ns.len() as int) {
                        Some(tid) => {
                            let tf = prev.1[tid as int];
                            assert(i128::MIN <= prev.0[tid as int] <= tf <= i128::MAX);
                            if tf >= prev.1[id] {
                                assert(clamp(tf - d) <= tf);
                                assert(next.0 == prev.0.update(id, clamp(tf - d)));
                                assert(next.1 == prev.1.update(id, tf));
                            } else {
                                assert(next == prev);
                            }
                        },
                        None => {
                            assert(next == prev);
                        },
                    }
                },
                _ => {
                    assert(next == prev);
                },
            }
        }
    }
}

proof fn lemma_bp_upto_ok(ns: Seq<Node>, st: TimesView, k: int)
    requires
        times_ok(st, ns.len() as int),
    ensures
        times_ok(bp_upto(ns, st, k), ns.len() as int),
    decreases k,
{
    if k > 0 && k <= ns.len() {
        lemma_bp_upto_ok(ns, st, k - 1);
        lemma_bp_links_ok(ns, bp_upto(ns, st, k - 1), k - 1, ns[k - 1].links@.len() as int);
    }
}

/// No node is scheduled to finish before it starts: ASAP finishes add a
/// non-negative duration, and back-placement starts a node a non-negative
/// duration before its new finish.
pub proof fn law_start_not_after_finish(ns: Seq<Node>)
    ensures
        times_ok(placed(ns), ns.len() as int),
{
    let st = asap_times(ns);
    assert forall|i: int| 0 <= i < ns.len() implies i128::MIN <= #[trigger] st.0[i] <= st.1[i] <= i128::MAX by {
        lemma_asap_start_range(ns, i, ns[i].inputs@.len() as int);
        lemma_dur_nonneg(ns[i].timers@, ns[i].timers@.len() as int);
    }
    lemma_bp_upto_ok(ns, st, ns.len() as int);
}

/// Every data edge is a finish-to-start dependency in the as-soon-as-possible
/// pass: a node starts no earlier than each of its inputs finishes.
pub proof fn law_inputs_finish_before_start(ns: Seq<Node>, id: int, j: int)
    requires
        nodes_ok(ns),
        0 <= id < ns.len(),
        0 <= j < ns[id].inputs@.len(),
    ensures
        asap_finish(ns, ns[id].inputs@[j] as int) <= asap_start(ns, id),
{
    lemma_asap_start_ge(ns, id, ns[id].inputs@.len() as int, j);
}

proof fn lemma_asap_start_ge(ns: Seq<Node>, id: int, k: int, j: int)
    requires
        nodes_ok(ns),
        0 <= id < ns.len(),
        0 <= j < k <= ns[id].inputs@.len(),
    ensures
        asap_finish(ns, ns[id].inputs@[j] as int) <= asap_start_k(ns, id, k),
    decreases k,
{
    assert(node_ok(ns[id], id));
    assert(ns[id].inputs@[k - 1] < id);
    if j < k - 1 {
        lemma_asap_start_ge(ns, id, k - 1, j);
    }
}

/// Every task of a recipe schedule starts no later than it finishes.
pub proof fn law_tasks_start_before_finish(p: Plan, ns: Seq<Node>, terminal: int, title: Seq<char>)
    requires
        plan_is(p, ns, terminal, title),
    ensures
        forall|k: int| 0 <= k < p.lanes@[0].tasks@.len() ==> (#[trigger] p.lanes@[0].tasks@[k]).start <= p.lanes@[0].tasks@[k].finish,
{
    law_start_not_after_finish(ns);
    let st = placed(ns);
    let ids = sort_by(task_ids(ns, ns.len() as int), st.0);
    lemma_task_ids_in_range(ns, ns.len() as int);
    lemma_sort_in_range(task_ids(ns, ns.len() as int), st.0, ns.len() as int);
    assert forall|k: int| 0 <= k < p.lanes@[0].tasks@.len() implies (#[trigger] p.lanes@[0].tasks@[k]).start <= p.lanes@[0].tasks@[k].finish by {
        assert(task_is(p.lanes@[0].tasks@[k], ns, st.0, st.1, ids[k] as int));
        assert(0 <= ids[k] < ns.len());
    }
}

proof fn lemma_task_ids_in_range(ns: Seq<Node>, k: int)
    ensures
        forall|i: int| 0 <= i < task_ids(ns, k).len() ==> (#[trigger] task_ids(ns, k)[i]) < ns.len(),
    decreases k,
{
    if k > 0 && k <= ns.len() {
        lemma_task_ids_in_range(ns, k - 1);
        let prev = task_ids(ns, k - 1);
        assert forall|i: int| 0 <= i < task_ids(ns, k).len() implies (#[trigger] task_ids(ns, k)[i]) < ns.len() by {
            if i < prev.len() {
                assert(task_ids(ns, k)[i] == prev[i]);
            }
        }
    }
}

proof fn lemma_insert_in_range(s: Seq<usize>, x: usize, key: Seq<int>, n: int)
    requires
        forall|i: int| 0 <= i < s.len() ==> (#[trigger] s[i]) < n,
        x < n,
    ensures
        forall|i: int| 0 <= i < insert_by(s, x, key).len() ==> (#[trigger] insert_by(s, x, key)[i]) < n,
        insert_by(s, x, key).len() == s.len() + 1,
    decreases s.len(),
{
    if s.len() > 0 && key[s.last() as int] > key[x as int] {
        let t = s.drop_last();
        assert forall|i: int| 0 <= i < t.len() implies (#[trigger] t[i]) < n by {
            assert(t[i] == s[i]);
        }
        lemma_insert_in_range(t, x, key, n);
        let r = insert_by(t, x, key);
        assert forall|i: int| 0 <= i < insert_by(s, x, key).len() implies (#[trigger] insert_by(s, x, key)[i]) < n by {
            if i < r.len() {
                assert(insert_by(s, x, key)[i] == r[i]);
            } else {
                assert(insert_by(s, x, key)[i] == s.last());
            }
        }
    } else if s.len() > 0 {
        assert forall|i: int| 0 <= i < insert_by(s, x, key).len() implies (#[trigger] insert_by(s, x, key)[i]) < n by {
            if i < s.len() {
                assert(insert_by(s, x, key)[i] == s[i]);
            }
        }
    }
}

/// Sorting keeps exactly the elements' range.
proof fn lemma_sort_in_range(s: Seq<usize>, key: Seq<int>, n: int)
    requires
        forall|i: int| 0 <= i < s.len() ==> (#[trigger] s[i]) < n,
    ensures
        forall|i: int| 0 <= i < sort_by(s, key).len() ==> (#[trigger] sort_by(s, key)[i]) < n,
        sort_by(s, key).len() == s.len(),
    decreases s.len(),
{
    if s.len() > 0 {
        let t = s.drop_last();
        assert forall|i: int| 0 <= i < t.len() implies (#[trigger] t[i]) < n by {
            assert(t[i] == s[i]);
        }
        lemma_sort_in_range(t, key, n);
        assert(s.last() == s[s.len() - 1]);
        lemma_insert_in_range(sort_by(t, key), s.last(), key, n);
    }
}

/// A `&by` link moves its node to finish with its target when the target
/// finishes no earlier; either way the node then finishes at the later of
/// the two.
pub proof fn law_back_place_finishes_with_target(ns: Seq<Node>, st: TimesView, id: int, l: Link, tid: usize)
    requires
        0 <= id < ns.len(),
        st.1.len() == ns.len(),
        l matches Link::By { target, .. } && name_find(ns, target.name@, ns.len() as int) == Some(tid),
    ensures
        bp_link(ns, st, id, l).1[id] == if st.1[tid as int] >= st.1[id] {
            st.1[tid as int]
        } else {
            st.1[id]
        },
{
}

/// In a menu schedule, the task that ends a recipe (finishing at its
/// makespan) finishes exactly at serve time, T=0.
pub proof fn law_menu_serves_at_zero(p: Plan, title: Seq<char>, plans: Seq<(String, Plan)>, i: int, k: int)
    requires
        menu_plan_is(p, title, plans),
        0 <= i < plans.len(),
        0 <= k < all_tasks(plans[i].1.lanes@).len(),
        all_tasks(plans[i].1.lanes@)[k].finish == plans[i].1.makespan,
    ensures
        p.lanes@[i].tasks@[k].finish == 0,
{
    assert(shifted(p.lanes@[i].tasks@[k], all_tasks(plans[i].1.lanes@)[k], plans[i].1.makespan as int));
}

/// Sorting keeps the length.
pub proof fn lemma_sort_len(s: Seq<usize>, key: Seq<int>)
    ensures
        sort_by(s, key).len() == s.len(),
    decreases s.len(),
{
    if s.len() > 0 {
        lemma_sort_len(s.drop_last(), key);
        lemma_insert_len(sort_by(s.drop_last(), key), s.last(), key);
    }
}

proof fn lemma_insert_len(s: Seq<usize>, x: usize, key: Seq<int>)
    ensures
        insert_by(s, x, key).len() == s.len() + 1,
    decreases s.len(),
{
    if s.len() > 0 && key[s.last() as int] > key[x as int] {
        lemma_insert_len(s.drop_last(), x, key);
    }
}

/// `t` is ordered by key.
pub open spec fn sorted_by(t: Seq<usize>, key: Seq<int>) -> bool {
    forall|i: int, j: int| 0 <= i < j < t.len() ==> key[t[i] as int] <= key[t[j] as int]
}

proof fn lemma_insert_bounded(s: Seq<usize>, x: usize, key: Seq<int>, b: int)
    requires
        forall|i: int| 0 <= i < s.len() ==> key[#[trigger] s[i] as int] <= b,
        key[x as int] <= b,
    ensures
        forall|i: int| 0 <= i < insert_by(s, x, key).len() ==> key[#[trigger] insert_by(s, x, key)[i] as int] <= b,
    decreases s.len(),
{
    let r = insert_by(s, x, key);
    if s.len() == 0 {
        assert(r == seq![x]);
        assert forall|i: int| 0 <= i < r.len() implies key[#[trigger] r[i] as int] <= b by {
            assert(r[i] == x);
        }
    } else if key[s.last() as int] <= key[x as int] {
        assert(r == s.push(x));
        assert forall|i: int| 0 <= i < r.len() implies key[#[trigger] r[i] as int] <= b by {
            if i < s.len() {
                assert(r[i] == s[i]);
            } else {
                assert(r[i] == x);
            }
        }
    } else {
        let t = s.drop_last();
        assert forall|i: int| 0 <= i < t.len() implies key[#[trigger] t[i] as int] <= b by {
            assert(t[i] == s[i]);
        }
        lemma_insert_bounded(t, x, key, b);
        let u = insert_by(t, x, key);
        assert(r == u.push(s.last()));
        assert forall|i: int| 0 <= i < r.len() implies key[#[trigger] r[i] as int] <= b by {
            if i < u.len() {
                assert(r[i] == u[i]);
            } else {
                assert(r[i] == s[s.len() - 1]);
            }
        }
    }
}

proof fn lemma_insert_sorted(s: Seq<usize>, x: usize, key: Seq<int>)
    requires
        sorted_by(s, key),
    ensures
        sorted_by(insert_by(s, x, key), key),
    decreases s.len(),
{
    if s.len() == 0 {
    } else if key[s.last() as int] <= key[x as int] {
        let r = s.push(x);
        assert forall|i: int, j: int| 0 <= i < j < r.len() implies key[r[i] as int] <= key[r[j] as int] by {
            if j == s.len() {
                if i < s.len() - 1 {
                    assert(key[s[i] as int] <= key[s[s.len() - 1] as int]);
                }
            }
        }
    } else {
        let t = s.drop_last();
        let m = s.last();
        assert(sorted_by(t, key)) by {
            assert forall|i: int, j: int| 0 <= i < j < t.len() implies key[t[i] as int] <= key[t[j] as int] by {
                assert(t[i] == s[i] && t[j] == s[j]);
            }
        }
        lemma_insert_sorted(t, x, key);
        assert forall|i: int| 0 <= i < t.len() implies key[#[trigger] t[i] as int] <= key[m as int] by {
            assert(t[i] == s[i]);
            assert(key[s[i] as int] <= key[s[s.len() - 1] as int]);
        }
        lemma_insert_bounded(t, x, key, key[m as int]);
        let u = insert_by(t, x, key);
        let r = u.push(m);
        assert forall|i: int, j: int| 0 <= i < j < r.len() implies key[r[i] as int] <= key[r[j] as int] by {
            if j == u.len() {
                assert(r[i] == u[i]);
            } else {
                assert(r[i] == u[i] && r[j] == u[j]);
            }
        }
    }
}

proof fn lemma_sort_sorted(s: Seq<usize>, key: Seq<int>)
    ensures
        sorted_by(sort_by(s, key), key),
    decreases s.len(),
{
    if s.len() > 0 {
        lemma_sort_sorted(s.drop_last(), key);
        lemma_insert_sorted(sort_by(s.drop_last(), key), s.last(), key);
    }
}

/// The tasks of a recipe schedule are listed in order of start.
pub proof fn law_tasks_in_start_order(p: Plan, ns: Seq<Node>, terminal: int, title: Seq<char>)
    requires
        plan_is(p, ns, terminal, title),
    ensures
        forall|i: int, j: int|
            0 <= i < j < p.lanes@[0].tasks@.len() ==> (#[trigger] p.lanes@[0].tasks@[i]).start <= (#[trigger] p.lanes@[0].tasks@[j]).start,
{
    let st = placed(ns);
    let ids = sort_by(task_ids(ns, ns.len() as int), st.0);
    lemma_sort_sorted(task_ids(ns, ns.len() as int), st.0);
    assert forall|i: int, j: int| 0 <= i < j < p.lanes@[0].tasks@.len() implies (#[trigger] p.lanes@[0].tasks@[i]).start <= (#[trigger] p.lanes@[0].tasks@[j]).start by {
        assert(task_is(p.lanes@[0].tasks@[i], ns, st.0, st.1, ids[i] as int));
        assert(task_is(p.lanes@[0].tasks@[j], ns, st.0, st.1, ids[j] as int));
    }
}

} // verus!
