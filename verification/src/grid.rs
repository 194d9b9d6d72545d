//! The monospace depth-column grid.
//!
//! Rows are terminal-to-leaf paths (a leaf feeding a split appears in one row
//! per product, which reads as the fork band). Columns are node depth. A node
//! that spans several rows is printed once at the top of its run; the rows
//! beneath it stay blank, so a multi-row op reads as a vertical band.
//! Equipment-prep nodes (no ingredient subtree) render as header strips above
//! the grid.

use vstd::prelude::*;
use crate::ast::{Link, Recipe, Timer};
use crate::basis::BasisTable;
use crate::model::{Graph, Node, NodeKind, depth_of, node_ok};
use crate::render::{amount_s, equips_s, pretty, push_amount, push_equips, push_range_text, range_s};
use crate::text::{join, push_char, push_str, spec_is_ws};

verus! {

/// The inputs that are not equipment-prep nodes (those become header
/// strips, not grid rows).
pub open spec fn kept(ns: Seq<Node>, ins: Seq<usize>) -> Seq<usize>
    decreases ins.len(),
{
    if ins.len() == 0 {
        Seq::empty()
    } else {
        let prev = kept(ns, ins.drop_last());
        let i = ins.last();
        if 0 <= i < ns.len() && ns[i as int].spec_equipment_prep(ns) {
            prev
        } else {
            prev.push(i)
        }
    }
}

proof fn lemma_kept_sub(ns: Seq<Node>, ins: Seq<usize>, bound: int)
    requires
        forall|j: int| 0 <= j < ins.len() ==> (#[trigger] ins[j]) < bound,
    ensures
        forall|j: int| 0 <= j < kept(ns, ins).len() ==> (#[trigger] kept(ns, ins)[j]) < bound,
    decreases ins.len(),
{
    if ins.len() > 0 {
        assert forall|j: int| 0 <= j < ins.drop_last().len() implies (#[trigger] ins.drop_last()[j]) < bound by {
            assert(ins.drop_last()[j] == ins[j]);
        }
        lemma_kept_sub(ns, ins.drop_last(), bound);
        assert(ins.last() == ins[ins.len() - 1]);
        let prev = kept(ns, ins.drop_last());
        assert forall|j: int| 0 <= j < kept(ns, ins).len() implies (#[trigger] kept(ns, ins)[j]) < bound by {
            if j < prev.len() {
                assert(kept(ns, ins)[j] == prev[j]);
            }
        }
    }
}

/// `x` put in front of every path.
pub open spec fn prefix_all(x: usize, ps: Seq<Seq<usize>>) -> Seq<Seq<usize>> {
    Seq::new(ps.len(), |i: int| seq![x] + ps[i])
}

/// The terminal-to-leaf paths from `id` (each starts with `id`).
pub open spec fn paths_of(ns: Seq<Node>, id: int) -> Seq<Seq<usize>>
    decreases id, 1nat, 0int,
{
    if 0 <= id < ns.len() {
        let ins = kept(ns, ns[id].inputs@);
        if ins.len() == 0 {
            seq![seq![id as usize]]
        } else {
            paths_in(ns, id, ins.len() as int)
        }
    } else {
        Seq::empty()
    }
}

/// The paths from `id` through its first `k` kept inputs.
pub open spec fn paths_in(ns: Seq<Node>, id: int, k: int) -> Seq<Seq<usize>>
    decreases id, 0nat, k,
{
    if 0 <= id < ns.len() && 0 < k <= kept(ns, ns[id].inputs@).len() {
        let inp = kept(ns, ns[id].inputs@)[k - 1] as int;
        paths_in(ns, id, k - 1) + if 0 <= inp < id {
            prefix_all(id as usize, paths_of(ns, inp))
        } else {
            Seq::empty()
        }
    } else {
        Seq::empty()
    }
}

pub open spec fn vviews(v: Seq<Vec<usize>>) -> Seq<Seq<usize>> {
    Seq::new(v.len(), |i: int| v[i]@)
}

/// `c` in front of every path.
pub open spec fn prepend_all(c: Seq<usize>, ps: Seq<Seq<usize>>) -> Seq<Seq<usize>> {
    Seq::new(ps.len(), |i: int| c + ps[i])
}

fn copy_ids(v: &Vec<usize>) -> (r: Vec<usize>)
    ensures
        r@ == v@,
{
    let mut r: Vec<usize> = Vec::new();
    let mut i: usize = 0;
    while i < v.len()
        invariant
            i <= v@.len(),
            r@ == v@.take(i as int),
        decreases v@.len() - i,
    {
        r.push(v[i]);
        assert(r@ =~= v@.take(i + 1));
        i = i + 1;
    }
    assert(v@.take(v@.len() as int) =~= v@);
    r
}

fn kept_inputs(g: &Graph, id: usize) -> (r: Vec<usize>)
    requires
        g.wf(),
        id < g.nodes@.len(),
    ensures
        r@ == kept(g.nodes@, g.nodes@[id as int].inputs@),
{
    let ghost ns = g.nodes@;
    let n = &g.nodes[id];
    let mut r: Vec<usize> = Vec::new();
    let mut k: usize = 0;
    while k < n.inputs.len()
        invariant
            g.wf(),
            ns == g.nodes@,
            id < ns.len(),
            *n == ns[id as int],
            k <= n.inputs@.len(),
            r@ == kept(ns, n.inputs@.take(k as int)),
        decreases n.inputs@.len() - k,
    {
        let ghost t = n.inputs@.take(k + 1);
        assert(t.drop_last() =~= n.inputs@.take(k as int));
        let i = n.inputs[k];
        proof {
            assert(node_ok(ns[id as int], id as int));
            assert(n.inputs@[k as int] < id);
        }
        if !g.nodes[i].is_equipment_prep(g) {
            r.push(i);
        }
        assert(g.nodes@[i as int].id == i) by {
            assert(node_ok(ns[i as int], i as int));
        }
        k = k + 1;
    }
    assert(n.inputs@.take(n.inputs@.len() as int) =~= n.inputs@);
    r
}

/// Collects the paths from `id`, each behind the current prefix `cur`.
fn dfs(g: &Graph, id: usize, cur: &mut Vec<usize>, out: &mut Vec<Vec<usize>>)
    requires
        g.wf(),
        id < g.nodes@.len(),
    ensures
        final(cur)@ == old(cur)@,
        vviews(final(out)@) == vviews(old(out)@) + prepend_all(old(cur)@, paths_of(g.nodes@, id as int)),
    decreases id,
{
    let ghost ns = g.nodes@;
    let ghost c0 = cur@;
    let ghost o0 = vviews(out@);
    cur.push(id);
    let ins = kept_inputs(g, id);
    proof {
        assert(node_ok(ns[id as int], id as int));
        lemma_kept_sub(ns, ns[id as int].inputs@, id as int);
    }
    if ins.len() == 0 {
        let p = copy_ids(cur);
        assert(paths_of(ns, id as int) == seq![seq![id]]);
        assert(c0 + seq![id] =~= c0.push(id));
        let ghost before = out@;
        out.push(p);
        assert(vviews(out@) =~= vviews(before).push(c0.push(id)));
        assert(vviews(out@) =~= o0 + prepend_all(c0, paths_of(ns, id as int)));
    } else {
        let mut k: usize = 0;
        while k < ins.len()
            invariant
                g.wf(),
                ns == g.nodes@,
                id < ns.len(),
                ins@ == kept(ns, ns[id as int].inputs@),
                ins@.len() > 0,
                forall|j: int| 0 <= j < ins@.len() ==> (#[trigger] ins@[j]) < id,
                k <= ins@.len(),
                cur@ == c0.push(id),
                vviews(out@) == o0 + prepend_all(c0, paths_in(ns, id as int, k as int)),
            decreases ins@.len() - k,
        {
            let inp = ins[k];
            assert(ins@[k as int] < id);
            let ghost before = vviews(out@);
            dfs(g, inp, cur, out);
            proof {
                let sub = paths_of(ns, inp as int);
                assert(prepend_all(c0.push(id), sub) =~= prepend_all(c0, prefix_all(id, sub))) by {
                    assert forall|i: int| 0 <= i < sub.len() implies c0.push(id) + sub[i] =~= c0 + (seq![id] + sub[i]) by {
                    }
                }
                assert(prepend_all(c0, paths_in(ns, id as int, k + 1)) =~= prepend_all(c0, paths_in(ns, id as int, k as int))
                    + prepend_all(c0, prefix_all(id, sub)));
            }
            assert(vviews(out@) =~= o0 + prepend_all(c0, paths_in(ns, id as int, k + 1)));
            k = k + 1;
        }
    }
    cur.pop();
    assert(cur@ =~= c0);
}

/// A time marker: `@5m`, `~10-20m`, `~?`.
pub open spec fn marker_s(t: Timer) -> Seq<char> {
    match t {
        Timer::Active(r) => seq!['@'] + range_s(r),
        Timer::Passive(r) => seq!['~'] + range_s(r),
        Timer::Unbounded { .. } => seq!['~', '?'],
    }
}

/// What a cell of node `id` reads.
pub open spec fn label_s(ns: Seq<Node>, id: int, b: BasisTable) -> Seq<char> {
    let n = ns[id];
    let amt = match n.amount {
        Some(a) => amount_s(*a, b),
        None => Seq::empty(),
    };
    match n.kind {
        NodeKind::Ingredient => if amt.len() == 0 {
            n.label@
        } else {
            n.label@ + seq![' '] + amt
        },
        NodeKind::SubRecipe => crate::number::trimmed(n.label@ + seq![' '] + amt),
        NodeKind::Product => match n.name {
            Some(x) => x@,
            None => n.label@,
        },
        _ => if n.timers@.len() == 0 {
            n.label@
        } else {
            n.label@ + seq![' '] + join(Seq::new(n.timers@.len(), |i: int| marker_s(n.timers@[i])), seq![' '])
        },
    }
}

fn push_marker(out: &mut String, t: &Timer)
    ensures
        final(out)@ == old(out)@ + marker_s(*t),
{
    let ghost o0 = out@;
    match t {
        Timer::Active(r) => {
            push_char(out, '@');
            push_range_text(out, r);
        },
        Timer::Passive(r) => {
            push_char(out, '~');
            push_range_text(out, r);
        },
        Timer::Unbounded { .. } => {
            push_char(out, '~');
            push_char(out, '?');
        },
    }
    assert(out@ =~= o0 + marker_s(*t));
}

fn label_of(g: &Graph, id: usize, b: &BasisTable) -> (r: String)
    requires
        id < g.nodes@.len(),
    ensures
        r@ == label_s(g.nodes@, id as int, *b),
{
    let n = &g.nodes[id];
    let mut amt = String::new();
    match n.amount {
        Some(a) => push_amount(&mut amt, a, b),
        None => {},
    }
    match n.kind {
        NodeKind::Ingredient => {
            let mut out = n.label.clone();
            if !amt.as_str().is_empty() {
                push_char(&mut out, ' ');
                out.append(amt.as_str());
            }
            assert(out@ =~= label_s(g.nodes@, id as int, *b));
            out
        },
        NodeKind::SubRecipe => {
            let mut t = n.label.clone();
            push_char(&mut t, ' ');
            t.append(amt.as_str());
            assert(t@ =~= n.label@ + seq![' '] + amt@);
            let cs = crate::text::chars_of(t.as_str());
            assert(cs@ == n.label@ + seq![' '] + amt@);
            let (lo, hi) = crate::text::trim_range(cs.as_slice(), 0, cs.len());
            assert(cs@.subrange(0, cs@.len() as int) =~= cs@);
            let out = crate::text::string_of(cs.as_slice(), lo, hi);
            assert(out@ =~= label_s(g.nodes@, id as int, *b));
            out
        },
        NodeKind::Product => {
            let out = match &n.name {
                Some(x) => x.clone(),
                None => n.label.clone(),
            };
            assert(out@ =~= label_s(g.nodes@, id as int, *b));
            out
        },
        _ => {
            let mut out = n.label.clone();
            if n.timers.len() > 0 {
                push_char(&mut out, ' ');
                let ghost o0 = out@;
                let ghost parts = Seq::new(n.timers@.len(), |i: int| marker_s(n.timers@[i]));
                let mut i: usize = 0;
                while i < n.timers.len()
                    invariant
                        i <= n.timers@.len(),
                        parts == Seq::new(n.timers@.len(), |i: int| marker_s(n.timers@[i])),
                        out@ == o0 + join(parts.take(i as int), seq![' ']),
                    decreases n.timers@.len() - i,
                {
                    assert(parts.take(i + 1).drop_last() =~= parts.take(i as int));
                    if i > 0 {
                        push_char(&mut out, ' ');
                    }
                    push_marker(&mut out, &n.timers[i]);
                    proof {
                        if i == 0 {
                            assert(join(parts.take(0), seq![' ']) =~= Seq::<char>::empty());
                        }
                    }
                    assert(out@ =~= o0 + join(parts.take(i + 1), seq![' ']));
                    i = i + 1;
                }
                assert(parts.take(n.timers@.len() as int) =~= parts);
            }
            assert(out@ =~= label_s(g.nodes@, id as int, *b));
            out
        },
    }
}

/// The node in column `c` of a path: the last one of that depth.
pub open spec fn cell_of(ns: Seq<Node>, path: Seq<usize>, c: int) -> Option<usize>
    decreases path.len(),
{
    if path.len() == 0 {
        None
    } else if depth_of(ns, path.last() as int) == c {
        Some(path.last())
    } else {
        cell_of(ns, path.drop_last(), c)
    }
}

/// `s` padded with spaces to `w` characters.
pub open spec fn pad_s(s: Seq<char>, w: int) -> Seq<char> {
    if s.len() >= w {
        s
    } else {
        s + Seq::new((w - s.len()) as nat, |i: int| ' ')
    }
}

/// The widest label in column `c` over the first `k` rows.
pub open spec fn col_width(ns: Seq<Node>, ps: Seq<Seq<usize>>, b: BasisTable, c: int, k: int) -> nat
    decreases k,
{
    if k <= 0 || k > ps.len() {
        0
    } else {
        let m = col_width(ns, ps, b, c, k - 1);
        match cell_of(ns, ps[k - 1], c) {
            Some(id) => if label_s(ns, id as int, b).len() > m {
                label_s(ns, id as int, b).len()
            } else {
                m
            },
            None => m,
        }
    }
}

/// The text of column `c` in row `r`: blank when the node continues a band
/// from the row above.
pub open spec fn cell_text(ns: Seq<Node>, ps: Seq<Seq<usize>>, b: BasisTable, r: int, c: int) -> Seq<char> {
    match cell_of(ns, ps[r], c) {
        Some(id) => if r > 0 && cell_of(ns, ps[r - 1], c) == Some(id) {
            Seq::empty()
        } else {
            label_s(ns, id as int, b)
        },
        None => Seq::empty(),
    }
}

/// Columns `0..k` of row `r`, padded and separated by two spaces.
pub open spec fn row_cols(ns: Seq<Node>, ps: Seq<Seq<usize>>, b: BasisTable, r: int, ncols: int, k: int) -> Seq<char>
    decreases k,
{
    if k <= 0 {
        Seq::empty()
    } else {
        row_cols(ns, ps, b, r, ncols, k - 1) + pad_s(
            cell_text(ns, ps, b, r, k - 1),
            col_width(ns, ps, b, k - 1, ps.len() as int) as int,
        ) + if k < ncols {
            seq![' ', ' ']
        } else {
            Seq::empty()
        }
    }
}

/// `s` without trailing whitespace.
pub open spec fn trim_end(s: Seq<char>) -> Seq<char> {
    s.take(crate::text::skip_ws_back(s, 0, s.len() as int))
}

/// The first `k` grid lines.
pub open spec fn grid_lines(ns: Seq<Node>, ps: Seq<Seq<usize>>, b: BasisTable, ncols: int, k: int) -> Seq<char>
    decreases k,
{
    if k <= 0 || k > ps.len() {
        Seq::empty()
    } else {
        grid_lines(ns, ps, b, ncols, k - 1) + trim_end(row_cols(ns, ps, b, k - 1, ncols, ncols)) + seq!['\n']
    }
}

/// The header strip of an equipment-prep node.
pub open spec fn strip_s(n: Node) -> Seq<char> {
    let name = match n.name {
        Some(x) => x@,
        None => Seq::empty(),
    };
    let link = if n.links@.len() > 0 {
        match *n.links@[0] {
            Link::By { target, .. } => "  (finish by: "@ + target.name@ + seq![')'],
            _ => Seq::empty(),
        }
    } else {
        Seq::empty()
    };
    "[ "@ + name + ": "@ + n.label@ + seq![' '] + equips_s(n.equipment@) + " ]"@ + link + seq!['\n']
}

/// The header strips of the first `k` nodes.
pub open spec fn strips_upto(ns: Seq<Node>, k: int) -> Seq<char>
    decreases k,
{
    if k <= 0 || k > ns.len() {
        Seq::empty()
    } else {
        strips_upto(ns, k - 1) + if ns[k - 1].spec_equipment_prep(ns) {
            strip_s(ns[k - 1])
        } else {
            Seq::empty()
        }
    }
}

/// The whole grid of a graph.
pub open spec fn grid_s(ns: Seq<Node>, name: Seq<char>, terminal: int, b: BasisTable) -> Seq<char> {
    let ps = paths_of(ns, terminal);
    let ncols = crate::model::max_depth_upto(ns, ns.len() as int) + 1int;
    pretty(name) + seq!['\n'] + strips_upto(ns, ns.len() as int) + seq!['\n'] + grid_lines(ns, ps, b, ncols, ps.len() as int)
}

/// The node in each of the first `ncols` columns of a path.
fn path_cells(g: &Graph, path: &Vec<usize>, ncols: usize) -> (r: Vec<Option<usize>>)
    requires
        g.wf(),
        forall|j: int| 0 <= j < path@.len() ==> (#[trigger] path@[j]) < g.nodes@.len(),
    ensures
        r@.len() == ncols,
        forall|c: int| 0 <= c < ncols ==> (#[trigger] r@[c]) == cell_of(g.nodes@, path@, c),
{
    let mut r: Vec<Option<usize>> = Vec::new();
    let mut c: usize = 0;
    while c < ncols
        invariant
            c <= ncols,
            r@.len() == c,
            forall|k: int| 0 <= k < c ==> (#[trigger] r@[k]) is None,
        decreases ncols - c,
    {
        r.push(None);
        c = c + 1;
    }
    assert forall|k: int| 0 <= k < ncols implies (#[trigger] r@[k]) == cell_of(g.nodes@, path@.take(0), k) by {
        assert(path@.take(0).len() == 0);
    }
    let mut i: usize = 0;
    while i < path.len()
        invariant
            g.wf(),
            forall|j: int| 0 <= j < path@.len() ==> (#[trigger] path@[j]) < g.nodes@.len(),
            i <= path@.len(),
            r@.len() == ncols,
            forall|k: int| 0 <= k < ncols ==> (#[trigger] r@[k]) == cell_of(g.nodes@, path@.take(i as int), k),
        decreases path@.len() - i,
    {
        let id = path[i];
        let d = g.depth(id);
        let ghost t = path@.take(i + 1);
        assert(t.drop_last() =~= path@.take(i as int));
        if d < ncols {
            r.set(d, Some(id));
        }
        assert forall|k: int| 0 <= k < ncols implies (#[trigger] r@[k]) == cell_of(g.nodes@, t, k) by {
            assert(t.last() == id);
        }
        i = i + 1;
    }
    assert(path@.take(path@.len() as int) =~= path@);
    r
}

/// `n` spaces appended.
fn push_spaces(out: &mut String, n: usize)
    ensures
        final(out)@ == old(out)@ + Seq::new(n as nat, |i: int| ' '),
{
    let ghost o0 = out@;
    let mut i: usize = 0;
    while i < n
        invariant
            i <= n,
            out@ == o0 + Seq::new(i as nat, |k: int| ' '),
        decreases n - i,
    {
        push_char(out, ' ');
        assert(out@ =~= o0 + Seq::new((i + 1) as nat, |k: int| ' '));
        i = i + 1;
    }
}

/// The number of characters of a string.
fn char_count(s: &String) -> (r: usize)
    ensures
        r == s@.len(),
{
    let cs = crate::text::chars_of(s.as_str());
    cs.len()
}

fn push_strip(out: &mut String, n: &Node)
    ensures
        final(out)@ == old(out)@ + strip_s(*n),
{
    let mut t = String::new();
    push_str(&mut t, "[ ");
    match &n.name {
        Some(x) => {
            t.append(x.as_str());
        },
        None => {},
    }
    push_str(&mut t, ": ");
    t.append(n.label.as_str());
    push_char(&mut t, ' ');
    push_equips(&mut t, &n.equipment);
    push_str(&mut t, " ]");
    if n.links.len() > 0 {
        match n.links[0] {
            Link::By { target, .. } => {
                push_str(&mut t, "  (finish by: ");
                t.append(target.name.as_str());
                push_char(&mut t, ')');
            },
            _ => {},
        }
    }
    push_char(&mut t, '\n');
    assert(t@ =~= strip_s(*n));
    out.append(t.as_str());
}

/// The grid of a graph (with at least one node).
#[verifier::rlimit(40)]
pub fn grid_table_of(g: &Graph, b: &BasisTable) -> (out: String)
    requires
        g.wf(),
        g.nodes@.len() > 0,
    ensures
        out@ == grid_s(g.nodes@, g.name@, g.terminal as int, *b),
{
    let ghost ns = g.nodes@;
    let maxd = g.max_depth();
    proof {
        lemma_max_depth_le(ns, ns.len() as int);
    }
    let n_nodes = g.nodes.len();
    assert(maxd < n_nodes);
    let ncols = maxd + 1;
    let mut paths: Vec<Vec<usize>> = Vec::new();
    let mut cur: Vec<usize> = Vec::new();
    dfs(g, g.terminal, &mut cur, &mut paths);
    let ghost ps = paths_of(ns, g.terminal as int);
    assert(vviews(paths@) =~= ps) by {
        assert forall|i: int| 0 <= i < ps.len() implies Seq::<usize>::empty() + ps[i] =~= ps[i] by {}
    }
    proof {
        lemma_paths_in_range(ns, g.terminal as int);
    }
    // cells
    let mut cells: Vec<Vec<Option<usize>>> = Vec::new();
    let mut r: usize = 0;
    while r < paths.len()
        invariant
            g.wf(),
            ns == g.nodes@,
            vviews(paths@) == ps,
            forall|i: int, j: int| 0 <= i < ps.len() && 0 <= j < ps[i].len() ==> (#[trigger] ps[i][j]) < ns.len(),
            r <= paths@.len(),
            cells@.len() == r,
            forall|i: int| 0 <= i < r ==> (#[trigger] cells@[i])@.len() == ncols,
            forall|i: int, c: int| 0 <= i < r && 0 <= c < ncols ==> (#[trigger] cells@[i]@[c]) == cell_of(ns, ps[i], c),
        decreases paths@.len() - r,
    {
        assert(paths@[r as int]@ == ps[r as int]);
        let row = path_cells(g, &paths[r], ncols);
        cells.push(row);
        r = r + 1;
    }
    let nrows = paths.len();
    // widths
    let mut w: Vec<usize> = Vec::new();
    let mut c: usize = 0;
    while c < ncols
        invariant
            g.wf(),
            ns == g.nodes@,
            nrows == ps.len(),
            cells@.len() == nrows,
            forall|i: int| 0 <= i < nrows ==> (#[trigger] cells@[i])@.len() == ncols,
            forall|i: int, c: int| 0 <= i < nrows && 0 <= c < ncols ==> (#[trigger] cells@[i]@[c]) == cell_of(ns, ps[i], c),
            forall|i: int, j: int| 0 <= i < ps.len() && 0 <= j < ps[i].len() ==> (#[trigger] ps[i][j]) < ns.len(),
            c <= ncols,
            w@.len() == c,
            forall|k: int| 0 <= k < c ==> (#[trigger] w@[k]) == col_width(ns, ps, *b, k, nrows as int),
        decreases ncols - c,
    {
        let mut m: usize = 0;
        let mut i: usize = 0;
        while i < nrows
            invariant
                g.wf(),
                ns == g.nodes@,
                nrows == ps.len(),
                cells@.len() == nrows,
                forall|i: int| 0 <= i < nrows ==> (#[trigger] cells@[i])@.len() == ncols,
                forall|i: int, c: int| 0 <= i < nrows && 0 <= c < ncols ==> (#[trigger] cells@[i]@[c]) == cell_of(ns, ps[i], c),
                forall|i: int, j: int| 0 <= i < ps.len() && 0 <= j < ps[i].len() ==> (#[trigger] ps[i][j]) < ns.len(),
                c < ncols,
                i <= nrows,
                m == col_width(ns, ps, *b, c as int, i as int),
            decreases nrows - i,
        {
            match cells[i][c] {
                Some(id) => {
                    proof {
                        lemma_cell_in(ns, ps[i as int], c as int);
                    }
                    let l = label_of(g, id, b);
                    let n = char_count(&l);
                    if n > m {
                        m = n;
                    }
                },
                None => {},
            }
            i = i + 1;
        }
        w.push(m);
        c = c + 1;
    }
    // header
    let mut out = String::new();
    let title = crate::render::pretty_name(g.name.as_str());
    out.append(title.as_str());
    push_char(&mut out, '\n');
    let ghost o1 = out@;
    let mut k: usize = 0;
    while k < g.nodes.len()
        invariant
            g.wf(),
            ns == g.nodes@,
            k <= ns.len(),
            out@ == o1 + strips_upto(ns, k as int),
        decreases ns.len() - k,
    {
        let n = &g.nodes[k];
        assert(node_ok(ns[k as int], k as int));
        if n.is_equipment_prep(g) {
            push_strip(&mut out, n);
        }
        assert(out@ =~= o1 + strips_upto(ns, k + 1));
        k = k + 1;
    }
    push_char(&mut out, '\n');
    let ghost o2 = out@;
    // rows
    let mut r: usize = 0;
    while r < nrows
        invariant
            g.wf(),
            ns == g.nodes@,
            nrows == ps.len(),
            cells@.len() == nrows,
            forall|i: int| 0 <= i < nrows ==> (#[trigger] cells@[i])@.len() == ncols,
            forall|i: int, c: int| 0 <= i < nrows && 0 <= c < ncols ==> (#[trigger] cells@[i]@[c]) == cell_of(ns, ps[i], c),
            forall|i: int, j: int| 0 <= i < ps.len() && 0 <= j < ps[i].len() ==> (#[trigger] ps[i][j]) < ns.len(),
            w@.len() == ncols,
            forall|k: int| 0 <= k < ncols ==> (#[trigger] w@[k]) == col_width(ns, ps, *b, k, nrows as int),
            r <= nrows,
            out@ == o2 + grid_lines(ns, ps, *b, ncols as int, r as int),
        decreases nrows - r,
    {
        let mut line = String::new();
        let mut c: usize = 0;
        while c < ncols
            invariant
                g.wf(),
                ns == g.nodes@,
                nrows == ps.len(),
                cells@.len() == nrows,
                forall|i: int| 0 <= i < nrows ==> (#[trigger] cells@[i])@.len() == ncols,
                forall|i: int, c: int| 0 <= i < nrows && 0 <= c < ncols ==> (#[trigger] cells@[i]@[c]) == cell_of(ns, ps[i], c),
                forall|i: int, j: int| 0 <= i < ps.len() && 0 <= j < ps[i].len() ==> (#[trigger] ps[i][j]) < ns.len(),
                w@.len() == ncols,
                forall|k: int| 0 <= k < ncols ==> (#[trigger] w@[k]) == col_width(ns, ps, *b, k, nrows as int),
                r < nrows,
                c <= ncols,
                line@ == row_cols(ns, ps, *b, r as int, ncols as int, c as int),
            decreases ncols - c,
        {
            let text = match cells[r][c] {
                Some(id) => {
                    let cont = if r > 0 {
                        match cells[r - 1][c] {
                            Some(j) => j == id,
                            None => false,
                        }
                    } else {
                        false
                    };
                    if cont {
                        String::new()
                    } else {
                        proof {
                            lemma_cell_in(ns, ps[r as int], c as int);
                        }
                        label_of(g, id, b)
                    }
                },
                None => String::new(),
            };
            assert(text@ == cell_text(ns, ps, *b, r as int, c as int));
            let len = char_count(&text);
            line.append(text.as_str());
            if len < w[c] {
                push_spaces(&mut line, w[c] - len);
            }
            if c + 1 < ncols {
                push_char(&mut line, ' ');
                push_char(&mut line, ' ');
            }
            assert(line@ =~= row_cols(ns, ps, *b, r as int, ncols as int, c + 1));
            c = c + 1;
        }
        let cs = crate::text::chars_of(line.as_str());
        let e = crate::text::skip_ws_backward(cs.as_slice(), 0, cs.len());
        proof {
            crate::text::lemma_skip_back_bounds(cs@, 0, cs@.len() as int);
        }
        crate::text::push_range(&mut out, cs.as_slice(), 0, e);
        push_char(&mut out, '\n');
        assert(cs@.subrange(0, e as int) =~= trim_end(line@));
        assert(out@ =~= o2 + grid_lines(ns, ps, *b, ncols as int, r + 1));
        r = r + 1;
    }
    out
}

proof fn lemma_max_depth_le(ns: Seq<Node>, k: int)
    requires
        crate::model::nodes_ok(ns),
        0 <= k <= ns.len(),
    ensures
        k > 0 ==> crate::model::max_depth_upto(ns, k) < k,
    decreases k,
{
    if k > 0 {
        lemma_max_depth_le(ns, k - 1);
        lemma_depth_le(ns, k - 1);
        assert(crate::model::max_depth_upto(ns, 0) == 0);
        assert(crate::model::max_depth_upto(ns, k) == (if depth_of(ns, k - 1) > crate::model::max_depth_upto(ns, k - 1) {
            depth_of(ns, k - 1)
        } else {
            crate::model::max_depth_upto(ns, k - 1)
        }));
    }
}

proof fn lemma_depth_le(ns: Seq<Node>, id: int)
    requires
        crate::model::nodes_ok(ns),
        0 <= id,
    ensures
        depth_of(ns, id) <= id,
    decreases id, 1nat, 0int,
{
    if 0 <= id < ns.len() && ns[id].inputs@.len() > 0 {
        assert(node_ok(ns[id], id));
        assert(ns[id].inputs@[0] < id);
        lemma_max_input_le(ns, id, ns[id].inputs@.len() as int);
    }
}

proof fn lemma_max_input_le(ns: Seq<Node>, id: int, k: int)
    requires
        crate::model::nodes_ok(ns),
        0 <= id,
    ensures
        crate::model::max_input_depth(ns, id, k) < id || crate::model::max_input_depth(ns, id, k) == 0,
    decreases id, 0nat, k,
{
    if 0 <= id < ns.len() && 0 < k <= ns[id].inputs@.len() {
        lemma_max_input_le(ns, id, k - 1);
        let inp = ns[id].inputs@[k - 1] as int;
        if inp < id {
            lemma_depth_le(ns, inp);
        }
    }
}

/// A cell's node lies on its path.
proof fn lemma_cell_in(ns: Seq<Node>, path: Seq<usize>, c: int)
    ensures
        cell_of(ns, path, c) matches Some(id) ==> exists|j: int| 0 <= j < path.len() && path[j] == id,
    decreases path.len(),
{
    if path.len() > 0 && depth_of(ns, path.last() as int) != c {
        lemma_cell_in(ns, path.drop_last(), c);
        if let Some(id) = cell_of(ns, path.drop_last(), c) {
            let j = choose|j: int| 0 <= j < path.drop_last().len() && path.drop_last()[j] == id;
            assert(path[j] == id);
        }
    } else if path.len() > 0 {
        assert(path[path.len() - 1] == path.last());
    }
}

/// Every node on a path from `id` is a node of the graph.
proof fn lemma_paths_in_range(ns: Seq<Node>, id: int)
    requires
        crate::model::nodes_ok(ns),
        0 <= id < ns.len(),
    ensures
        forall|i: int, j: int|
            0 <= i < paths_of(ns, id).len() && 0 <= j < paths_of(ns, id)[i].len() ==> (#[trigger] paths_of(ns, id)[i][j]) < ns.len(),
    decreases id, 1nat, 0int,
{
    let ins = kept(ns, ns[id].inputs@);
    if ins.len() > 0 {
        lemma_paths_in_in_range(ns, id, ins.len() as int);
        assert(paths_of(ns, id) == paths_in(ns, id, ins.len() as int));
    } else {
        assert(paths_of(ns, id) == seq![seq![id as usize]]);
        assert forall|i: int, j: int|
            0 <= i < paths_of(ns, id).len() && 0 <= j < paths_of(ns, id)[i].len() implies (#[trigger] paths_of(ns, id)[i][j]) < ns.len() by {
            assert(paths_of(ns, id)[i] == seq![id as usize]);
        }
    }
}

proof fn lemma_paths_in_in_range(ns: Seq<Node>, id: int, k: int)
    requires
        crate::model::nodes_ok(ns),
        0 <= id < ns.len(),
        0 <= k <= kept(ns, ns[id].inputs@).len(),
    ensures
        forall|i: int, j: int|
            0 <= i < paths_in(ns, id, k).len() && 0 <= j < paths_in(ns, id, k)[i].len() ==> (#[trigger] paths_in(ns, id, k)[i][j]) < ns.len(),
    decreases id, 0nat, k,
{
    if k > 0 {
        lemma_paths_in_in_range(ns, id, k - 1);
        let inp = kept(ns, ns[id].inputs@)[k - 1] as int;
        let prev = paths_in(ns, id, k - 1);
        if 0 <= inp < id {
            lemma_paths_in_range(ns, inp);
            let sub = prefix_all(id as usize, paths_of(ns, inp));
            assert forall|i: int, j: int|
                0 <= i < paths_in(ns, id, k).len() && 0 <= j < paths_in(ns, id, k)[i].len() implies (#[trigger] paths_in(ns, id, k)[i][j]) < ns.len() by {
                if i >= prev.len() {
                    let q = i - prev.len();
                    assert(paths_in(ns, id, k)[i] == sub[q]);
                    if j > 0 {
                        assert(sub[q][j] == paths_of(ns, inp)[q][j - 1]);
                    }
                } else {
                    assert(paths_in(ns, id, k)[i] == prev[i]);
                }
            }
        } else {
            assert(paths_in(ns, id, k) =~= prev);
        }
    }
}

/// Renders a recipe as the depth-column grid. A recipe needs a binding to
/// have a terminal to start from.
pub fn grid_table(r: &Recipe) -> (out: String)
    requires
        r.bindings@.len() > 0,
    ensures
        exists|g: Graph, b: BasisTable|
            #![trigger g.wf(), b.spec_entries()]
            g.wf() && g.nodes@.len() > 0 && g.name@ == r.name@ && crate::model::nodes_view(g.nodes@)
                == crate::model::spec_build(*r).0 && g.terminal == crate::model::spec_build(*r).1 && b.spec_entries() == crate::basis::bases_table(r.bases@)
                && out@ == grid_s(g.nodes@, g.name@, g.terminal as int, b),
        forall|g: Graph, b: BasisTable|
            #![trigger g.wf(), b.spec_entries()]
            g.wf() && g.name@ == r.name@ && crate::model::nodes_view(g.nodes@) == crate::model::spec_build(*r).0
                && g.terminal == crate::model::spec_build(*r).1 && b.spec_entries() == crate::basis::bases_table(r.bases@)
                ==> out@ == grid_s(g.nodes@, g.name@, g.terminal as int, b),
{
    let g = crate::model::build(r);
    let b = BasisTable::from_recipe(r);
    let out = grid_table_of(&g, &b);
    assert forall|g2: Graph, b2: BasisTable|
        #![trigger g2.wf(), b2.spec_entries()]
        g2.wf() && g2.name@ == r.name@ && crate::model::nodes_view(g2.nodes@) == crate::model::spec_build(*r).0
            && g2.terminal == crate::model::spec_build(*r).1 && b2.spec_entries() == crate::basis::bases_table(r.bases@)
            implies out@ == grid_s(g2.nodes@, g2.name@, g2.terminal as int, b2) by {
        law_grid_is_determined(g.nodes@, g2.nodes@, g.name@, g.terminal as int, b, b2);
    }
    out
}

// ─────────────── the grid is a function of the graph's view ───────────────

/// Two node lists that read alike, both numbered by position.
pub open spec fn same_nodes(ns1: Seq<Node>, ns2: Seq<Node>) -> bool {
    &&& crate::model::nodes_ok(ns1)
    &&& crate::model::nodes_ok(ns2)
    &&& crate::model::nodes_view(ns1) == crate::model::nodes_view(ns2)
}

proof fn lemma_node_at(ns1: Seq<Node>, ns2: Seq<Node>, i: int)
    requires
        same_nodes(ns1, ns2),
        0 <= i < ns1.len(),
    ensures
        ns1.len() == ns2.len(),
        ns1[i].inputs@ == ns2[i].inputs@,
        ns1[i].kind == ns2[i].kind,
        ns1[i].label@ == ns2[i].label@,
        crate::model::opt_str(ns1[i].name) == crate::model::opt_str(ns2[i].name),
        ns1[i].timers@ == ns2[i].timers@,
        ns1[i].id == ns2[i].id,
        crate::model::node_view(ns1[i]).amount == crate::model::node_view(ns2[i]).amount,
        crate::uses::derefs(ns1[i].links@) == crate::uses::derefs(ns2[i].links@),
        crate::model::equip_views(ns1[i].equipment@) == crate::model::equip_views(ns2[i].equipment@),
{
    assert(crate::model::nodes_view(ns1).len() == ns1.len());
    assert(crate::model::nodes_view(ns2).len() == ns2.len());
    assert(crate::model::nodes_view(ns1)[i] == crate::model::nodes_view(ns2)[i]);
    assert(crate::model::node_ok(ns1[i], i));
    assert(crate::model::node_ok(ns2[i], i));
}

proof fn lemma_leaves_same(ns1: Seq<Node>, ns2: Seq<Node>, id: int)
    requires
        same_nodes(ns1, ns2),
    ensures
        crate::model::leaves_of(ns1, id) == crate::model::leaves_of(ns2, id),
    decreases id, 1nat, 0int,
{
    assert(crate::model::nodes_view(ns1).len() == ns1.len() && crate::model::nodes_view(ns2).len() == ns2.len());
    if 0 <= id < ns1.len() {
        lemma_node_at(ns1, ns2, id);
        lemma_input_leaves_same(ns1, ns2, id, ns1[id].inputs@.len() as int);
    }
}

proof fn lemma_input_leaves_same(ns1: Seq<Node>, ns2: Seq<Node>, id: int, k: int)
    requires
        same_nodes(ns1, ns2),
    ensures
        crate::model::input_leaves(ns1, id, k) == crate::model::input_leaves(ns2, id, k),
    decreases id, 0nat, k,
{
    assert(crate::model::nodes_view(ns1).len() == ns1.len() && crate::model::nodes_view(ns2).len() == ns2.len());
    if 0 <= id < ns1.len() && 0 < k <= ns1[id].inputs@.len() {
        lemma_node_at(ns1, ns2, id);
        lemma_input_leaves_same(ns1, ns2, id, k - 1);
        let inp = ns1[id].inputs@[k - 1] as int;
        if inp < id {
            lemma_leaves_same(ns1, ns2, inp);
        }
    } else if 0 <= id < ns1.len() {
        lemma_node_at(ns1, ns2, id);
    }
}

proof fn lemma_depth_same(ns1: Seq<Node>, ns2: Seq<Node>, id: int)
    requires
        same_nodes(ns1, ns2),
    ensures
        depth_of(ns1, id) == depth_of(ns2, id),
    decreases id, 1nat, 0int,
{
    assert(crate::model::nodes_view(ns1).len() == ns1.len() && crate::model::nodes_view(ns2).len() == ns2.len());
    if 0 <= id < ns1.len() {
        lemma_node_at(ns1, ns2, id);
        lemma_max_input_same(ns1, ns2, id, ns1[id].inputs@.len() as int);
    }
}

proof fn lemma_max_input_same(ns1: Seq<Node>, ns2: Seq<Node>, id: int, k: int)
    requires
        same_nodes(ns1, ns2),
    ensures
        crate::model::max_input_depth(ns1, id, k) == crate::model::max_input_depth(ns2, id, k),
    decreases id, 0nat, k,
{
    assert(crate::model::nodes_view(ns1).len() == ns1.len() && crate::model::nodes_view(ns2).len() == ns2.len());
    if 0 <= id < ns1.len() {
        lemma_node_at(ns1, ns2, id);
        if 0 < k <= ns1[id].inputs@.len() {
            lemma_max_input_same(ns1, ns2, id, k - 1);
            let inp = ns1[id].inputs@[k - 1] as int;
            if inp < id {
                lemma_depth_same(ns1, ns2, inp);
            }
        }
    }
}

proof fn lemma_max_depth_same(ns1: Seq<Node>, ns2: Seq<Node>, k: int)
    requires
        same_nodes(ns1, ns2),
    ensures
        crate::model::max_depth_upto(ns1, k) == crate::model::max_depth_upto(ns2, k),
    decreases k,
{
    assert(crate::model::nodes_view(ns1).len() == ns1.len() && crate::model::nodes_view(ns2).len() == ns2.len());
    if 0 < k <= ns1.len() {
        lemma_max_depth_same(ns1, ns2, k - 1);
        lemma_depth_same(ns1, ns2, k - 1);
    }
}

proof fn lemma_prep_same(ns1: Seq<Node>, ns2: Seq<Node>, i: int)
    requires
        same_nodes(ns1, ns2),
        0 <= i < ns1.len(),
    ensures
        ns1[i].spec_equipment_prep(ns1) == ns2[i].spec_equipment_prep(ns2),
{
    lemma_node_at(ns1, ns2, i);
    lemma_leaves_same(ns1, ns2, ns1[i].id as int);
}

proof fn lemma_kept_same(ns1: Seq<Node>, ns2: Seq<Node>, ins: Seq<usize>)
    requires
        same_nodes(ns1, ns2),
    ensures
        kept(ns1, ins) == kept(ns2, ins),
    decreases ins.len(),
{
    assert(crate::model::nodes_view(ns1).len() == ns1.len() && crate::model::nodes_view(ns2).len() == ns2.len());
    if ins.len() > 0 {
        lemma_kept_same(ns1, ns2, ins.drop_last());
        let i = ins.last() as int;
        if 0 <= i < ns1.len() {
            lemma_prep_same(ns1, ns2, i);
        }
    }
}

proof fn lemma_paths_same(ns1: Seq<Node>, ns2: Seq<Node>, id: int)
    requires
        same_nodes(ns1, ns2),
    ensures
        paths_of(ns1, id) == paths_of(ns2, id),
    decreases id, 1nat, 0int,
{
    assert(crate::model::nodes_view(ns1).len() == ns1.len() && crate::model::nodes_view(ns2).len() == ns2.len());
    if 0 <= id < ns1.len() {
        lemma_node_at(ns1, ns2, id);
        lemma_kept_same(ns1, ns2, ns1[id].inputs@);
        lemma_paths_in_same(ns1, ns2, id, kept(ns1, ns1[id].inputs@).len() as int);
    }
}

proof fn lemma_paths_in_same(ns1: Seq<Node>, ns2: Seq<Node>, id: int, k: int)
    requires
        same_nodes(ns1, ns2),
    ensures
        paths_in(ns1, id, k) == paths_in(ns2, id, k),
    decreases id, 0nat, k,
{
    assert(crate::model::nodes_view(ns1).len() == ns1.len() && crate::model::nodes_view(ns2).len() == ns2.len());
    if 0 <= id < ns1.len() {
        lemma_node_at(ns1, ns2, id);
        lemma_kept_same(ns1, ns2, ns1[id].inputs@);
        if 0 < k <= kept(ns1, ns1[id].inputs@).len() {
            lemma_paths_in_same(ns1, ns2, id, k - 1);
            let inp = kept(ns1, ns1[id].inputs@)[k - 1] as int;
            if 0 <= inp < id {
                lemma_paths_same(ns1, ns2, inp);
            }
        }
    }
}

proof fn lemma_label_same(ns1: Seq<Node>, ns2: Seq<Node>, id: int, b1: BasisTable, b2: BasisTable)
    requires
        same_nodes(ns1, ns2),
        0 <= id < ns1.len(),
        b1.spec_entries() == b2.spec_entries(),
    ensures
        label_s(ns1, id, b1) == label_s(ns2, id, b2),
{
    lemma_node_at(ns1, ns2, id);
    match ns1[id].amount {
        Some(a) => {
            match *a {
                crate::ast::Amount::Quantity { terms, .. } => {
                    b1.lemma_resolve_terms_by_entries(b2, terms@);
                },
                _ => {},
            }
        },
        None => {},
    }
}

proof fn lemma_cell_same(ns1: Seq<Node>, ns2: Seq<Node>, path: Seq<usize>, c: int)
    requires
        same_nodes(ns1, ns2),
    ensures
        cell_of(ns1, path, c) == cell_of(ns2, path, c),
    decreases path.len(),
{
    if path.len() > 0 {
        lemma_depth_same(ns1, ns2, path.last() as int);
        lemma_cell_same(ns1, ns2, path.drop_last(), c);
    }
}

proof fn lemma_col_width_same(ns1: Seq<Node>, ns2: Seq<Node>, ps: Seq<Seq<usize>>, b1: BasisTable, b2: BasisTable, c: int, k: int)
    requires
        same_nodes(ns1, ns2),
        b1.spec_entries() == b2.spec_entries(),
        forall|r: int, j: int| 0 <= r < ps.len() && 0 <= j < ps[r].len() ==> (#[trigger] ps[r][j]) < ns1.len(),
    ensures
        col_width(ns1, ps, b1, c, k) == col_width(ns2, ps, b2, c, k),
    decreases k,
{
    if 0 < k <= ps.len() {
        lemma_col_width_same(ns1, ns2, ps, b1, b2, c, k - 1);
        lemma_cell_same(ns1, ns2, ps[k - 1], c);
        lemma_cell_in(ns1, ps[k - 1], c);
        if let Some(id) = cell_of(ns1, ps[k - 1], c) {
            let row = ps[k - 1];
            let j = choose|j: int| 0 <= j < row.len() && row[j] == id;
            assert(row[j] < ns1.len());
            lemma_label_same(ns1, ns2, id as int, b1, b2);
        }
    }
}

proof fn lemma_cell_text_same(ns1: Seq<Node>, ns2: Seq<Node>, ps: Seq<Seq<usize>>, b1: BasisTable, b2: BasisTable, r: int, c: int)
    requires
        same_nodes(ns1, ns2),
        b1.spec_entries() == b2.spec_entries(),
        forall|q: int, j: int| 0 <= q < ps.len() && 0 <= j < ps[q].len() ==> (#[trigger] ps[q][j]) < ns1.len(),
        0 <= r < ps.len(),
    ensures
        cell_text(ns1, ps, b1, r, c) == cell_text(ns2, ps, b2, r, c),
{
    lemma_cell_same(ns1, ns2, ps[r], c);
    if r > 0 {
        lemma_cell_same(ns1, ns2, ps[r - 1], c);
    }
    lemma_cell_in(ns1, ps[r], c);
    if let Some(id) = cell_of(ns1, ps[r], c) {
        let row = ps[r];
        let j = choose|j: int| 0 <= j < row.len() && row[j] == id;
        assert(row[j] < ns1.len());
        lemma_label_same(ns1, ns2, id as int, b1, b2);
    }
}

proof fn lemma_row_cols_same(ns1: Seq<Node>, ns2: Seq<Node>, ps: Seq<Seq<usize>>, b1: BasisTable, b2: BasisTable, r: int, ncols: int, k: int)
    requires
        same_nodes(ns1, ns2),
        b1.spec_entries() == b2.spec_entries(),
        forall|q: int, j: int| 0 <= q < ps.len() && 0 <= j < ps[q].len() ==> (#[trigger] ps[q][j]) < ns1.len(),
        0 <= r < ps.len(),
    ensures
        row_cols(ns1, ps, b1, r, ncols, k) == row_cols(ns2, ps, b2, r, ncols, k),
    decreases k,
{
    if k > 0 {
        lemma_row_cols_same(ns1, ns2, ps, b1, b2, r, ncols, k - 1);
        lemma_cell_text_same(ns1, ns2, ps, b1, b2, r, k - 1);
        lemma_col_width_same(ns1, ns2, ps, b1, b2, k - 1, ps.len() as int);
    }
}

proof fn lemma_grid_lines_same(ns1: Seq<Node>, ns2: Seq<Node>, ps: Seq<Seq<usize>>, b1: BasisTable, b2: BasisTable, ncols: int, k: int)
    requires
        same_nodes(ns1, ns2),
        b1.spec_entries() == b2.spec_entries(),
        forall|q: int, j: int| 0 <= q < ps.len() && 0 <= j < ps[q].len() ==> (#[trigger] ps[q][j]) < ns1.len(),
    ensures
        grid_lines(ns1, ps, b1, ncols, k) == grid_lines(ns2, ps, b2, ncols, k),
    decreases k,
{
    if 0 < k <= ps.len() {
        lemma_grid_lines_same(ns1, ns2, ps, b1, b2, ncols, k - 1);
        lemma_row_cols_same(ns1, ns2, ps, b1, b2, k - 1, ncols, ncols);
    }
}

proof fn lemma_strips_same(ns1: Seq<Node>, ns2: Seq<Node>, k: int)
    requires
        same_nodes(ns1, ns2),
    ensures
        strips_upto(ns1, k) == strips_upto(ns2, k),
    decreases k,
{
    assert(crate::model::nodes_view(ns1).len() == ns1.len() && crate::model::nodes_view(ns2).len() == ns2.len());
    if 0 < k <= ns1.len() {
        lemma_strips_same(ns1, ns2, k - 1);
        lemma_prep_same(ns1, ns2, k - 1);
        lemma_node_at(ns1, ns2, k - 1);
        let n1 = ns1[k - 1];
        let n2 = ns2[k - 1];
        assert(crate::uses::derefs(n1.links@).len() == n1.links@.len());
        assert(crate::uses::derefs(n2.links@).len() == n2.links@.len());
        if n1.links@.len() > 0 {
            assert(crate::uses::derefs(n1.links@)[0] == crate::uses::derefs(n2.links@)[0]);
            assert(*n1.links@[0] == *n2.links@[0]);
        }
        let nm1 = match n1.name { Some(x) => x@, None => Seq::<char>::empty() };
        let nm2 = match n2.name { Some(x) => x@, None => Seq::<char>::empty() };
        assert(nm1 == nm2);
        assert(Seq::new(n1.equipment@.len(), |i: int| crate::render::equip_s(n1.equipment@[i])) =~= Seq::new(
            n2.equipment@.len(),
            |i: int| crate::render::equip_s(n2.equipment@[i]),
        )) by {
            assert(crate::model::equip_views(n1.equipment@).len() == n1.equipment@.len());
            assert(crate::model::equip_views(n2.equipment@).len() == n2.equipment@.len());
            assert forall|i: int| 0 <= i < n1.equipment@.len() implies crate::render::equip_s(n1.equipment@[i])
                == crate::render::equip_s(n2.equipment@[i]) by {
                assert(crate::model::equip_views(n1.equipment@)[i] == crate::model::equip_views(n2.equipment@)[i]);
            }
        }
        assert(crate::render::equips_s(n1.equipment@) == crate::render::equips_s(n2.equipment@));
        assert(strip_s(n1) == strip_s(n2));
    }
}

/// The grid of a graph depends only on what its nodes say: two graphs whose
/// nodes read alike, with the same name and terminal, and two basis tables
/// with the same entries give the same grid.
pub proof fn law_grid_is_determined(ns1: Seq<Node>, ns2: Seq<Node>, name: Seq<char>, terminal: int, b1: BasisTable, b2: BasisTable)
    requires
        same_nodes(ns1, ns2),
        b1.spec_entries() == b2.spec_entries(),
    ensures
        grid_s(ns1, name, terminal, b1) == grid_s(ns2, name, terminal, b2),
{
    assert(crate::model::nodes_view(ns1).len() == ns1.len() && crate::model::nodes_view(ns2).len() == ns2.len());
    lemma_paths_same(ns1, ns2, terminal);
    lemma_max_depth_same(ns1, ns2, ns1.len() as int);
    lemma_strips_same(ns1, ns2, ns1.len() as int);
    let ps = paths_of(ns1, terminal);
    if 0 <= terminal < ns1.len() {
        lemma_paths_in_range(ns1, terminal);
    } else {
        assert(ps.len() == 0);
    }
    lemma_grid_lines_same(ns1, ns2, ps, b1, b2, crate::model::max_depth_upto(ns1, ns1.len() as int) + 1int, ps.len() as int);
}

} // verus!
