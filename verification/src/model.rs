//! The recipe graph: a shared model built from a validated AST, consumed by the
//! renderer and the scheduler.
//!
//! Linear consumption makes this a tree rooted at the terminal, except at split
//! points (one op with several named products), which are DAG forks. Nodes are
//! numbered in creation order, and every input of a node has a smaller id, so
//! id order is a topological order of the graph.

use vstd::prelude::*;
use crate::text::views;
use crate::ast::{Amount, Annotation, Arg, Binding, Call, EquipItem, Expr, Link, Output, Recipe, Temp, Timer};

verus! {

/// What a graph node stands for.
#[derive(Debug, Clone, Copy, PartialEq, Eq)]
pub enum NodeKind {
    /// An ingredient leaf.
    Ingredient,
    /// An operation (a verb applied to inputs).
    Op,
    /// A projected product of a split op.
    Product,
    /// A sub-recipe reference leaf.
    SubRecipe,
    /// A passthrough binding (`x = y`).
    Passthrough,
}

/// A piece of equipment an operation uses, with its temperature if given.
#[derive(Debug)]
pub struct EquipUse {
    pub name: String,
    pub temp: Option<Temp>,
}

/// A graph node. Amounts and links point back into the recipe it was built
/// from.
#[derive(Debug)]
pub struct Node<'a> {
    pub id: usize,
    pub name: Option<String>,
    /// Display label: the verb, ingredient name, or `<+path>`.
    pub label: String,
    pub kind: NodeKind,
    pub inputs: Vec<usize>,
    pub amount: Option<&'a Amount>,
    pub qualifier: Option<String>,
    pub timers: Vec<Timer>,
    pub temp: Option<Temp>,
    pub flags: Vec<String>,
    pub docs: Vec<String>,
    pub links: Vec<&'a Link>,
    pub equipment: Vec<EquipUse>,
    pub is_terminal: bool,
}

/// The recipe graph.
#[derive(Debug)]
pub struct Graph<'a> {
    pub name: String,
    pub nodes: Vec<Node<'a>>,
    pub terminal: usize,
}

/// Node `n` sits at index `i` and all its inputs come before it.
pub open spec fn node_ok(n: Node, i: int) -> bool {
    &&& n.id == i
    &&& forall|j: int| 0 <= j < n.inputs@.len() ==> (#[trigger] n.inputs@[j]) < i
}

pub open spec fn nodes_ok(ns: Seq<Node>) -> bool {
    forall|i: int| 0 <= i < ns.len() ==> node_ok(#[trigger] ns[i], i)
}

/// The longest path from any leaf under `id`: 0 for a node without inputs,
/// else one more than the deepest input.
pub open spec fn depth_of(ns: Seq<Node>, id: int) -> nat
    decreases id, 1nat, 0int,
{
    if 0 <= id < ns.len() && ns[id].inputs@.len() > 0 {
        1 + max_input_depth(ns, id, ns[id].inputs@.len() as int)
    } else {
        0
    }
}

/// The deepest of the first `k` inputs of node `id`.
pub open spec fn max_input_depth(ns: Seq<Node>, id: int, k: int) -> nat
    decreases id, 0nat, k,
{
    if 0 <= id < ns.len() && 0 < k <= ns[id].inputs@.len() {
        let inp = ns[id].inputs@[k - 1] as int;
        let d = if inp < id {
            depth_of(ns, inp)
        } else {
            0
        };
        let m = max_input_depth(ns, id, k - 1);
        if d > m {
            d
        } else {
            m
        }
    } else {
        0
    }
}

/// Whether a node is a leaf of the ingredient tree (an ingredient or a
/// sub-recipe without inputs).
pub open spec fn is_leaf(n: Node) -> bool {
    (n.kind is Ingredient || n.kind is SubRecipe) && n.inputs@.len() == 0
}

/// The ingredient leaves under `id`, left to right (a leaf shared by several
/// paths appears once per path).
pub open spec fn leaves_of(ns: Seq<Node>, id: int) -> Seq<usize>
    decreases id, 1nat, 0int,
{
    if 0 <= id < ns.len() {
        if is_leaf(ns[id]) {
            seq![id as usize]
        } else {
            input_leaves(ns, id, ns[id].inputs@.len() as int)
        }
    } else {
        Seq::empty()
    }
}

/// The leaves under the first `k` inputs of node `id`.
pub open spec fn input_leaves(ns: Seq<Node>, id: int, k: int) -> Seq<usize>
    decreases id, 0nat, k,
{
    if 0 <= id < ns.len() && 0 < k <= ns[id].inputs@.len() {
        let inp = ns[id].inputs@[k - 1] as int;
        input_leaves(ns, id, k - 1) + if inp < id {
            leaves_of(ns, inp)
        } else {
            Seq::empty()
        }
    } else {
        Seq::empty()
    }
}

/// The deepest node of the graph.
pub open spec fn max_depth_upto(ns: Seq<Node>, k: int) -> nat
    decreases k,
{
    if 0 < k <= ns.len() {
        let d = depth_of(ns, k - 1);
        let m = max_depth_upto(ns, k - 1);
        if d > m {
            d
        } else {
            m
        }
    } else {
        0
    }
}

pub open spec fn timer_is_passive(t: Timer) -> bool {
    t is Passive || t is Unbounded
}

impl<'a> Node<'a> {
    /// Whether this op has no ingredient leaf in its subtree (such nodes
    /// render as equipment-prep header strips).
    pub open spec fn spec_equipment_prep(self, ns: Seq<Node<'a>>) -> bool {
        self.kind is Op && leaves_of(ns, self.id as int).len() == 0
    }

    pub fn is_equipment_prep(&self, g: &Graph<'a>) -> (r: bool)
        requires
            g.wf(),
            self.id < g.nodes@.len(),
        ensures
            r == self.spec_equipment_prep(g.nodes@),
    {
        match self.kind {
            NodeKind::Op => g.subtree_leaves(self.id).len() == 0,
            _ => false,
        }
    }

    /// Whether the node has a passive (`~`) or unbounded (`~?`) timer.
    pub fn has_passive(&self) -> (r: bool)
        ensures
            r == exists|i: int| 0 <= i < self.timers@.len() && timer_is_passive(#[trigger] self.timers@[i]),
    {
        let mut i: usize = 0;
        while i < self.timers.len()
            invariant
                i <= self.timers@.len(),
                forall|k: int| 0 <= k < i ==> !timer_is_passive(#[trigger] self.timers@[k]),
            decreases self.timers@.len() - i,
        {
            match self.timers[i] {
                Timer::Passive(_) | Timer::Unbounded { .. } => {
                    return true;
                },
                _ => {},
            }
            i = i + 1;
        }
        false
    }

    /// Whether the node has an unbounded (`~?`) timer.
    pub fn has_unbounded(&self) -> (r: bool)
        ensures
            r == exists|i: int| 0 <= i < self.timers@.len() && (#[trigger] self.timers@[i]) is Unbounded,
    {
        let mut i: usize = 0;
        while i < self.timers.len()
            invariant
                i <= self.timers@.len(),
                forall|k: int| 0 <= k < i ==> !((#[trigger] self.timers@[k]) is Unbounded),
            decreases self.timers@.len() - i,
        {
            match self.timers[i] {
                Timer::Unbounded { .. } => {
                    return true;
                },
                _ => {},
            }
            i = i + 1;
        }
        false
    }
}

impl<'a> Graph<'a> {
    /// Nodes are numbered by position, inputs come first, and the terminal is
    /// a node whenever there are nodes.
    pub open spec fn wf(self) -> bool {
        &&& nodes_ok(self.nodes@)
        &&& self.nodes@.len() > 0 ==> self.terminal < self.nodes@.len()
    }

    pub fn node(&self, id: usize) -> (r: &Node<'a>)
        requires
            id < self.nodes@.len(),
        ensures
            *r == self.nodes@[id as int],
    {
        &self.nodes[id]
    }

    /// The longest path from any leaf under `id` (its table entry column).
    pub fn depth(&self, id: usize) -> (r: usize)
        requires
            self.wf(),
            id < self.nodes@.len(),
        ensures
            r == depth_of(self.nodes@, id as int),
            r <= id,
        decreases id,
    {
        let n = &self.nodes[id];
        if n.inputs.len() == 0 {
            return 0;
        }
        let ghost ns = self.nodes@;
        proof {
            assert(node_ok(ns[id as int], id as int));
            assert(n.inputs@[0] < id);
        }
        let mut m: usize = 0;
        let mut k: usize = 0;
        while k < n.inputs.len()
            invariant
                self.wf(),
                ns == self.nodes@,
                id < ns.len(),
                *n == ns[id as int],
                k <= n.inputs@.len(),
                m == max_input_depth(ns, id as int, k as int),
                m < id,
            decreases n.inputs@.len() - k,
        {
            let inp = n.inputs[k];
            assert(node_ok(ns[id as int], id as int));
            assert(inp < id);
            let d = self.depth(inp);
            if d > m {
                m = d;
            }
            k = k + 1;
        }
        m + 1
    }

    /// The deepest node of the graph (0 for an empty graph).
    pub fn max_depth(&self) -> (r: usize)
        requires
            self.wf(),
        ensures
            r == max_depth_upto(self.nodes@, self.nodes@.len() as int),
    {
        let mut m: usize = 0;
        let mut i: usize = 0;
        while i < self.nodes.len()
            invariant
                self.wf(),
                i <= self.nodes@.len(),
                m == max_depth_upto(self.nodes@, i as int),
                m <= i,
            decreases self.nodes@.len() - i,
        {
            let d = self.depth(i);
            if d > m {
                m = d;
            }
            i = i + 1;
        }
        m
    }

    /// Ingredient leaves under `id`, in stable order.
    pub fn subtree_leaves(&self, id: usize) -> (r: Vec<usize>)
        requires
            self.wf(),
            id < self.nodes@.len(),
        ensures
            r@ == leaves_of(self.nodes@, id as int),
    {
        let mut out: Vec<usize> = Vec::new();
        self.collect_leaves(id, &mut out);
        assert(out@ =~= leaves_of(self.nodes@, id as int));
        out
    }

    fn collect_leaves(&self, id: usize, out: &mut Vec<usize>)
        requires
            self.wf(),
            id < self.nodes@.len(),
        ensures
            final(out)@ == old(out)@ + leaves_of(self.nodes@, id as int),
        decreases id,
    {
        let n = &self.nodes[id];
        let ghost ns = self.nodes@;
        let leaf = match n.kind {
            NodeKind::Ingredient | NodeKind::SubRecipe => n.inputs.len() == 0,
            _ => false,
        };
        if leaf {
            out.push(id);
            return;
        }
        let ghost o0 = out@;
        let mut k: usize = 0;
        while k < n.inputs.len()
            invariant
                self.wf(),
                ns == self.nodes@,
                id < ns.len(),
                *n == ns[id as int],
                !is_leaf(ns[id as int]),
                k <= n.inputs@.len(),
                out@ == o0 + input_leaves(ns, id as int, k as int),
            decreases n.inputs@.len() - k,
        {
            let inp = n.inputs[k];
            assert(node_ok(ns[id as int], id as int));
            assert(inp < id);
            self.collect_leaves(inp, out);
            assert(out@ =~= o0 + input_leaves(ns, id as int, (k + 1) as int));
            k = k + 1;
        }
    }
}

/// What a graph node says, as plain values.
pub struct NodeV {
    pub name: Option<Seq<char>>,
    pub label: Seq<char>,
    pub kind: NodeKind,
    pub inputs: Seq<usize>,
    pub amount: Option<Amount>,
    pub qualifier: Option<Seq<char>>,
    pub timers: Seq<Timer>,
    pub temp: Option<Temp>,
    pub flags: Seq<Seq<char>>,
    pub docs: Seq<Seq<char>>,
    pub links: Seq<Link>,
    pub equipment: Seq<(Seq<char>, Option<Temp>)>,
    pub is_terminal: bool,
}

pub open spec fn opt_str(o: Option<String>) -> Option<Seq<char>> {
    match o {
        Some(x) => Some(x@),
        None => None,
    }
}

pub open spec fn equip_views(es: Seq<EquipUse>) -> Seq<(Seq<char>, Option<Temp>)> {
    Seq::new(es.len(), |i: int| (es[i].name@, es[i].temp))
}

pub open spec fn node_view(n: Node) -> NodeV {
    NodeV {
        name: opt_str(n.name),
        label: n.label@,
        kind: n.kind,
        inputs: n.inputs@,
        amount: match n.amount {
            Some(a) => Some(*a),
            None => None,
        },
        qualifier: opt_str(n.qualifier),
        timers: n.timers@,
        temp: n.temp,
        flags: views(n.flags@),
        docs: views(n.docs@),
        links: crate::uses::derefs(n.links@),
        equipment: equip_views(n.equipment@),
        is_terminal: n.is_terminal,
    }
}

pub open spec fn nodes_view(ns: Seq<Node>) -> Seq<NodeV> {
    Seq::new(ns.len(), |i: int| node_view(ns[i]))
}

/// A node with a kind and label and nothing else.
pub open spec fn blank_v(kind: NodeKind, label: Seq<char>) -> NodeV {
    NodeV {
        name: None,
        label,
        kind,
        inputs: Seq::empty(),
        amount: None,
        qualifier: None,
        timers: Seq::empty(),
        temp: None,
        flags: Seq::empty(),
        docs: Seq::empty(),
        links: Seq::empty(),
        equipment: Seq::empty(),
        is_terminal: false,
    }
}

/// The builder's state: the nodes so far, and the name map (later entries
/// win).
pub type BState = (Seq<NodeV>, Seq<(Seq<char>, usize)>);

/// Appends a node, recording its name.
pub open spec fn add_v(st: BState, n: NodeV) -> BState {
    (st.0.push(n), match n.name {
        Some(x) => st.1.push((x, st.0.len() as usize)),
        None => st.1,
    })
}

/// The last entry for `name` in a name map.
pub open spec fn find_name(m: Seq<(Seq<char>, usize)>, name: Seq<char>) -> Option<usize>
    decreases m.len(),
{
    if m.len() == 0 {
        None
    } else if m.last().0 == name {
        Some(m.last().1)
    } else {
        find_name(m.drop_last(), name)
    }
}

/// Lowers the arguments of a call in order: nested calls and ingredient
/// leaves add nodes and become inputs, references to known names become
/// inputs, equipment is collected.
pub open spec fn lower_args_v(st: BState, args: Seq<Arg>) -> (BState, Seq<usize>, Seq<(Seq<char>, Option<Temp>)>)
    decreases args, 0int,
{
    if args.len() == 0 {
        (st, Seq::empty(), Seq::empty())
    } else {
        let (s1, ins, eq) = lower_args_v(st, args.drop_last());
        match args.last() {
            Arg::Call(cc) => {
                let (s2, id) = lower_call_v(s1, cc);
                (s2, ins.push(id), eq)
            },
            Arg::Ingredient(i) => {
                let n = NodeV { amount: Some(i.amount), qualifier: opt_str(i.qualifier), ..blank_v(NodeKind::Ingredient, i.name@) };
                (add_v(s1, n), ins.push(s1.0.len() as usize), eq)
            },
            Arg::Equip(e) => (s1, ins, eq.push((e.name@, e.temp))),
            Arg::NodeRef(r) => match find_name(s1.1, r.name@) {
                Some(id) => (s1, ins.push(id), eq),
                None => (s1, ins, eq),
            },
        }
    }
}

/// The equipment list of a call: equipment-state references become inputs.
pub open spec fn items_v(names: Seq<(Seq<char>, usize)>, items: Seq<EquipItem>) -> (Seq<usize>, Seq<(Seq<char>, Option<Temp>)>)
    decreases items.len(),
{
    if items.len() == 0 {
        (Seq::empty(), Seq::empty())
    } else {
        let (ins, eq) = items_v(names, items.drop_last());
        match items.last() {
            EquipItem::Equip(e) => (ins, eq.push((e.name@, e.temp))),
            EquipItem::NodeRef(r) => match find_name(names, r.name@) {
                Some(id) => (ins.push(id), eq),
                None => (ins, eq),
            },
        }
    }
}

/// Lowers a call: its arguments, then its equipment list, then the op node
/// itself (labelled by the verb).
pub open spec fn lower_call_v(st: BState, c: Call) -> (BState, usize)
    decreases c.args@, 1int,
{
    let (s1, ins, eq) = lower_args_v(st, c.args@);
    let (ins2, eq2) = items_v(s1.1, c.equipment@);
    let n = NodeV { inputs: ins + ins2, equipment: eq + eq2, ..blank_v(NodeKind::Op, c.verb@) };
    (add_v(s1, n), s1.0.len() as usize)
}

/// Lowers a binding's value: a call, a sub-recipe leaf, or a reference (a
/// dangling one becomes an ingredient leaf).
pub open spec fn lower_expr_v(st: BState, e: Expr) -> (BState, usize) {
    match e {
        Expr::Call(c) => lower_call_v(st, c),
        Expr::SubRef(s) => {
            let n = NodeV { amount: s.amount, ..blank_v(NodeKind::SubRecipe, spec_sub_label(s.path@)) };
            (add_v(st, n), st.0.len() as usize)
        },
        Expr::NodeRef(r) => match find_name(st.1, r.name@) {
            Some(id) => (st, id),
            None => (add_v(st, blank_v(NodeKind::Ingredient, r.name@)), st.0.len() as usize),
        },
    }
}

/// A node carrying a binding's annotations.
pub open spec fn annotate(n: NodeV, anns: Seq<Annotation>) -> NodeV {
    NodeV {
        timers: ann_timers(anns),
        temp: ann_temp(anns),
        flags: ann_flags(anns),
        docs: ann_docs(anns),
        links: ann_links(anns),
        ..n
    }
}

/// A node given a binding's annotations, a new name when there is one, and
/// the terminal mark when `mark` holds.
pub open spec fn annotated_v(n: NodeV, anns: Seq<Annotation>, name: Option<Seq<char>>, mark: bool) -> NodeV {
    NodeV {
        name: match name {
            Some(x) => Some(x),
            None => n.name,
        },
        is_terminal: mark || n.is_terminal,
        ..annotate(n, anns)
    }
}

/// The product nodes of a split, one per output, each fed by the op; with
/// the id of the last one.
pub open spec fn products_v(st: BState, root: usize, outs: Seq<Output>, is_last: bool) -> (BState, Option<usize>)
    decreases outs.len(),
{
    if outs.len() == 0 {
        (st, None)
    } else {
        let (s1, _) = products_v(st, root, outs.drop_last(), is_last);
        let o = outs.last();
        let p = NodeV { name: Some(o.name@), inputs: seq![root], is_terminal: is_last, ..blank_v(NodeKind::Product, o.name@) };
        (add_v(s1, p), Some(s1.0.len() as usize))
    }
}

/// One binding: its value's node takes the binding's name and annotations
/// (and becomes the terminal if the binding is the last); a split keeps the
/// op's name, takes the annotations, and adds a product per output.
pub open spec fn binding_v(st: (BState, usize), b: Binding, is_last: bool) -> (BState, usize) {
    let (s1, root) = lower_expr_v(st.0, b.value);
    let anns = b.annotations@;
    if b.outputs@.len() == 1 {
        let o = b.outputs@[0];
        let n2 = annotated_v(s1.0[root as int], anns, Some(o.name@), is_last);
        ((s1.0.update(root as int, n2), s1.1.push((o.name@, root))), if is_last {
            root
        } else {
            st.1
        })
    } else {
        let s2 = (s1.0.update(root as int, annotated_v(s1.0[root as int], anns, None, false)), s1.1);
        let (s3, lastp) = products_v(s2, root, b.outputs@, is_last);
        (s3, if is_last && lastp is Some {
            lastp.unwrap()
        } else {
            st.1
        })
    }
}

/// The first `k` bindings, in order.
pub open spec fn build_v(bs: Seq<Binding>, k: int) -> (BState, usize)
    decreases k,
{
    if k <= 0 || k > bs.len() {
        ((Seq::empty(), Seq::empty()), 0)
    } else {
        binding_v(build_v(bs, k - 1), bs[k - 1], k == bs.len())
    }
}

/// The graph of a recipe: its nodes and its terminal.
pub open spec fn spec_build(r: Recipe) -> (Seq<NodeV>, usize) {
    let (st, t) = build_v(r.bindings@, r.bindings@.len() as int);
    (st.0, t)
}

pub open spec fn names_view(m: Seq<(String, usize)>) -> Seq<(Seq<char>, usize)> {
    Seq::new(m.len(), |i: int| (m[i].0@, m[i].1))
}

struct Builder<'a> {
    nodes: Vec<Node<'a>>,
    by_name: Vec<(String, usize)>,
}

impl<'a> Builder<'a> {
    spec fn wf(self) -> bool {
        &&& nodes_ok(self.nodes@)
        &&& forall|k: int| 0 <= k < self.by_name@.len() ==> (#[trigger] self.by_name@[k]).1 < self.nodes@.len()
    }

    spec fn state(self) -> BState {
        (nodes_view(self.nodes@), names_view(self.by_name@))
    }

    fn lookup(&self, name: &String) -> (r: Option<usize>)
        requires
            self.wf(),
        ensures
            r == find_name(names_view(self.by_name@), name@),
            r matches Some(id) ==> id < self.nodes@.len(),
    {
        let ghost m = names_view(self.by_name@);
        let mut i: usize = self.by_name.len();
        assert(m.take(i as int) =~= m);
        while i > 0
            invariant
                self.wf(),
                m == names_view(self.by_name@),
                i <= self.by_name@.len(),
                find_name(m, name@) == find_name(m.take(i as int), name@),
            decreases i,
        {
            let ghost t = m.take(i as int);
            assert(t.drop_last() =~= m.take(i - 1));
            if self.by_name[i - 1].0 == *name {
                return Some(self.by_name[i - 1].1);
            }
            i = i - 1;
        }
        None
    }

    /// Appends a node, numbering it, and records its name.
    fn add(&mut self, n: Node<'a>) -> (id: usize)
        requires
            old(self).wf(),
            forall|j: int| 0 <= j < n.inputs@.len() ==> (#[trigger] n.inputs@[j]) < old(self).nodes@.len(),
        ensures
            final(self).wf(),
            id == old(self).nodes@.len(),
            final(self).nodes@.len() == old(self).nodes@.len() + 1,
            final(self).state() == add_v(old(self).state(), node_view(n)),
    {
        let id = self.nodes.len();
        let mut n = n;
        n.id = id;
        match &n.name {
            Some(name) => {
                self.by_name.push((name.clone(), id));
            },
            None => {},
        }
        self.nodes.push(n);
        assert(node_ok(self.nodes@[id as int], id as int));
        assert forall|i: int| 0 <= i < self.nodes@.len() implies node_ok(#[trigger] self.nodes@[i], i) by {
            if i < id {
                assert(self.nodes@[i] == old(self).nodes@[i]);
            }
        }
        assert(nodes_view(self.nodes@) =~= nodes_view(old(self).nodes@).push(node_view(n)));
        assert(names_view(self.by_name@) =~= add_v(old(self).state(), node_view(n)).1);
        id
    }

    fn blank(kind: NodeKind, label: String) -> (n: Node<'a>)
        ensures
            node_view(n) == blank_v(kind, label@),
            n.inputs@.len() == 0,
    {
        let n = Node {
            id: 0,
            name: None,
            label,
            kind,
            inputs: Vec::new(),
            amount: None,
            qualifier: None,
            timers: Vec::new(),
            temp: None,
            flags: Vec::new(),
            docs: Vec::new(),
            links: Vec::new(),
            equipment: Vec::new(),
            is_terminal: false,
        };
        assert(views(n.flags@) =~= Seq::<Seq<char>>::empty());
        assert(views(n.docs@) =~= Seq::<Seq<char>>::empty());
        assert(crate::uses::derefs(n.links@) =~= Seq::<Link>::empty());
        assert(equip_views(n.equipment@) =~= Seq::<(Seq<char>, Option<Temp>)>::empty());
        assert(node_view(n) =~~= blank_v(kind, label@));
        n
    }

    /// Lowers an expression, returning the id of its root op or leaf.
    fn lower_expr(&mut self, e: &'a Expr) -> (id: usize)
        requires
            old(self).wf(),
        ensures
            final(self).wf(),
            id < final(self).nodes@.len(),
            (final(self).state(), id) == lower_expr_v(old(self).state(), *e),
            final(self).nodes@.len() >= old(self).nodes@.len(),
    {
        match e {
            Expr::Call(c) => self.lower_call(c),
            Expr::SubRef(s) => {
                let label = sub_label(&s.path);
                let mut n = Self::blank(NodeKind::SubRecipe, label);
                n.amount = match &s.amount {
                    Some(a) => Some(a),
                    None => None,
                };
                assert(node_view(n) =~~= NodeV { amount: s.amount, ..blank_v(NodeKind::SubRecipe, spec_sub_label(s.path@)) });
                self.add(n)
            },
            Expr::NodeRef(r) => {
                match self.lookup(&r.name) {
                    Some(id) => id,
                    None => {
                        // dangling ref (invalid recipe); represent it as a leaf
                        let n = Self::blank(NodeKind::Ingredient, r.name.clone());
                        self.add(n)
                    },
                }
            },
        }
    }

    fn lower_call(&mut self, c: &'a Call) -> (id: usize)
        requires
            old(self).wf(),
        ensures
            final(self).wf(),
            id < final(self).nodes@.len(),
            (final(self).state(), id) == lower_call_v(old(self).state(), *c),
            final(self).nodes@.len() >= old(self).nodes@.len(),
        decreases c.args@,
    {
        let ghost st0 = self.state();
        let mut inputs: Vec<usize> = Vec::new();
        let mut equipment: Vec<EquipUse> = Vec::new();
        let mut i: usize = 0;
        while i < c.args.len()
            invariant
                self.wf(),
                i <= c.args@.len(),
                forall|j: int| 0 <= j < inputs@.len() ==> (#[trigger] inputs@[j]) < self.nodes@.len(),
                (self.state(), inputs@, equip_views(equipment@)) == lower_args_v(st0, c.args@.take(i as int)),
                self.nodes@.len() >= st0.0.len(),
            decreases c.args@.len() - i,
        {
            let ghost t = c.args@.take(i + 1);
            assert(t.drop_last() =~= c.args@.take(i as int));
            assert(t.last() == c.args@[i as int]);
            let ghost ev0 = equip_views(equipment@);
            match &c.args[i] {
                Arg::Call(cc) => {
                    assert(decreases_to!(c.args@ => cc.args@)) by {
                        assert(decreases_to!(c.args@ => c.args@[i as int]));
                    }
                    let id = self.lower_call(cc);
                    inputs.push(id);
                },
                Arg::Ingredient(ing) => {
                    let mut n = Self::blank(NodeKind::Ingredient, ing.name.clone());
                    n.amount = Some(&ing.amount);
                    n.qualifier = match &ing.qualifier {
                        Some(q) => Some(q.clone()),
                        None => None,
                    };
                    assert(node_view(n) =~~= NodeV {
                        amount: Some(ing.amount),
                        qualifier: opt_str(ing.qualifier),
                        ..blank_v(NodeKind::Ingredient, ing.name@)
                    });
                    let id = self.add(n);
                    inputs.push(id);
                },
                Arg::Equip(e) => {
                    equipment.push(EquipUse { name: e.name.clone(), temp: e.temp });
                    assert(equip_views(equipment@) =~= ev0.push((e.name@, e.temp)));
                },
                Arg::NodeRef(r) => {
                    match self.lookup(&r.name) {
                        Some(id) => {
                            inputs.push(id);
                        },
                        None => {},
                    }
                },
            }
            i = i + 1;
        }
        assert(c.args@.take(c.args@.len() as int) =~= c.args@);
        let ghost s1 = self.state();
        let ghost ins1 = inputs@;
        let ghost eq1 = equip_views(equipment@);
        let mut i: usize = 0;
        while i < c.equipment.len()
            invariant
                self.wf(),
                self.state() == s1,
                i <= c.equipment@.len(),
                forall|j: int| 0 <= j < inputs@.len() ==> (#[trigger] inputs@[j]) < self.nodes@.len(),
                inputs@ == ins1 + items_v(s1.1, c.equipment@.take(i as int)).0,
                equip_views(equipment@) == eq1 + items_v(s1.1, c.equipment@.take(i as int)).1,
            decreases c.equipment@.len() - i,
        {
            let ghost t = c.equipment@.take(i + 1);
            assert(t.drop_last() =~= c.equipment@.take(i as int));
            assert(t.last() == c.equipment@[i as int]);
            let ghost ev0 = equip_views(equipment@);
            match &c.equipment[i] {
                EquipItem::Equip(e) => {
                    equipment.push(EquipUse { name: e.name.clone(), temp: e.temp });
                    assert(equip_views(equipment@) =~= ev0.push((e.name@, e.temp)));
                },
                EquipItem::NodeRef(r) => {
                    // an equipment-state node is a dependency
                    match self.lookup(&r.name) {
                        Some(id) => {
                            inputs.push(id);
                        },
                        None => {},
                    }
                },
            }
            assert(inputs@ =~= ins1 + items_v(s1.1, t).0);
            assert(equip_views(equipment@) =~= eq1 + items_v(s1.1, t).1);
            i = i + 1;
        }
        assert(c.equipment@.take(c.equipment@.len() as int) =~= c.equipment@);
        let mut n = Self::blank(NodeKind::Op, c.verb.clone());
        n.inputs = inputs;
        n.equipment = equipment;
        assert(node_view(n) =~~= NodeV {
            inputs: ins1 + items_v(s1.1, c.equipment@).0,
            equipment: eq1 + items_v(s1.1, c.equipment@).1,
            ..blank_v(NodeKind::Op, c.verb@)
        });
        self.add(n)
    }
}

impl<'a> Builder<'a> {
    /// Gives node `root` a binding's annotations, a new name when there is
    /// one, and the terminal mark when `mark` holds.
    fn annotate_node(&mut self, root: usize, anns: &'a Vec<Annotation>, name: Option<String>, mark: bool)
        requires
            old(self).wf(),
            root < old(self).nodes@.len(),
        ensures
            final(self).wf(),
            final(self).nodes@.len() == old(self).nodes@.len(),
            final(self).by_name@ == old(self).by_name@,
            final(self).state().0 == old(self).state().0.update(
                root as int,
                annotated_v(old(self).state().0[root as int], anns@, opt_str(name), mark),
            ),
    {
        let sp = split_annotations(anns);
        let ghost old_nodes = self.nodes@;
        let ghost nv = node_view(old_nodes[root as int]);
        let n = &mut self.nodes[root];
        n.timers = sp.timers;
        n.temp = sp.temp;
        n.flags = sp.flags;
        n.docs = sp.docs;
        n.links = sp.links;
        match name {
            Some(x) => {
                n.name = Some(x);
            },
            None => {},
        }
        if mark {
            n.is_terminal = true;
        }
        proof {
            let ns = self.nodes@;
            assert(node_view(ns[root as int]) =~~= annotated_v(nv, anns@, opt_str(name), mark));
            assert forall|i: int| 0 <= i < ns.len() implies node_ok(#[trigger] ns[i], i) by {
                assert(node_ok(old_nodes[i], i));
                if i != root {
                    assert(ns[i] == old_nodes[i]);
                }
            }
            assert(nodes_view(ns) =~= nodes_view(old_nodes).update(root as int, node_view(ns[root as int])));
        }
    }
}

/// `<+a/b>` for a sub-recipe path.
pub open spec fn spec_sub_label(path: Seq<String>) -> Seq<char> {
    seq!['<', '+'] + join_path(path) + seq!['>']
}

/// Path segments joined with `/`.
pub open spec fn join_path(path: Seq<String>) -> Seq<char>
    decreases path.len(),
{
    if path.len() == 0 {
        Seq::empty()
    } else if path.len() == 1 {
        path[0]@
    } else {
        join_path(path.drop_last()) + seq!['/'] + path.last()@
    }
}

/// The display label of a sub-recipe reference.
pub fn sub_label(path: &Vec<String>) -> (r: String)
    ensures
        r@ == spec_sub_label(path@),
{
    let mut out = String::new();
    crate::text::push_char(&mut out, '<');
    crate::text::push_char(&mut out, '+');
    let ghost o0 = out@;
    let mut i: usize = 0;
    while i < path.len()
        invariant
            i <= path@.len(),
            o0 == seq!['<', '+'],
            out@ == o0 + join_path(path@.take(i as int)),
        decreases path@.len() - i,
    {
        let ghost before = out@;
        if i > 0 {
            crate::text::push_char(&mut out, '/');
        }
        out.append(path[i].as_str());
        proof {
            let t = path@.take(i + 1);
            assert(t.drop_last() =~= path@.take(i as int));
            if i == 0 {
                assert(join_path(t) == t[0]@);
                assert(join_path(path@.take(0)) =~= Seq::<char>::empty());
            }
        }
        assert(out@ =~= o0 + join_path(path@.take(i + 1)));
        i = i + 1;
    }
    crate::text::push_char(&mut out, '>');
    assert(path@.take(path@.len() as int) =~= path@);
    assert(out@ =~= spec_sub_label(path@));
    out
}

/// The timers of an annotation list, in order.
pub open spec fn ann_timers(anns: Seq<Annotation>) -> Seq<Timer>
    decreases anns.len(),
{
    if anns.len() == 0 {
        Seq::empty()
    } else {
        let prev = ann_timers(anns.drop_last());
        match anns.last() {
            Annotation::Timer(t) => prev.push(t),
            _ => prev,
        }
    }
}

/// The last temperature of an annotation list.
pub open spec fn ann_temp(anns: Seq<Annotation>) -> Option<Temp>
    decreases anns.len(),
{
    if anns.len() == 0 {
        None
    } else {
        match anns.last() {
            Annotation::Temp(t) => Some(t),
            _ => ann_temp(anns.drop_last()),
        }
    }
}

/// The flag names of an annotation list.
pub open spec fn ann_flags(anns: Seq<Annotation>) -> Seq<Seq<char>>
    decreases anns.len(),
{
    if anns.len() == 0 {
        Seq::empty()
    } else {
        let prev = ann_flags(anns.drop_last());
        match anns.last() {
            Annotation::Flag { name, .. } => prev.push(name@),
            _ => prev,
        }
    }
}

/// The prose strings of an annotation list.
pub open spec fn ann_docs(anns: Seq<Annotation>) -> Seq<Seq<char>>
    decreases anns.len(),
{
    if anns.len() == 0 {
        Seq::empty()
    } else {
        let prev = ann_docs(anns.drop_last());
        match anns.last() {
            Annotation::Doc { text, .. } => prev.push(text@),
            _ => prev,
        }
    }
}

/// The links of an annotation list.
pub open spec fn ann_links(anns: Seq<Annotation>) -> Seq<Link>
    decreases anns.len(),
{
    if anns.len() == 0 {
        Seq::empty()
    } else {
        let prev = ann_links(anns.drop_last());
        match anns.last() {
            Annotation::Link(l) => prev.push(l),
            _ => prev,
        }
    }
}

/// An annotation list sorted by kind.
pub struct SplitAnns<'a> {
    pub timers: Vec<Timer>,
    pub temp: Option<Temp>,
    pub flags: Vec<String>,
    pub docs: Vec<String>,
    pub links: Vec<&'a Link>,
}

/// Sorts a binding's annotations by kind, keeping their order; of several
/// temperatures the last wins.
pub fn split_annotations<'a>(anns: &'a Vec<Annotation>) -> (r: SplitAnns<'a>)
    ensures
        r.timers@ == ann_timers(anns@),
        r.temp == ann_temp(anns@),
        views(r.flags@) == ann_flags(anns@),
        views(r.docs@) == ann_docs(anns@),
        crate::uses::derefs(r.links@) == ann_links(anns@),
{
    let mut r = SplitAnns {
        timers: Vec::new(),
        temp: None,
        flags: Vec::new(),
        docs: Vec::new(),
        links: Vec::new(),
    };
    let mut i: usize = 0;
    while i < anns.len()
        invariant
            i <= anns@.len(),
            r.timers@ == ann_timers(anns@.take(i as int)),
            r.temp == ann_temp(anns@.take(i as int)),
            views(r.flags@) == ann_flags(anns@.take(i as int)),
            views(r.docs@) == ann_docs(anns@.take(i as int)),
            crate::uses::derefs(r.links@) == ann_links(anns@.take(i as int)),
        decreases anns@.len() - i,
    {
        let ghost t = anns@.take(i + 1);
        assert(t.drop_last() =~= anns@.take(i as int));
        match &anns[i] {
            Annotation::Timer(t) => r.timers.push(*t),
            Annotation::Temp(t) => r.temp = Some(*t),
            Annotation::Flag { name, .. } => {
                r.flags.push(name.clone());
            },
            Annotation::Doc { text, .. } => {
                r.docs.push(text.clone());
            },
            Annotation::Link(l) => {
                proof {
                    crate::uses::lemma_derefs_push(r.links@, l);
                }
                r.links.push(l);
            },
        }
        assert(views(r.flags@) =~= ann_flags(t));
        assert(views(r.docs@) =~= ann_docs(t));
        i = i + 1;
    }
    assert(anns@.take(anns@.len() as int) =~= anns@);
    r
}

/// Builds the graph of a recipe (assumed valid): each binding's value is
/// lowered to nodes, named after the binding and given its annotations; the
/// last binding's node is the terminal.
pub fn build<'a>(r: &'a Recipe) -> (g: Graph<'a>)
    ensures
        g.wf(),
        g.name@ == r.name@,
        r.bindings@.len() > 0 ==> g.nodes@.len() > 0,
        nodes_view(g.nodes@) == spec_build(*r).0,
        g.terminal == spec_build(*r).1,
        r.bindings@.len() > 0 && r.bindings@.last().outputs@.len() > 0 ==> g.terminal < g.nodes@.len()
            && g.nodes@[g.terminal as int].is_terminal && opt_str(g.nodes@[g.terminal as int].name) == Some(
            r.bindings@.last().outputs@.last().name@,
        ),
{
    let mut b = Builder { nodes: Vec::new(), by_name: Vec::new() };
    let count = r.bindings.len();
    let mut terminal: usize = 0;
    let mut idx: usize = 0;
    assert(b.state().0 =~= Seq::<NodeV>::empty());
    assert(b.state().1 =~= Seq::<(Seq<char>, usize)>::empty());
    while idx < count
        invariant
            b.wf(),
            count == r.bindings@.len(),
            idx <= count,
            (b.state(), terminal) == build_v(r.bindings@, idx as int),
            idx > 0 ==> b.nodes@.len() > 0,
            b.nodes@.len() > 0 ==> terminal < b.nodes@.len(),
            idx == count && count > 0 && r.bindings@.last().outputs@.len() > 0 ==> terminal < b.nodes@.len()
                && b.state().0[terminal as int].is_terminal && b.state().0[terminal as int].name == Some(
                r.bindings@.last().outputs@.last().name@,
            ),
        decreases count - idx,
    {
        let binding = &r.bindings[idx];
        let is_last = idx + 1 == count;
        let ghost st0 = (b.state(), terminal);
        let root = b.lower_expr(&binding.value);
        let ghost s1 = b.state();
        if binding.outputs.len() == 1 {
            let o = &binding.outputs[0];
            b.annotate_node(root, &binding.annotations, Some(o.name.clone()), is_last);
            b.by_name.push((o.name.clone(), root));
            proof {
                assert(names_view(b.by_name@) =~= s1.1.push((o.name@, root)));
            }
            if is_last {
                terminal = root;
                proof {
                    assert(binding.outputs@.last() == binding.outputs@[0]);
                    assert(r.bindings@.last() == *binding);
                }
            }
        } else {
            b.annotate_node(root, &binding.annotations, None, false);
            let ghost s2 = b.state();
            let ghost n_before = b.nodes@.len();
            let mut lastp: Option<usize> = None;
            let mut j: usize = 0;
            assert(binding.outputs@.take(0) =~= Seq::<Output>::empty());
            while j < binding.outputs.len()
                invariant
                    b.wf(),
                    root < b.nodes@.len(),
                    j <= binding.outputs@.len(),
                    (b.state(), lastp) == products_v(s2, root, binding.outputs@.take(j as int), is_last),
                    lastp matches Some(p) ==> p < b.nodes@.len() && b.state().0[p as int].is_terminal == is_last
                        && b.state().0[p as int].name == Some(binding.outputs@[j - 1].name@),
                    j > 0 ==> lastp is Some,
                    b.nodes@.len() >= n_before,
                decreases binding.outputs@.len() - j,
            {
                let o = &binding.outputs[j];
                let ghost t = binding.outputs@.take(j + 1);
                assert(t.drop_last() =~= binding.outputs@.take(j as int));
                let mut p = Builder::blank(NodeKind::Product, o.name.clone());
                p.name = Some(o.name.clone());
                let mut ins: Vec<usize> = Vec::new();
                ins.push(root);
                assert(ins@ =~= seq![root]);
                p.inputs = ins;
                p.is_terminal = is_last;
                assert(node_view(p) =~~= NodeV {
                    name: Some(o.name@),
                    inputs: seq![root],
                    is_terminal: is_last,
                    ..blank_v(NodeKind::Product, o.name@)
                });
                let ghost before = b.state();
                let pid = b.add(p);
                proof {
                    assert(b.state().0 == before.0.push(node_view(p)));
                    assert(b.state().0[pid as int] == node_view(p));
                }
                lastp = Some(pid);
                j = j + 1;
            }
            assert(binding.outputs@.take(binding.outputs@.len() as int) =~= binding.outputs@);
            if is_last {
                match lastp {
                    Some(p) => {
                        terminal = p;
                    },
                    None => {},
                }
                proof {
                    assert(r.bindings@.last() == *binding);
                    if binding.outputs@.len() > 0 {
                        assert(binding.outputs@.last() == binding.outputs@[binding.outputs@.len() - 1]);
                    }
                }
            }
        }
        idx = idx + 1;
    }
    proof {
        if count > 0 && r.bindings@.last().outputs@.len() > 0 {
            assert(b.state().0[terminal as int] == node_view(b.nodes@[terminal as int]));
        }
    }
    Graph { name: r.name.clone(), nodes: b.nodes, terminal }
}

/// A node lies deeper than each of its inputs: depth strictly grows along
/// every edge toward the terminal.
pub proof fn law_depth_exceeds_inputs(ns: Seq<Node>, id: int, j: int)
    requires
        nodes_ok(ns),
        0 <= id < ns.len(),
        0 <= j < ns[id].inputs@.len(),
    ensures
        depth_of(ns, id) > depth_of(ns, ns[id].inputs@[j] as int),
{
    assert(node_ok(ns[id], id));
    lemma_max_input_ge(ns, id, ns[id].inputs@.len() as int, j);
}

proof fn lemma_max_input_ge(ns: Seq<Node>, id: int, k: int, j: int)
    requires
        nodes_ok(ns),
        0 <= id < ns.len(),
        0 <= j < k <= ns[id].inputs@.len(),
    ensures
        max_input_depth(ns, id, k) >= depth_of(ns, ns[id].inputs@[j] as int),
    decreases k,
{
    assert(node_ok(ns[id], id));
    assert(ns[id].inputs@[k - 1] < id);
    if j < k - 1 {
        lemma_max_input_ge(ns, id, k - 1, j);
    }
}

/// Everything `subtree_leaves` lists is a leaf: an ingredient or a
/// sub-recipe without inputs.
pub proof fn law_leaves_are_leaves(ns: Seq<Node>, id: int)
    requires
        nodes_ok(ns),
        0 <= id < ns.len(),
    ensures
        forall|k: int|
            0 <= k < leaves_of(ns, id).len() ==> 0 <= #[trigger] leaves_of(ns, id)[k] < ns.len() && is_leaf(
                ns[leaves_of(ns, id)[k] as int],
            ),
    decreases id, 1nat, 0int,
{
    if !is_leaf(ns[id]) {
        lemma_input_leaves_are_leaves(ns, id, ns[id].inputs@.len() as int);
        assert(leaves_of(ns, id) == input_leaves(ns, id, ns[id].inputs@.len() as int));
    } else {
        assert(leaves_of(ns, id) == seq![id as usize]);
        assert((id as usize) as int == id);
    }
}

proof fn lemma_input_leaves_are_leaves(ns: Seq<Node>, id: int, k: int)
    requires
        nodes_ok(ns),
        0 <= id < ns.len(),
        0 <= k <= ns[id].inputs@.len(),
    ensures
        forall|q: int|
            0 <= q < input_leaves(ns, id, k).len() ==> 0 <= #[trigger] input_leaves(ns, id, k)[q] < ns.len() && is_leaf(
                ns[input_leaves(ns, id, k)[q] as int],
            ),
    decreases id, 0nat, k,
{
    if k > 0 {
        lemma_input_leaves_are_leaves(ns, id, k - 1);
        let inp = ns[id].inputs@[k - 1] as int;
        assert(node_ok(ns[id], id));
        assert(inp < id);
        law_leaves_are_leaves(ns, inp);
        let prev = input_leaves(ns, id, k - 1);
        let sub = leaves_of(ns, inp);
        assert(input_leaves(ns, id, k) == prev + sub);
        assert forall|q: int| 0 <= q < input_leaves(ns, id, k).len() implies 0 <= #[trigger] input_leaves(ns, id, k)[q] < ns.len()
            && is_leaf(ns[input_leaves(ns, id, k)[q] as int]) by {
            if q < prev.len() {
                assert(input_leaves(ns, id, k)[q] == prev[q]);
            } else {
                assert(input_leaves(ns, id, k)[q] == sub[q - prev.len()]);
            }
        }
    }
}

} // verus!
