use vstd::prelude::*;

use crate::graph::{top_level, Edge, Graph, GraphView};
use crate::order::{name_order, name_order_exec};
use crate::relationship::Relationship;

verus! {

/// One step of a walk over a graph.
#[derive(Clone, Copy, Debug, PartialEq, Eq, Hash, Structural)]
pub enum Event {
    EnterNode(usize),
    Edge(Relationship, usize, usize),
    LeaveNode(usize),
}

/// Why a walk stopped.
#[derive(Clone, Debug)]
pub enum WalkError {
    /// A requested root is not a present node of the graph.
    UnknownNode(usize),
    /// `node` was reached again through `Owns` edges along `path`.
    StructuralCycle { node: usize, path: Vec<usize> },
}

/// The mathematical content of a `WalkError`.
pub enum WalkFault {
    UnknownNode(usize),
    StructuralCycle(usize, Seq<usize>),
}

impl View for WalkError {
    type V = WalkFault;

    open spec fn view(&self) -> WalkFault {
        match self {
            WalkError::UnknownNode(n) => WalkFault::UnknownNode(*n),
            WalkError::StructuralCycle { node, path } => WalkFault::StructuralCycle(*node, path@),
        }
    }
}

/// The `Uses` edges leaving `v`, from edge `k` on, as events in edge order.
pub open spec fn uses_from(es: Seq<Edge>, v: int, k: int) -> Seq<Event>
    decreases es.len() - k,
{
    if k < 0 || k >= es.len() {
        Seq::empty()
    } else if es[k].kind == Relationship::Uses && es[k].source as int == v {
        seq![Event::Edge(Relationship::Uses, es[k].source, es[k].target)] + uses_from(es, v, k + 1)
    } else {
        uses_from(es, v, k + 1)
    }
}

/// `done` holds the entry of node `t`: `t` was already entered.
pub open spec fn entered(done: Seq<Event>, t: usize) -> bool {
    done.contains(Event::EnterNode(t))
}

/// The events of a walk that enters `v` below the nodes of `path`, in a
/// graph of `n` nodes, after the events `done` of the same walk: `v` is
/// entered, its `Uses` edges are reported, the nodes it owns are walked in
/// edge order, and `v` is left.
pub open spec fn walk_node(
    n: int,
    es: Seq<Edge>,
    order: Seq<usize>,
    v: int,
    path: Seq<usize>,
    done: Seq<Event>,
) -> Result<
    Seq<Event>,
    WalkFault,
>
    decreases n - path.len(), 0int,
{
    if path.len() >= n {
        Err(WalkFault::StructuralCycle(v as usize, path))
    } else {
        let pre = seq![Event::EnterNode(v as usize)] + uses_from(es, v, 0);
        match walk_children(n, es, order, v, path.push(v as usize), done + pre, 0) {
            Err(f) => Err(f),
            Ok(cs) => Ok(pre + cs + seq![Event::LeaveNode(v as usize)]),
        }
    }
}

/// The walks of the nodes that `v` owns through the edges `order[k..]`,
/// one after another, after the events `done`. Reaching through an `Owns` edge a node
/// that was already entered is a structural cycle.
pub open spec fn walk_children(
    n: int,
    es: Seq<Edge>,
    order: Seq<usize>,
    v: int,
    path: Seq<usize>,
    done: Seq<Event>,
    k: int,
) -> Result<Seq<Event>, WalkFault>
    decreases n - path.len(), order.len() - k + 1,
{
    if k < 0 || k >= order.len() {
        Ok(Seq::empty())
    } else if es[order[k] as int].kind == Relationship::Owns && es[order[k] as int].source as int == v {
        let t = es[order[k] as int].target;
        if entered(done, t) {
            Err(WalkFault::StructuralCycle(t, path))
        } else {
            match walk_node(n, es, order, t as int, path, done) {
                Err(f) => Err(f),
                Ok(s) => match walk_children(n, es, order, v, path, done + s, k + 1) {
                    Err(f) => Err(f),
                    Ok(r) => Ok(s + r),
                },
            }
        }
    } else {
        walk_children(n, es, order, v, path, done, k + 1)
    }
}

/// The walks from `roots[k..]`, one after another, after the events `done`.
/// A root must be a present node; a root that was already entered, as an
/// earlier root or below one, is skipped.
pub open spec fn walk_roots(
    n: int,
    live: Seq<bool>,
    es: Seq<Edge>,
    order: Seq<usize>,
    roots: Seq<usize>,
    done: Seq<Event>,
    k: int,
) -> Result<Seq<Event>, WalkFault>
    decreases roots.len() - k,
{
    if k < 0 || k >= roots.len() {
        Ok(Seq::empty())
    } else if roots[k] as int >= n || !live[roots[k] as int] {
        Err(WalkFault::UnknownNode(roots[k]))
    } else if entered(done, roots[k]) {
        walk_roots(n, live, es, order, roots, done, k + 1)
    } else {
        match walk_node(n, es, order, roots[k] as int, Seq::empty(), done) {
            Err(f) => Err(f),
            Ok(s) => match walk_roots(n, live, es, order, roots, done + s, k + 1) {
                Err(f) => Err(f),
                Ok(r) => Ok(s + r),
            },
        }
    }
}

/// The edge indices of `es` in insertion order.
pub open spec fn insertion_order(es: Seq<Edge>) -> Seq<usize> {
    Seq::new(es.len(), |k: int| k as usize)
}

/// The events of a walk of `g` from `roots` that visits children through
/// the edges in `order`.
pub open spec fn walk_ordered_spec(g: GraphView, roots: Seq<usize>, order: Seq<usize>) -> Result<
    Seq<Event>,
    WalkFault,
> {
    walk_roots(g.items.len() as int, g.live, g.edges, order, roots, Seq::empty(), 0)
}

/// The events of a walk of `g` from `roots`, children in insertion order.
pub open spec fn walk_spec(g: GraphView, roots: Seq<usize>) -> Result<Seq<Event>, WalkFault> {
    walk_ordered_spec(g, roots, insertion_order(g.edges))
}

/// The order in which the children of a node are visited.
#[derive(Clone, Copy, Debug, PartialEq, Eq, Hash, Structural)]
pub enum ChildOrder {
    /// In the order their `Owns` edges were inserted.
    Insertion,
    /// By item name, then in insertion order among equal names.
    ByName,
}

/// The edge order that a policy stands for.
pub open spec fn policy_order(g: GraphView, policy: ChildOrder) -> Seq<usize> {
    match policy {
        ChildOrder::Insertion => insertion_order(g.edges),
        ChildOrder::ByName => name_order(g),
    }
}

/// `r` is what the exact walk `expected` describes: the same events, or an
/// error with the same content.
pub open spec fn walk_result(expected: Result<Seq<Event>, WalkFault>, r: Result<Vec<Event>, WalkError>) -> bool {
    match expected {
        Ok(s) => r matches Ok(events) && events@ == s,
        Err(f) => r matches Err(e) && e@ == f,
    }
}

/// `acc` followed by what `res` holds, or the failure of `res`.
pub open spec fn after(acc: Seq<Event>, res: Result<Seq<Event>, WalkFault>) -> Result<
    Seq<Event>,
    WalkFault,
> {
    match res {
        Ok(r) => Ok(acc + r),
        Err(f) => Err(f),
    }
}

/// Whether node `t` was already entered among `out`.
fn was_entered(out: &Vec<Event>, t: usize) -> (r: bool)
    ensures
        r == entered(out@, t),
{
    let mut i: usize = 0;
    while i < out.len()
        invariant
            i <= out@.len(),
            forall|j: int| 0 <= j < i ==> out@[j] != Event::EnterNode(t),
        decreases out@.len() - i,
    {
        if out[i] == Event::EnterNode(t) {
            proof {
                assert(out@[i as int] == Event::EnterNode(t));
            }
            return true;
        }
        i = i + 1;
    }
    false
}

/// Appends to `out` the walk that enters `v` below the nodes of `path`,
/// after the events already in `out`.
fn walk_from(g: &Graph, order: &Vec<usize>, v: usize, path: &Vec<usize>, out: &mut Vec<Event>) -> (r: Result<
    (),
    WalkError,
>)
    requires
        v < g@.items.len(),
        forall|j: int| 0 <= j < order@.len() ==> #[trigger] order@[j] < g@.edges.len(),
    ensures
        match walk_node(g@.items.len() as int, g@.edges, order@, v as int, path@, old(out)@) {
            Ok(s) => r is Ok && final(out)@ == old(out)@ + s,
            Err(f) => r matches Err(e) && e@ == f,
        },
    decreases g@.items.len() - path@.len(),
{
    let ghost es = g@.edges;
    let ghost n = g@.items.len() as int;
    let ghost out0 = out@;
    let ghost path0 = path@;
    if path.len() >= g.node_count() {
        return Err(WalkError::StructuralCycle { node: v, path: path.clone() });
    }
    out.push(Event::EnterNode(v));
    let m = g.edge_count();
    let mut k: usize = 0;
    while k < m
        invariant
            m == es.len(),
            es == g@.edges,
            k <= m,
            out0.push(Event::EnterNode(v)) + uses_from(es, v as int, 0) == out@ + uses_from(
                es,
                v as int,
                k as int,
            ),
        decreases m - k,
    {
        let e = g.edge(k);
        if e.kind == Relationship::Uses && e.source == v {
            let ghost before = out@;
            out.push(Event::Edge(Relationship::Uses, e.source, e.target));
            proof {
                assert(before + uses_from(es, v as int, k as int) =~= out@ + uses_from(
                    es,
                    v as int,
                    k + 1,
                ));
            }
        }
        k = k + 1;
    }
    let ghost pre_events = seq![Event::EnterNode(v)] + uses_from(es, v as int, 0);
    let ghost pre = out@;
    proof {
        assert(pre =~= out0 + pre_events);
    }
    let mut inner_path = path.clone();
    inner_path.push(v);
    let ghost inner = inner_path@;
    let mut k: usize = 0;
    let ghost mut acc: Seq<Event> = Seq::empty();
    proof {
        assert(pre + acc =~= pre);
    }
    while k < order.len()
        invariant
            m == es.len(),
            forall|j: int| 0 <= j < order@.len() ==> #[trigger] order@[j] < es.len(),
            es == g@.edges,
            n == g@.items.len(),
            inner == path0.push(v),
            inner_path@ == inner,
            path@ == path0,
            path0.len() < n,
            pre == out0 + pre_events,
            out0 == old(out)@,
            pre_events == seq![Event::EnterNode(v)] + uses_from(es, v as int, 0),
            out@ == pre + acc,
            k <= order@.len(),
            walk_children(n, es, order@, v as int, inner, pre, 0) == after(
                acc,
                walk_children(n, es, order@, v as int, inner, pre + acc, k as int),
            ),
        decreases order@.len() - k,
    {
        let e = g.edge(order[k]);
        if e.kind == Relationship::Owns && e.source == v {
            let t = e.target;
            if was_entered(out, t) {
                return Err(WalkError::StructuralCycle { node: t, path: inner_path });
            }
            let ghost before = out@;
            match walk_from(g, order, t, &inner_path, out) {
                Err(err) => {
                    return Err(err);
                },
                Ok(()) => {},
            }
            proof {
                let s = out@.subrange(before.len() as int, out@.len() as int);
                let s2 = walk_node(n, es, order@, t as int, inner, before)->Ok_0;
                assert(s2 =~= s);
                assert(before + s =~= pre + (acc + s));
                match walk_children(n, es, order@, v as int, inner, pre + (acc + s), k + 1) {
                    Ok(r) => {
                        assert(acc + (s + r) =~= (acc + s) + r);
                    },
                    Err(f) => {},
                }
                acc = acc + s;
                assert(out@ =~= pre + acc);
            }
        }
        k = k + 1;
    }
    out.push(Event::LeaveNode(v));
    proof {
        assert(walk_children(n, es, order@, v as int, inner, pre + acc, k as int) == Ok::<
            Seq<Event>,
            WalkFault,
        >(Seq::empty()));
        assert(acc + Seq::<Event>::empty() =~= acc);
        assert(path0.push(v as usize) == inner);
        assert(out0 + pre_events == pre);
        assert(out@ =~= out0 + (pre_events + acc + seq![Event::LeaveNode(v)]));
    }
    Ok(())
}

/// Walks `g` from each of `roots` in turn, visiting children through the
/// edges in `order`.
fn walk_in(g: &Graph, roots: &Vec<usize>, order: &Vec<usize>) -> (r: Result<Vec<Event>, WalkError>)
    requires
        forall|j: int| 0 <= j < order@.len() ==> #[trigger] order@[j] < g@.edges.len(),
    ensures
        walk_result(walk_ordered_spec(g@, roots@, order@), r),
{
    let ghost n = g@.items.len() as int;
    let ghost es = g@.edges;
    let mut out: Vec<Event> = Vec::new();
    let path: Vec<usize> = Vec::new();
    let mut k: usize = 0;
    while k < roots.len()
        invariant
            k <= roots@.len(),
            n == g@.items.len(),
            es == g@.edges,
            path@ == Seq::<usize>::empty(),
            forall|j: int| 0 <= j < order@.len() ==> #[trigger] order@[j] < g@.edges.len(),
            walk_ordered_spec(g@, roots@, order@) == after(
                out@,
                walk_roots(n, g@.live, es, order@, roots@, out@, k as int),
            ),
        decreases roots@.len() - k,
    {
        let v = roots[k];
        if !g.contains(v) {
            return Err(WalkError::UnknownNode(v));
        }
        if !was_entered(&out, v) {
            let ghost before = out@;
            match walk_from(g, order, v, &path, &mut out) {
                Err(err) => {
                    return Err(err);
                },
                Ok(()) => {},
            }
            proof {
                let s = out@.subrange(before.len() as int, out@.len() as int);
                let s2 = walk_node(n, es, order@, v as int, Seq::empty(), before)->Ok_0;
                assert(s2 =~= s);
                assert(out@ =~= before + s);
                match walk_roots(n, g@.live, es, order@, roots@, before + s, k + 1) {
                    Ok(r) => {
                        assert(before + (s + r) =~= (before + s) + r);
                    },
                    Err(f) => {},
                }
            }
        }
        k = k + 1;
    }
    proof {
        assert(out@ + Seq::<Event>::empty() =~= out@);
    }
    Ok(out)
}

/// Walks `g` from each of `roots` in turn, as `walk` does, visiting the
/// children of each node in the order that `policy` gives.
pub fn walk_ordered(g: &Graph, roots: &Vec<usize>, policy: ChildOrder) -> (r: Result<
    Vec<Event>,
    WalkError,
>)
    ensures
        walk_result(walk_ordered_spec(g@, roots@, policy_order(g@, policy)), r),
{
    let order = match policy {
        ChildOrder::Insertion => {
            let m = g.edge_count();
            let mut order: Vec<usize> = Vec::new();
            let mut k: usize = 0;
            while k < m
                invariant
                    m == g@.edges.len(),
                    k <= m,
                    order@ == Seq::new(k as nat, |j: int| j as usize),
                decreases m - k,
            {
                order.push(k);
                proof {
                    assert(order@ =~= Seq::new((k + 1) as nat, |j: int| j as usize));
                }
                k = k + 1;
            }
            proof {
                assert(order@ =~= insertion_order(g@.edges));
            }
            order
        },
        ChildOrder::ByName => name_order_exec(g),
    };
    walk_in(g, roots, &order)
}

/// Walks `g` from each of `roots` in turn, depth first, following `Owns`
/// edges in the order they were inserted and reporting `Uses` edges at the
/// node they leave. A node is entered at most once: reaching an entered
/// node again through an `Owns` edge is a structural cycle, and a root that
/// was already entered is skipped. The graph is only read.
pub fn walk(g: &Graph, roots: &Vec<usize>) -> (r: Result<Vec<Event>, WalkError>)
    ensures
        walk_result(walk_spec(g@, roots@), r),
{
    walk_ordered(g, roots, ChildOrder::Insertion)
}

/// The roots a walk starts from when none are given: the top-level nodes.
pub open spec fn walk_all_spec(g: GraphView) -> Result<Seq<Event>, WalkFault> {
    walk_spec(g, top_level(g))
}

/// Walks `g` from every top-level node, in insertion order.
pub fn walk_all(g: &Graph) -> (r: Result<Vec<Event>, WalkError>)
    ensures
        walk_result(walk_all_spec(g@), r),
{
    let roots = g.top_level_nodes();
    walk(g, &roots)
}

} // verus!
