use vstd::prelude::*;

use petgraph::stable_graph::{EdgeIndex, NodeIndex, StableGraph};

use crate::relationship::Relationship;

verus! {

#[verifier::external_type_specification]
#[verifier::external_body]
#[verifier::reject_recursive_types(N)]
#[verifier::reject_recursive_types(E)]
#[verifier::reject_recursive_types(Ty)]
#[verifier::reject_recursive_types(Ix)]
pub struct ExStableGraph<N, E, Ty, Ix>(StableGraph<N, E, Ty, Ix>);

#[verifier::external_type_specification]
#[verifier::external_body]
pub struct ExDirected(petgraph::Directed);

/// The node slots of a store, by index: `true` where a node stands, `false`
/// where one was removed.
pub uninterp spec fn store_node_slots(g: StableGraph<(), Relationship>) -> Seq<bool>;

/// The edge slots of a store, by index: source, target and weight where an
/// edge stands, `None` where one was removed.
pub uninterp spec fn store_edge_slots(g: StableGraph<(), Relationship>) -> Seq<
    Option<(usize, usize, Relationship)>,
>;

/// No node slot of `g` is vacant.
pub open spec fn nodes_dense(g: StableGraph<(), Relationship>) -> bool {
    forall|i: int| 0 <= i < store_node_slots(g).len() ==> #[trigger] store_node_slots(g)[i]
}

/// No edge slot of `g` is vacant.
pub open spec fn edges_dense(g: StableGraph<(), Relationship>) -> bool {
    forall|k: int| 0 <= k < store_edge_slots(g).len() ==> #[trigger] store_edge_slots(g)[k] is Some
}

/// Relies on petgraph's `StableGraph::new`: a new graph has no node and no edge slot.
#[verifier::external_body]
pub(crate) fn store_new() -> (r: StableGraph<(), Relationship>)
    ensures
        store_node_slots(r) == Seq::<bool>::empty(),
        store_edge_slots(r) == Seq::<Option<(usize, usize, Relationship)>>::empty(),
{
    StableGraph::new()
}

/// Relies on petgraph's `StableGraph::add_node`: with no vacant slot the new
/// node takes the next index; it panics when that index is `u32::MAX`.
#[verifier::external_body]
pub(crate) fn store_add_node(g: &mut StableGraph<(), Relationship>) -> (r: usize)
    requires
        nodes_dense(*old(g)),
        store_node_slots(*old(g)).len() < u32::MAX,
    ensures
        r == store_node_slots(*old(g)).len(),
        store_node_slots(*final(g)) == store_node_slots(*old(g)).push(true),
        store_edge_slots(*final(g)) == store_edge_slots(*old(g)),
{
    g.add_node(()).index()
}

/// Relies on petgraph's `StableGraph::add_edge`: with no vacant edge slot the
/// new edge takes the next index; it panics when an end is not a node, or
/// when that index is `u32::MAX`.
#[verifier::external_body]
pub(crate) fn store_add_edge(
    g: &mut StableGraph<(), Relationship>,
    a: usize,
    b: usize,
    w: Relationship,
) -> (r: usize)
    requires
        edges_dense(*old(g)),
        store_edge_slots(*old(g)).len() < u32::MAX,
        a < store_node_slots(*old(g)).len() && store_node_slots(*old(g))[a as int],
        b < store_node_slots(*old(g)).len() && store_node_slots(*old(g))[b as int],
    ensures
        r == store_edge_slots(*old(g)).len(),
        store_edge_slots(*final(g)) == store_edge_slots(*old(g)).push(Some((a, b, w))),
        store_node_slots(*final(g)) == store_node_slots(*old(g)),
{
    g.add_edge(NodeIndex::new(a), NodeIndex::new(b), w).index()
}

/// Relies on petgraph's `StableGraph::remove_node`: the node's slot becomes
/// vacant, every edge slot with an end at the node becomes vacant, and no
/// other slot changes.
#[verifier::external_body]
pub(crate) fn store_remove_node(g: &mut StableGraph<(), Relationship>, a: usize)
    requires
        a < store_node_slots(*old(g)).len(),
    ensures
        store_node_slots(*final(g)) == store_node_slots(*old(g)).update(a as int, false),
        store_edge_slots(*final(g)).len() == store_edge_slots(*old(g)).len(),
        forall|k: int|
            0 <= k < store_edge_slots(*old(g)).len() ==> #[trigger] store_edge_slots(*final(g))[k]
                == match store_edge_slots(*old(g))[k] {
                Some(e) => if e.0 == a || e.1 == a {
                    None
                } else {
                    Some(e)
                },
                None => None,
            },
{
    g.remove_node(NodeIndex::new(a));
}

/// Relies on petgraph's `StableGraph::contains_node`: whether slot `a` holds a node.
#[verifier::external_body]
pub(crate) fn store_contains_node(g: &StableGraph<(), Relationship>, a: usize) -> (r: bool)
    requires
        a < store_node_slots(*g).len(),
    ensures
        r == store_node_slots(*g)[a as int],
{
    g.contains_node(NodeIndex::new(a))
}

/// Relies on petgraph's `StableGraph::edge_count`: the number of occupied edge slots.
#[verifier::external_body]
pub(crate) fn store_edge_count(g: &StableGraph<(), Relationship>) -> (r: usize)
    requires
        edges_dense(*g),
    ensures
        r == store_edge_slots(*g).len(),
{
    g.edge_count()
}

/// Relies on petgraph's `StableGraph::edge_endpoints`: the source and target
/// of the edge in slot `k`.
#[verifier::external_body]
pub(crate) fn store_edge_endpoints(g: &StableGraph<(), Relationship>, k: usize) -> (r: (
    usize,
    usize,
))
    requires
        k < store_edge_slots(*g).len(),
        store_edge_slots(*g)[k as int] is Some,
    ensures
        r.0 == store_edge_slots(*g)[k as int]->Some_0.0,
        r.1 == store_edge_slots(*g)[k as int]->Some_0.1,
{
    let (a, b) = g.edge_endpoints(EdgeIndex::new(k)).unwrap();
    (a.index(), b.index())
}

/// Relies on petgraph's `StableGraph::edge_weight`: the weight of the edge in slot `k`.
#[verifier::external_body]
pub(crate) fn store_edge_weight(g: &StableGraph<(), Relationship>, k: usize) -> (r: Relationship)
    requires
        k < store_edge_slots(*g).len(),
        store_edge_slots(*g)[k as int] is Some,
    ensures
        r == store_edge_slots(*g)[k as int]->Some_0.2,
{
    *g.edge_weight(EdgeIndex::new(k)).unwrap()
}

} // verus!
