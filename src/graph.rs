use vstd::prelude::*;

use petgraph::stable_graph::StableGraph;

use crate::item::{Item, Triple};
use crate::relationship::Relationship;
use crate::store::{
    edges_dense, nodes_dense, store_add_edge, store_add_node, store_contains_node, store_edge_count,
    store_edge_endpoints, store_edge_slots, store_edge_weight, store_new, store_node_slots,
    store_remove_node,
};

verus! {

/// A directed edge between two nodes, named by their stable indices.
#[derive(Clone, Copy, Debug, PartialEq, Eq, Hash, Structural)]
pub struct Edge {
    pub source: usize,
    pub target: usize,
    pub kind: Relationship,
}

/// Which end of a relationship named an unknown item.
#[derive(Clone, Copy, Debug, PartialEq, Eq, Hash, Structural)]
pub enum Side {
    Source,
    Target,
    /// The root set of a pruning pass.
    Root,
}

/// Why a graph could not be built.
#[derive(Clone, Debug)]
pub enum BuildError {
    /// Two items share `id`; they stand at `first` and `second` in the input.
    DuplicateItem { id: String, first: usize, second: usize },
    /// A relationship names `id`, which no item carries, on the given side.
    DanglingReference { id: String, side: Side },
    /// `item` would be owned both by `owner` and by `other_owner`, two
    /// different items that each have an `Owns` relationship to it. Where no
    /// item has two owners but ownership is cyclic, the error reports the
    /// cycle: `owner` is `item` itself, and `other_owner` owns `item` while
    /// `item` owns it, directly or not.
    MultipleOwners { item: String, owner: String, other_owner: String },
}

/// The mathematical content of a graph: its items in insertion order, which
/// of their nodes are still present, and its edges in insertion order.
pub struct GraphView {
    pub items: Seq<Item>,
    pub live: Seq<bool>,
    pub edges: Seq<Edge>,
}

/// Every edge joins two nodes marked in `live`.
pub open spec fn edges_live(live: Seq<bool>, es: Seq<Edge>) -> bool {
    forall|k: int| 0 <= k < es.len() ==> live[#[trigger] es[k].source as int] && live[es[k].target as int]
}

/// Every edge joins two existing nodes.
pub open spec fn edges_in_range(n: int, es: Seq<Edge>) -> bool {
    forall|k: int| 0 <= k < es.len() ==> (es[k].source as int) < n && (es[k].target as int) < n
}

impl GraphView {
    pub open spec fn wf(self) -> bool {
        &&& self.live.len() == self.items.len()
        &&& edges_in_range(self.items.len() as int, self.edges)
        &&& edges_live(self.live, self.edges)
    }
}

/// No two items share an identifier.
pub open spec fn ids_distinct(items: Seq<Item>) -> bool {
    forall|i: int, j: int| 0 <= i < j < items.len() ==> items[i].id@ != items[j].id@
}

/// The first index at or after `k` whose item carries `id`.
pub open spec fn index_from(items: Seq<Item>, id: Seq<char>, k: int) -> Option<int>
    decreases items.len() - k,
{
    if k < 0 || k >= items.len() {
        None
    } else if items[k].id@ == id {
        Some(k)
    } else {
        index_from(items, id, k + 1)
    }
}

/// The index of the item that carries `id`, if any.
pub open spec fn index_of(items: Seq<Item>, id: Seq<char>) -> Option<int> {
    index_from(items, id, 0)
}

/// The source of the first `Owns` edge into `t`, searching from edge `k` on.
pub open spec fn owner_from(es: Seq<Edge>, t: int, k: int) -> Option<int>
    decreases es.len() - k,
{
    if k < 0 || k >= es.len() {
        None
    } else if es[k].kind == Relationship::Owns && es[k].target as int == t {
        Some(es[k].source as int)
    } else {
        owner_from(es, t, k + 1)
    }
}

/// The owner of node `t`, if any.
pub open spec fn owner_of(es: Seq<Edge>, t: int) -> Option<int> {
    owner_from(es, t, 0)
}

/// `a` is `x` or is reached from `x` by following owners at most `fuel` times.
pub open spec fn is_ancestor(es: Seq<Edge>, a: int, x: int, fuel: nat) -> bool
    decreases fuel,
{
    x == a || (fuel > 0 && match owner_of(es, x) {
        Some(o) => is_ancestor(es, a, o, (fuel - 1) as nat),
        None => false,
    })
}

/// The edge set after adding one raw relationship to `es`, or the error
/// that the relationship raises.
pub open spec fn add_triple(items: Seq<Item>, es: Seq<Edge>, tr: Triple) -> Result<
    Seq<Edge>,
    BuildError,
> {
    match index_of(items, tr.source@) {
        None => Err(BuildError::DanglingReference { id: tr.source, side: Side::Source }),
        Some(s) => match index_of(items, tr.target@) {
            None => Err(BuildError::DanglingReference { id: tr.target, side: Side::Target }),
            Some(t) => {
                let e = Edge { source: s as usize, target: t as usize, kind: tr.kind };
                if es.contains(e) {
                    Ok(es)
                } else if tr.kind == Relationship::Owns {
                    match owner_of(es, t) {
                        Some(o) => Err(
                            BuildError::MultipleOwners {
                                item: items[t].id,
                                owner: items[o].id,
                                other_owner: items[s].id,
                            },
                        ),
                        None => Ok(es.push(e)),
                    }
                } else {
                    Ok(es.push(e))
                }
            },
        },
    }
}

/// The edges that result from adding `triples[k..]`, in order, to `es`.
pub open spec fn build_from(items: Seq<Item>, es: Seq<Edge>, triples: Seq<Triple>, k: int) -> Result<
    Seq<Edge>,
    BuildError,
>
    decreases triples.len() - k,
{
    if k < 0 || k >= triples.len() {
        Ok(es)
    } else {
        match add_triple(items, es, triples[k]) {
            Err(e) => Err(e),
            Ok(es2) => build_from(items, es2, triples, k + 1),
        }
    }
}

/// The first `Owns` edge from edge `k` on that closes an ownership cycle:
/// its target is its source, or an owner of it, directly or not, in a graph
/// of `n` nodes.
pub open spec fn cycle_from(es: Seq<Edge>, n: nat, k: int) -> Option<int>
    decreases es.len() - k,
{
    if k < 0 || k >= es.len() {
        None
    } else if es[k].kind == Relationship::Owns && is_ancestor(
        es,
        es[k].target as int,
        es[k].source as int,
        n,
    ) {
        Some(k)
    } else {
        cycle_from(es, n, k + 1)
    }
}

/// The edges of the graph built from `items` and `triples`. Second owners
/// are looked for over all relationships first; only then is the edge set
/// checked for ownership cycles.
pub open spec fn build_edges(items: Seq<Item>, triples: Seq<Triple>) -> Result<
    Seq<Edge>,
    BuildError,
> {
    match build_from(items, Seq::empty(), triples, 0) {
        Err(e) => Err(e),
        Ok(es) => match cycle_from(es, items.len(), 0) {
            Some(k) => Err(
                BuildError::MultipleOwners {
                    item: items[es[k].target as int].id,
                    owner: items[es[k].target as int].id,
                    other_owner: items[es[k].source as int].id,
                },
            ),
            None => Ok(es),
        },
    }
}

/// The present nodes from `i` on that no `Owns` edge points to, in index order.
pub open spec fn top_level_from(es: Seq<Edge>, live: Seq<bool>, i: int) -> Seq<usize>
    decreases live.len() - i,
{
    if i < 0 || i >= live.len() {
        Seq::empty()
    } else if live[i] && owner_of(es, i) is None {
        seq![i as usize] + top_level_from(es, live, i + 1)
    } else {
        top_level_from(es, live, i + 1)
    }
}

/// The top-level nodes of a graph: the present nodes without an owner.
pub open spec fn top_level(g: GraphView) -> Seq<usize> {
    top_level_from(g.edges, g.live, 0)
}

/// The edges of `es[k..]` whose both ends are marked in `live`, in order.
pub open spec fn keep_from(es: Seq<Edge>, live: Seq<bool>, k: int) -> Seq<Edge>
    decreases es.len() - k,
{
    if k < 0 || k >= es.len() {
        Seq::empty()
    } else if live[es[k].source as int] && live[es[k].target as int] {
        seq![es[k]] + keep_from(es, live, k + 1)
    } else {
        keep_from(es, live, k + 1)
    }
}

/// The marks after one round of spreading along edges: a node is marked
/// when it was, or when an edge leads to it from a marked node.
pub open spec fn spread(es: Seq<Edge>, marked: Seq<bool>) -> Seq<bool> {
    Seq::new(
        marked.len(),
        |v: int|
            marked[v] || exists|k: int|
                0 <= k < es.len() && #[trigger] es[k].target as int == v && marked[es[k].source as int],
    )
}

/// The marks after `rounds` rounds of spreading.
pub open spec fn reach_rounds(es: Seq<Edge>, marked: Seq<bool>, rounds: nat) -> Seq<bool>
    decreases rounds,
{
    if rounds == 0 {
        marked
    } else {
        reach_rounds(es, spread(es, marked), (rounds - 1) as nat)
    }
}

/// The nodes reachable along edges from the marked ones, in a graph of
/// `marked.len()` nodes (no path needs more edges than there are nodes).
pub open spec fn reachable(es: Seq<Edge>, marked: Seq<bool>) -> Seq<bool> {
    reach_rounds(es, marked, marked.len())
}

/// Every root names an item.
pub open spec fn roots_known(items: Seq<Item>, roots: Seq<String>) -> bool {
    forall|j: int| 0 <= j < roots.len() ==> index_of(items, (#[trigger] roots[j])@) is Some
}

/// The nodes that `roots` name.
pub open spec fn root_marks(items: Seq<Item>, roots: Seq<String>) -> Seq<bool> {
    Seq::new(
        items.len(),
        |v: int| exists|j: int| 0 <= j < roots.len() && index_of(items, (#[trigger] roots[j])@) == Some(v),
    )
}

/// The targets of the edges of kind `kind` leaving `v`, from edge `k` on, in edge order.
pub open spec fn targets_from(es: Seq<Edge>, v: int, kind: Relationship, k: int) -> Seq<usize>
    decreases es.len() - k,
{
    if k < 0 || k >= es.len() {
        Seq::empty()
    } else if es[k].kind == kind && es[k].source as int == v {
        seq![es[k].target] + targets_from(es, v, kind, k + 1)
    } else {
        targets_from(es, v, kind, k + 1)
    }
}

/// The sources of the edges of kind `kind` entering `v`, from edge `k` on, in edge order.
pub open spec fn sources_from(es: Seq<Edge>, v: int, kind: Relationship, k: int) -> Seq<usize>
    decreases es.len() - k,
{
    if k < 0 || k >= es.len() {
        Seq::empty()
    } else if es[k].kind == kind && es[k].target as int == v {
        seq![es[k].source] + sources_from(es, v, kind, k + 1)
    } else {
        sources_from(es, v, kind, k + 1)
    }
}

/// The edge that an occupied edge slot holds.
pub open spec fn edge_of(slot: Option<(usize, usize, Relationship)>) -> Edge {
    Edge { source: slot->Some_0.0, target: slot->Some_0.1, kind: slot->Some_0.2 }
}

/// A finished graph: its items, and a stable graph store whose node `i` is
/// item `i`. It has no mutating methods: once built it can only be read.
pub struct Graph {
    items: Vec<Item>,
    store: StableGraph<(), Relationship>,
}

impl View for Graph {
    type V = GraphView;

    closed spec fn view(&self) -> GraphView {
        GraphView {
            items: self.items@,
            live: store_node_slots(self.store),
            edges: store_edge_slots(self.store).map_values(|slot| edge_of(slot)),
        }
    }
}

impl Graph {
    #[verifier::type_invariant]
    spec fn inv(&self) -> bool {
        &&& store_node_slots(self.store).len() == self.items@.len()
        &&& edges_dense(self.store)
        &&& edges_in_range(self.items@.len() as int, self@.edges)
        &&& edges_live(self@.live, self@.edges)
    }

    pub fn node_count(&self) -> (r: usize)
        ensures
            r == self@.items.len(),
    {
        self.items.len()
    }

    pub fn edge_count(&self) -> (r: usize)
        ensures
            r == self@.edges.len(),
    {
        proof {
            use_type_invariant(self);
        }
        store_edge_count(&self.store)
    }

    pub fn item(&self, i: usize) -> (r: &Item)
        requires
            i < self@.items.len(),
        ensures
            *r == self@.items[i as int],
    {
        &self.items[i]
    }

    /// Whether `v` names a node that is present.
    pub fn contains(&self, v: usize) -> (r: bool)
        ensures
            r == (v < self@.items.len() && self@.live[v as int]),
    {
        proof {
            use_type_invariant(self);
        }
        if v >= self.items.len() {
            return false;
        }
        store_contains_node(&self.store, v)
    }

    pub fn edge(&self, k: usize) -> (r: Edge)
        requires
            k < self@.edges.len(),
        ensures
            r == self@.edges[k as int],
            r.source < self@.items.len(),
            r.target < self@.items.len(),
            self@.live[r.source as int],
            self@.live[r.target as int],
    {
        proof {
            use_type_invariant(self);
        }
        let (source, target) = store_edge_endpoints(&self.store, k);
        let kind = store_edge_weight(&self.store, k);
        Edge { source, target, kind }
    }

    /// The owner of node `v`, if any.
    pub fn owner(&self, v: usize) -> (r: Option<usize>)
        ensures
            owner_of(self@.edges, v as int) == match r {
                Some(o) => Some(o as int),
                None => None::<int>,
            },
    {
        let m = self.edge_count();
        let mut k: usize = 0;
        while k < m
            invariant
                m == self@.edges.len(),
                k <= m,
                owner_of(self@.edges, v as int) == owner_from(self@.edges, v as int, k as int),
            decreases m - k,
        {
            let e = self.edge(k);
            if e.kind == Relationship::Owns && e.target == v {
                return Some(e.source);
            }
            k = k + 1;
        }
        None
    }

    /// The nodes that have no owner, in insertion order.
    pub fn top_level_nodes(&self) -> (r: Vec<usize>)
        ensures
            r@ == top_level(self@),
    {
        proof {
            use_type_invariant(self);
        }
        let n = self.node_count();
        let mut acc: Vec<usize> = Vec::new();
        let mut i: usize = 0;
        while i < n
            invariant
                n == self@.items.len(),
                i <= n,
                self@.live.len() == n,
                top_level(self@) == acc@ + top_level_from(self@.edges, self@.live, i as int),
            decreases n - i,
        {
            let ghost before = acc@;
            if self.contains(i) && self.owner(i).is_none() {
                acc.push(i);
                proof {
                    assert(before + top_level_from(self@.edges, self@.live, i as int) =~= acc@
                        + top_level_from(self@.edges, self@.live, i + 1));
                }
            }
            i = i + 1;
        }
        proof {
            assert(acc@ + top_level_from(self@.edges, self@.live, i as int) =~= acc@);
        }
        acc
    }

    /// The index of the node that carries `id`, if any.
    pub fn find(&self, id: &String) -> (r: Option<usize>)
        ensures
            index_of(self@.items, id@) == match r {
                Some(i) => Some(i as int),
                None => None::<int>,
            },
            r matches Some(i) ==> i < self@.items.len() && self@.items[i as int].id@ == id@,
    {
        find_index(&self.items, id)
    }

    /// The nodes that `v` reaches through one edge of kind `kind`, in edge order.
    pub fn outgoing(&self, v: usize, kind: Relationship) -> (r: Vec<usize>)
        ensures
            r@ == targets_from(self@.edges, v as int, kind, 0),
    {
        let m = self.edge_count();
        let mut acc: Vec<usize> = Vec::new();
        let mut k: usize = 0;
        while k < m
            invariant
                m == self@.edges.len(),
                k <= m,
                targets_from(self@.edges, v as int, kind, 0) == acc@ + targets_from(
                    self@.edges,
                    v as int,
                    kind,
                    k as int,
                ),
            decreases m - k,
        {
            let e = self.edge(k);
            if e.kind == kind && e.source == v {
                let ghost before = acc@;
                acc.push(e.target);
                proof {
                    assert(before + targets_from(self@.edges, v as int, kind, k as int) =~= acc@
                        + targets_from(self@.edges, v as int, kind, k + 1));
                }
            }
            k = k + 1;
        }
        proof {
            assert(acc@ + targets_from(self@.edges, v as int, kind, k as int) =~= acc@);
        }
        acc
    }

    /// The nodes that reach `v` through one edge of kind `kind`, in edge order.
    pub fn incoming(&self, v: usize, kind: Relationship) -> (r: Vec<usize>)
        ensures
            r@ == sources_from(self@.edges, v as int, kind, 0),
    {
        let m = self.edge_count();
        let mut acc: Vec<usize> = Vec::new();
        let mut k: usize = 0;
        while k < m
            invariant
                m == self@.edges.len(),
                k <= m,
                sources_from(self@.edges, v as int, kind, 0) == acc@ + sources_from(
                    self@.edges,
                    v as int,
                    kind,
                    k as int,
                ),
            decreases m - k,
        {
            let e = self.edge(k);
            if e.kind == kind && e.target == v {
                let ghost before = acc@;
                acc.push(e.source);
                proof {
                    assert(before + sources_from(self@.edges, v as int, kind, k as int) =~= acc@
                        + sources_from(self@.edges, v as int, kind, k + 1));
                }
            }
            k = k + 1;
        }
        proof {
            assert(acc@ + sources_from(self@.edges, v as int, kind, k as int) =~= acc@);
        }
        acc
    }
}

/// Looks up the index of the item that carries `id`.
fn find_index(items: &Vec<Item>, id: &String) -> (r: Option<usize>)
    ensures
        r matches Some(i) ==> i < items@.len() && items@[i as int].id@ == id@,
        index_of(items@, id@) == match r {
            Some(i) => Some(i as int),
            None => None::<int>,
        },
{
    let mut i: usize = 0;
    while i < items.len()
        invariant
            i <= items@.len(),
            index_of(items@, id@) == index_from(items@, id@, i as int),
        decreases items@.len() - i,
    {
        if items[i].id == *id {
            return Some(i);
        }
        i = i + 1;
    }
    None
}

/// The owner of node `t` among `edges`, if any.
fn find_owner(edges: &Vec<Edge>, t: usize) -> (r: Option<usize>)
    ensures
        owner_of(edges@, t as int) == match r {
            Some(o) => Some(o as int),
            None => None::<int>,
        },
        r matches Some(o) ==> exists|k: int|
            0 <= k < edges@.len() && edges@[k].source == o && edges@[k].target == t,
{
    let mut k: usize = 0;
    while k < edges.len()
        invariant
            k <= edges@.len(),
            owner_of(edges@, t as int) == owner_from(edges@, t as int, k as int),
        decreases edges@.len() - k,
    {
        let e = edges[k];
        if e.kind == Relationship::Owns && e.target == t {
            return Some(e.source);
        }
        k = k + 1;
    }
    None
}

/// Whether `a` is `x` or an owner of `x`, directly or not, in a graph of `n` nodes.
fn find_ancestor(edges: &Vec<Edge>, a: usize, x: usize, n: usize) -> (r: bool)
    ensures
        r == is_ancestor(edges@, a as int, x as int, n as nat),
{
    let mut cur: usize = x;
    let mut fuel: usize = n;
    loop
        invariant
            is_ancestor(edges@, a as int, x as int, n as nat) == is_ancestor(
                edges@,
                a as int,
                cur as int,
                fuel as nat,
            ),
        decreases fuel,
    {
        if cur == a {
            return true;
        }
        if fuel == 0 {
            return false;
        }
        match find_owner(edges, cur) {
            None => {
                return false;
            },
            Some(o) => {
                cur = o;
                fuel = fuel - 1;
            },
        }
    }
}

/// Whether `edges` already holds `e`.
fn contains_edge(edges: &Vec<Edge>, e: Edge) -> (r: bool)
    ensures
        r == edges@.contains(e),
{
    let mut k: usize = 0;
    while k < edges.len()
        invariant
            k <= edges@.len(),
            forall|j: int| 0 <= j < k ==> edges@[j] != e,
        decreases edges@.len() - k,
    {
        if edges[k] == e {
            return true;
        }
        k = k + 1;
    }
    false
}

/// Adds one raw relationship to `edges`.
fn add_triple_exec(items: &Vec<Item>, edges: &mut Vec<Edge>, tr: &Triple) -> (r: Result<
    (),
    BuildError,
>)
    requires
        edges_in_range(items@.len() as int, old(edges)@),
    ensures
        match add_triple(items@, old(edges)@, *tr) {
            Ok(es) => r is Ok && final(edges)@ == es,
            Err(e) => r == Err::<(), BuildError>(e),
        },
        r is Ok ==> edges_in_range(items@.len() as int, final(edges)@),
        r is Ok ==> final(edges)@.len() <= old(edges)@.len() + 1,
{
    let s = match find_index(items, &tr.source) {
        None => {
            return Err(BuildError::DanglingReference { id: tr.source.clone(), side: Side::Source });
        },
        Some(s) => s,
    };
    let t = match find_index(items, &tr.target) {
        None => {
            return Err(BuildError::DanglingReference { id: tr.target.clone(), side: Side::Target });
        },
        Some(t) => t,
    };
    let e = Edge { source: s, target: t, kind: tr.kind };
    if contains_edge(edges, e) {
        return Ok(());
    }
    if tr.kind == Relationship::Owns {
        match find_owner(edges, t) {
            Some(o) => {
                proof {
                    let k = choose|k: int|
                        0 <= k < edges@.len() && edges@[k].source == o && edges@[k].target == t;
                    assert(edges@[k].source < items@.len());
                }
                return Err(
                    BuildError::MultipleOwners {
                        item: items[t].id.clone(),
                        owner: items[o].id.clone(),
                        other_owner: items[s].id.clone(),
                    },
                );
            },
            None => {},
        }
    }
    edges.push(e);
    Ok(())
}

/// Checks the items and resolves the relationships into edges.
fn collect_edges(items: &Vec<Item>, triples: &Vec<Triple>) -> (r: Result<Vec<Edge>, BuildError>)
    requires
        triples@.len() < u32::MAX,
    ensures
        match r {
            Ok(edges) => ids_distinct(items@) && build_edges(items@, triples@) == Ok::<
                Seq<Edge>,
                BuildError,
            >(edges@) && edges@.len() < u32::MAX && edges_in_range(items@.len() as int, edges@),
            Err(BuildError::DuplicateItem { id, first, second }) => !ids_distinct(items@) && first
                < second < items@.len() && items@[first as int].id@ == id@
                && items@[second as int].id@ == id@ && ids_distinct(items@.take(second as int)),
            Err(e) => ids_distinct(items@) && build_edges(items@, triples@) == Err::<
                Seq<Edge>,
                BuildError,
            >(e),
        },
{
    let mut j: usize = 0;
    while j < items.len()
        invariant
            j <= items@.len(),
            ids_distinct(items@.take(j as int)),
        decreases items@.len() - j,
    {
        let mut i: usize = 0;
        while i < j
            invariant
                i <= j < items@.len(),
                ids_distinct(items@.take(j as int)),
                forall|h: int| 0 <= h < i ==> items@[h].id@ != items@[j as int].id@,
            decreases j - i,
        {
            if items[i].id == items[j].id {
                proof {
                    assert(items@[i as int].id@ == items@[j as int].id@);
                    assert(!ids_distinct(items@));
                }
                return Err(BuildError::DuplicateItem { id: items[j].id.clone(), first: i, second: j });
            }
            i = i + 1;
        }
        proof {
            let next = items@.take(j + 1);
            assert forall|a: int, b: int| 0 <= a < b < j + 1 implies #[trigger] next[a].id@
                != #[trigger] next[b].id@ by {
                if b < j {
                    assert(items@.take(j as int)[a] == items@[a]);
                    assert(items@.take(j as int)[b] == items@[b]);
                }
            }
        }
        j = j + 1;
    }
    proof {
        assert(items@.take(items@.len() as int) =~= items@);
    }
    let mut edges: Vec<Edge> = Vec::new();
    let mut k: usize = 0;
    while k < triples.len()
        invariant
            k <= triples@.len(),
            edges@.len() <= k,
            ids_distinct(items@),
            edges_in_range(items@.len() as int, edges@),
            build_from(items@, Seq::empty(), triples@, 0) == build_from(
                items@,
                edges@,
                triples@,
                k as int,
            ),
        decreases triples@.len() - k,
    {
        match add_triple_exec(items, &mut edges, &triples[k]) {
            Err(e) => {
                return Err(e);
            },
            Ok(()) => {},
        }
        k = k + 1;
    }
    let n = items.len();
    let mut k: usize = 0;
    while k < edges.len()
        invariant
            n == items@.len(),
            k <= edges@.len(),
            ids_distinct(items@),
            build_from(items@, Seq::empty(), triples@, 0) == Ok::<Seq<Edge>, BuildError>(edges@),
            edges_in_range(n as int, edges@),
            cycle_from(edges@, n as nat, 0) == cycle_from(edges@, n as nat, k as int),
        decreases edges@.len() - k,
    {
        let e = edges[k];
        if e.kind == Relationship::Owns && find_ancestor(&edges, e.target, e.source, n) {
            return Err(
                BuildError::MultipleOwners {
                    item: items[e.target].id.clone(),
                    owner: items[e.target].id.clone(),
                    other_owner: items[e.source].id.clone(),
                },
            );
        }
        k = k + 1;
    }
    Ok(edges)
}

/// Places the items and edges in a stable graph store; the nodes not marked
/// in `live` are removed, and so are the edges that touch them.
fn assemble(items: Vec<Item>, live: &Vec<bool>, edges: &Vec<Edge>) -> (g: Graph)
    requires
        live@.len() == items@.len() < u32::MAX,
        edges@.len() < u32::MAX,
        edges_in_range(items@.len() as int, edges@),
    ensures
        g@.items == items@,
        g@.live == live@,
        g@.edges == keep_from(edges@, live@, 0),
{
    let n = items.len();
    let mut store = store_new();
    let mut i: usize = 0;
    while i < n
        invariant
            n == items@.len() < u32::MAX,
            i <= n,
            store_node_slots(store).len() == i,
            nodes_dense(store),
            store_edge_slots(store).len() == 0,
        decreases n - i,
    {
        store_add_node(&mut store);
        i = i + 1;
    }
    let mut i: usize = 0;
    while i < n
        invariant
            n == items@.len() == live@.len(),
            i <= n,
            store_node_slots(store).len() == n,
            forall|j: int| 0 <= j < n ==> #[trigger] store_node_slots(store)[j] == (j >= i || live@[j]),
            store_edge_slots(store).len() == 0,
        decreases n - i,
    {
        if !live[i] {
            store_remove_node(&mut store, i);
        }
        i = i + 1;
    }
    proof {
        assert(store_node_slots(store) =~= live@);
    }
    let ghost mut acc: Seq<Edge> = Seq::empty();
    let mut k: usize = 0;
    while k < edges.len()
        invariant
            k <= edges@.len() < u32::MAX,
            n == items@.len() == live@.len(),
            store_node_slots(store) == live@,
            edges_in_range(n as int, edges@),
            acc.len() <= k,
            store_edge_slots(store).len() == acc.len(),
            forall|j: int|
                0 <= j < acc.len() ==> #[trigger] store_edge_slots(store)[j] == Some(
                    (acc[j].source, acc[j].target, acc[j].kind),
                ),
            keep_from(edges@, live@, 0) == acc + keep_from(edges@, live@, k as int),
        decreases edges@.len() - k,
    {
        let e = edges[k];
        if live[e.source] && live[e.target] {
            store_add_edge(&mut store, e.source, e.target, e.kind);
            proof {
                assert(acc + keep_from(edges@, live@, k as int) =~= acc.push(e) + keep_from(
                    edges@,
                    live@,
                    k + 1,
                ));
                acc = acc.push(e);
            }
        }
        k = k + 1;
    }
    proof {
        assert(acc + keep_from(edges@, live@, k as int) =~= acc);
        assert forall|j: int| 0 <= j < acc.len() implies #[trigger] acc[j].source < n && acc[j].target < n
            && live@[acc[j].source as int] && live@[acc[j].target as int] by {
            lemma_keep_from_props(edges@, live@, n as int, 0, j);
        }
    }
    let g = Graph { items, store };
    proof {
        assert(g@.edges =~= acc);
    }
    g
}

proof fn lemma_keep_from_props(es: Seq<Edge>, live: Seq<bool>, n: int, k: int, j: int)
    requires
        0 <= k,
        edges_in_range(n, es),
        0 <= j < keep_from(es, live, k).len(),
    ensures
        keep_from(es, live, k)[j].source < n && keep_from(es, live, k)[j].target < n,
        live[keep_from(es, live, k)[j].source as int] && live[keep_from(es, live, k)[j].target as int],
    decreases es.len() - k,
{
    if k < es.len() {
        if live[es[k].source as int] && live[es[k].target as int] {
            if j > 0 {
                lemma_keep_from_props(es, live, n, k + 1, j - 1);
            }
        } else {
            lemma_keep_from_props(es, live, n, k + 1, j);
        }
    }
}

proof fn lemma_keep_all(es: Seq<Edge>, live: Seq<bool>, k: int)
    requires
        0 <= k,
        edges_in_range(live.len() as int, es),
        forall|v: int| 0 <= v < live.len() ==> #[trigger] live[v],
    ensures
        keep_from(es, live, k) =~= es.subrange(k, es.len() as int) || k > es.len(),
    decreases es.len() - k,
{
    if k < es.len() {
        lemma_keep_all(es, live, k + 1);
        assert(seq![es[k]] + es.subrange(k + 1, es.len() as int) =~= es.subrange(k, es.len() as int));
    }
}

/// Builds a graph from items and raw relationships. Nodes keep the order of
/// `items`; edges keep the order in which their first relationship came.
/// Relationships repeated with the same kind are merged.
pub fn build(items: Vec<Item>, triples: Vec<Triple>) -> (r: Result<Graph, BuildError>)
    requires
        items@.len() < u32::MAX,
        triples@.len() < u32::MAX,
    ensures
        match r {
            Ok(g) => ids_distinct(items@) && g@.items == items@ && g@.live == Seq::new(
                items@.len(),
                |v: int| true,
            ) && build_edges(items@, triples@) == Ok::<Seq<Edge>, BuildError>(g@.edges),
            Err(BuildError::DuplicateItem { id, first, second }) => !ids_distinct(items@) && first
                < second < items@.len() && items@[first as int].id@ == id@
                && items@[second as int].id@ == id@ && ids_distinct(items@.take(second as int)),
            Err(e) => ids_distinct(items@) && build_edges(items@, triples@) == Err::<
                Seq<Edge>,
                BuildError,
            >(e),
        },
{
    let edges = match collect_edges(&items, &triples) {
        Err(e) => {
            return Err(e);
        },
        Ok(edges) => edges,
    };
    let mut live: Vec<bool> = Vec::new();
    let mut i: usize = 0;
    while i < items.len()
        invariant
            i <= items@.len(),
            live@ == Seq::new(i as nat, |v: int| true),
        decreases items@.len() - i,
    {
        live.push(true);
        proof {
            assert(live@ =~= Seq::new((i + 1) as nat, |v: int| true));
        }
        i = i + 1;
    }
    proof {
        lemma_keep_all(edges@, live@, 0);
        assert(edges@.subrange(0, edges@.len() as int) =~= edges@);
    }
    Ok(assemble(items, &live, &edges))
}

proof fn lemma_no_root_side(items: Seq<Item>, es: Seq<Edge>, triples: Seq<Triple>, k: int)
    requires
        0 <= k,
    ensures
        !(build_from(items, es, triples, k) matches Err(
            BuildError::DanglingReference { side: Side::Root, .. },
        )),
    decreases triples.len() - k,
{
    if k < triples.len() {
        if let Ok(es2) = add_triple(items, es, triples[k]) {
            lemma_no_root_side(items, es2, triples, k + 1);
        }
    }
}

/// One round of spreading marks along edges.
fn spread_exec(edges: &Vec<Edge>, marked: &Vec<bool>) -> (r: Vec<bool>)
    requires
        edges_in_range(marked@.len() as int, edges@),
    ensures
        r@ == spread(edges@, marked@),
{
    let n = marked.len();
    let mut next: Vec<bool> = Vec::new();
    let mut i: usize = 0;
    while i < n
        invariant
            n == marked@.len(),
            i <= n,
            next@ == marked@.take(i as int),
        decreases n - i,
    {
        next.push(marked[i]);
        proof {
            assert(next@ =~= marked@.take(i + 1));
        }
        i = i + 1;
    }
    proof {
        assert(marked@.take(n as int) =~= marked@);
    }
    let mut k: usize = 0;
    while k < edges.len()
        invariant
            n == marked@.len() == next@.len(),
            k <= edges@.len(),
            edges_in_range(n as int, edges@),
            forall|v: int|
                0 <= v < n ==> #[trigger] next@[v] == (marked@[v] || exists|j: int|
                    0 <= j < k && #[trigger] edges@[j].target as int == v && marked@[edges@[j].source as int]),
        decreases edges@.len() - k,
    {
        let e = edges[k];
        if marked[e.source] {
            next.set(e.target, true);
        }
        proof {
            assert forall|v: int| 0 <= v < n implies #[trigger] next@[v] == (marked@[v] || exists|j: int|
                0 <= j < k + 1 && #[trigger] edges@[j].target as int == v && marked@[edges@[j].source as int]) by {
                if v == e.target as int && marked@[e.source as int] {
                    assert(edges@[k as int].target as int == v);
                }
            }
        }
        k = k + 1;
    }
    proof {
        assert(next@ =~= spread(edges@, marked@));
    }
    next
}

/// Builds a graph as `build` does, then removes every node that cannot be
/// reached along edges from the items that `roots` name, with the edges that
/// touch such a node. The remaining nodes keep their indices.
pub fn build_pruned(items: Vec<Item>, triples: Vec<Triple>, roots: &Vec<String>) -> (r: Result<
    Graph,
    BuildError,
>)
    requires
        items@.len() < u32::MAX,
        triples@.len() < u32::MAX,
    ensures
        match r {
            Ok(g) => ids_distinct(items@) && roots_known(items@, roots@) && build_edges(items@, triples@)
                is Ok && g@.items == items@ && g@.live == reachable(
                build_edges(items@, triples@)->Ok_0,
                root_marks(items@, roots@),
            ) && g@.edges == keep_from(build_edges(items@, triples@)->Ok_0, g@.live, 0),
            Err(BuildError::DuplicateItem { id, first, second }) => !ids_distinct(items@) && first
                < second < items@.len() && items@[first as int].id@ == id@
                && items@[second as int].id@ == id@ && ids_distinct(items@.take(second as int)),
            Err(BuildError::DanglingReference { id, side: Side::Root }) => ids_distinct(items@)
                && build_edges(items@, triples@) is Ok && exists|j: int|
                0 <= j < roots@.len() && roots@[j] == id && index_of(items@, id@) is None
                    && roots_known(items@, roots@.take(j)),
            Err(e) => ids_distinct(items@) && build_edges(items@, triples@) == Err::<
                Seq<Edge>,
                BuildError,
            >(e),
        },
{
    let edges = match collect_edges(&items, &triples) {
        Err(e) => {
            proof {
                lemma_no_root_side(items@, Seq::empty(), triples@, 0);
            }
            return Err(e);
        },
        Ok(edges) => edges,
    };
    let n = items.len();
    let mut marked: Vec<bool> = Vec::new();
    let mut i: usize = 0;
    while i < n
        invariant
            n == items@.len(),
            i <= n,
            marked@ == Seq::new(i as nat, |v: int| false),
        decreases n - i,
    {
        marked.push(false);
        proof {
            assert(marked@ =~= Seq::new((i + 1) as nat, |v: int| false));
        }
        i = i + 1;
    }
    let mut j: usize = 0;
    while j < roots.len()
        invariant
            n == items@.len() == marked@.len(),
            j <= roots@.len(),
            ids_distinct(items@),
            build_edges(items@, triples@) == Ok::<Seq<Edge>, BuildError>(edges@),
            roots_known(items@, roots@.take(j as int)),
            forall|v: int|
                0 <= v < n ==> #[trigger] marked@[v] == exists|h: int|
                    0 <= h < j && index_of(items@, (#[trigger] roots@[h])@) == Some(v),
        decreases roots@.len() - j,
    {
        match find_index(&items, &roots[j]) {
            None => {
                proof {
                    assert(roots@[j as int] == roots[j as int]);
                }
                return Err(BuildError::DanglingReference { id: roots[j].clone(), side: Side::Root });
            },
            Some(v) => {
                marked.set(v, true);
                proof {
                    assert forall|u: int| 0 <= u < n implies #[trigger] marked@[u] == exists|h: int|
                        0 <= h < j + 1 && index_of(items@, (#[trigger] roots@[h])@) == Some(u) by {
                        if u == v {
                            assert(index_of(items@, roots@[j as int]@) == Some(u));
                        }
                    }
                    let next = roots@.take(j + 1);
                    assert forall|h: int| 0 <= h < next.len() implies index_of(
                        items@,
                        (#[trigger] next[h])@,
                    ) is Some by {
                        if h < j {
                            assert(roots@.take(j as int)[h] == next[h]);
                        }
                    }
                }
            },
        }
        j = j + 1;
    }
    proof {
        assert(roots@.take(roots@.len() as int) =~= roots@);
        assert(marked@ =~= root_marks(items@, roots@));
    }
    let ghost marks0 = marked@;
    let mut round: usize = 0;
    while round < n
        invariant
            n == items@.len() == marked@.len(),
            round <= n,
            edges_in_range(n as int, edges@),
            reachable(edges@, marks0) == reach_rounds(edges@, marked@, (n - round) as nat),
            marks0.len() == n,
        decreases n - round,
    {
        marked = spread_exec(&edges, &marked);
        round = round + 1;
    }
    Ok(assemble(items, &marked, &edges))
}

} // verus!
