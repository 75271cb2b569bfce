use vstd::prelude::*;

use crate::graph::{
    add_triple, build_edges, build_from, cycle_from, ids_distinct, index_from, index_of, is_ancestor, owner_from, owner_of, top_level,
    top_level_from, BuildError, Edge, GraphView, Side,
};
use crate::item::{Item, Triple};
use crate::relationship::Relationship;
use crate::walker::{
    entered, insertion_order, uses_from, walk_children, walk_node, walk_ordered_spec, walk_result, walk_roots, walk_spec, Event, WalkError, WalkFault,
};

verus! {

/// Both ends of `tr` name an item of `items`.
pub open spec fn resolves(items: Seq<Item>, tr: Triple) -> bool {
    index_of(items, tr.source@) is Some && index_of(items, tr.target@) is Some
}

/// The edge that `tr` stands for.
pub open spec fn resolve(items: Seq<Item>, tr: Triple) -> Edge {
    Edge {
        source: index_of(items, tr.source@)->Some_0 as usize,
        target: index_of(items, tr.target@)->Some_0 as usize,
        kind: tr.kind,
    }
}

/// The distinct edges that `triples[k..]` stand for.
pub open spec fn distinct_edges_from(items: Seq<Item>, triples: Seq<Triple>, k: int) -> Set<Edge> {
    Set::new(|e: Edge| exists|j: int| k <= j < triples.len() && e == resolve(items, triples[j]))
}

/// The distinct edges that `triples` stand for.
pub open spec fn distinct_edges(items: Seq<Item>, triples: Seq<Triple>) -> Set<Edge> {
    distinct_edges_from(items, triples, 0)
}

/// No node has two incoming `Owns` edges.
pub open spec fn single_owner(es: Seq<Edge>) -> bool {
    forall|i: int, j: int|
        0 <= i < j < es.len() && #[trigger] es[i].kind == Relationship::Owns && #[trigger] es[j].kind
            == Relationship::Owns ==> es[i].target != es[j].target
}

/// The build reports that some item would have two owners.
pub open spec fn owner_conflict(r: Result<Seq<Edge>, BuildError>) -> bool {
    r matches Err(BuildError::MultipleOwners { .. })
}

proof fn lemma_owner_from_none(es: Seq<Edge>, t: int, k: int)
    requires
        0 <= k,
    ensures
        owner_from(es, t, k) is None <==> forall|j: int|
            k <= j < es.len() ==> !(#[trigger] es[j].kind == Relationship::Owns && es[j].target as int
                == t),
    decreases es.len() - k,
{
    if k < es.len() {
        lemma_owner_from_none(es, t, k + 1);
    }
}

proof fn lemma_index_from_range(items: Seq<Item>, id: Seq<char>, k: int)
    requires
        0 <= k,
    ensures
        index_from(items, id, k) matches Some(i) ==> k <= i < items.len() && items[i].id@ == id,
    decreases items.len() - k,
{
    if k < items.len() {
        lemma_index_from_range(items, id, k + 1);
    }
}

proof fn lemma_add_step(items: Seq<Item>, es: Seq<Edge>, tr: Triple)
    requires
        items.len() <= usize::MAX,
        es.no_duplicates(),
        single_owner(es),
        add_triple(items, es, tr) is Ok,
    ensures
        resolves(items, tr),
        add_triple(items, es, tr) matches Ok(es2) && es2.no_duplicates() && single_owner(es2) && (
        (es.contains(resolve(items, tr)) && es2 == es) || (!es.contains(resolve(items, tr)) && es2
            == es.push(resolve(items, tr)))),
{
    let e = resolve(items, tr);
    lemma_index_from_range(items, tr.source@, 0);
    lemma_index_from_range(items, tr.target@, 0);
    let es2 = add_triple(items, es, tr)->Ok_0;
        if !es.contains(e) {
            assert(es2 == es.push(e));
            assert forall|a: int, b: int| 0 <= a < b < es2.len() implies es2[a] != es2[b] by {
                if b == es.len() {
                    assert(es.contains(es[a]));
                }
            }
            if e.kind == Relationship::Owns {
                lemma_owner_from_none(es, e.target as int, 0);
                assert(index_of(items, tr.target@) == Some(e.target as int));
                assert(owner_of(es, e.target as int) is None);
                assert forall|a: int, b: int|
                    0 <= a < b < es2.len() && #[trigger] es2[a].kind == Relationship::Owns
                        && #[trigger] es2[b].kind == Relationship::Owns implies es2[a].target
                    != es2[b].target by {
                    if b == es.len() {
                        assert(es[a].kind == Relationship::Owns);
                    } else {
                        assert(es[a] == es2[a] && es[b] == es2[b]);
                    }
                }
            } else {
                assert forall|a: int, b: int|
                    0 <= a < b < es2.len() && #[trigger] es2[a].kind == Relationship::Owns
                        && #[trigger] es2[b].kind == Relationship::Owns implies es2[a].target
                    != es2[b].target by {
                    assert(es[a] == es2[a]);
                }
            }
        }
}

proof fn lemma_build_from(items: Seq<Item>, es: Seq<Edge>, triples: Seq<Triple>, k: int)
    requires
        0 <= k <= triples.len(),
        items.len() <= usize::MAX,
        es.no_duplicates(),
        single_owner(es),
        build_from(items, es, triples, k) is Ok,
    ensures
        build_from(items, es, triples, k) matches Ok(out) && out.no_duplicates() && single_owner(out)
            && out.to_set() == es.to_set().union(distinct_edges_from(items, triples, k)),
    decreases triples.len() - k,
{
    if k == triples.len() {
        assert(es.to_set().union(distinct_edges_from(items, triples, k)) =~= es.to_set());
    } else {
        let tr = triples[k];
        let e = resolve(items, tr);
        lemma_index_from_range(items, tr.source@, 0);
        lemma_index_from_range(items, tr.target@, 0);
        match add_triple(items, es, tr) {
            Ok(es2) => {
                lemma_add_step(items, es, tr);
                lemma_build_from(items, es2, triples, k + 1);
                let out = build_from(items, es2, triples, k + 1)->Ok_0;
                let s0 = distinct_edges_from(items, triples, k);
                let s1 = distinct_edges_from(items, triples, k + 1);
                assert forall|x: Edge| #[trigger] out.contains(x) == (es.contains(x) || s0.contains(x)) by {
                    assert(out.to_set().contains(x) == out.contains(x));
                    assert(es2.to_set().contains(x) == es2.contains(x));
                    assert(out.contains(x) == (es2.contains(x) || s1.contains(x)));
                    if es.contains(x) {
                        let a = choose|a: int| 0 <= a < es.len() && es[a] == x;
                        assert(es2[a] == x);
                    }
                    if es2.contains(x) && x != e {
                        let a = choose|a: int| 0 <= a < es2.len() && es2[a] == x;
                        assert(es.contains(x));
                    }
                    if x == e {
                        assert(s0.contains(x));
                        if es.contains(e) {
                            assert(es2 == es);
                        } else {
                            assert(es2[es.len() as int] == e);
                        }
                        assert(es2.contains(x));
                    }
                    if s0.contains(x) && x != e {
                        let j = choose|j: int| k <= j < triples.len() && x == resolve(items, triples[j]);
                        assert(s1.contains(x));
                    }
                    if s1.contains(x) {
                        let j = choose|j: int| k + 1 <= j < triples.len() && x == resolve(items, triples[j]);
                        assert(s0.contains(x));
                    }
                }
                assert(out.to_set() =~= es.to_set().union(distinct_edges_from(items, triples, k)));
            },
            Err(err) => {},
        }
    }
}

proof fn lemma_build_succeeds(items: Seq<Item>, es: Seq<Edge>, triples: Seq<Triple>, k: int)
    requires
        0 <= k <= triples.len(),
        forall|j: int| k <= j < triples.len() ==> resolves(items, #[trigger] triples[j]),
        !owner_conflict(build_from(items, es, triples, k)),
    ensures
        build_from(items, es, triples, k) is Ok,
    decreases triples.len() - k,
{
    if k < triples.len() {
        assert(resolves(items, triples[k]));
        if let Ok(es2) = add_triple(items, es, triples[k]) {
            lemma_build_succeeds(items, es2, triples, k + 1);
        }
    }
}

/// Building from items with distinct identifiers and relationships that
/// name only existing items, where no item would gain a second owner,
/// succeeds; the edges are exactly the distinct (source, target, kind)
/// triples, each once, so their number is the number of distinct triples.
pub proof fn lemma_build_counts(items: Seq<Item>, triples: Seq<Triple>)
    requires
        items.len() <= usize::MAX,
        ids_distinct(items),
        forall|j: int| 0 <= j < triples.len() ==> resolves(items, #[trigger] triples[j]),
        !owner_conflict(build_edges(items, triples)),
    ensures
        build_edges(items, triples) matches Ok(es) && es.no_duplicates() && es.to_set()
            == distinct_edges(items, triples) && es.len() == distinct_edges(items, triples).len(),
{
    let empty = Seq::<Edge>::empty();
    assert(!owner_conflict(build_from(items, empty, triples, 0)));
    lemma_build_succeeds(items, empty, triples, 0);
    lemma_build_from(items, empty, triples, 0);
    let es = build_edges(items, triples)->Ok_0;
    assert(empty.to_set().union(distinct_edges(items, triples)) =~= distinct_edges(items, triples));
    es.unique_seq_to_set();
}

/// Every graph that builds is a forest under `Owns`: no node has two
/// incoming `Owns` edges.
pub proof fn lemma_owns_forest(items: Seq<Item>, triples: Seq<Triple>)
    requires
        items.len() <= usize::MAX,
        build_edges(items, triples) is Ok,
    ensures
        single_owner(build_edges(items, triples)->Ok_0),
{
    lemma_build_from(items, Seq::empty(), triples, 0);
}

/// Walking the same graph twice from the same roots gives the same
/// events in the same order, or the same error.
pub proof fn lemma_walk_repeatable(
    g: GraphView,
    roots: Seq<usize>,
    first: Result<Vec<Event>, WalkError>,
    second: Result<Vec<Event>, WalkError>,
)
    requires
        walk_result(walk_spec(g, roots), first),
        walk_result(walk_spec(g, roots), second),
    ensures
        first is Ok <==> second is Ok,
        first is Ok ==> first->Ok_0@ == second->Ok_0@,
        first is Err ==> first->Err_0@ == second->Err_0@,
{
}

proof fn lemma_no_uses(es: Seq<Edge>, v: int, k: int)
    requires
        0 <= k,
        forall|j: int| 0 <= j < es.len() ==> (#[trigger] es[j]).source as int != v,
    ensures
        uses_from(es, v, k) == Seq::<Event>::empty(),
    decreases es.len() - k,
{
    if k < es.len() {
        lemma_no_uses(es, v, k + 1);
    }
}

proof fn lemma_no_children(
    n: int,
    es: Seq<Edge>,
    order: Seq<usize>,
    v: int,
    path: Seq<usize>,
    done: Seq<Event>,
    k: int,
)
    requires
        0 <= k,
        forall|j: int| 0 <= j < order.len() ==> #[trigger] order[j] < es.len(),
        forall|j: int| 0 <= j < es.len() ==> (#[trigger] es[j]).source as int != v,
    ensures
        walk_children(n, es, order, v, path, done, k) == Ok::<Seq<Event>, WalkFault>(Seq::empty()),
    decreases order.len() - k,
{
    if k < order.len() {
        assert(es[order[k] as int].source as int != v);
        lemma_no_children(n, es, order, v, path, done, k + 1);
    }
}

proof fn lemma_top_level_has(es: Seq<Edge>, live: Seq<bool>, i: int, v: int)
    requires
        0 <= i <= v < live.len(),
        v <= usize::MAX,
        live[v],
        owner_of(es, v) is None,
    ensures
        top_level_from(es, live, i).contains(v as usize),
    decreases live.len() - i,
{
    if i == v {
        assert(top_level_from(es, live, i)[0] == v as usize);
    } else {
        lemma_top_level_has(es, live, i + 1, v);
        let rest = top_level_from(es, live, i + 1);
        let j = choose|j: int| 0 <= j < rest.len() && rest[j] == v as usize;
        if live[i] && owner_of(es, i) is None {
            assert(top_level_from(es, live, i)[j + 1] == v as usize);
        }
    }
}

proof fn lemma_isolated_walk(g: GraphView, v: usize, order: Seq<usize>, done: Seq<Event>)
    requires
        g.wf(),
        v < g.items.len(),
        forall|j: int| 0 <= j < order.len() ==> #[trigger] order[j] < g.edges.len(),
        forall|k: int|
            0 <= k < g.edges.len() ==> (#[trigger] g.edges[k]).source != v && g.edges[k].target != v,
    ensures
        walk_node(g.items.len() as int, g.edges, order, v as int, Seq::empty(), done) == Ok::<
            Seq<Event>,
            WalkFault,
        >(seq![Event::EnterNode(v), Event::LeaveNode(v)]),
{
    let es = g.edges;
    let n = g.items.len() as int;
    lemma_no_uses(es, v as int, 0);
    let path = Seq::<usize>::empty();
    let pre = seq![Event::EnterNode(v)] + uses_from(es, v as int, 0);
    lemma_no_children(n, es, order, v as int, seq![v], done + pre, 0);
    assert(path.push(v) =~= seq![v]);
    let walked = seq![Event::EnterNode(v)] + Seq::<Event>::empty() + Seq::<Event>::empty() + seq![
        Event::LeaveNode(v),
    ];
    assert(walked =~= seq![Event::EnterNode(v), Event::LeaveNode(v)]);
}

/// A present item that no edge touches is a top-level node. Wherever it
/// stands among the roots of a walk, under any child order, its own walk is
/// its entry followed at once by its exit: as a root it stands at the top
/// level of the walk, and nothing is reported between the two.
pub proof fn lemma_isolated_node(g: GraphView, v: usize, order: Seq<usize>, done: Seq<Event>)
    requires
        g.wf(),
        v < g.items.len(),
        g.live[v as int],
        forall|j: int| 0 <= j < order.len() ==> #[trigger] order[j] < g.edges.len(),
        forall|k: int|
            0 <= k < g.edges.len() ==> (#[trigger] g.edges[k]).source != v && g.edges[k].target != v,
    ensures
        top_level(g).contains(v),
        walk_node(g.items.len() as int, g.edges, order, v as int, Seq::empty(), done) == Ok::<
            Seq<Event>,
            WalkFault,
        >(seq![Event::EnterNode(v), Event::LeaveNode(v)]),
        walk_spec(g, seq![v]) == Ok::<Seq<Event>, WalkFault>(
            seq![Event::EnterNode(v), Event::LeaveNode(v)],
        ),
{
    let es = g.edges;
    let n = g.items.len() as int;
    lemma_owner_from_none(es, v as int, 0);
    lemma_top_level_has(es, g.live, 0, v as int);
    lemma_isolated_walk(g, v, order, done);
    let none = Seq::<Event>::empty();
    let io = insertion_order(es);
    lemma_isolated_walk(g, v, io, none);
    let walked = seq![Event::EnterNode(v), Event::LeaveNode(v)];
    assert(walk_roots(n, g.live, es, io, seq![v], none + walked, 1) == Ok::<Seq<Event>, WalkFault>(
        Seq::empty(),
    ));
    assert(!none.contains(Event::EnterNode(v)));
    assert(walked + Seq::<Event>::empty() =~= walked);
}

/// The `Owns` edge from node `a` to node `b`.
pub open spec fn owns_edge(a: int, b: int) -> Edge {
    Edge { source: a as usize, target: b as usize, kind: Relationship::Owns }
}

proof fn lemma_owner_found(es: Seq<Edge>, t: int, i: int, k: int)
    requires
        0 <= k <= i < es.len(),
        es[i].kind == Relationship::Owns,
        es[i].target as int == t,
        single_owner(es),
    ensures
        owner_from(es, t, k) == Some(es[i].source as int),
    decreases i - k,
{
    if k < i {
        if es[k].kind == Relationship::Owns {
            assert(es[k].target != es[i].target);
        }
        lemma_owner_found(es, t, i, k + 1);
    }
}

proof fn lemma_cycle_from_some(es: Seq<Edge>, n: nat, k: int, i: int)
    requires
        0 <= k <= i < es.len(),
        es[i].kind == Relationship::Owns,
        is_ancestor(es, es[i].target as int, es[i].source as int, n),
    ensures
        cycle_from(es, n, k) is Some,
    decreases i - k,
{
    if k < i {
        lemma_cycle_from_some(es, n, k + 1, i);
    }
}

/// Where one relationship has an item own a second item and another has
/// the second own the first, the build fails; when every relationship names
/// existing items, it fails by reporting a second owner.
pub proof fn lemma_mutual_ownership_fails(items: Seq<Item>, triples: Seq<Triple>, i: int, j: int)
    requires
        items.len() <= usize::MAX,
        forall|h: int| 0 <= h < triples.len() ==> resolves(items, #[trigger] triples[h]),
        0 <= i < triples.len(),
        0 <= j < triples.len(),
        triples[i].kind == Relationship::Owns,
        triples[j].kind == Relationship::Owns,
        triples[i].source@ == triples[j].target@,
        triples[i].target@ == triples[j].source@,
        triples[i].source@ != triples[i].target@,
    ensures
        owner_conflict(build_edges(items, triples)),
{
    if !owner_conflict(build_edges(items, triples)) {
        let empty = Seq::<Edge>::empty();
        let n = items.len();
        assert(!owner_conflict(build_from(items, empty, triples, 0)));
        lemma_build_succeeds(items, empty, triples, 0);
        lemma_build_from(items, empty, triples, 0);
        let es = build_from(items, empty, triples, 0)->Ok_0;
        let tr = triples[i];
        lemma_index_from_range(items, tr.source@, 0);
        lemma_index_from_range(items, tr.target@, 0);
        let a = index_of(items, tr.source@)->Some_0;
        let b = index_of(items, tr.target@)->Some_0;
        assert(resolve(items, triples[i]) == owns_edge(a, b));
        assert(resolve(items, triples[j]) == owns_edge(b, a));
        assert(distinct_edges(items, triples).contains(owns_edge(a, b)));
        assert(distinct_edges(items, triples).contains(owns_edge(b, a)));
        assert(empty.to_set().union(distinct_edges(items, triples)).contains(owns_edge(a, b)));
        assert(empty.to_set().union(distinct_edges(items, triples)).contains(owns_edge(b, a)));
        assert(es.to_set().contains(owns_edge(a, b)));
        assert(es.to_set().contains(owns_edge(b, a)));
        let i0 = choose|h: int| 0 <= h < es.len() && es[h] == owns_edge(a, b);
        let i1 = choose|h: int| 0 <= h < es.len() && es[h] == owns_edge(b, a);
        lemma_owner_found(es, a, i1, 0);
        assert(is_ancestor(es, b, b, (n - 1) as nat));
        assert(is_ancestor(es, b, a, n));
        lemma_cycle_from_some(es, n, 0, i0);
    }
}

proof fn lemma_dangling_from(items: Seq<Item>, es: Seq<Edge>, triples: Seq<Triple>, k: int, j: int)
    requires
        0 <= k <= j < triples.len(),
        !resolves(items, triples[j]),
        forall|h: int| k <= h < j ==> resolves(items, #[trigger] triples[h]),
        !owner_conflict(build_from(items, es, triples, k)),
    ensures
        build_from(items, es, triples, k) == Err::<Seq<Edge>, BuildError>(
            if index_of(items, triples[j].source@) is None {
                BuildError::DanglingReference { id: triples[j].source, side: Side::Source }
            } else {
                BuildError::DanglingReference { id: triples[j].target, side: Side::Target }
            },
        ),
    decreases j - k,
{
    if k < j {
        assert(resolves(items, triples[k]));
        if let Ok(es2) = add_triple(items, es, triples[k]) {
            lemma_dangling_from(items, es2, triples, k + 1, j);
        }
    }
}

/// A relationship that names an identifier no item carries fails the build
/// with a dangling reference naming that identifier and its side, unless an
/// earlier relationship already failed it.
pub proof fn lemma_dangling_fails(items: Seq<Item>, triples: Seq<Triple>, j: int)
    requires
        0 <= j < triples.len(),
        !resolves(items, triples[j]),
        forall|h: int| 0 <= h < j ==> resolves(items, #[trigger] triples[h]),
        !owner_conflict(build_edges(items, triples)),
    ensures
        build_edges(items, triples) == Err::<Seq<Edge>, BuildError>(
            if index_of(items, triples[j].source@) is None {
                BuildError::DanglingReference { id: triples[j].source, side: Side::Source }
            } else {
                BuildError::DanglingReference { id: triples[j].target, side: Side::Target }
            },
        ),
{
    assert(!owner_conflict(build_from(items, Seq::empty(), triples, 0)));
    lemma_dangling_from(items, Seq::empty(), triples, 0, j);
}

/// No node is entered twice in `ev`.
pub open spec fn enters_once(ev: Seq<Event>) -> bool {
    forall|i: int, j: int|
        0 <= i < j < ev.len() && #[trigger] ev[i] == #[trigger] ev[j] ==> !(ev[i] is EnterNode)
}

proof fn lemma_append_no_enter(a: Seq<Event>, b: Seq<Event>)
    requires
        enters_once(a),
        forall|j: int| 0 <= j < b.len() ==> !(#[trigger] b[j] is EnterNode),
    ensures
        enters_once(a + b),
{
    let c = a + b;
    assert forall|i: int, j: int|
        0 <= i < j < c.len() && #[trigger] c[i] == #[trigger] c[j] implies !(c[i] is EnterNode) by {
        if j >= a.len() {
            assert(c[j] == b[j - a.len()]);
        } else {
            assert(c[i] == a[i] && c[j] == a[j]);
        }
    }
}

proof fn lemma_append_enter(a: Seq<Event>, v: usize)
    requires
        enters_once(a),
        !entered(a, v),
    ensures
        enters_once(a.push(Event::EnterNode(v))),
{
    let c = a.push(Event::EnterNode(v));
    assert forall|i: int, j: int|
        0 <= i < j < c.len() && #[trigger] c[i] == #[trigger] c[j] implies !(c[i] is EnterNode) by {
        if j == a.len() {
            assert(c[i] == a[i]);
            assert(a.contains(Event::EnterNode(v)));
        } else {
            assert(c[i] == a[i] && c[j] == a[j]);
        }
    }
}

proof fn lemma_uses_no_enter(es: Seq<Edge>, v: int, k: int)
    requires
        0 <= k,
    ensures
        forall|j: int|
            0 <= j < uses_from(es, v, k).len() ==> !(#[trigger] uses_from(es, v, k)[j] is EnterNode),
    decreases es.len() - k,
{
    if k < es.len() {
        lemma_uses_no_enter(es, v, k + 1);
        let u = uses_from(es, v, k);
        if es[k].kind == Relationship::Uses && es[k].source as int == v {
            assert forall|j: int| 0 <= j < u.len() implies !(#[trigger] u[j] is EnterNode) by {
                if j > 0 {
                    assert(u[j] == uses_from(es, v, k + 1)[j - 1]);
                }
            }
        }
    }
}

proof fn lemma_walk_node_once(
    n: int,
    es: Seq<Edge>,
    order: Seq<usize>,
    v: int,
    path: Seq<usize>,
    done: Seq<Event>,
)
    requires
        enters_once(done),
        !entered(done, v as usize),
        walk_node(n, es, order, v, path, done) is Ok,
    ensures
        enters_once(done + walk_node(n, es, order, v, path, done)->Ok_0),
    decreases n - path.len(), 0int,
{
    if path.len() < n {
        let pre = seq![Event::EnterNode(v as usize)] + uses_from(es, v, 0);
        lemma_append_enter(done, v as usize);
        lemma_uses_no_enter(es, v, 0);
        lemma_append_no_enter(done.push(Event::EnterNode(v as usize)), uses_from(es, v, 0));
        assert(done.push(Event::EnterNode(v as usize)) + uses_from(es, v, 0) =~= done + pre);
        let inner = path.push(v as usize);
        lemma_walk_children_once(n, es, order, v, inner, done + pre, 0);
        let cs = walk_children(n, es, order, v, inner, done + pre, 0)->Ok_0;
        let leave = seq![Event::LeaveNode(v as usize)];
        lemma_append_no_enter(done + pre + cs, leave);
        assert(done + (pre + cs + leave) =~= done + pre + cs + leave);
    }
}

proof fn lemma_walk_children_once(
    n: int,
    es: Seq<Edge>,
    order: Seq<usize>,
    v: int,
    path: Seq<usize>,
    done: Seq<Event>,
    k: int,
)
    requires
        enters_once(done),
        walk_children(n, es, order, v, path, done, k) is Ok,
    ensures
        enters_once(done + walk_children(n, es, order, v, path, done, k)->Ok_0),
    decreases n - path.len(), order.len() - k + 1,
{
    if k < 0 || k >= order.len() {
        assert(done + Seq::<Event>::empty() =~= done);
    } else if es[order[k] as int].kind == Relationship::Owns && es[order[k] as int].source as int == v {
        let t = es[order[k] as int].target;
        lemma_walk_node_once(n, es, order, t as int, path, done);
        let s = walk_node(n, es, order, t as int, path, done)->Ok_0;
        lemma_walk_children_once(n, es, order, v, path, done + s, k + 1);
        let r = walk_children(n, es, order, v, path, done + s, k + 1)->Ok_0;
        assert(done + (s + r) =~= done + s + r);
    } else {
        lemma_walk_children_once(n, es, order, v, path, done, k + 1);
    }
}

proof fn lemma_walk_roots_once(
    n: int,
    live: Seq<bool>,
    es: Seq<Edge>,
    order: Seq<usize>,
    roots: Seq<usize>,
    done: Seq<Event>,
    k: int,
)
    requires
        enters_once(done),
        walk_roots(n, live, es, order, roots, done, k) is Ok,
    ensures
        enters_once(done + walk_roots(n, live, es, order, roots, done, k)->Ok_0),
    decreases roots.len() - k,
{
    if k < 0 || k >= roots.len() {
        assert(done + Seq::<Event>::empty() =~= done);
    } else if entered(done, roots[k]) {
        lemma_walk_roots_once(n, live, es, order, roots, done, k + 1);
    } else {
        lemma_walk_node_once(n, es, order, roots[k] as int, Seq::empty(), done);
        let s = walk_node(n, es, order, roots[k] as int, Seq::empty(), done)->Ok_0;
        lemma_walk_roots_once(n, live, es, order, roots, done + s, k + 1);
        let r = walk_roots(n, live, es, order, roots, done + s, k + 1)->Ok_0;
        assert(done + (s + r) =~= done + s + r);
    }
}

/// A walk that succeeds, from any roots and under any child order, enters
/// each node at most once.
pub proof fn lemma_walk_enters_once(g: GraphView, roots: Seq<usize>, order: Seq<usize>)
    requires
        walk_ordered_spec(g, roots, order) is Ok,
    ensures
        enters_once(walk_ordered_spec(g, roots, order)->Ok_0),
{
    let none = Seq::<Event>::empty();
    lemma_walk_roots_once(g.items.len() as int, g.live, g.edges, order, roots, none, 0);
    assert(none + walk_ordered_spec(g, roots, order)->Ok_0 =~= walk_ordered_spec(g, roots, order)->Ok_0);
}

/// Some relationship says that the item with id `a` owns the item with id `b`.
pub open spec fn owns_rel(triples: Seq<Triple>, a: Seq<char>, b: Seq<char>) -> bool {
    exists|h: int|
        0 <= h < triples.len() && (#[trigger] triples[h]).kind == Relationship::Owns
            && triples[h].source@ == a && triples[h].target@ == b
}

/// Every edge of `es` stands for one of `triples`.
pub open spec fn edges_from(items: Seq<Item>, triples: Seq<Triple>, es: Seq<Edge>) -> bool {
    forall|q: int|
        #![trigger es[q]]
        0 <= q < es.len() ==> exists|h: int|
            0 <= h < triples.len() && resolves(items, #[trigger] triples[h]) && resolve(items, triples[h])
                == es[q]
}

proof fn lemma_owner_from_found(es: Seq<Edge>, t: int, k: int)
    requires
        0 <= k,
        owner_from(es, t, k) is Some,
    ensures
        exists|q: int|
            0 <= q < es.len() && (#[trigger] es[q]).kind == Relationship::Owns && es[q].target as int == t
                && es[q].source as int == owner_from(es, t, k)->Some_0,
    decreases es.len() - k,
{
    if !(es[k].kind == Relationship::Owns && es[k].target as int == t) {
        lemma_owner_from_found(es, t, k + 1);
    }
}

proof fn lemma_edge_owns_rel(items: Seq<Item>, triples: Seq<Triple>, es: Seq<Edge>, q: int)
    requires
        items.len() <= usize::MAX,
        edges_from(items, triples, es),
        0 <= q < es.len(),
        es[q].kind == Relationship::Owns,
    ensures
        owns_rel(triples, items[es[q].source as int].id@, items[es[q].target as int].id@),
{
    let h = choose|h: int|
        0 <= h < triples.len() && resolves(items, #[trigger] triples[h]) && resolve(items, triples[h])
            == es[q];
    lemma_index_from_range(items, triples[h].source@, 0);
    lemma_index_from_range(items, triples[h].target@, 0);
    assert(triples[h].kind == Relationship::Owns);
}

proof fn lemma_fold_owner_error(items: Seq<Item>, es: Seq<Edge>, triples: Seq<Triple>, k: int)
    requires
        0 <= k <= triples.len(),
        items.len() <= usize::MAX,
        ids_distinct(items),
        edges_from(items, triples, es),
        owner_conflict(build_from(items, es, triples, k)),
    ensures
        build_from(items, es, triples, k) matches Err(
            BuildError::MultipleOwners { item, owner, other_owner },
        ) && owner@ != other_owner@ && owns_rel(triples, owner@, item@) && owns_rel(
            triples,
            other_owner@,
            item@,
        ),
    decreases triples.len() - k,
{
    let tr = triples[k];
    lemma_index_from_range(items, tr.source@, 0);
    lemma_index_from_range(items, tr.target@, 0);
    match add_triple(items, es, tr) {
        Ok(es2) => {
            let e = resolve(items, tr);
            assert forall|q: int| #![trigger es2[q]] 0 <= q < es2.len() implies exists|h: int|
                0 <= h < triples.len() && resolves(items, #[trigger] triples[h]) && resolve(
                    items,
                    triples[h],
                ) == es2[q] by {
                if q < es.len() {
                    assert(es2[q] == es[q]);
                } else {
                    assert(es2[q] == e);
                    assert(resolves(items, triples[k]));
                }
            }
            lemma_fold_owner_error(items, es2, triples, k + 1);
        },
        Err(err) => {
            let s = index_of(items, tr.source@)->Some_0;
            let t = index_of(items, tr.target@)->Some_0;
            let o = owner_of(es, t)->Some_0;
            lemma_owner_from_found(es, t, 0);
            let q = choose|q: int|
                0 <= q < es.len() && (#[trigger] es[q]).kind == Relationship::Owns && es[q].target as int
                    == t && es[q].source as int == o;
            assert(tr.kind == Relationship::Owns);
            assert(!es.contains(resolve(items, tr)));
            if o == s {
                assert(es[q] == resolve(items, tr));
                assert(es.contains(resolve(items, tr)));
            }
            let h = choose|h: int|
                0 <= h < triples.len() && resolves(items, #[trigger] triples[h]) && resolve(items, triples[h])
                    == es[q];
            lemma_index_from_range(items, triples[h].source@, 0);
            assert(0 <= o < items.len());
            lemma_edge_owns_rel(items, triples, es, q);
            if o < s {
                assert(items[o].id@ != items[s].id@);
            } else {
                assert(items[s].id@ != items[o].id@);
            }
            assert(owns_rel(triples, items[s].id@, items[t].id@)) by {
                assert(triples[k].kind == Relationship::Owns);
            }
        },
    }
}

proof fn lemma_cycle_from_range(es: Seq<Edge>, n: nat, k: int)
    requires
        0 <= k,
        cycle_from(es, n, k) is Some,
    ensures
        k <= cycle_from(es, n, k)->Some_0 < es.len(),
        es[cycle_from(es, n, k)->Some_0].kind == Relationship::Owns,
    decreases es.len() - k,
{
    if !(es[k].kind == Relationship::Owns && is_ancestor(es, es[k].target as int, es[k].source as int, n)) {
        lemma_cycle_from_range(es, n, k + 1);
    }
}

proof fn lemma_ok_resolves(items: Seq<Item>, es: Seq<Edge>, triples: Seq<Triple>, k: int, h: int)
    requires
        0 <= k <= h < triples.len(),
        build_from(items, es, triples, k) is Ok,
    ensures
        resolves(items, triples[h]),
    decreases h - k,
{
    if k < h {
        let es2 = add_triple(items, es, triples[k])->Ok_0;
        lemma_ok_resolves(items, es2, triples, k + 1, h);
    }
}

/// A second-owner error names the item and two owners: either two
/// different items that each have an `Owns` relationship to the item, or,
/// when the error reports an ownership cycle, the item itself and an item
/// that has an `Owns` relationship to it.
pub proof fn lemma_owner_error_named(items: Seq<Item>, triples: Seq<Triple>)
    requires
        items.len() <= usize::MAX,
        ids_distinct(items),
        owner_conflict(build_edges(items, triples)),
    ensures
        build_edges(items, triples) matches Err(BuildError::MultipleOwners { item, owner, other_owner })
            && owns_rel(triples, other_owner@, item@) && (owner@ == item@ || (owner@ != other_owner@
            && owns_rel(triples, owner@, item@))),
{
    let empty = Seq::<Edge>::empty();
    if owner_conflict(build_from(items, empty, triples, 0)) {
        lemma_fold_owner_error(items, empty, triples, 0);
    } else {
        assert(build_from(items, empty, triples, 0) is Ok);
        lemma_build_from(items, empty, triples, 0);
        let es = build_from(items, empty, triples, 0)->Ok_0;
        let k = cycle_from(es, items.len(), 0)->Some_0;
        lemma_cycle_from_range(es, items.len(), 0);
        assert forall|q: int| #![trigger es[q]] 0 <= q < es.len() implies exists|h: int|
            0 <= h < triples.len() && resolves(items, #[trigger] triples[h]) && resolve(items, triples[h])
                == es[q] by {
            assert(es.to_set().contains(es[q]));
            assert(empty.to_set().union(distinct_edges(items, triples)).contains(es[q]));
            assert(!empty.to_set().contains(es[q]));
            let h = choose|h: int| 0 <= h < triples.len() && es[q] == resolve(items, triples[h]);
            assert(build_from(items, empty, triples, 0) is Ok);
            lemma_ok_resolves(items, empty, triples, 0, h);
        }
        lemma_edge_owns_rel(items, triples, es, k);
    }
}

/// `ev` enters `v` and leaves it at once.
pub open spec fn enter_leave_pair(ev: Seq<Event>, v: usize) -> bool {
    exists|i: int|
        0 <= i && i + 1 < ev.len() && #[trigger] ev[i] == Event::EnterNode(v) && ev[i + 1]
            == Event::LeaveNode(v)
}

/// No edge of `es` touches `v`.
pub open spec fn untouched(es: Seq<Edge>, v: usize) -> bool {
    forall|k: int| 0 <= k < es.len() ==> (#[trigger] es[k]).source != v && es[k].target != v
}

proof fn lemma_no_enter_concat(a: Seq<Event>, b: Seq<Event>, v: usize)
    requires
        !a.contains(Event::EnterNode(v)),
        !b.contains(Event::EnterNode(v)),
    ensures
        !(a + b).contains(Event::EnterNode(v)),
{
    if (a + b).contains(Event::EnterNode(v)) {
        let i = choose|i: int| 0 <= i < (a + b).len() && (a + b)[i] == Event::EnterNode(v);
        if i < a.len() {
            assert(a[i] == (a + b)[i]);
        } else {
            assert(b[i - a.len()] == (a + b)[i]);
        }
    }
}

proof fn lemma_node_avoids(
    n: int,
    es: Seq<Edge>,
    order: Seq<usize>,
    u: int,
    path: Seq<usize>,
    done: Seq<Event>,
    v: usize,
)
    requires
        0 <= u <= usize::MAX,
        u != v as int,
        untouched(es, v),
        forall|j: int| 0 <= j < order.len() ==> #[trigger] order[j] < es.len(),
        walk_node(n, es, order, u, path, done) is Ok,
    ensures
        !walk_node(n, es, order, u, path, done)->Ok_0.contains(Event::EnterNode(v)),
    decreases n - path.len(), 0int,
{
    if path.len() < n {
        let head = seq![Event::EnterNode(u as usize)];
        lemma_uses_no_enter(es, u, 0);
        let uses = uses_from(es, u, 0);
        if uses.contains(Event::EnterNode(v)) {
            let i = choose|i: int| 0 <= i < uses.len() && uses[i] == Event::EnterNode(v);
            assert(!(uses[i] is EnterNode));
        }
        if head.contains(Event::EnterNode(v)) {
            assert(head[0] == Event::EnterNode(u as usize));
        }
        lemma_no_enter_concat(head, uses, v);
        let pre = head + uses;
        let inner = path.push(u as usize);
        lemma_children_avoid(n, es, order, u, inner, done + pre, 0, v);
        let cs = walk_children(n, es, order, u, inner, done + pre, 0)->Ok_0;
        let tail = seq![Event::LeaveNode(u as usize)];
        if tail.contains(Event::EnterNode(v)) {
            assert(tail[0] == Event::LeaveNode(u as usize));
        }
        lemma_no_enter_concat(pre, cs, v);
        lemma_no_enter_concat(pre + cs, tail, v);
    }
}

proof fn lemma_children_avoid(
    n: int,
    es: Seq<Edge>,
    order: Seq<usize>,
    u: int,
    path: Seq<usize>,
    done: Seq<Event>,
    k: int,
    v: usize,
)
    requires
        untouched(es, v),
        forall|j: int| 0 <= j < order.len() ==> #[trigger] order[j] < es.len(),
        walk_children(n, es, order, u, path, done, k) is Ok,
    ensures
        !walk_children(n, es, order, u, path, done, k)->Ok_0.contains(Event::EnterNode(v)),
    decreases n - path.len(), order.len() - k + 1,
{
    if k < 0 || k >= order.len() {
    } else if es[order[k] as int].kind == Relationship::Owns && es[order[k] as int].source as int == u {
        let t = es[order[k] as int].target;
        assert(order[k] < es.len());
        assert(t != v);
        lemma_node_avoids(n, es, order, t as int, path, done, v);
        let s = walk_node(n, es, order, t as int, path, done)->Ok_0;
        lemma_children_avoid(n, es, order, u, path, done + s, k + 1, v);
        let r = walk_children(n, es, order, u, path, done + s, k + 1)->Ok_0;
        lemma_no_enter_concat(s, r, v);
    } else {
        lemma_children_avoid(n, es, order, u, path, done, k + 1, v);
    }
}

proof fn lemma_pair_kept(a: Seq<Event>, b: Seq<Event>, v: usize)
    requires
        enter_leave_pair(a, v),
    ensures
        enter_leave_pair(a + b, v),
{
    let i = choose|i: int|
        0 <= i && i + 1 < a.len() && #[trigger] a[i] == Event::EnterNode(v) && a[i + 1]
            == Event::LeaveNode(v);
    assert((a + b)[i] == a[i] && (a + b)[i + 1] == a[i + 1]);
}

proof fn lemma_roots_pair(
    g: GraphView,
    order: Seq<usize>,
    roots: Seq<usize>,
    done: Seq<Event>,
    k: int,
    v: usize,
)
    requires
        g.wf(),
        0 <= k,
        v < g.items.len(),
        untouched(g.edges, v),
        forall|j: int| 0 <= j < order.len() ==> #[trigger] order[j] < g.edges.len(),
        walk_roots(g.items.len() as int, g.live, g.edges, order, roots, done, k) is Ok,
        enter_leave_pair(done, v) || (!done.contains(Event::EnterNode(v)) && exists|j: int|
            k <= j < roots.len() && roots[j] == v),
    ensures
        enter_leave_pair(
            done + walk_roots(g.items.len() as int, g.live, g.edges, order, roots, done, k)->Ok_0,
            v,
        ),
    decreases roots.len() - k,
{
    let n = g.items.len() as int;
    let es = g.edges;
    let r = walk_roots(n, g.live, es, order, roots, done, k)->Ok_0;
    if k >= roots.len() {
        assert(done + r =~= done);
    } else {
        let u = roots[k];
        if entered(done, u) {
            lemma_roots_pair(g, order, roots, done, k + 1, v);
        } else {
            let s = walk_node(n, es, order, u as int, Seq::empty(), done)->Ok_0;
            if u == v {
                lemma_isolated_walk(g, v, order, done);
                assert((done + s)[done.len() as int] == Event::EnterNode(v));
                assert((done + s)[done.len() as int + 1] == Event::LeaveNode(v));
            } else {
                lemma_node_avoids(n, es, order, u as int, Seq::empty(), done, v);
                if !done.contains(Event::EnterNode(v)) {
                    lemma_no_enter_concat(done, s, v);
                }
                if enter_leave_pair(done, v) {
                    lemma_pair_kept(done, s, v);
                }
            }
            lemma_roots_pair(g, order, roots, done + s, k + 1, v);
            let r2 = walk_roots(n, g.live, es, order, roots, done + s, k + 1)->Ok_0;
            assert(done + (s + r2) =~= done + s + r2);
        }
    }
}

/// An item that no edge touches, given among the roots of a walk that
/// succeeds, is entered and left at once, with nothing in between, under
/// any child order.
pub proof fn lemma_isolated_root_pair(g: GraphView, roots: Seq<usize>, order: Seq<usize>, v: usize)
    requires
        g.wf(),
        v < g.items.len(),
        untouched(g.edges, v),
        roots.contains(v),
        forall|j: int| 0 <= j < order.len() ==> #[trigger] order[j] < g.edges.len(),
        walk_ordered_spec(g, roots, order) is Ok,
    ensures
        enter_leave_pair(walk_ordered_spec(g, roots, order)->Ok_0, v),
{
    let none = Seq::<Event>::empty();
    lemma_roots_pair(g, order, roots, none, 0, v);
    assert(none + walk_ordered_spec(g, roots, order)->Ok_0 =~= walk_ordered_spec(g, roots, order)->Ok_0);
}

/// The (source id, target id, kind) of each relationship.
pub open spec fn id_triples(triples: Seq<Triple>) -> Set<(Seq<char>, Seq<char>, Relationship)> {
    Set::new(
        |x: (Seq<char>, Seq<char>, Relationship)|
            exists|h: int|
                0 <= h < triples.len() && x == (
                    (#[trigger] triples[h]).source@,
                    triples[h].target@,
                    triples[h].kind,
                ),
    )
}

/// The (source id, target id, kind) that an edge stands for.
pub open spec fn edge_ids(items: Seq<Item>, e: Edge) -> (Seq<char>, Seq<char>, Relationship) {
    (items[e.source as int].id@, items[e.target as int].id@, e.kind)
}

proof fn lemma_resolve_ids(items: Seq<Item>, tr: Triple)
    requires
        items.len() <= usize::MAX,
        resolves(items, tr),
    ensures
        edge_ids(items, resolve(items, tr)) == (tr.source@, tr.target@, tr.kind),
        (resolve(items, tr).source as int) < items.len(),
        (resolve(items, tr).target as int) < items.len(),
{
    lemma_index_from_range(items, tr.source@, 0);
    lemma_index_from_range(items, tr.target@, 0);
}

/// Under the same conditions as `lemma_build_counts`, the edges stand, one
/// for one, for the distinct (source id, target id, kind) triples of the
/// relationships, so their number is the number of such triples.
pub proof fn lemma_build_counts_by_id(items: Seq<Item>, triples: Seq<Triple>)
    requires
        items.len() <= usize::MAX,
        ids_distinct(items),
        forall|j: int| 0 <= j < triples.len() ==> resolves(items, #[trigger] triples[j]),
        !owner_conflict(build_edges(items, triples)),
    ensures
        build_edges(items, triples) matches Ok(es) && es.to_set().map(|e: Edge| edge_ids(items, e))
            == id_triples(triples) && es.len() == id_triples(triples).len(),
{
    lemma_build_counts(items, triples);
    let es = build_edges(items, triples)->Ok_0;
    let x = es.to_set();
    let f = |e: Edge| edge_ids(items, e);
    let d = distinct_edges(items, triples);
    assert(x == d);
    assert forall|y: (Seq<char>, Seq<char>, Relationship)| #[trigger] x.map(f).contains(y)
        == id_triples(triples).contains(y) by {
        if x.map(f).contains(y) {
            let e = choose|e: Edge| x.contains(e) && f(e) == y;
            let h = choose|h: int| 0 <= h < triples.len() && e == resolve(items, triples[h]);
            lemma_resolve_ids(items, triples[h]);
        }
        if id_triples(triples).contains(y) {
            let h = choose|h: int|
                0 <= h < triples.len() && y == (
                    (#[trigger] triples[h]).source@,
                    triples[h].target@,
                    triples[h].kind,
                );
            lemma_resolve_ids(items, triples[h]);
            let e = resolve(items, triples[h]);
            assert(d.contains(e));
            assert(x.contains(e) && f(e) == y);
        }
    }
    assert(x.map(f) =~= id_triples(triples));
    assert forall|e1: Edge, e2: Edge| x.contains(e1) && x.contains(e2) && #[trigger] f(e1) == #[trigger] f(
        e2,
    ) implies e1 == e2 by {
        let h1 = choose|h: int| 0 <= h < triples.len() && e1 == resolve(items, triples[h]);
        let h2 = choose|h: int| 0 <= h < triples.len() && e2 == resolve(items, triples[h]);
        lemma_resolve_ids(items, triples[h1]);
        lemma_resolve_ids(items, triples[h2]);
        let (s1, s2, t1, t2) = (e1.source as int, e2.source as int, e1.target as int, e2.target as int);
        if s1 < s2 {
            assert(items[s1].id@ != items[s2].id@);
        } else if s2 < s1 {
            assert(items[s2].id@ != items[s1].id@);
        }
        if t1 < t2 {
            assert(items[t1].id@ != items[t2].id@);
        } else if t2 < t1 {
            assert(items[t2].id@ != items[t1].id@);
        }
    }
    assert(vstd::relations::injective_on(f, x));
    vstd::set_lib::lemma_map_size(x, id_triples(triples), f);
}

} // verus!
