use modgraph::graph::{build, build_pruned, BuildError, Graph, Side};
use modgraph::item::{Item, ItemKind, Triple};
use modgraph::relationship::Relationship;
use modgraph::walker::{walk, walk_all, walk_ordered, ChildOrder, Event, WalkError};

fn item(id: &str) -> Item {
    Item::new(id, id, ItemKind::Module)
}

fn rel(s: &str, t: &str, kind: Relationship) -> Triple {
    Triple::new(s, t, kind)
}

fn scenario() -> Graph {
    let items = vec![item("root"), item("mod_a"), item("mod_b"), item("fn_c")];
    let triples = vec![
        rel("root", "mod_a", Relationship::Owns),
        rel("root", "mod_b", Relationship::Owns),
        rel("mod_a", "fn_c", Relationship::Owns),
        rel("fn_c", "mod_b", Relationship::Uses),
    ];
    build(items, triples).expect("scenario builds")
}

fn idx(g: &Graph, id: &str) -> usize {
    g.find(&id.to_string()).expect("known id")
}

#[test]
fn display_names() {
    assert_eq!(Relationship::Uses.display_name(), "uses");
    assert_eq!(Relationship::Owns.display_name(), "owns");
    assert_eq!(Relationship::Uses.to_string(), "Uses");
    assert_eq!(Relationship::Owns.to_string(), "Owns");
}

#[test]
fn scenario_builds_and_walks_in_order() {
    let g = scenario();
    assert_eq!(g.node_count(), 4);
    assert_eq!(g.edge_count(), 4);
    let (root, a, b, c) = (idx(&g, "root"), idx(&g, "mod_a"), idx(&g, "mod_b"), idx(&g, "fn_c"));
    let events = walk(&g, &vec![root]).expect("walk succeeds");
    assert_eq!(
        events,
        vec![
            Event::EnterNode(root),
            Event::EnterNode(a),
            Event::EnterNode(c),
            Event::Edge(Relationship::Uses, c, b),
            Event::LeaveNode(c),
            Event::LeaveNode(a),
            Event::EnterNode(b),
            Event::LeaveNode(b),
            Event::LeaveNode(root),
        ]
    );
}

#[test]
fn default_roots_are_top_level_items() {
    let g = scenario();
    assert_eq!(g.top_level_nodes(), vec![0]);
    let all = walk_all(&g).expect("walk succeeds");
    let from_root = walk(&g, &vec![0]).expect("walk succeeds");
    assert_eq!(all, from_root);
}

#[test]
fn walking_twice_gives_same_events() {
    let g = scenario();
    let first = walk(&g, &vec![0]).expect("walk succeeds");
    let second = walk(&g, &vec![0]).expect("walk succeeds");
    assert_eq!(first, second);
    assert_eq!(first.len(), 9);
}

#[test]
fn isolated_item_is_its_own_root() {
    let items = vec![item("root"), item("child"), item("alone")];
    let triples = vec![rel("root", "child", Relationship::Owns)];
    let g = build(items, triples).expect("builds");
    assert_eq!(g.top_level_nodes(), vec![0, 2]);
    let events = walk_all(&g).expect("walk succeeds");
    assert_eq!(
        events,
        vec![
            Event::EnterNode(0),
            Event::EnterNode(1),
            Event::LeaveNode(1),
            Event::LeaveNode(0),
            Event::EnterNode(2),
            Event::LeaveNode(2),
        ]
    );
}

#[test]
fn empty_input_builds_empty_graph() {
    let g = build(vec![], vec![]).expect("builds");
    assert_eq!(g.node_count(), 0);
    assert_eq!(g.edge_count(), 0);
    assert_eq!(walk_all(&g).expect("walk succeeds"), vec![]);
}

#[test]
fn duplicate_edges_are_merged_by_kind() {
    let items = vec![item("a"), item("b")];
    let triples = vec![
        rel("a", "b", Relationship::Uses),
        rel("a", "b", Relationship::Uses),
        rel("a", "b", Relationship::Owns),
        rel("a", "b", Relationship::Owns),
        rel("b", "a", Relationship::Uses),
    ];
    let g = build(items, triples).expect("builds");
    assert_eq!(g.node_count(), 2);
    assert_eq!(g.edge_count(), 3);
    assert_eq!(g.outgoing(0, Relationship::Uses), vec![1]);
    assert_eq!(g.outgoing(0, Relationship::Owns), vec![1]);
    assert_eq!(g.incoming(0, Relationship::Uses), vec![1]);
    assert_eq!(g.incoming(1, Relationship::Owns), vec![0]);
}

#[test]
fn uses_cycles_are_reported_once() {
    let items = vec![item("a"), item("b")];
    let triples = vec![rel("a", "b", Relationship::Uses), rel("b", "a", Relationship::Uses)];
    let g = build(items, triples).expect("builds");
    let events = walk_all(&g).expect("walk succeeds");
    assert_eq!(
        events,
        vec![
            Event::EnterNode(0),
            Event::Edge(Relationship::Uses, 0, 1),
            Event::LeaveNode(0),
            Event::EnterNode(1),
            Event::Edge(Relationship::Uses, 1, 0),
            Event::LeaveNode(1),
        ]
    );
}

#[test]
fn mutual_ownership_fails_at_build() {
    let items = vec![item("A"), item("B")];
    let triples = vec![rel("A", "B", Relationship::Owns), rel("B", "A", Relationship::Owns)];
    match build(items, triples) {
        Err(BuildError::MultipleOwners { item, owner, other_owner }) => {
            assert_eq!(item, "B");
            assert_eq!(owner, "B");
            assert_eq!(other_owner, "A");
        }
        other => panic!("unexpected: {:?}", other.map(|g| g.node_count())),
    }
}

#[test]
fn self_ownership_fails_at_build() {
    let items = vec![item("A")];
    let triples = vec![rel("A", "A", Relationship::Owns)];
    assert!(matches!(build(items, triples), Err(BuildError::MultipleOwners { .. })));
}

#[test]
fn second_owner_fails_at_build() {
    let items = vec![item("p"), item("q"), item("c")];
    let triples = vec![rel("p", "c", Relationship::Owns), rel("q", "c", Relationship::Owns)];
    match build(items, triples) {
        Err(BuildError::MultipleOwners { item, owner, other_owner }) => {
            assert_eq!(item, "c");
            assert_eq!(owner, "p");
            assert_eq!(other_owner, "q");
        }
        other => panic!("unexpected: {:?}", other.map(|g| g.node_count())),
    }
}

#[test]
fn dangling_reference_names_the_identifier() {
    let items = vec![item("a")];
    match build(items.clone(), vec![rel("a", "X", Relationship::Uses)]) {
        Err(BuildError::DanglingReference { id, side }) => {
            assert_eq!(id, "X");
            assert_eq!(side, Side::Target);
        }
        other => panic!("unexpected: {:?}", other.map(|g| g.node_count())),
    }
    match build(items, vec![rel("X", "a", Relationship::Owns)]) {
        Err(BuildError::DanglingReference { id, side }) => {
            assert_eq!(id, "X");
            assert_eq!(side, Side::Source);
        }
        other => panic!("unexpected: {:?}", other.map(|g| g.node_count())),
    }
}

#[test]
fn duplicate_items_fail_at_build() {
    let items = vec![item("a"), item("b"), item("a")];
    match build(items, vec![]) {
        Err(BuildError::DuplicateItem { id, first, second }) => {
            assert_eq!(id, "a");
            assert_eq!(first, 0);
            assert_eq!(second, 2);
        }
        other => panic!("unexpected: {:?}", other.map(|g| g.node_count())),
    }
}

#[test]
fn unknown_root_fails_the_walk() {
    let g = scenario();
    match walk(&g, &vec![0, 9]) {
        Err(WalkError::UnknownNode(n)) => assert_eq!(n, 9),
        other => panic!("unexpected: {:?}", other),
    }
}

#[test]
fn lookup_by_identifier() {
    let g = scenario();
    assert_eq!(g.find(&"fn_c".to_string()), Some(3));
    assert_eq!(g.find(&"missing".to_string()), None);
    assert_eq!(g.item(1).name, "mod_a");
    assert_eq!(g.item(1).container, "");
    let nested = Item::in_container("m::f", "f", ItemKind::Function, "m");
    assert_eq!((nested.id.as_str(), nested.name.as_str()), ("m::f", "f"));
    assert_eq!(nested.container, "m");
    let e = g.edge(3);
    assert_eq!((e.source, e.target, e.kind), (3, 2, Relationship::Uses));
}

fn pruning_input() -> (Vec<Item>, Vec<Triple>) {
    let items = vec![item("root"), item("a"), item("b"), item("orphan"), item("orphan_child")];
    let triples = vec![
        rel("root", "a", Relationship::Owns),
        rel("a", "b", Relationship::Uses),
        rel("orphan", "orphan_child", Relationship::Owns),
        rel("orphan_child", "a", Relationship::Uses),
    ];
    (items, triples)
}

#[test]
fn pruning_keeps_reachable_nodes_at_their_indices() {
    let (items, triples) = pruning_input();
    let g = build_pruned(items, triples, &vec!["root".to_string()]).expect("builds");
    assert!(g.contains(0) && g.contains(1) && g.contains(2));
    assert!(!g.contains(3) && !g.contains(4));
    assert!(!g.contains(5));
    assert_eq!(g.find(&"b".to_string()), Some(2));
    assert_eq!(g.edge_count(), 2);
    assert_eq!(g.incoming(1, Relationship::Uses), Vec::<usize>::new());
    assert_eq!(g.top_level_nodes(), vec![0, 2]);
    let events = walk_all(&g).expect("walk succeeds");
    assert_eq!(
        events,
        vec![
            Event::EnterNode(0),
            Event::EnterNode(1),
            Event::Edge(Relationship::Uses, 1, 2),
            Event::LeaveNode(1),
            Event::LeaveNode(0),
            Event::EnterNode(2),
            Event::LeaveNode(2),
        ]
    );
    match walk(&g, &vec![3]) {
        Err(WalkError::UnknownNode(n)) => assert_eq!(n, 3),
        other => panic!("unexpected: {:?}", other),
    }
}

#[test]
fn pruning_from_every_top_item_keeps_everything() {
    let (items, triples) = pruning_input();
    let roots = vec!["root".to_string(), "orphan".to_string()];
    let g = build_pruned(items, triples, &roots).expect("builds");
    for v in 0..5 {
        assert!(g.contains(v));
    }
    assert_eq!(g.edge_count(), 4);
}

#[test]
fn pruning_with_no_roots_removes_every_node() {
    let (items, triples) = pruning_input();
    let g = build_pruned(items, triples, &vec![]).expect("builds");
    assert_eq!(g.node_count(), 5);
    assert!(!g.contains(0));
    assert_eq!(g.edge_count(), 0);
    assert_eq!(walk_all(&g).expect("walk succeeds"), vec![]);
}

#[test]
fn pruning_from_unknown_root_fails() {
    let (items, triples) = pruning_input();
    let roots = vec!["root".to_string(), "nope".to_string()];
    match build_pruned(items, triples, &roots) {
        Err(BuildError::DanglingReference { id, side }) => {
            assert_eq!(id, "nope");
            assert_eq!(side, Side::Root);
        }
        other => panic!("unexpected: {:?}", other.map(|g| g.node_count())),
    }
}

#[test]
fn overlapping_roots_are_walked_once() {
    let g = scenario();
    let (root, a) = (idx(&g, "root"), idx(&g, "mod_a"));
    let both = walk(&g, &vec![root, a]).expect("walk succeeds");
    assert_eq!(both, walk(&g, &vec![root]).expect("walk succeeds"));
    match walk(&g, &vec![a, root]) {
        Err(WalkError::StructuralCycle { node, path }) => {
            assert_eq!(node, a);
            assert_eq!(path, vec![root]);
        }
        other => panic!("unexpected: {:?}", other),
    }
}

#[test]
fn repeated_root_is_walked_once() {
    let items = vec![item("solo")];
    let g = build(items, vec![]).expect("builds");
    let events = walk(&g, &vec![0, 0]).expect("walk succeeds");
    assert_eq!(events, vec![Event::EnterNode(0), Event::LeaveNode(0)]);
}

#[test]
fn second_owner_is_reported_before_a_cycle() {
    let items = vec![item("x"), item("a"), item("b")];
    let triples = vec![
        rel("x", "x", Relationship::Owns),
        rel("a", "x", Relationship::Owns),
        rel("b", "x", Relationship::Owns),
    ];
    match build(items, triples) {
        Err(BuildError::MultipleOwners { item, owner, other_owner }) => {
            assert_eq!(item, "x");
            assert_ne!(owner, other_owner);
            assert_eq!(owner, "x");
            assert_eq!(other_owner, "a");
        }
        other => panic!("unexpected: {:?}", other.map(|g| g.node_count())),
    }
    let items = vec![item("p"), item("q"), item("c")];
    let triples = vec![
        rel("c", "p", Relationship::Owns),
        rel("p", "c", Relationship::Owns),
        rel("q", "c", Relationship::Owns),
    ];
    match build(items, triples) {
        Err(BuildError::MultipleOwners { item, owner, other_owner }) => {
            assert_eq!(item, "c");
            assert_eq!(owner, "p");
            assert_eq!(other_owner, "q");
        }
        other => panic!("unexpected: {:?}", other.map(|g| g.node_count())),
    }
}

#[test]
fn children_can_be_ordered_by_name() {
    let items = vec![
        Item::new("r", "root", ItemKind::Module),
        Item::new("z", "zeta", ItemKind::Function),
        Item::new("a", "alpha", ItemKind::Function),
        Item::new("m", "mid", ItemKind::Function),
        Item::new("m2", "mid", ItemKind::Type),
    ];
    let triples = vec![
        rel("r", "z", Relationship::Owns),
        rel("r", "m", Relationship::Owns),
        rel("r", "a", Relationship::Owns),
        rel("r", "m2", Relationship::Owns),
    ];
    let g = build(items, triples).expect("builds");
    let by_name = walk_ordered(&g, &vec![0], ChildOrder::ByName).expect("walk succeeds");
    let entered: Vec<usize> = by_name
        .iter()
        .filter_map(|e| match e {
            Event::EnterNode(n) => Some(*n),
            _ => None,
        })
        .collect();
    assert_eq!(entered, vec![0, 2, 3, 4, 1]);
    let by_insertion = walk_ordered(&g, &vec![0], ChildOrder::Insertion).expect("walk succeeds");
    assert_eq!(by_insertion, walk(&g, &vec![0]).expect("walk succeeds"));
    assert_eq!(by_insertion[1], Event::EnterNode(1));
}
