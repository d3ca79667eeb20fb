use openship::graph::{dep_set, Extension, Graph, Mangled, Node, Object, Scope};
use openship::hash::AbsHash;
use openship::propagate::{handle_node, resolve_node};

fn create_test_node(name: &str, deps: Vec<Mangled>) -> Node {
    Node {
        o: Object(name.to_string()),
        e: Some(Extension("js".to_string())),
        s: Scope("".to_string()),
        a: AbsHash(format!("hash_{}", name)),
        i: None,
        d: dep_set(deps),
        v: None,
    }
}

fn key_of(n: &Node) -> Mangled {
    Graph::mangle(&n.s, &n.o, &n.e)
}

#[test]
fn test_handle_node_no_deps() {
    let mut graph = Graph::new();
    let node = create_test_node("A", vec![]);

    handle_node(&mut graph, node.duplicate());

    let handled = graph.get(&key_of(&node)).unwrap();
    assert!(handled.i.is_some());
}

#[test]
fn test_handle_node_with_existing_dep() {
    let mut graph = Graph::new();
    let dep_node = create_test_node("B", vec![]);
    graph.insert(dep_node.duplicate());
    handle_node(&mut graph, dep_node.duplicate());

    let dep_mangled = key_of(&dep_node);
    let node = create_test_node("A", vec![dep_mangled]);

    handle_node(&mut graph, node.duplicate());

    let handled = graph.get(&key_of(&node)).unwrap();
    assert!(handled.i.is_some());
}

#[test]
fn test_handle_node_update_propagation() {
    let mut graph = Graph::new();

    let node_b = create_test_node("B", vec![]);
    handle_node(&mut graph, node_b.duplicate());

    let dep_mangled = key_of(&node_b);
    let node_a = create_test_node("A", vec![dep_mangled]);
    graph.insert(node_a.duplicate());

    let mut updated_b = node_b.duplicate();
    updated_b.a = AbsHash("new_hash_B".to_string());
    handle_node(&mut graph, updated_b);

    let updated_a = graph.get(&key_of(&node_a)).unwrap();
    assert!(updated_a.i.is_some());
    assert_ne!(updated_a.i.as_ref().map(|h| h.0.clone()), node_a.i.as_ref().map(|h| h.0.clone()));
}

#[test]
fn missing_dependency_leaves_effective_hash_unset() {
    let mut graph = Graph::new();
    let b = create_test_node("B", vec![]);
    let a = create_test_node("A", vec![key_of(&b)]);
    assert!(handle_node(&mut graph, a.duplicate()));
    assert!(graph.get(&key_of(&a)).unwrap().i.is_none());

    handle_node(&mut graph, b.duplicate());
    let a_now = graph.get(&key_of(&a)).unwrap();
    assert!(a_now.i.is_some());
}

#[test]
fn dependency_change_reaches_dependent() {
    let mut graph = Graph::new();
    let b = create_test_node("B", vec![]);
    let a = create_test_node("A", vec![key_of(&b)]);
    handle_node(&mut graph, b.duplicate());
    handle_node(&mut graph, a.duplicate());
    let before = graph.get(&key_of(&a)).unwrap().i.as_ref().unwrap().0.clone();

    let mut b2 = b.duplicate();
    b2.a = AbsHash("hash_B_changed".to_string());
    handle_node(&mut graph, b2);
    let after = graph.get(&key_of(&a)).unwrap().i.as_ref().unwrap().0.clone();
    assert_ne!(before, after);
    assert!(after.starts_with("oshi_1"));
}

#[test]
fn reprocessing_unchanged_node_changes_nothing() {
    let mut graph = Graph::new();
    let b = create_test_node("B", vec![]);
    handle_node(&mut graph, b.duplicate());
    let resolved = resolve_node(&graph, b.duplicate());
    assert!(!graph.insert(resolved));
    let count = graph.len();
    assert!(handle_node(&mut graph, b.duplicate()));
    assert_eq!(graph.len(), count);
}

#[test]
fn cycle_is_reported() {
    let mut graph = Graph::new();
    let ka = Mangled("::A::js".to_string());
    let kb = Mangled("::B::js".to_string());
    let a = create_test_node("A", vec![kb.duplicate()]);
    let mut b = create_test_node("B", vec![ka.duplicate()]);
    b.i = Some(openship::hash::ImplHash("oshi_1seed".to_string()));
    assert_eq!(key_of(&a).0, ka.0);
    graph.insert(a.duplicate());
    graph.insert(b.duplicate());
    let mut a2 = a.duplicate();
    a2.a = AbsHash("changed".to_string());
    assert!(!handle_node(&mut graph, a2));
}
