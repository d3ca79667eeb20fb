use openship::graph::{Graph, Mangled};
use openship::hash::{content_hash, depencency_hash};
use openship::ingest::{after_failed_open, module_node, package_node, MAX_RETRIES};
use openship::text::less_than;

#[test]
fn retries_until_the_bound_then_gives_up() {
    assert_eq!(after_failed_open(0), Some(1));
    assert_eq!(after_failed_open(7), Some(8));
    assert_eq!(after_failed_open(MAX_RETRIES), None);
    assert_eq!(after_failed_open(u32::MAX), None);
}

#[test]
fn module_node_has_app_scope_and_dependency_set() {
    let n = module_node(
        "pages/index".to_string(),
        Some("tsx".to_string()),
        content_hash(7),
        vec![Mangled("dep::react".to_string()), Mangled("app::lib/a::js".to_string()), Mangled("dep::react".to_string())],
    );
    assert_eq!(n.s.0, "app");
    assert_eq!(n.o.0, "pages/index");
    assert_eq!(n.e.as_ref().unwrap().0, "tsx");
    assert!(n.i.is_none());
    assert!(n.v.is_none());
    let d: Vec<&str> = n.d.iter().map(|m| m.0.as_str()).collect();
    assert_eq!(d, vec!["app::lib/a::js", "dep::react"]);
    assert_eq!(Graph::mangle(&n.s, &n.o, &n.e).0, "app::pages/index::js");
}

#[test]
fn package_node_carries_both_hashes() {
    let n = package_node("react", "18.2.0");
    let (a, i) = depencency_hash("react", "18.2.0");
    assert_eq!(n.s.0, "dep");
    assert!(n.e.is_none());
    assert_eq!(n.a.0, a.0);
    assert_eq!(n.i.as_ref().unwrap().0, i.0);
    assert!(n.d.is_empty());
    assert_eq!(n.v.as_ref().unwrap().0, "18.2.0");
    assert_eq!(Graph::mangle(&n.s, &n.o, &n.e).0, "dep::react");
}

#[test]
fn keys_order_lexicographically() {
    assert!(less_than("app::a", "app::b"));
    assert!(!less_than("app::b", "app::a"));
    assert!(less_than("app", "app::a"));
    assert!(!less_than("app", "app"));
    assert!(less_than("", "a"));
    assert!(less_than("Z", "a"));
}
