use openship::graph::{dep_set, Extension, Graph, Mangled, Node, Object, Scope, Version};
use openship::hash::{AbsHash, ImplHash};

fn record(o: &str, s: &str, e: Option<&str>, a: &str) -> Node {
    Node {
        o: Object(o.to_string()),
        s: Scope(s.to_string()),
        e: e.map(|x| Extension(x.to_string())),
        a: AbsHash(a.to_string()),
        i: None,
        d: vec![],
        v: None,
    }
}

fn key(s: &str, o: &str, e: Option<&str>) -> String {
    let ext = e.map(|x| Extension(x.to_string()));
    Graph::mangle(&Scope(s.to_string()), &Object(o.to_string()), &ext).0
}

#[test]
fn test_read_graph() {
    let records = vec![
        record("o1", "s1", None, "123"),
        record("o2", "s2", Some("ts"), "456"),
        record("o2", "s2", Some("tsx"), "456"),
    ];
    let r = Graph::read_graph(records);
    assert_eq!(r.len(), 2);
}

#[test]
fn read_graph_later_record_wins() {
    let records = vec![record("o", "app", Some("ts"), "first"), record("o", "app", Some("tsx"), "second")];
    let g = Graph::read_graph(records);
    let k = Mangled(key("app", "o", Some("ts")));
    let n = g.get(&k).unwrap();
    assert_eq!(n.a.0, "second");
    assert_eq!(n.e.as_ref().unwrap().0, "tsx");
}

#[test]
fn mangle_script_extensions_coalesce() {
    let expected = "app::pages/index::js";
    for e in ["js", "jsx", "ts", "tsx"] {
        assert_eq!(key("app", "pages/index", Some(e)), expected);
    }
}

#[test]
fn mangle_other_classes() {
    assert_eq!(key("app", "styles/main", Some("css")), "app::styles/main::css");
    assert_eq!(key("app", "data", Some("json")), "app::data");
    assert_eq!(key("app", "data", None), "app::data");
    assert_eq!(key("dep", "react", Some("js")), "dep::react");
    assert_eq!(key("dep", "react", None), "dep::react");
}

#[test]
fn insert_reports_change_only_once() {
    let mut g = Graph::new();
    assert!(g.insert(record("a", "app", Some("ts"), "h")));
    assert!(!g.insert(record("a", "app", Some("ts"), "h")));
    assert!(g.insert(record("a", "app", Some("js"), "h")));
    assert!(g.insert(record("a", "app", Some("ts"), "h2")));
    assert_eq!(g.len(), 1);
    let n = g.get(&Mangled(key("app", "a", Some("ts")))).unwrap();
    assert_eq!(n.a.0, "h2");
}

#[test]
fn get_prefers_new_layer() {
    let mut g = Graph::read_graph(vec![record("a", "app", Some("ts"), "old")]);
    assert!(g.insert(record("a", "app", Some("ts"), "fresh")));
    let k = Mangled(key("app", "a", Some("ts")));
    assert_eq!(g.get(&k).unwrap().a.0, "fresh");
    assert_eq!(g.len(), 2);
    assert!(g.get(&Mangled("app::missing".to_string())).is_none());
}

#[test]
fn find_with_dep_returns_current_dependents_once() {
    let b = key("app", "b", Some("ts"));
    let mut a = record("a", "app", Some("ts"), "old");
    a.d = dep_set(vec![Mangled(b.clone())]);
    let c = record("c", "app", Some("ts"), "c");
    let mut g = Graph::read_graph(vec![a, c]);
    let mut a2 = record("a", "app", Some("ts"), "fresh");
    a2.d = dep_set(vec![Mangled(b.clone())]);
    assert!(g.insert(a2));
    let found = g.find_with_dep(Mangled(b));
    assert_eq!(found.len(), 1);
    assert_eq!(found[0].a.0, "fresh");
    assert!(g.find_with_dep(Mangled("app::none".to_string())).is_empty());
}

#[test]
fn dep_set_sorts_and_dedups() {
    let d = dep_set(vec![
        Mangled("app::c".to_string()),
        Mangled("app::a".to_string()),
        Mangled("app::c".to_string()),
        Mangled("app::b".to_string()),
    ]);
    let keys: Vec<String> = d.into_iter().map(|m| m.0).collect();
    assert_eq!(keys, vec!["app::a", "app::b", "app::c"]);
    assert!(dep_set(vec![]).is_empty());
}

#[test]
fn export_then_reload_gives_same_lookups() {
    let mut g = Graph::read_graph(vec![record("x", "app", Some("ts"), "x")]);
    let mut p = record("react", "dep", None, "osha_1");
    p.v = Some(Version("18.2.0".to_string()));
    p.i = Some(ImplHash("oshi_1".to_string()));
    assert!(g.insert(p));
    assert!(g.insert(record("y", "app", Some("css"), "y")));
    let out = g.write_graph();
    assert_eq!(out.len(), 2);
    let fresh = Graph::read_graph(out);
    for k in ["dep::react", "app::y::css"] {
        let m = Mangled(k.to_string());
        let a = g.get(&m).unwrap();
        let b = fresh.get(&m).unwrap();
        assert!(a.same(b));
    }
    assert!(fresh.get(&Mangled(key("app", "x", Some("ts")))).is_none());
}
