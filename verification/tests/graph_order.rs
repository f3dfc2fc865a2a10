//! Graph building and scheduling.

use kindling::Dependencies;
use kindling::DependencyGraph;
use kindling::InitError;
use kindling::ServiceConfig;
use kindling::orchestrator::build_graph;

fn config(needs: &[&str], targets: &[&str]) -> ServiceConfig {
    ServiceConfig {
        description: None,
        license: Vec::new(),
        targets: targets.iter().map(|t| t.to_string()).collect(),
        dependencies: Dependencies {
            need: needs.iter().map(|n| n.to_string()).collect(),
            milestone: Vec::new(),
            waits_for: Vec::new(),
        },
    }
}

fn manifests(entries: &[(&str, &[&str])]) -> Vec<(String, ServiceConfig)> {
    entries
        .iter()
        .map(|(name, needs)| (name.to_string(), config(needs, &[])))
        .collect()
}

fn position(order: &[usize], node: usize) -> usize {
    order.iter().position(|&i| i == node).expect("node missing from order")
}

#[test]
fn diamond_order_respects_every_need_edge() {
    // 0 = base, 1 and 2 need base, 3 needs both.
    let graph = build_graph(manifests(&[
        ("base", &[]),
        ("left", &["base"]),
        ("right", &["base"]),
        ("top", &["left", "right"]),
    ]))
    .expect("acyclic graph must build");
    let order = graph.toposort().expect("acyclic graph must schedule");
    assert_eq!(order.len(), 4);
    // for every edge (a needs b): index(b) < index(a)
    let edges = [(1usize, 0usize), (2, 0), (3, 1), (3, 2)];
    for (a, b) in edges {
        assert!(position(&order, b) < position(&order, a));
    }
}

#[test]
fn independent_services_all_scheduled() {
    let graph = build_graph(manifests(&[("a", &[]), ("b", &[]), ("c", &[])])).unwrap();
    let mut order = graph.toposort().unwrap();
    order.sort();
    assert_eq!(order, vec![0, 1, 2]);
}

#[test]
fn two_cycle_is_fatal() {
    let graph = build_graph(manifests(&[("a", &["b"]), ("b", &["a"])])).unwrap();
    assert_eq!(graph.toposort(), Err(InitError::DependencyCycle));
}

#[test]
fn self_cycle_is_fatal() {
    let graph = build_graph(manifests(&[("loner", &["loner"])])).unwrap();
    assert_eq!(graph.toposort(), Err(InitError::DependencyCycle));
}

#[test]
fn longer_cycle_behind_a_chain_is_fatal() {
    let graph = build_graph(manifests(&[
        ("a", &["b"]),
        ("b", &["c"]),
        ("c", &["a"]),
        ("d", &["a"]),
    ]))
    .unwrap();
    assert_eq!(graph.toposort(), Err(InitError::DependencyCycle));
}

#[test]
fn unresolved_need_is_fatal() {
    let err = build_graph(manifests(&[("a", &["ghost"])])).unwrap_err();
    assert_eq!(
        err,
        InitError::UnresolvedDependency {
            service: "a".to_string(),
            dependency: "ghost".to_string(),
        }
    );
}

#[test]
fn duplicate_name_is_fatal() {
    let err = build_graph(manifests(&[("twin", &[]), ("twin", &[])])).unwrap_err();
    assert_eq!(err, InitError::DuplicateService { name: "twin".to_string() });
}

#[test]
fn empty_graph_schedules_empty_order() {
    let graph = build_graph(Vec::new()).unwrap();
    assert_eq!(graph.toposort().unwrap(), Vec::<usize>::new());
}

#[test]
fn find_index_resolves_names() {
    let mut graph = DependencyGraph::new();
    graph.add_service("alpha".to_string(), config(&[], &[])).unwrap();
    graph.add_service("beta".to_string(), config(&[], &[])).unwrap();
    assert_eq!(graph.find_index(&"alpha".to_string()), Some(0));
    assert_eq!(graph.find_index(&"beta".to_string()), Some(1));
    assert_eq!(graph.find_index(&"gamma".to_string()), None);
}

#[test]
fn later_manifest_may_need_earlier_and_earlier_may_need_later() {
    // resolution happens after every node exists, in either direction
    let graph = build_graph(manifests(&[("late", &["early"]), ("early", &[])])).unwrap();
    let order = graph.toposort().unwrap();
    assert!(position(&order, 1) < position(&order, 0));
}
