//! Task-graph ordering and cycle-rejection tests.

use xylux_ecs::TaskGraph;

/// The payload stands in for a system's logic; tests only check ordering.
#[derive(Clone, Copy, Debug, PartialEq)]
struct Marker(u32);

fn order_of_names(graph: &TaskGraph<Marker>) -> Vec<String> {
    let mut names = Vec::new();
    for k in 0..graph.order_len() {
        let idx = graph.order_index(k);
        names.push(graph.name_at(idx).clone());
    }
    names
}

fn position(names: &[String], name: &str) -> usize {
    names.iter().position(|n| n == name).expect("system missing from order")
}

#[test]
fn test_order_respects_dependencies() {
    let mut graph: TaskGraph<Marker> = TaskGraph::new();
    graph.add_system("physics".to_string(), vec!["input".to_string()], Marker(0)).unwrap();
    graph.add_system("render".to_string(), vec!["physics".to_string()], Marker(1)).unwrap();
    graph.add_system("input".to_string(), Vec::new(), Marker(2)).unwrap();
    graph
        .add_system(
            "audio".to_string(),
            vec!["input".to_string(), "physics".to_string()],
            Marker(3),
        )
        .unwrap();

    let names = order_of_names(&graph);
    assert_eq!(names.len(), 4);
    assert!(position(&names, "input") < position(&names, "physics"));
    assert!(position(&names, "physics") < position(&names, "render"));
    assert!(position(&names, "input") < position(&names, "audio"));
    assert!(position(&names, "physics") < position(&names, "audio"));
}

#[test]
fn test_transitive_dependency_runs_earlier() {
    let mut graph: TaskGraph<Marker> = TaskGraph::new();
    graph.add_system("c".to_string(), vec!["b".to_string()], Marker(0)).unwrap();
    graph.add_system("b".to_string(), vec!["a".to_string()], Marker(1)).unwrap();
    graph.add_system("a".to_string(), Vec::new(), Marker(2)).unwrap();

    let names = order_of_names(&graph);
    assert_eq!(names, vec!["a".to_string(), "b".to_string(), "c".to_string()]);
}

#[test]
fn test_cycle_is_rejected_and_graph_unchanged() {
    let mut graph: TaskGraph<Marker> = TaskGraph::new();
    graph.add_system("a".to_string(), Vec::new(), Marker(0)).unwrap();
    graph.add_system("b".to_string(), vec!["a".to_string()], Marker(1)).unwrap();
    let before = order_of_names(&graph);

    // re-declaring "a" so that it depends on "b" closes a cycle
    let err = graph.add_system("a".to_string(), vec!["b".to_string()], Marker(2)).unwrap_err();
    assert!(err.node == "a" || err.node == "b");
    assert_eq!(order_of_names(&graph), before);
}

#[test]
fn test_self_cycle_is_rejected() {
    let mut graph: TaskGraph<Marker> = TaskGraph::new();
    let err = graph.add_system("loner".to_string(), vec!["loner".to_string()], Marker(0)).unwrap_err();
    assert_eq!(err.node, "loner");
    assert_eq!(graph.order_len(), 0);
}

#[test]
fn test_replacing_a_system_updates_dependencies() {
    let mut graph: TaskGraph<Marker> = TaskGraph::new();
    graph.add_system("a".to_string(), Vec::new(), Marker(0)).unwrap();
    graph.add_system("b".to_string(), Vec::new(), Marker(1)).unwrap();
    assert_eq!(order_of_names(&graph), vec!["a".to_string(), "b".to_string()]);

    // after the replacement "a" depends on "b", so "b" must move first
    graph.add_system("a".to_string(), vec!["b".to_string()], Marker(2)).unwrap();
    let names = order_of_names(&graph);
    assert_eq!(names.len(), 2);
    assert!(position(&names, "b") < position(&names, "a"));

    // the replaced payload is the new one
    for k in 0..graph.order_len() {
        let idx = graph.order_index(k);
        let name = graph.name_at(idx).clone();
        let payload = *graph.system_at(idx);
        if name == "a" {
            assert_eq!(payload, Marker(2));
        } else {
            assert_eq!(payload, Marker(1));
        }
    }
}

#[test]
fn test_unregistered_dependency_imposes_no_order() {
    let mut graph: TaskGraph<Marker> = TaskGraph::new();
    // "ghost" is never registered; "a" is still schedulable
    graph.add_system("a".to_string(), vec!["ghost".to_string()], Marker(0)).unwrap();
    assert_eq!(order_of_names(&graph), vec!["a".to_string()]);
}
