use depclean::graph::DependencyGraph;
use depclean::parser::Package;
use petgraph::graph::NodeIndex;
use petgraph::visit::EdgeRef;

fn package(name: &str, version: &str, dependencies: Option<&[&str]>) -> Package {
    Package {
        name: name.to_string(),
        version: version.to_string(),
        dependencies: dependencies.map(|keys| keys.iter().map(|k| k.to_string()).collect()),
    }
}

fn edges(graph: &DependencyGraph) -> Vec<(usize, usize)> {
    graph
        .graph
        .raw_edges()
        .iter()
        .map(|edge| (edge.source().index(), edge.target().index()))
        .collect()
}

#[test]
fn empty_list_gives_empty_graph() {
    let graph = DependencyGraph::from_lockfile(Vec::new());
    assert_eq!(graph.graph.node_count(), 0);
    assert_eq!(graph.graph.edge_count(), 0);
    assert!(graph.index_map.is_empty());
}

#[test]
fn every_package_becomes_a_node_in_order() {
    let graph = DependencyGraph::from_lockfile(vec![
        package("a", "1.0.0", None),
        package("b", "2.0.0", Some(&[])),
        package("c", "3.0.0", None),
    ]);
    assert_eq!(graph.graph.node_count(), 3);
    assert_eq!(graph.graph[NodeIndex::new(0)].name, "a");
    assert_eq!(graph.graph[NodeIndex::new(1)].name, "b");
    assert_eq!(graph.graph[NodeIndex::new(2)].version, "3.0.0");
    assert_eq!(graph.index_map.len(), 3);
    assert_eq!(graph.index_map.get("a 1.0.0"), Some(&0));
    assert_eq!(graph.index_map.get("b 2.0.0"), Some(&1));
    assert_eq!(graph.index_map.get("c 3.0.0"), Some(&2));
    assert_eq!(graph.index_map.get("c"), None);
    assert_eq!(graph.index_map.get("c3.0.0"), None);
}

#[test]
fn matching_keys_give_one_edge_each_and_others_none() {
    let graph = DependencyGraph::from_lockfile(vec![
        package("app", "0.1.0", Some(&["lib 1.0.0", "missing 9.9.9", "util 0.3.0"])),
        package("lib", "1.0.0", Some(&["util 0.3.0", "util 0.4.0"])),
        package("util", "0.3.0", None),
    ]);
    assert_eq!(graph.graph.node_count(), 3);
    assert_eq!(edges(&graph), vec![(0, 1), (0, 2), (1, 2)]);
}

#[test]
fn a_key_listed_twice_gives_two_edges() {
    let graph = DependencyGraph::from_lockfile(vec![
        package("app", "0.1.0", Some(&["lib 1.0.0", "lib 1.0.0"])),
        package("lib", "1.0.0", None),
    ]);
    assert_eq!(edges(&graph), vec![(0, 1), (0, 1)]);
}

#[test]
fn cycles_and_self_loops_are_kept() {
    let graph = DependencyGraph::from_lockfile(vec![
        package("a", "1.0.0", Some(&["b 1.0.0", "a 1.0.0"])),
        package("b", "1.0.0", Some(&["a 1.0.0"])),
    ]);
    assert_eq!(edges(&graph), vec![(0, 1), (0, 0), (1, 0)]);
}

#[test]
fn of_two_packages_with_one_key_the_index_finds_the_last() {
    let graph = DependencyGraph::from_lockfile(vec![
        package("dup", "1.0.0", Some(&["leaf 1.0.0"])),
        package("leaf", "1.0.0", None),
        package("dup", "1.0.0", None),
        package("user", "1.0.0", Some(&["dup 1.0.0"])),
    ]);
    assert_eq!(graph.graph.node_count(), 4);
    assert_eq!(graph.index_map.len(), 3);
    assert_eq!(graph.index_map.get("dup 1.0.0"), Some(&2));
    // Every node's keys are resolved, also those of the node that the index
    // no longer finds.
    assert_eq!(edges(&graph), vec![(0, 1), (3, 2)]);
}

#[test]
fn dependencies_only_outside_the_list_give_no_edge() {
    let graph = DependencyGraph::from_lockfile(vec![package(
        "alone",
        "1.0.0",
        Some(&["ghost 1.0.0", "alone 2.0.0", "alone"]),
    )]);
    assert_eq!(graph.graph.node_count(), 1);
    assert_eq!(graph.graph.edge_count(), 0);
}

#[test]
fn edges_are_found_through_the_graph_itself() {
    let graph = DependencyGraph::from_lockfile(vec![
        package("serde", "1.0.193", None),
        package("serde", "1.0.190", None),
        package("serde_json", "1.0.108", Some(&["serde 1.0.193"])),
    ]);
    let from = *graph.index_map.get("serde_json 1.0.108").unwrap();
    let to = *graph.index_map.get("serde 1.0.193").unwrap();
    let targets: Vec<usize> = graph
        .graph
        .edges(NodeIndex::new(from))
        .map(|edge| edge.target().index())
        .collect();
    assert_eq!(targets, vec![to]);
    assert_eq!(graph.graph.edges(NodeIndex::new(to)).count(), 0);
}

#[test]
fn a_list_within_the_limits_is_built() {
    let graph = DependencyGraph::try_from_lockfile(vec![
        package("app", "0.1.0", Some(&["lib 1.0.0", "nothing 0.0.0"])),
        package("lib", "1.0.0", None),
    ])
    .expect("two packages are within the limits");
    assert_eq!(graph.graph.node_count(), 2);
    assert_eq!(edges(&graph), vec![(0, 1)]);
    assert_eq!(graph.index_map.get("lib 1.0.0"), Some(&1));
    assert!(DependencyGraph::try_from_lockfile(Vec::new()).is_some());
}
