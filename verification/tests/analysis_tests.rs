use depclean::analysis::{find_duplicates, find_optimal_version, DuplicateSet};
use depclean::graph::DependencyGraph;
use depclean::parser::Package;
use depclean::time::Timestamp;

fn now() -> Timestamp {
    Timestamp { seconds: 1_700_524_800, nanos: 0 }
}

fn package(name: &str, version: &str) -> Package {
    Package { name: name.to_string(), version: version.to_string(), dependencies: None }
}

fn strings(items: &[&str]) -> Vec<String> {
    items.iter().map(|s| s.to_string()).collect()
}

fn summary(sets: &[DuplicateSet]) -> Vec<(String, Vec<String>)> {
    sets.iter().map(|s| (s.name.clone(), s.versions.clone())).collect()
}

#[test]
fn test_find_duplicates() {
    // Create a simulated set of packages with duplicates.
    let packages = vec![
        Package {
            name: "serde".to_string(),
            version: "1.0.193".to_string(),
            dependencies: None,
        },
        Package {
            name: "serde".to_string(),
            version: "1.0.190".to_string(),
            dependencies: None,
        },
        Package {
            name: "serde_json".to_string(),
            version: "1.0.108".to_string(),
            dependencies: Some(vec!["serde 1.0.193".to_string()]),
        },
    ];

    let dep_graph = DependencyGraph::from_lockfile(packages);
    let duplicates = find_duplicates(&dep_graph);
    // We expect one duplicate set for "serde".
    assert_eq!(duplicates.len(), 1);
    let dup = &duplicates[0];
    assert_eq!(dup.name, "serde");
    assert_eq!(dup.versions.len(), 2);
}

#[test]
fn test_find_optimal_version_success() {
    // All versions are valid semver, so we expect the highest version to be returned.
    let versions = vec!["1.2.3".to_string(), "1.5.0".to_string(), "1.6.0".to_string()];
    // No registry lookup brought anything: the base scoring (from the version
    // number itself) should still select "1.6.0".
    let optimal = find_optimal_version(&versions, &[], &now());
    assert!(optimal.is_some());
    assert_eq!(optimal.unwrap(), "1.6.0");
}

#[test]
fn test_find_optimal_version_failure() {
    // Provide only invalid version strings so that parsing fails.
    let versions = vec!["invalid".to_string(), "also-invalid".to_string()];
    let optimal = find_optimal_version(&versions, &[], &now());
    assert!(optimal.is_none());
}

#[test]
fn duplicate_versions_come_in_node_order() {
    let graph = DependencyGraph::from_lockfile(vec![
        package("serde", "1.0.193"),
        package("serde", "1.0.190"),
        package("serde_json", "1.0.108"),
    ]);
    assert_eq!(
        summary(&find_duplicates(&graph)),
        vec![("serde".to_string(), strings(&["1.0.193", "1.0.190"]))]
    );
}

#[test]
fn sets_are_ordered_by_the_first_node_of_each_name() {
    let graph = DependencyGraph::from_lockfile(vec![
        package("zeta", "1.0.0"),
        package("alpha", "0.1.0"),
        package("single", "7.0.0"),
        package("alpha", "0.2.0"),
        package("zeta", "2.0.0"),
        package("alpha", "0.3.0"),
    ]);
    assert_eq!(
        summary(&find_duplicates(&graph)),
        vec![
            ("zeta".to_string(), strings(&["1.0.0", "2.0.0"])),
            ("alpha".to_string(), strings(&["0.1.0", "0.2.0", "0.3.0"])),
        ]
    );
}

#[test]
fn names_with_one_node_never_appear() {
    let graph = DependencyGraph::from_lockfile(vec![
        package("a", "1.0.0"),
        package("b", "1.0.0"),
        package("c", "1.0.0"),
    ]);
    assert!(find_duplicates(&graph).is_empty());
}

#[test]
fn empty_graph_has_no_duplicates() {
    let graph = DependencyGraph::from_lockfile(Vec::new());
    assert!(find_duplicates(&graph).is_empty());
}

#[test]
fn two_nodes_with_one_name_and_version_count_as_two() {
    let graph = DependencyGraph::from_lockfile(vec![
        package("twin", "1.0.0"),
        package("twin", "1.0.0"),
    ]);
    assert_eq!(
        summary(&find_duplicates(&graph)),
        vec![("twin".to_string(), strings(&["1.0.0", "1.0.0"]))]
    );
}

#[test]
fn names_are_compared_exactly() {
    let graph = DependencyGraph::from_lockfile(vec![
        package("serde", "1.0.0"),
        package("Serde", "1.0.1"),
        package("serde ", "1.0.2"),
        package("serde_json", "1.0.3"),
    ]);
    assert!(find_duplicates(&graph).is_empty());
}

#[test]
fn every_duplicate_set_is_well_formed() {
    let graph = DependencyGraph::from_lockfile(vec![
        package("a", "1.0.0"),
        package("b", "1.0.0"),
        package("a", "1.1.0"),
        package("c", "1.0.0"),
        package("b", "2.0.0"),
        package("a", "1.2.0"),
    ]);
    let sets = find_duplicates(&graph);
    assert_eq!(sets.len(), 2);
    for set in &sets {
        assert!(set.versions.len() >= 2);
    }
    assert_ne!(sets[0].name, sets[1].name);
}

#[test]
fn lockfile_with_two_serde_versions() {
    let graph = DependencyGraph::from_lockfile(vec![
        Package {
            name: "serde".to_string(),
            version: "1.0.193".to_string(),
            dependencies: None,
        },
        Package {
            name: "serde".to_string(),
            version: "1.0.190".to_string(),
            dependencies: None,
        },
        Package {
            name: "serde_json".to_string(),
            version: "1.0.108".to_string(),
            dependencies: Some(vec!["serde 1.0.193".to_string()]),
        },
    ]);
    assert_eq!(graph.graph.node_count(), 3);
    let edges: Vec<(usize, usize)> = graph
        .graph
        .raw_edges()
        .iter()
        .map(|edge| (edge.source().index(), edge.target().index()))
        .collect();
    assert_eq!(edges, vec![(2, 0)]);
    assert_eq!(graph.index_map.get("serde_json 1.0.108"), Some(&2));
    assert_eq!(graph.index_map.get("serde 1.0.193"), Some(&0));
    assert_eq!(
        summary(&find_duplicates(&graph)),
        vec![("serde".to_string(), strings(&["1.0.193", "1.0.190"]))]
    );
    assert_eq!(
        find_optimal_version(&strings(&["1.0.193", "1.0.190"]), &[], &now()),
        Some("1.0.193".to_string())
    );
}
