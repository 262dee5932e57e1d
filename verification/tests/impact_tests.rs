use depclean::analysis::DuplicateSet;
use depclean::impact::{estimate_impact, UNIT_COST};

fn set(name: &str, versions: &[&str]) -> DuplicateSet {
    DuplicateSet {
        name: name.to_string(),
        versions: versions.iter().map(|v| v.to_string()).collect(),
    }
}

#[test]
fn test_estimate_impact() {
    // Create a duplicate set for testing.
    let duplicates = vec![DuplicateSet {
        name: "serde".to_string(),
        versions: vec!["1.0.193".to_string(), "1.0.190".to_string()],
    }];

    let impacts = estimate_impact(&duplicates);
    assert_eq!(impacts.len(), 1);
    let impact = &impacts[0];
    assert_eq!(impact.name, "serde");
    // potential_savings = (number of versions - 1) * 10.
    assert_eq!(impact.potential_savings, 10);
}

#[test]
fn unit_cost_is_ten() {
    assert_eq!(UNIT_COST, 10);
}

#[test]
fn three_versions_save_twenty() {
    let impacts = estimate_impact(&[set("rand", &["0.7.3", "0.8.5", "0.9.0"])]);
    assert_eq!(impacts.len(), 1);
    assert_eq!(impacts[0].potential_savings, 20);
    assert_eq!(impacts[0].cur_versions, vec!["0.7.3", "0.8.5", "0.9.0"]);
}

#[test]
fn estimates_keep_the_order_of_the_sets() {
    let duplicates = vec![
        set("a", &["1.0.0", "2.0.0"]),
        set("b", &["1.0.0", "1.1.0", "1.2.0", "1.3.0"]),
        set("c", &["0.1.0"]),
    ];
    let impacts = estimate_impact(&duplicates);
    let names: Vec<&str> = impacts.iter().map(|i| i.name.as_str()).collect();
    assert_eq!(names, vec!["a", "b", "c"]);
    let savings: Vec<usize> = impacts.iter().map(|i| i.potential_savings).collect();
    assert_eq!(savings, vec![10, 30, 0]);
}

#[test]
fn no_sets_no_estimates() {
    assert!(estimate_impact(&[]).is_empty());
}
