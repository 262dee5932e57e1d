use depclean::analysis::DuplicateSet;
use depclean::cli::Cli;
use depclean::report::{join, report_rows, VersionSuggestion};

fn strings(items: &[&str]) -> Vec<String> {
    items.iter().map(|s| s.to_string()).collect()
}

fn set(name: &str, versions: &[&str]) -> DuplicateSet {
    DuplicateSet { name: name.to_string(), versions: strings(versions) }
}

#[test]
fn versions_are_joined_by_comma_and_space() {
    assert_eq!(join(&strings(&["1.0.193", "1.0.190"])), "1.0.193, 1.0.190");
    assert_eq!(join(&strings(&["a", "b", "c"])), "a, b, c");
    assert_eq!(join(&strings(&["only"])), "only");
    assert_eq!(join(&[]), "");
    assert_eq!(join(&strings(&["", ""])), ", ");
}

#[test]
fn suggestion_with_a_recommendation() {
    let suggestion =
        VersionSuggestion::new(&set("serde", &["1.0.193", "1.0.190"]), Some("1.0.193".to_string()));
    assert_eq!(suggestion.recommended_version, "1.0.193");
    assert_eq!(suggestion.estimated_saving, 10);
}

#[test]
fn suggestion_without_a_recommendation() {
    let suggestion = VersionSuggestion::new(&set("odd", &["one", "two", "three"]), None);
    assert_eq!(suggestion.recommended_version, "No optimal version found");
    assert_eq!(suggestion.estimated_saving, 20);
}

#[test]
fn one_row_for_every_pair() {
    let duplicates = vec![set("serde", &["1.0.193", "1.0.190"]), set("rand", &["0.7.3", "0.8.5", "0.9.0"])];
    let suggestions = vec![
        VersionSuggestion { recommended_version: "1.0.193".to_string(), estimated_saving: 10 },
        VersionSuggestion { recommended_version: "0.9.0".to_string(), estimated_saving: 20 },
    ];
    let rows = report_rows(&duplicates, &suggestions);
    assert_eq!(rows.len(), 2);
    assert_eq!(rows[0].package, "serde");
    assert_eq!(rows[0].versions, "1.0.193, 1.0.190");
    assert_eq!(rows[0].recommended_version, "1.0.193");
    assert_eq!(rows[0].estimated_savings, 10);
    assert_eq!(rows[1].package, "rand");
    assert_eq!(rows[1].versions, "0.7.3, 0.8.5, 0.9.0");
    assert_eq!(rows[1].recommended_version, "0.9.0");
    assert_eq!(rows[1].estimated_savings, 20);
}

#[test]
fn rows_end_with_the_shorter_list() {
    let duplicates = vec![set("a", &["1", "2"]), set("b", &["1", "2"])];
    let suggestions =
        vec![VersionSuggestion { recommended_version: "2".to_string(), estimated_saving: 10 }];
    assert_eq!(report_rows(&duplicates, &suggestions).len(), 1);
    assert_eq!(report_rows(&duplicates[..1], &suggestions).len(), 1);
    assert_eq!(report_rows(&[], &suggestions).len(), 0);
    assert_eq!(report_rows(&duplicates, &[]).len(), 0);
}

#[test]
fn options_hold_what_they_are_given() {
    let cli = Cli { lockfile: "Cargo.lock".to_string(), fix: false };
    assert_eq!(cli.lockfile, "Cargo.lock");
    assert!(!cli.fix);
}
