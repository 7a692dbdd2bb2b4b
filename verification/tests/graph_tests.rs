use std::collections::HashMap;
use std::collections::HashSet;

use denv::ItemGraph;
use denv::TravelMode;

fn pairs(entries: &[(&str, &[&str])]) -> Vec<(String, Vec<String>)> {
    entries
        .iter()
        .map(|(k, v)| (k.to_string(), v.iter().map(|d| d.to_string()).collect()))
        .collect()
}

fn map_of(entries: &[(&str, &[&str])]) -> HashMap<String, Vec<String>> {
    entries
        .iter()
        .map(|(k, v)| (k.to_string(), v.iter().map(|d| d.to_string()).collect()))
        .collect()
}

#[test]
fn cycle_detected() {
    let mut g = ItemGraph::from_hashmap(&map_of(&[("A", &["B"]), ("B", &["A"])])).unwrap();
    assert!(g.travel_from("A").is_err());
}

#[test]
fn acyclic_post_order() {
    let mut g = ItemGraph::from_pairs(&pairs(&[("A", &["B", "C"]), ("B", &["C"]), ("C", &[])]));
    let order = g.travel_from("A").unwrap();
    assert_eq!(order, vec!["C".to_string(), "B".to_string(), "A".to_string()]);
}

#[test]
fn acyclic_post_order_from_map() {
    let mut g =
        ItemGraph::from_hashmap(&map_of(&[("A", &["B", "C"]), ("B", &["C"]), ("C", &[])])).unwrap();
    let order = g.travel_from("A").unwrap();
    assert_eq!(order, vec!["C".to_string(), "B".to_string(), "A".to_string()]);
}

#[test]
fn pre_order_travel() {
    let mut g = ItemGraph::from_pairs(&pairs(&[("A", &["B", "C"]), ("B", &["C"]), ("C", &[])]));
    let i = g.lookup("A").unwrap();
    let mut out: Vec<String> = Vec::new();
    assert!(g.travel(i, &mut out, &TravelMode::Pre).is_ok());
    assert_eq!(out, vec!["A".to_string(), "B".to_string(), "C".to_string()]);
}

#[test]
fn unknown_root_is_empty_success() {
    let mut g = ItemGraph::from_hashmap(&map_of(&[("A", &["B"]), ("B", &[])])).unwrap();
    let order = g.travel_from("nonexistent").unwrap();
    assert!(order.is_empty());
}

#[test]
fn dangling_dependency_is_dropped() {
    let mut g = ItemGraph::from_hashmap(&map_of(&[("A", &["ghost"])])).unwrap();
    let order = g.travel_from("A").unwrap();
    assert_eq!(order, vec!["A".to_string()]);
}

#[test]
fn traversal_is_idempotent() {
    let mut g = ItemGraph::from_pairs(&pairs(&[
        ("A", &["B", "C"]),
        ("B", &["D"]),
        ("C", &["D"]),
        ("D", &[]),
    ]));
    let first = g.travel_from("A").unwrap();
    let second = g.travel_from("A").unwrap();
    assert_eq!(first, second);
}

#[test]
fn installed_item_is_skipped() {
    let mut g = ItemGraph::from_pairs(&pairs(&[("A", &["B"]), ("B", &["C"]), ("C", &[])]));
    assert!(g.set_as_installed("B"));
    let order = g.travel_from("A").unwrap();
    assert_eq!(order, vec!["A".to_string()]);
}

#[test]
fn installed_skip_keeps_other_paths() {
    let mut g = ItemGraph::from_pairs(&pairs(&[
        ("A", &["B", "C"]),
        ("B", &["D"]),
        ("C", &["D"]),
        ("D", &[]),
    ]));
    assert!(g.set_as_installed("B"));
    let order = g.travel_from("A").unwrap();
    assert_eq!(order, vec!["D".to_string(), "C".to_string(), "A".to_string()]);
}

#[test]
fn set_as_installed_unknown_name() {
    let mut g = ItemGraph::from_hashmap(&map_of(&[("A", &[])])).unwrap();
    assert!(!g.set_as_installed("missing"));
    assert!(g.installed().is_empty());
}

#[test]
fn installed_listing_and_idempotent_marking() {
    let mut g = ItemGraph::from_pairs(&pairs(&[("A", &[]), ("B", &[])]));
    assert!(g.set_as_installed("A"));
    assert!(g.set_as_installed("A"));
    assert_eq!(g.installed(), vec!["A".to_string()]);
}

#[test]
fn update_items_marks_known_names() {
    let mut g = ItemGraph::from_pairs(&pairs(&[("A", &[]), ("B", &[]), ("C", &[])]));
    g.update_items(&vec!["A".to_string(), "ghost".to_string(), "C".to_string()]);
    let done: HashSet<String> = g.installed().into_iter().collect();
    let expected: HashSet<String> =
        ["A", "C"].iter().map(|s| s.to_string()).collect();
    assert_eq!(done, expected);
}

#[test]
fn round_trip_export() {
    let source = &[
        ("A", &["B", "C"] as &[&str]),
        ("B", &["C"]),
        ("C", &[]),
    ];
    let g = ItemGraph::from_hashmap(&map_of(source)).unwrap();
    let exported = g.to_hash_map();
    assert_eq!(exported.len(), 4);
    assert!(exported.contains_key("installed"));
    assert!(exported["installed"].is_empty());
    for (name, deps) in source {
        let got: HashSet<String> = exported[*name].iter().cloned().collect();
        let want: HashSet<String> = deps.iter().map(|d| d.to_string()).collect();
        assert_eq!(got, want);
    }
}

#[test]
fn round_trip_keeps_installed_row() {
    let mut g = ItemGraph::from_hashmap(&map_of(&[("A", &["B"]), ("B", &[])])).unwrap();
    assert!(g.set_as_installed("B"));
    let exported = g.to_hash_map();
    assert_eq!(exported["installed"], vec!["B".to_string()]);
    let g2 = ItemGraph::from_hashmap(&exported).unwrap();
    assert_eq!(g2.installed(), vec!["B".to_string()]);
}

#[test]
fn installed_key_is_merged_not_duplicated() {
    let g = ItemGraph::from_hashmap(&map_of(&[
        ("A", &["B"]),
        ("B", &[]),
        ("installed", &["B"]),
    ]))
    .unwrap();
    assert_eq!(g.installed(), vec!["B".to_string()]);
    let exported = g.to_hash_map();
    assert_eq!(exported.len(), 3);
}

#[test]
fn from_vec_builds_edgeless_graph() {
    let names = vec!["apt", "git", "rust", "pyenv"];
    let mut g = ItemGraph::from_vec(&names).unwrap();
    assert_eq!(g.travel_from("git").unwrap(), vec!["git".to_string()]);
    assert!(g.installed().is_empty());
    let exported = g.to_hash_map();
    assert_eq!(exported.len(), 5);
    assert!(exported["rust"].is_empty());
}

#[test]
fn from_vec_drops_duplicates_and_reserved_name() {
    let names = vec!["a", "a", "installed", "b"];
    let g = ItemGraph::from_vec(&names).unwrap();
    let exported = g.to_hash_map();
    assert_eq!(exported.len(), 3);
    assert!(exported.contains_key("a"));
    assert!(exported.contains_key("b"));
    assert!(exported.contains_key("installed"));
}

#[test]
fn validate_ignores_cycles_off_the_empty_name() {
    let mut g = ItemGraph::from_hashmap(&map_of(&[("A", &["B"]), ("B", &["A"])])).unwrap();
    assert!(g.validate());
}

#[test]
fn validate_detects_self_loop_on_empty_name() {
    let mut g = ItemGraph::from_hashmap(&map_of(&[("", &[""])])).unwrap();
    assert!(!g.validate());
}

#[test]
fn lookup_finds_items() {
    let g = ItemGraph::from_pairs(&pairs(&[("A", &[]), ("B", &[])]));
    assert!(g.lookup("A").is_some());
    assert!(g.lookup("B").is_some());
    assert!(g.lookup("installed").is_some());
    assert!(g.lookup("C").is_none());
}

#[test]
fn travel_on_installed_item_emits_nothing() {
    let mut g = ItemGraph::from_pairs(&pairs(&[("A", &["B"]), ("B", &[])]));
    assert!(g.set_as_installed("A"));
    let i = g.lookup("A").unwrap();
    let mut out: Vec<String> = Vec::new();
    assert!(g.travel(i, &mut out, &TravelMode::Post).is_ok());
    assert!(out.is_empty());
}

#[test]
fn travel_on_item_still_on_path_emits_nothing() {
    let mut g = ItemGraph::from_pairs(&pairs(&[("A", &[])]));
    let i = g.lookup("A").unwrap();
    g.items[i].discovered = true;
    let mut out: Vec<String> = Vec::new();
    assert!(g.travel(i, &mut out, &TravelMode::Post).is_err());
    assert!(out.is_empty());
}

#[test]
fn cycle_error_message() {
    let mut g = ItemGraph::from_hashmap(&map_of(&[("A", &["A"])])).unwrap();
    let err = g.travel_from("A").unwrap_err();
    assert_eq!(err.message(), "Cyclic graph is not allowed!");
}
