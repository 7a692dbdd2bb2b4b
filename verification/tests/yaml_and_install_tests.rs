use std::collections::HashSet;

use denv::install::action_for;
use denv::install::Action;
use denv::install::Installer;
use denv::Item;
use denv::ItemGraph;

#[test]
fn from_yaml_parses_mapping() {
    let text = "A:\n- B\n- C\nB:\n- C\nC: []\n";
    let mut g = ItemGraph::from_yaml(text).unwrap();
    let order = g.travel_from("A").unwrap();
    assert_eq!(order, vec!["C".to_string(), "B".to_string(), "A".to_string()]);
}

#[test]
fn from_yaml_rejects_non_mapping() {
    assert!(ItemGraph::from_yaml("- just\n- a\n- list\n").is_none());
    assert!(ItemGraph::from_yaml("A: 3\n").is_none());
}

#[test]
fn yaml_round_trip() {
    let text = "A:\n- B\nB: []\n";
    let mut g = ItemGraph::from_yaml(text).unwrap();
    assert!(g.set_as_installed("B"));
    let dumped = g.to_yaml().unwrap();
    let g2 = ItemGraph::from_yaml(&dumped).unwrap();
    assert_eq!(g2.installed(), vec!["B".to_string()]);
    let exported = g2.to_hash_map();
    let keys: HashSet<String> = exported.keys().cloned().collect();
    let expected: HashSet<String> =
        ["A", "B", "installed"].iter().map(|s| s.to_string()).collect();
    assert_eq!(keys, expected);
    assert_eq!(exported["A"], vec!["B".to_string()]);
}

#[test]
fn action_for_apt_changes_sources() {
    assert!(matches!(action_for("apt"), Action::ChangeAptSource));
}

#[test]
fn action_for_suffixed_name_installs_package() {
    match action_for("git<apt-install>") {
        Action::AptInstall(p) => assert_eq!(p, "git"),
        _ => panic!("expected a package install"),
    }
}

#[test]
fn action_for_plain_name_is_skipped() {
    assert!(matches!(action_for("zsh"), Action::Skip));
    assert!(matches!(action_for(""), Action::Skip));
    assert!(matches!(action_for("<apt-install>extra"), Action::Skip));
}

#[test]
fn installer_copies_items_and_defaults_proxy() {
    let mut items = vec!["a".to_string(), "b".to_string()];
    let installer = Installer::new(&mut items, None);
    assert_eq!(installer.items, items);
    assert_eq!(installer.proxy, "");
    let with_proxy = Installer::new(&mut items, Some("http://proxy:3128"));
    assert_eq!(with_proxy.proxy, "http://proxy:3128");
}

#[test]
fn item_markers_start_clear_and_clean_resets() {
    let mut item = Item::new("curl");
    assert_eq!(item.name, "curl");
    assert!(!item.discovered);
    assert!(!item.backtraced);
    item.discovered = true;
    item.backtraced = true;
    item.clean();
    assert!(!item.discovered);
    assert!(!item.backtraced);
}
