use dpdm::cycles::parse_circular;
use dpdm::types::{Dependency, DependencyKind, DependencyTree};

fn dep(issuer: &str, to: &str, kind: DependencyKind) -> Dependency {
    Dependency {
        issuer: issuer.to_string(),
        request: to.to_string(),
        kind,
        id: Some(to.to_string()),
    }
}

#[test]
fn three_module_cycle_is_reported_once() {
    let mut t = DependencyTree::new();
    t.insert("A".to_string(), Some(vec![dep("A", "B", DependencyKind::StaticImport)]));
    t.insert("B".to_string(), Some(vec![dep("B", "C", DependencyKind::StaticImport)]));
    t.insert("C".to_string(), Some(vec![dep("C", "A", DependencyKind::CommonJS)]));
    let cycles = parse_circular(&t, false);
    assert_eq!(cycles.len(), 1);
    let mut ids = cycles[0].clone();
    ids.sort();
    assert_eq!(ids, vec!["A".to_string(), "B".to_string(), "C".to_string()]);
    assert_eq!(cycles[0], vec!["A".to_string(), "B".to_string(), "C".to_string()]);
}

#[test]
fn acyclic_graph_has_no_cycle() {
    let mut t = DependencyTree::new();
    t.insert("A".to_string(), Some(vec![dep("A", "B", DependencyKind::StaticImport), dep("A", "C", DependencyKind::StaticImport)]));
    t.insert("B".to_string(), Some(vec![dep("B", "C", DependencyKind::StaticImport)]));
    t.insert("C".to_string(), Some(vec![]));
    t.insert("D".to_string(), None);
    assert!(parse_circular(&t, false).is_empty());
    assert!(parse_circular(&DependencyTree::new(), false).is_empty());
}

#[test]
fn dynamic_import_cycle_depends_on_flag() {
    let mut t = DependencyTree::new();
    t.insert("A".to_string(), Some(vec![dep("A", "B", DependencyKind::DynamicImport)]));
    t.insert("B".to_string(), Some(vec![dep("B", "A", DependencyKind::StaticImport)]));
    assert!(parse_circular(&t, true).is_empty());
    let cycles = parse_circular(&t, false);
    assert_eq!(cycles.len(), 1);
    assert_eq!(cycles[0], vec!["A".to_string(), "B".to_string()]);
}

#[test]
fn self_loop_is_a_cycle() {
    let mut t = DependencyTree::new();
    t.insert("A".to_string(), Some(vec![dep("A", "A", DependencyKind::StaticExport)]));
    assert_eq!(parse_circular(&t, false), vec![vec!["A".to_string()]]);
}

#[test]
fn edges_to_unknown_or_unresolved_ids_are_not_followed() {
    let mut t = DependencyTree::new();
    let mut missing = dep("A", "x", DependencyKind::StaticImport);
    missing.id = None;
    t.insert("A".to_string(), Some(vec![missing, dep("A", "Z", DependencyKind::StaticImport)]));
    assert!(parse_circular(&t, false).is_empty());
}

#[test]
fn parallel_edges_report_a_cycle_once() {
    let mut t = DependencyTree::new();
    t.insert("A".to_string(), Some(vec![dep("A", "B", DependencyKind::StaticImport), dep("A", "B", DependencyKind::CommonJS)]));
    t.insert("B".to_string(), Some(vec![dep("B", "A", DependencyKind::StaticImport)]));
    assert_eq!(parse_circular(&t, false), vec![vec!["A".to_string(), "B".to_string()]]);
}
