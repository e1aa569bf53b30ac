use dpdm::types::{Dependency, DependencyKind, DependencyTree};
use dpdm::warnings::{all_builtins, dependents, is_builtin_name, parse_warnings};

fn dep(issuer: &str, request: &str, id: Option<&str>) -> Dependency {
    Dependency {
        issuer: issuer.to_string(),
        request: request.to_string(),
        kind: DependencyKind::StaticImport,
        id: id.map(|s| s.to_string()),
    }
}

fn sample() -> DependencyTree {
    let mut t = DependencyTree::new();
    t.insert(
        "/a.ts".to_string(),
        Some(vec![dep("/a.ts", "./missing", None), dep("/a.ts", "fs", Some("fs"))]),
    );
    t.insert("fs".to_string(), Some(vec![]));
    t.insert("/c.ts".to_string(), Some(vec![dep("/c.ts", "./b", Some("/b.ts"))]));
    t.insert("/b.ts".to_string(), None);
    t.insert("path".to_string(), Some(vec![]));
    t
}

#[test]
fn warnings_are_sorted_and_complete() {
    let w = parse_warnings(&sample());
    assert_eq!(
        w,
        vec![
            "miss \"./missing\" in \"/a.ts\"".to_string(),
            "node \"fs\", \"path\"".to_string(),
            "skip \"/b.ts\", issuers: \"/c.ts\"".to_string(),
        ]
    );
}

#[test]
fn warnings_twice_are_identical() {
    let t = sample();
    assert_eq!(parse_warnings(&t), parse_warnings(&t));
}

#[test]
fn no_warnings_for_a_clean_tree() {
    let mut t = DependencyTree::new();
    t.insert("/a.ts".to_string(), Some(vec![dep("/a.ts", "./b", Some("/b.ts"))]));
    t.insert("/b.ts".to_string(), Some(vec![]));
    assert!(parse_warnings(&t).is_empty());
}

#[test]
fn skipped_module_lists_every_issuer_sorted() {
    let mut t = DependencyTree::new();
    t.insert("/z.ts".to_string(), Some(vec![dep("/z.ts", "x", Some("/x.ts")), dep("/z.ts", "./x", Some("/x.ts"))]));
    t.insert("/y.ts".to_string(), Some(vec![dep("/y.ts", "x", Some("/x.ts"))]));
    t.insert("/x.ts".to_string(), None);
    assert_eq!(
        dependents(&t, "/x.ts"),
        vec!["/y.ts".to_string(), "/z.ts".to_string(), "/z.ts".to_string()]
    );
    assert_eq!(
        parse_warnings(&t),
        vec!["skip \"/x.ts\", issuers: \"/y.ts, /z.ts, /z.ts\"".to_string()]
    );
}

#[test]
fn skipped_module_issuers_are_escaped() {
    let mut t = DependencyTree::new();
    t.insert("/q\"a.ts".to_string(), Some(vec![dep("/q\"a.ts", "x", Some("/x.ts"))]));
    t.insert("/x.ts".to_string(), None);
    assert_eq!(
        parse_warnings(&t),
        vec!["skip \"/x.ts\", issuers: \"/q\\\"a.ts\"".to_string()]
    );
}

#[test]
fn builtin_names() {
    assert_eq!(all_builtins().len(), 38);
    assert!(all_builtins().contains(&"worker_threads"));
    assert!(is_builtin_name("zlib"));
    assert!(!is_builtin_name("react"));
}

#[test]
fn empty_tree_is_empty() {
    assert!(dpdm::types::is_empty(&DependencyTree::new()));
    assert!(!dpdm::types::is_empty(&sample()));
}

#[test]
fn files_outside_the_tree_are_unused() {
    let files = vec!["/a.ts".to_string(), "/zz.ts".to_string(), "fs".to_string(), "/y.ts".to_string()];
    assert_eq!(
        dpdm::warnings::unused_files(&files, &sample()),
        vec!["/zz.ts".to_string(), "/y.ts".to_string()]
    );
}
