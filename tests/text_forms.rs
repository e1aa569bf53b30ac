use dpdm::jsonc::strip_jsonc_comments;
use dpdm::shorten::{shorten_path, shorten_tree};
use dpdm::types::{Dependency, DependencyKind, DependencyTree};

#[test]
fn comments_are_removed() {
    let input = "{\n  // c\n  \"a\": 1 /* x */\n}";
    assert_eq!(strip_jsonc_comments(input, false), "{\n\n  \"a\": 1\n}\n");
}

#[test]
fn comment_markers_in_strings_stay() {
    let input = "{\"u\": \"http://x/*y*/\"}";
    assert_eq!(strip_jsonc_comments(input, false), "{\"u\": \"http://x/*y*/\"}\n");
}

#[test]
fn preserved_locations_keep_columns() {
    assert_eq!(strip_jsonc_comments("a/*b*/c", true), "a      c\n");
    assert_eq!(strip_jsonc_comments("", true), "\n");
}

#[test]
fn ids_relative_to_context() {
    assert_eq!(shorten_path("/root/proj/src/a.ts", "/root/proj"), "src/a.ts");
    assert_eq!(shorten_path("/root/proj/src/a.ts", "/root/proj/"), "src/a.ts");
    assert_eq!(shorten_path("/root/project/a.ts", "/root/proj"), "/root/project/a.ts");
    assert_eq!(shorten_path("/a/b", "/"), "a/b");
    assert_eq!(shorten_path("/a/b", ""), "/a/b");
}

#[test]
fn tree_relative_to_context() {
    let mut t = DependencyTree::new();
    t.insert(
        "/root/proj/src/a.ts".to_string(),
        Some(vec![Dependency {
            issuer: "./src/a".to_string(),
            request: "./b".to_string(),
            kind: DependencyKind::StaticImport,
            id: Some("/root/proj/src/b.ts".to_string()),
        }]),
    );
    t.insert("/other/x.ts".to_string(), None);
    let s = shorten_tree(&"/root/proj".to_string(), &t);
    assert_eq!(s.entries.len(), 2);
    assert_eq!(s.entries[0].id, "src/a.ts");
    let d = &s.entries[0].deps.as_ref().unwrap()[0];
    assert_eq!(d.issuer, "src/a.ts");
    assert_eq!(d.request, "./b");
    assert_eq!(d.id, Some("src/b.ts".to_string()));
    assert_eq!(s.entries[1].id, "/other/x.ts");
    assert!(s.entries[1].deps.is_none());
}
