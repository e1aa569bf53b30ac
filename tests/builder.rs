use dpdm::builder::{attach_ids, extension_key_of, is_js_like_id, with_exact_match, GraphBuilder, ParseOptions, Visit};
use dpdm::collector::DependencyCollector;
use dpdm::pretty::{number_width, tree_lines, LineStyle};
use dpdm::types::{Dependency, DependencyKind, DependencyTree, IsModule};

fn js() -> Vec<String> {
    vec![".ts".to_string(), ".js".to_string()]
}

#[test]
fn each_id_is_parsed_once() {
    let mut b = GraphBuilder::new();
    let id = "/p/a.ts".to_string();
    assert_eq!(b.visit(&id, true, false, &js()), Visit::Parse);
    assert_eq!(b.visit(&id, true, false, &js()), Visit::Known);
    b.finish(id.clone(), vec![]);
    assert_eq!(b.visit(&id, true, false, &js()), Visit::Known);
    assert_eq!(b.tree.len(), 1);
}

#[test]
fn filters_and_assets() {
    let mut b = GraphBuilder::new();
    assert_eq!(b.visit(&"/p/node_modules/x.js".to_string(), true, true, &js()), Visit::Skipped);
    assert_eq!(b.visit(&"/p/logo.png".to_string(), true, false, &js()), Visit::Leaf);
    assert_eq!(b.visit(&"/p/other.ts".to_string(), false, false, &js()), Visit::Skipped);
    assert_eq!(b.tree.entries[0].deps.is_none(), true);
    assert_eq!(b.tree.entries[1].deps.as_ref().map(|d| d.len()), Some(0));
}

#[test]
fn extension_keys() {
    assert_eq!(extension_key_of("/a/b.ts"), Some(".ts".to_string()));
    assert_eq!(extension_key_of("/a/b.test.js"), Some(".js".to_string()));
    assert_eq!(extension_key_of("/a/.bashrc"), None);
    assert_eq!(extension_key_of("/a/b."), Some("".to_string()));
    assert_eq!(extension_key_of("/a.d/b"), None);
    assert!(is_js_like_id("/x/y.js", &js()));
    assert!(!is_js_like_id("/x/y.json", &js()));
}

#[test]
fn exact_match_extension_comes_first() {
    assert_eq!(
        with_exact_match(vec![".ts".to_string()]),
        vec!["".to_string(), ".ts".to_string()]
    );
    assert_eq!(
        with_exact_match(vec![".ts".to_string(), "".to_string()]),
        vec![".ts".to_string(), "".to_string()]
    );
}

#[test]
fn collector_and_resolved_ids() {
    let mut c = DependencyCollector::new("./a".to_string(), "/p/a.ts".to_string());
    c.add("./b".to_string(), DependencyKind::StaticImport);
    c.add("fs".to_string(), DependencyKind::CommonJS);
    assert_eq!(c.dependencies.len(), 2);
    assert_eq!(c.dependencies[0].issuer, "/p/a.ts");
    assert_eq!(c.dependencies[1].id, Some("/p/a.ts".to_string()));
    let mut deps: Vec<Dependency> = c.dependencies;
    attach_ids(&mut deps, vec![Some("/p/b.ts".to_string()), None]);
    assert_eq!(deps[0].id, Some("/p/b.ts".to_string()));
    assert_eq!(deps[1].id, None);
    assert_eq!(deps[1].request, "fs");
    assert_eq!(deps[1].kind, DependencyKind::CommonJS);
}

#[test]
fn listing_numbers_and_styles() {
    let d = |issuer: &str, req: &str, id: Option<&str>| Dependency {
        issuer: issuer.to_string(),
        request: req.to_string(),
        kind: DependencyKind::StaticImport,
        id: id.map(|s| s.to_string()),
    };
    let mut t = DependencyTree::new();
    t.insert("a".to_string(), Some(vec![d("a", "./b", Some("b")), d("a", "fs", Some("fs")), d("a", "./x", None)]));
    t.insert("b".to_string(), Some(vec![d("b", "./a", Some("a"))]));
    t.insert("fs".to_string(), Some(vec![]));
    let lines = tree_lines(&t, &vec!["a".to_string(), "b".to_string()], "> ");
    let shown: Vec<(String, usize, String, LineStyle)> =
        lines.iter().map(|l| (l.prefix.clone(), l.number, l.item.clone(), l.style)).collect();
    assert_eq!(
        shown,
        vec![
            ("> ".to_string(), 0, "a".to_string(), LineStyle::Parsed),
            ("> \u{b7}   ".to_string(), 1, "b".to_string(), LineStyle::Parsed),
            ("> \u{b7}   \u{b7}   ".to_string(), 0, "a".to_string(), LineStyle::Repeated),
            ("> \u{b7}   ".to_string(), 2, "fs".to_string(), LineStyle::Builtin),
            ("> \u{b7}   ".to_string(), 3, "./x".to_string(), LineStyle::Unparsed),
            ("> ".to_string(), 1, "b".to_string(), LineStyle::Repeated),
        ]
    );
}

#[test]
fn numbering_width() {
    assert_eq!(number_width(0), 0);
    assert_eq!(number_width(1), 0);
    assert_eq!(number_width(9), 1);
    assert_eq!(number_width(10), 1);
    assert_eq!(number_width(11), 2);
    assert_eq!(number_width(1000), 3);
    assert_eq!(number_width(usize::MAX), 20);
}

#[test]
fn filters_come_from_the_options() {
    let options = ParseOptions {
        context: "/p".to_string(),
        extensions: vec!["".to_string(), ".ts".to_string()],
        js: js(),
        include_pattern: regex::Regex::new(".*").unwrap(),
        exclude: regex::Regex::new("node_modules").unwrap(),
        tsconfig: None,
        transform: false,
        skip_dynamic_imports: false,
        is_module: IsModule::Unknown,
    };
    let mut b = GraphBuilder::new();
    assert_eq!(b.enter(&"/p/node_modules/x.ts".to_string(), &options), Visit::Skipped);
    assert_eq!(b.enter(&"/p/a.ts".to_string(), &options), Visit::Parse);
    assert_eq!(b.enter(&"/p/a.ts".to_string(), &options), Visit::Known);
    assert_eq!(b.enter(&"/p/a.css".to_string(), &options), Visit::Leaf);
}

#[test]
fn defaults_come_before_given_extensions() {
    let merged = dpdm::builder::merged_extensions(&vec![".vue".to_string()]);
    assert_eq!(merged, vec!["", ".ts", ".tsx", ".mjs", ".js", ".jsx", ".json", ".vue"]);
}
