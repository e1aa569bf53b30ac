use dpdm::alias::{alias_rewrite, apply_alias_capture, match_alias_pattern};

#[test]
fn test_match_alias_pattern_with_wildcard() {
    assert_eq!(
        match_alias_pattern("@/components/Button", "/User/App", "@/*", "./src/*"),
        Some("/User/App/src/components/Button".to_string())
    );
}

#[test]
fn test_match_alias_pattern_source_without_wildcard() {
    assert_eq!(
        match_alias_pattern("./components/Button", "/User/App", "@/*", "./src/*"),
        None
    );
    assert_eq!(
        match_alias_pattern("react", "/User/App", "@/*", "./src/*"),
        None
    );
}

#[test]
fn test_match_alias_pattern_with_long_alias() {
    assert_eq!(
        match_alias_pattern(
            "@/components/Button",
            "/User/App",
            "@/components/*",
            "./src/*"
        ),
        Some("/User/App/src/Button".to_string())
    );
}

#[test]
fn test_match_alias_pattern_with_like_alias_in_path() {
    assert_eq!(
        match_alias_pattern("@/components/Button_@/A.js", "/User/App", "@/*", "./src/*"),
        Some("/User/App/src/components/Button_@/A.js".to_string())
    );
}

#[test]
fn alias_without_wildcard_matches_itself_only() {
    assert_eq!(
        match_alias_pattern("config", "/repo", "config", "./conf/*.json"),
        Some("/repo/conf/.json".to_string())
    );
    assert_eq!(match_alias_pattern("configs", "/repo", "config", "./conf"), None);
}

#[test]
fn alias_with_suffix_and_special_characters() {
    assert_eq!(
        match_alias_pattern("$lib/x.(y)+.css", "/r", "$lib/*.css", "./lib/*.css"),
        Some("/r/lib/x.(y)+.css".to_string())
    );
    assert_eq!(match_alias_pattern("$lib/x.js", "/r", "$lib/*.css", "./lib/*"), None);
    assert_eq!(match_alias_pattern("@/a\nb", "/r", "@/*", "./*"), None);
}

#[test]
fn alias_rewrite_reports_success() {
    assert_eq!(alias_rewrite("@/a/b", "/repo", "@/*", "./src/*"), Ok(Some("/repo/src/a/b".to_string())));
}

#[test]
fn captured_part_replaces_every_star() {
    assert_eq!(
        apply_alias_capture(Some("x".to_string()), "/r", "./*/*"),
        Some("/r/x/x".to_string())
    );
    assert_eq!(apply_alias_capture(None, "/r", "./*"), None);
}

#[test]
fn cache_remembers_rewrites() {
    let mut cache = dpdm::alias::AliasCache::new();
    let first = cache.rewrite("@/a", "/r", "@/*", "./src/*");
    assert_eq!(first, Ok(Some("/r/src/a".to_string())));
    assert_eq!(cache.entries.len(), 1);
    let second = cache.rewrite("@/a", "/r", "@/*", "./src/*");
    assert_eq!(second, first);
    assert_eq!(cache.entries.len(), 1);
    assert_eq!(cache.rewrite("x", "/r", "@/*", "./src/*"), Ok(None));
    assert_eq!(cache.entries.len(), 2);
}
