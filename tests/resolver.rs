use dpdm::alias::{Alias, AliasCache};
use dpdm::resolver::{append_suffix, simple_resolver, FileKind, FsFacts, Outcome, PackageLookup};

fn exts(list: &[&str]) -> Vec<String> {
    list.iter().map(|s| s.to_string()).collect()
}

fn facts(stats: &[(&str, FileKind)]) -> FsFacts {
    FsFacts {
        stats: stats.iter().map(|(p, k)| (p.to_string(), *k)).collect(),
        packages: vec![],
        modules: vec![],
    }
}

fn resolved(o: &Outcome) -> Option<String> {
    match o {
        Outcome::Resolved(r) => r.clone(),
        other => panic!("not resolved: {:?}", other),
    }
}

#[test]
fn alias_request_probes_below_root_with_extensions() {
    let alias = Alias { root: "/repo".to_string(), paths: vec![("@/*".to_string(), vec!["./src/*".to_string()])] };
    let e = exts(&["", ".ts"]);
    let mut f = facts(&[]);
    match simple_resolver("/ctx", "@/a/b", &e, Some(&alias), &f, 8, &mut AliasCache::new()) {
        Outcome::NeedStat(p) => assert_eq!(p, "/repo/src/a/b"),
        other => panic!("{:?}", other),
    }
    f.stats.push(("/repo/src/a/b".to_string(), FileKind::Missing));
    match simple_resolver("/ctx", "@/a/b", &e, Some(&alias), &f, 8, &mut AliasCache::new()) {
        Outcome::NeedStat(p) => assert_eq!(p, "/repo/src/a/b.ts"),
        other => panic!("{:?}", other),
    }
    f.stats.push(("/repo/src/a/b.ts".to_string(), FileKind::File));
    let r = simple_resolver("/ctx", "@/a/b", &e, Some(&alias), &f, 8, &mut AliasCache::new());
    assert_eq!(resolved(&r), Some("/repo/src/a/b.ts".to_string()));
}

#[test]
fn first_extension_that_names_a_file_wins() {
    let e = exts(&["", ".ts", ".js"]);
    let f = facts(&[("/p/foo", FileKind::Missing), ("/p/foo.ts", FileKind::File), ("/p/foo.js", FileKind::File)]);
    assert_eq!(resolved(&simple_resolver("/p", "./foo", &e, None, &f, 8, &mut AliasCache::new())), Some("/p/foo.ts".to_string()));
    let f2 = facts(&[("/p/foo", FileKind::File), ("/p/foo.ts", FileKind::File), ("/p/foo.js", FileKind::File)]);
    assert_eq!(resolved(&simple_resolver("/p", "./foo", &e, None, &f2, 8, &mut AliasCache::new())), Some("/p/foo".to_string()));
}

#[test]
fn directory_resolves_to_its_index() {
    let e = exts(&["", ".ts"]);
    let f = facts(&[
        ("/p/dir", FileKind::Dir),
        ("/p/dir.ts", FileKind::Missing),
        ("/p/dir/index", FileKind::Missing),
        ("/p/dir/index.ts", FileKind::File),
    ]);
    assert_eq!(resolved(&append_suffix("/p/dir", &e, &f, 8)), Some("/p/dir/index.ts".to_string()));
    assert_eq!(resolved(&simple_resolver("/", "/p/dir", &e, None, &f, 8, &mut AliasCache::new())), Some("/p/dir/index.ts".to_string()));
    assert_eq!(resolved(&append_suffix("/p/dir", &e, &f, 0)), None);
}

#[test]
fn resolving_twice_gives_the_same_module() {
    let e = exts(&["", ".js"]);
    let f = facts(&[("/a/x", FileKind::Missing), ("/a/x.js", FileKind::File)]);
    let one = resolved(&simple_resolver("/a", "./x", &e, None, &f, 8, &mut AliasCache::new()));
    let two = resolved(&simple_resolver("/a", "./x", &e, None, &f, 8, &mut AliasCache::new()));
    assert_eq!(one, two);
    assert_eq!(one, Some("/a/x.js".to_string()));
}

#[test]
fn missing_file_is_not_an_error() {
    let e = exts(&[""]);
    let f = facts(&[("/a/none", FileKind::Missing)]);
    assert_eq!(resolved(&simple_resolver("/a", "./none", &e, None, &f, 8, &mut AliasCache::new())), None);
}

#[test]
fn package_entry_point_and_standard_resolution() {
    let e = exts(&["", ".js"]);
    let mut f = facts(&[]);
    match simple_resolver("/app", "lib", &e, None, &f, 8, &mut AliasCache::new()) {
        Outcome::NeedPackage(r, c) => {
            assert_eq!(r, "lib");
            assert_eq!(c, "/app");
        }
        other => panic!("{:?}", other),
    }
    f.packages.push(("lib".to_string(), "/app".to_string(), PackageLookup::Found {
        dir: "/app/node_modules/lib".to_string(),
        entry: Some("./dist/main".to_string()),
    }));
    f.stats.push(("/app/node_modules/lib/dist/main".to_string(), FileKind::Missing));
    f.stats.push(("/app/node_modules/lib/dist/main.js".to_string(), FileKind::File));
    assert_eq!(
        resolved(&simple_resolver("/app", "lib", &e, None, &f, 8, &mut AliasCache::new())),
        Some("/app/node_modules/lib/dist/main.js".to_string())
    );
    f.packages.push(("other".to_string(), "/app".to_string(), PackageLookup::NotFound));
    match simple_resolver("/app", "other", &e, None, &f, 8, &mut AliasCache::new()) {
        Outcome::NeedModule(r, _) => assert_eq!(r, "other"),
        o => panic!("{:?}", o),
    }
    f.modules.push(("other".to_string(), "/app".to_string(), Some("/app/other.js".to_string())));
    assert_eq!(resolved(&simple_resolver("/app", "other", &e, None, &f, 8, &mut AliasCache::new())), Some("/app/other.js".to_string()));
    f.packages.push(("bad".to_string(), "/app".to_string(), PackageLookup::Unreadable));
    assert!(matches!(simple_resolver("/app", "bad", &e, None, &f, 8, &mut AliasCache::new()), Outcome::Failed));
}

#[test]
fn alias_that_resolves_to_nothing_falls_through() {
    let alias = Alias {
        root: "/repo".to_string(),
        paths: vec![("*".to_string(), vec!["./none/*".to_string(), "./src/*".to_string()])],
    };
    let e = exts(&[""]);
    let f = FsFacts {
        stats: vec![
            ("/repo/none/util".to_string(), FileKind::Missing),
            ("/repo/src/util".to_string(), FileKind::File),
        ],
        packages: vec![],
        modules: vec![],
    };
    assert_eq!(
        resolved(&simple_resolver("/ctx", "util", &e, Some(&alias), &f, 1, &mut AliasCache::new())),
        Some("/repo/src/util".to_string())
    );
}

#[test]
fn empty_entry_point_falls_back_to_standard_resolution() {
    let e = exts(&[""]);
    let mut f = facts(&[("/app/node_modules/lib/gone", FileKind::Missing)]);
    f.packages.push(("lib".to_string(), "/app".to_string(), PackageLookup::Found {
        dir: "/app/node_modules/lib".to_string(),
        entry: Some("gone".to_string()),
    }));
    match simple_resolver("/app", "lib", &e, None, &f, 8, &mut AliasCache::new()) {
        Outcome::NeedModule(r, c) => {
            assert_eq!(r, "lib");
            assert_eq!(c, "/app");
        }
        o => panic!("{:?}", o),
    }
    f.modules.push(("lib".to_string(), "/app".to_string(), Some("/app/node_modules/lib/index.js".to_string())));
    assert_eq!(
        resolved(&simple_resolver("/app", "lib", &e, None, &f, 8, &mut AliasCache::new())),
        Some("/app/node_modules/lib/index.js".to_string())
    );
}
