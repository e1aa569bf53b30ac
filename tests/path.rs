use dpdm::path::join_paths;

#[test]
fn test_basic_path_join() {
    let paths = ["/users", "john", "documents"];
    let full_path = join_paths(&paths);
    assert_eq!(full_path, "/users/john/documents");
}

#[test]
fn test_relative_path() {
    let relative_paths = ["/users/john", "../documents"];
    let relative_path = join_paths(&relative_paths);
    assert_eq!(relative_path, "/users/documents");
}

#[test]
fn test_single_dot_is_ignored() {
    let paths = ["/users/john", ".", "documents"];
    let full_path = join_paths(&paths);
    assert_eq!(full_path, "/users/john/documents");
}

#[test]
fn test_empty_paths() {
    let paths: [&str; 0] = [];
    let full_path = join_paths(&paths);
    assert_eq!(full_path, "");
}

#[test]
fn test_double_dots_resolved() {
    let paths = ["/users/john", "../..", "documents"];
    let full_path = join_paths(&paths);
    assert_eq!(full_path, "/documents");
}

#[test]
fn absolute_part_restarts_from_root() {
    assert_eq!(join_paths(&["/users", "john", "/etc", "config"]), "/etc/config");
}

#[test]
fn trailing_slash_of_last_part_is_kept() {
    assert_eq!(join_paths(&["/users/", "john/"]), "/users/john/");
    assert_eq!(join_paths(&["/", ".."]), "/");
}

#[test]
fn repeated_slashes_collapse() {
    assert_eq!(join_paths(&["a//b", "./c"]), "a/b/c");
    assert_eq!(join_paths(&["../a"]), "a");
}
