use pixi_task_runner::paths::{
    ancestors, is_glob_pattern, merge_roots, nearest_existing, parent_path, path_is_under,
    pattern_roots,
};

fn strings(v: &[&str]) -> Vec<String> {
    v.iter().map(|s| s.to_string()).collect()
}

#[test]
fn glob_metacharacters_are_detected() {
    assert!(is_glob_pattern("src/**/*.py"));
    assert!(is_glob_pattern("file?.txt"));
    assert!(is_glob_pattern("[ab].c"));
    assert!(!is_glob_pattern("src/main.py"));
    assert!(!is_glob_pattern(""));
}

#[test]
fn parent_drops_last_component() {
    assert_eq!(parent_path("/a/b/c"), Some("/a/b".to_string()));
    assert_eq!(parent_path("/a"), Some("/".to_string()));
    assert_eq!(parent_path("/"), None);
    assert_eq!(parent_path("name"), None);
    assert_eq!(parent_path("dir/name"), Some("dir".to_string()));
}

#[test]
fn ancestors_walk_up_to_root() {
    assert_eq!(ancestors("/w/a/b.txt"), strings(&["/w/a/b.txt", "/w/a", "/w", "/"]));
    assert_eq!(ancestors("x"), strings(&["x"]));
}

#[test]
fn missing_literal_path_falls_back_to_nearest_existing_ancestor() {
    // "/w/gone/file.txt" and "/w/gone" do not exist, "/w" does
    let r = nearest_existing("/w/gone/file.txt", &vec![false, false, true, true]);
    assert_eq!(r, Some("/w".to_string()));
    let roots = pattern_roots("/w/gone/file.txt", vec![], &vec![false, false, true, true], &"/w".to_string());
    assert_eq!(roots, strings(&["/w"]));
}

#[test]
fn existing_literal_path_is_watched_itself() {
    let roots = pattern_roots("/w/a.txt", vec![], &vec![true, true, true], &"/w".to_string());
    assert_eq!(roots, strings(&["/w/a.txt"]));
}

#[test]
fn literal_path_without_existing_ancestor_watches_working_directory() {
    // a missing relative bare name: its last ancestor is the working directory
    let roots = pattern_roots("f.txt", vec![], &vec![false], &"/w".to_string());
    assert_eq!(roots, strings(&["/w"]));
}

#[test]
fn parent_ignores_trailing_and_repeated_separators() {
    assert_eq!(parent_path("/a/b/"), Some("/a".to_string()));
    assert_eq!(parent_path("/a//b"), Some("/a".to_string()));
    assert_eq!(parent_path("//b"), Some("/".to_string()));
    assert_eq!(parent_path("a/"), None);
    assert_eq!(ancestors("/a//b/"), strings(&["/a//b/", "/a", "/"]));
}

#[test]
fn glob_without_matches_falls_back_to_working_directory() {
    // `build/*.o` while no `build` directory exists
    let roots = pattern_roots("build/*.o", vec![], &vec![], &"/project".to_string());
    assert_eq!(roots, strings(&["/project"]));
}

#[test]
fn glob_with_matches_watches_the_matches() {
    let roots = pattern_roots(
        "src/**/*.py",
        strings(&["/p/src/a.py", "/p/src/pkg/b.py"]),
        &vec![],
        &"/p".to_string(),
    );
    assert_eq!(roots, strings(&["/p/src/a.py", "/p/src/pkg/b.py"]));
}

#[test]
fn merged_roots_hold_each_path_once() {
    let merged = merge_roots(vec![
        strings(&["/p/a", "/p/b"]),
        strings(&["/p/b", "/p/c"]),
        strings(&["/p/a"]),
    ]);
    assert_eq!(merged, strings(&["/p/a", "/p/b", "/p/c"]));
}

#[test]
fn merged_roots_do_not_depend_on_pattern_order() {
    let mut one = merge_roots(vec![strings(&["/p/x"]), strings(&["/p/y", "/p/x"])]);
    let mut two = merge_roots(vec![strings(&["/p/y", "/p/x"]), strings(&["/p/x"])]);
    one.sort();
    two.sort();
    assert_eq!(one, two);
}

#[test]
fn under_root_respects_component_boundaries() {
    assert!(path_is_under("/p/src/a.py", "/p/src"));
    assert!(path_is_under("/p/src", "/p/src"));
    assert!(path_is_under("/p/src/a.py", "/"));
    assert!(!path_is_under("/p/srcs/a.py", "/p/src"));
    assert!(!path_is_under("/p", "/p/src"));
}
