use swiftscan::locator::{
    locate_roots, nested_roots, path_in_build_tree, path_last_component, path_parent, plan_root,
    FileEntry,
};

fn entry(name: &str, path: &str) -> FileEntry {
    FileEntry { name: String::from(name), path: String::from(path) }
}

fn strings(xs: &[&str]) -> Vec<String> {
    let mut v: Vec<String> = Vec::new();
    for x in xs {
        v.push(String::from(*x));
    }
    v
}

#[test]
fn direct_marker_prints_root_alone() {
    // Even when the walk would have found nested markers, a sentinel in
    // the starting directory short-circuits everything.
    let entries = vec![
        entry("Package.swift", "top/Package.swift"),
        entry("Package.swift", "top/nested/Package.swift"),
    ];
    let out = locate_roots("top", true, &entries);
    assert_eq!(out, strings(&["top"]));
}

#[test]
fn build_basename_suppresses_root_but_not_nested() {
    let entries = vec![entry("Package.swift", "pkg/Package.swift")];
    let out = locate_roots("work/.build", false, &entries);
    assert_eq!(out, strings(&["pkg"]));
}

#[test]
fn ordinary_root_is_printed_before_nested_roots() {
    let entries = vec![entry("Package.swift", "zz/Package.swift")];
    let out = locate_roots("work", false, &entries);
    assert_eq!(out, strings(&["work", "zz"]));
}

#[test]
fn unnameable_root_is_printed_as_fallback() {
    let out = locate_roots("..", false, &vec![]);
    assert_eq!(out, strings(&[".."]));
    let out2 = locate_roots("", false, &vec![]);
    assert_eq!(out2, strings(&[""]));
}

#[test]
fn build_subtree_markers_are_excluded() {
    let entries = vec![
        entry("Package.swift", "a/.build/checkouts/dep/Package.swift"),
        entry("Package.swift", "a/my.build/Package.swift"),
        entry("Package.swift", "a/keep/Package.swift"),
    ];
    let out = nested_roots(&entries);
    assert_eq!(out, strings(&["a/keep", "a/my.build"]));
}

#[test]
fn only_sentinel_files_count() {
    let entries = vec![
        entry("Package.swif", "a/Package.swif"),
        entry("package.swift", "b/package.swift"),
        entry("Package.swift.bak", "c/Package.swift.bak"),
        entry("Package.swift", "d/Package.swift"),
    ];
    let out = nested_roots(&entries);
    assert_eq!(out, strings(&["d"]));
}

#[test]
fn nested_roots_are_unique_and_sorted_whatever_the_walk_order() {
    let forward = vec![
        entry("Package.swift", "a/Package.swift"),
        entry("Package.swift", "c/Package.swift"),
        entry("Package.swift", "b/Package.swift"),
        entry("Package.swift", "a/Package.swift"),
    ];
    let mut backward = forward.clone();
    backward.reverse();
    let out1 = nested_roots(&forward);
    let out2 = nested_roots(&backward);
    assert_eq!(out1, strings(&["a", "b", "c"]));
    assert_eq!(out1, out2);
}

#[test]
fn parent_of_walked_paths() {
    assert_eq!(path_parent("a/b/Package.swift"), Some(String::from("a/b")));
    assert_eq!(path_parent("Package.swift"), Some(String::from("")));
    assert_eq!(path_parent("/Package.swift"), Some(String::from("/")));
    assert_eq!(path_parent(""), None);
}

#[test]
fn build_tree_test_is_a_raw_substring_match() {
    assert!(path_in_build_tree("a/.build/Package.swift"));
    assert!(path_in_build_tree("/.build/"));
    assert!(!path_in_build_tree("a/my.build/Package.swift"));
    assert!(!path_in_build_tree(".build/Package.swift"));
    assert!(!path_in_build_tree("a/.build"));
    assert!(!path_in_build_tree(""));
}

#[test]
fn last_component_skips_dots_and_trailing_separators() {
    assert_eq!(path_last_component("a/.build"), Some(String::from(".build")));
    assert_eq!(path_last_component("a/.build/"), Some(String::from(".build")));
    assert_eq!(path_last_component("a/.build/."), Some(String::from(".build")));
    assert_eq!(path_last_component("a/.."), None);
    assert_eq!(path_last_component("/"), None);
    assert_eq!(path_last_component(""), None);
    assert_eq!(path_last_component("plain"), Some(String::from("plain")));
}

#[test]
fn plan_decides_printing_and_walking() {
    let p1 = plan_root("any", true);
    assert!(p1.print_root && !p1.walk);
    let p2 = plan_root("work/.build", false);
    assert!(!p2.print_root && p2.walk);
    let p3 = plan_root("work", false);
    assert!(p3.print_root && p3.walk);
    let p4 = plan_root("..", false);
    assert!(p4.print_root && p4.walk);
}

#[test]
fn roots_directly_under_filesystem_root() {
    let entries = vec![entry("Package.swift", "/Package.swift")];
    let out = nested_roots(&entries);
    assert_eq!(out, strings(&["/"]));
}
